use vstd::prelude::*;

verus! {

/// The two alphabets tokens can belong to: raw bytes, or Unicode scalar
/// values.
#[derive(Clone, Copy, Debug, PartialEq, Eq, Structural)]
pub enum Alphabet {
    Byte,
    Scalar,
}

/// A raw numeric value is a valid token of an alphabet when it lies in
/// the alphabet's domain: bytes are 0 to 255; scalar values reach
/// 0x10FFFF but exclude the surrogate block.
pub open spec fn token_valid(a: Alphabet, v: u32) -> bool {
    match a {
        Alphabet::Byte => v <= 255,
        Alphabet::Scalar => v <= 0x10FFFF && !(0xD800 <= v <= 0xDFFF),
    }
}

/// A raw numeric or character value that cannot be represented in the
/// target alphabet.
#[derive(Clone, Copy, Debug, PartialEq, Eq, Structural)]
pub struct AlphabetConversionError {
    pub alphabet: Alphabet,
    pub value: u32,
}

/// Convert a raw byte: always defined for the byte alphabet, defined
/// only for ASCII bytes for the scalar alphabet.
pub fn token_from_u8(a: Alphabet, b: u8) -> (r: Result<u32, AlphabetConversionError>)
    ensures
        match r {
            Ok(t) => t == b && token_valid(a, t) && (a is Scalar ==> b <= 127),
            Err(e) => a is Scalar && b > 127 && e == (AlphabetConversionError {
                alphabet: a,
                value: b as u32,
            }),
        },
{
    match a {
        Alphabet::Byte => Ok(b as u32),
        Alphabet::Scalar => {
            if b <= 127 {
                Ok(b as u32)
            } else {
                Err(AlphabetConversionError { alphabet: a, value: b as u32 })
            }
        },
    }
}

/// Convert a character: the identity for the scalar alphabet; defined
/// only for ASCII characters for the byte alphabet.
pub fn token_from_char(a: Alphabet, c: char) -> (r: Result<u32, AlphabetConversionError>)
    ensures
        match r {
            Ok(t) => t == c as u32 && token_valid(a, t) && (a is Byte ==> c as u32 <= 127),
            Err(e) => a is Byte && c as u32 > 127 && e == (AlphabetConversionError {
                alphabet: a,
                value: c as u32,
            }),
        },
{
    let v = c as u32;
    match a {
        Alphabet::Byte => {
            if v <= 127 {
                Ok(v)
            } else {
                Err(AlphabetConversionError { alphabet: a, value: v })
            }
        },
        Alphabet::Scalar => Ok(v),
    }
}

/// Convert an arbitrary unsigned 32-bit value; fails exactly on values
/// outside the alphabet's domain.
pub fn token_from_u32(a: Alphabet, v: u32) -> (r: Result<u32, AlphabetConversionError>)
    ensures
        match r {
            Ok(t) => t == v && token_valid(a, v),
            Err(e) => !token_valid(a, v) && e == (AlphabetConversionError {
                alphabet: a,
                value: v,
            }),
        },
{
    let ok = match a {
        Alphabet::Byte => v <= 255,
        Alphabet::Scalar => v <= 0x10FFFF && !(0xD800 <= v && v <= 0xDFFF),
    };
    if ok {
        Ok(v)
    } else {
        Err(AlphabetConversionError { alphabet: a, value: v })
    }
}

/// The token back in raw numeric form: tokens are carried as their raw
/// value, so this is the identity.
pub fn token_to_u32(t: u32) -> (r: u32)
    ensures
        r == t,
{
    t
}

/// How a token is rendered for diagnostics, on views: printable ASCII
/// stands for itself, everything else as a `U+` escape of its hex value.
pub open spec fn spec_render_token(t: u32) -> Seq<char> {
    if 0x20 <= t <= 0x7E {
        seq![((t as u8) as char)]
    } else {
        seq!['U', '+'] + spec_hex_digits(t as nat)
    }
}

/// Big-endian hexadecimal digits of a value, without leading zeros
/// (a single zero digit for zero).
pub open spec fn spec_hex_digits(v: nat) -> Seq<char>
    decreases v,
{
    if v < 16 {
        seq![spec_hex_digit(v)]
    } else {
        spec_hex_digits(v / 16).push(spec_hex_digit(v % 16))
    }
}

/// One hexadecimal digit, upper case.
pub open spec fn spec_hex_digit(v: nat) -> char {
    if v < 10 {
        (48 + v) as char
    } else if v < 16 {
        (55 + v) as char
    } else {
        '0'
    }
}

fn hex_digit(v: u32) -> (r: char)
    requires
        v < 16,
    ensures
        r == spec_hex_digit(v as nat),
{
    if v < 10 {
        (48 + v as u8) as char
    } else {
        (55 + v as u8) as char
    }
}

fn hex_digits(v: u32) -> (r: Vec<char>)
    ensures
        r@ == spec_hex_digits(v as nat),
    decreases v,
{
    if v < 16 {
        let d = hex_digit(v);
        let mut out: Vec<char> = Vec::new();
        out.push(d);
        proof {
            assert(out@ =~= seq![spec_hex_digit(v as nat)]);
        }
        out
    } else {
        let mut out = hex_digits(v / 16);
        let d = hex_digit(v % 16);
        out.push(d);
        proof {
            assert(out@ =~= spec_hex_digits((v / 16) as nat).push(
                spec_hex_digit((v % 16) as nat),
            ));
        }
        out
    }
}

/// Render one token for diagnostics, escaping everything that is not
/// printable ASCII.
pub fn render_token(t: u32) -> (r: Vec<char>)
    ensures
        r@ == spec_render_token(t),
{
    if 0x20 <= t && t <= 0x7E {
        let mut out: Vec<char> = Vec::new();
        out.push((t as u8) as char);
        proof {
            assert(out@ =~= seq![((t as u8) as char)]);
        }
        out
    } else {
        let mut out: Vec<char> = Vec::new();
        out.push('U');
        out.push('+');
        let ds = hex_digits(t);
        let mut i: usize = 0;
        while i < ds.len()
            invariant
                0 <= i <= ds@.len(),
                out@ =~= seq!['U', '+'] + ds@.subrange(0, i as int),
            decreases ds@.len() - i,
        {
            out.push(ds[i]);
            i = i + 1;
        }
        proof {
            assert(ds@.subrange(0, ds@.len() as int) =~= ds@);
            assert(out@ =~= spec_render_token(t));
        }
        out
    }
}

} // verus!
