use regular_grammar::Alphabet;
use regular_grammar::AlphabetConversionError;
use regular_grammar::TokenRange;
use regular_grammar::TokenSet;
use regular_grammar::case_sibling;
use regular_grammar::token_from_char;
use regular_grammar::token_from_u32;
use regular_grammar::token_from_u8;
use regular_grammar::token_to_u32;
use regular_grammar::render_token;

fn set_of(ranges: &[(u32, u32)]) -> TokenSet {
    let mut s = TokenSet::empty();
    for &(lo, hi) in ranges {
        s.insert_range(TokenRange::new(lo, hi));
    }
    s
}

fn ranges_of(s: &TokenSet) -> Vec<(u32, u32)> {
    let mut out = Vec::new();
    for i in 0..s.num_ranges() {
        let r = s.range_at(i);
        out.push((r.lo, r.hi));
    }
    out
}

#[test]
fn byte_conversions_round_trip() {
    for v in [0u32, 1, 65, 127, 255] {
        let t = token_from_u32(Alphabet::Byte, v).unwrap();
        assert_eq!(token_to_u32(t), v);
    }
    assert_eq!(
        token_from_u32(Alphabet::Byte, 256),
        Err(AlphabetConversionError { alphabet: Alphabet::Byte, value: 256 })
    );
}

#[test]
fn scalar_conversions_round_trip() {
    for v in [0u32, 0x7F, 0xD7FF, 0xE000, 0x10FFFF] {
        let t = token_from_u32(Alphabet::Scalar, v).unwrap();
        assert_eq!(token_to_u32(t), v);
    }
    // surrogates and out-of-range values are rejected
    assert!(token_from_u32(Alphabet::Scalar, 0xD800).is_err());
    assert!(token_from_u32(Alphabet::Scalar, 0xDFFF).is_err());
    assert!(token_from_u32(Alphabet::Scalar, 0x110000).is_err());
}

#[test]
fn char_conversions() {
    assert_eq!(token_from_char(Alphabet::Byte, 'A'), Ok(65));
    assert!(token_from_char(Alphabet::Byte, 'é').is_err());
    assert_eq!(token_from_char(Alphabet::Scalar, 'é'), Ok(0xE9));
    assert_eq!(token_from_u8(Alphabet::Byte, 0xFF), Ok(255));
    assert_eq!(token_from_u8(Alphabet::Scalar, 0x41), Ok(65));
    assert_eq!(
        token_from_u8(Alphabet::Scalar, 0xFF),
        Err(AlphabetConversionError { alphabet: Alphabet::Scalar, value: 255 })
    );
}

#[test]
fn token_rendering_escapes() {
    assert_eq!(render_token(65), vec!['A']);
    assert_eq!(render_token(0x20), vec![' ']);
    assert_eq!(render_token(10), vec!['U', '+', 'A']);
    assert_eq!(render_token(0x1F600), vec!['U', '+', '1', 'F', '6', '0', '0']);
}

#[test]
fn singleton_case_folding() {
    assert_eq!(case_sibling(65), 97);
    assert_eq!(case_sibling(122), 90);
    assert_eq!(case_sibling(53), 53);
    let s = TokenSet::singleton(65, false);
    assert_eq!(ranges_of(&s), vec![(65, 65), (97, 97)]);
    let cs = TokenSet::singleton(65, true);
    assert_eq!(ranges_of(&cs), vec![(65, 65)]);
    // a token with no case variant coalesces to a single range
    let d = TokenSet::singleton(53, false);
    assert_eq!(ranges_of(&d), vec![(53, 53)]);
}

#[test]
fn set_normalization_coalesces() {
    let mut s = set_of(&[(10, 20), (30, 40)]);
    assert_eq!(s.len(), 22);
    // adjacent and overlapping ranges merge into one
    s.insert_range(TokenRange::new(21, 29));
    assert_eq!(ranges_of(&s), vec![(10, 40)]);
    let e = TokenSet::empty();
    assert!(e.is_empty());
    assert_eq!(e.peek(), None);
    assert_eq!(s.peek(), Some(10));
    assert!(!s.is_empty());
}

#[test]
fn set_merge_commutes_and_is_idempotent() {
    let s = set_of(&[(1, 5), (10, 15)]);
    let t = set_of(&[(4, 12), (20, 25)]);
    let mut st = set_of(&[(1, 5), (10, 15)]);
    st.merge_with(&t);
    let mut ts = t.duplicate();
    ts.merge_with(&s);
    assert_eq!(ranges_of(&st), ranges_of(&ts));
    assert_eq!(ranges_of(&st), vec![(1, 15), (20, 25)]);
    let before = ranges_of(&st);
    st.merge_with(&t);
    assert_eq!(ranges_of(&st), before);
}

#[test]
fn set_intersection_agrees_with_union() {
    let s = set_of(&[(1, 5)]);
    let t = set_of(&[(20, 25)]);
    let mut st = set_of(&[(1, 5)]);
    st.merge_with(&t);
    let probe = TokenRange::new(3, 22);
    assert_eq!(
        st.intersects_range(probe),
        s.intersects_range(probe) || t.intersects_range(probe)
    );
    let low = TokenRange::new(6, 19);
    assert!(!st.intersects_range(low));
    assert!(st.intersects_range(TokenRange::new(25, 30)));
}

#[test]
fn full_alphabet_range() {
    let s = set_of(&[(0, 0x10FFFF)]);
    assert_eq!(s.len(), 0x110000);
    assert!(s.contains_token(0));
    assert!(s.contains_token(0x10FFFF));
    assert!(!s.contains_token(0x110000));
}
