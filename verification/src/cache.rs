use vstd::prelude::*;

use crate::automaton::Dfa;
use crate::automaton::Nfa;
use crate::codec::decode_dfa;
use crate::codec::encode_dfa;
use crate::codec::spec_encode;
use crate::determinize::MalformedTransitionError;
use crate::determinize::determinize;

verus! {

/// The FNV-1a offset basis.
pub open spec fn fnv_basis() -> u64 {
    0xcbf29ce484222325u64
}

/// The FNV-1a prime.
pub open spec fn fnv_prime() -> u64 {
    0x100000001b3u64
}

/// One FNV-1a step: fold a byte in, then multiply modulo the word size.
pub open spec fn fnv_step(h: u64, b: u8) -> u64 {
    ((((h ^ (b as u64)) as nat) * (fnv_prime() as nat)) % 0x1_0000_0000_0000_0000) as u64
}

/// The content fingerprint of a byte sequence: FNV-1a over the bytes.
pub open spec fn spec_fingerprint(s: Seq<u8>) -> u64
    decreases s.len(),
{
    if s.len() == 0 {
        fnv_basis()
    } else {
        fnv_step(spec_fingerprint(s.drop_last()), s.last())
    }
}

/// A stable content hash of the grammar source, used to key the cache.
pub fn fingerprint(bytes: &Vec<u8>) -> (r: u64)
    ensures
        r == spec_fingerprint(bytes@),
{
    let mut h: u64 = 0xcbf29ce484222325;
    let mut i: usize = 0;
    proof {
        assert(bytes@.subrange(0, 0) =~= Seq::<u8>::empty());
    }
    while i < bytes.len()
        invariant
            0 <= i <= bytes@.len(),
            h == spec_fingerprint(bytes@.subrange(0, i as int)),
        decreases bytes@.len() - i,
    {
        let x = h ^ (bytes[i] as u64);
        proof {
            assert((x as nat) * (fnv_prime() as nat) < 0x1_0000_0000_0000_0000
                * 0x1_0000_0000_0000_0000) by (nonlinear_arith)
                requires
                    x < 0x1_0000_0000_0000_0000,
            ;
        }
        let wide: u128 = (x as u128) * 0x100000001b3u128;
        let ghost h_old = h;
        h = (wide % 0x1_0000_0000_0000_0000u128) as u64;
        i = i + 1;
        proof {
            assert(wide == (x as nat) * (fnv_prime() as nat));
            assert(h == fnv_step(h_old, bytes@[i - 1]));
            assert(bytes@.subrange(0, i as int).drop_last() =~= bytes@.subrange(0, i - 1));
            assert(bytes@.subrange(0, i as int).last() == bytes@[i - 1]);
        }
    }
    proof {
        assert(bytes@.subrange(0, bytes@.len() as int) =~= bytes@);
    }
    h
}

/// The cached bytes are exactly this automaton stored under this
/// fingerprint.
pub open spec fn cache_hit(cached: Option<&Vec<u8>>, d: Dfa, fp: u64) -> bool {
    match cached {
        Some(b) => b@ == spec_encode(d, fp),
        None => false,
    }
}

/// Some automaton is stored intact in the cached bytes under this
/// fingerprint.
pub open spec fn hit_available(cached: Option<&Vec<u8>>, fp: u64) -> bool {
    match cached {
        Some(b) => exists|d2: Dfa| #[trigger] crate::codec::valid_encoding(b@, d2, fp),
        None => false,
    }
}

/// Attempt to load a previously stored automaton. A hit is returned
/// exactly when the content is the intact serialization of an automaton
/// stored under the same fingerprint; anything else is a miss, and the
/// caller recomputes. A miss is always safe — the cache is a performance
/// optimization, never a correctness dependency.
pub fn cache_lookup(cached: Option<&Vec<u8>>, fp: u64) -> (r: Option<Dfa>)
    ensures
        match r {
            Some(d) => crate::codec::encodable(d) && cache_hit(cached, d, fp),
            None => !hit_available(cached, fp),
        },
{
    match cached {
        None => None,
        Some(bytes) => match decode_dfa(bytes) {
            Ok((d, f)) => if f == fp {
                Some(d)
            } else {
                proof {
                    if exists|d2: Dfa| crate::codec::valid_encoding(bytes@, d2, fp) {
                        let d2 = choose|d2: Dfa| crate::codec::valid_encoding(bytes@, d2, fp);
                        crate::codec::lemma_encode_injective(d2, fp, d, f);
                    }
                }
                None
            },
            Err(_) => {
                proof {
                    if exists|d2: Dfa| crate::codec::valid_encoding(bytes@, d2, fp) {
                        let d2 = choose|d2: Dfa| crate::codec::valid_encoding(bytes@, d2, fp);
                        assert(!crate::codec::valid_encoding(bytes@, d2, fp));
                    }
                }
                None
            },
        },
    }
}

/// The engine's front door: reuse the cached automaton when it is intact
/// and keyed by the same fingerprint, otherwise run the determinization
/// engine and hand back the serialized result to store — unless the
/// fresh result outgrows the serialized form's 32-bit counts, when only
/// the speed benefit is forgone. A failed construction hands back
/// nothing to store.
#[verifier::rlimit(100)]
pub fn build_with_cache(nfa: &Nfa, cached: Option<&Vec<u8>>, fp: u64) -> (r: Result<
    (Dfa, Option<Vec<u8>>),
    MalformedTransitionError,
>)
    requires
        nfa.wf(),
    ensures
        match r {
            Ok((d, w)) => {
                &&& d.wf()
                &&& match w {
                    Some(bytes) => bytes@ == spec_encode(d, fp) && (exists|g: Seq<Seq<usize>>|
                        #[trigger] crate::determinize::engine_post(*nfa, d, g)),
                    None => cache_hit(cached, d, fp) || ((exists|g: Seq<Seq<usize>>|
                        #[trigger] crate::determinize::engine_post(*nfa, d, g))
                        && !crate::codec::encodable(d)),
                }
            },
            Err(e) => {
                &&& e.state < nfa.state_count()
                &&& e.index < nfa.transitions@[e.state as int]@.len()
                &&& forall|k: int| !nfa.trans_at(e.state as int, e.index as int).label.has(k)
                &&& !hit_available(cached, fp)
            },
        },
{
    match cache_lookup(cached, fp) {
        Some(d) => Ok((d, None)),
        None => {
            let (d, founding) = match determinize(nfa) {
                Ok(dg) => dg,
                Err(e) => {
                    return Err(e);
                },
            };
            proof {
                assert(crate::determinize::engine_post(*nfa, d, founding@));
            }
            let mut fits = d.states.len() <= 0xFFFF_FFFFusize;
            let mut i: usize = 0;
            while i < d.states.len()
                invariant
                    d.wf(),
                    0 <= i <= d.states@.len(),
                    fits <==> (d.states@.len() <= 0xFFFF_FFFF && forall|x: int|
                        0 <= x < i ==> (#[trigger] d.states@[x]).transitions.entries@.len()
                            <= 0xFFFF_FFFF),
                decreases d.states@.len() - i,
            {
                if d.states[i].transitions.len() > 0xFFFF_FFFFusize {
                    fits = false;
                }
                i = i + 1;
            }
            if fits {
                let bytes = encode_dfa(&d, fp);
                Ok((d, Some(bytes)))
            } else {
                proof {
                    assert(!crate::codec::encodable(d));
                }
                Ok((d, None))
            }
        },
    }
}

} // verus!
