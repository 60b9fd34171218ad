mod automaton;
mod cache;
mod codec;
mod determinize;
mod laws;
mod map;
mod set;
mod subset;
mod token;

pub use cache::build_with_cache;
pub use cache::cache_hit;
pub use cache::cache_lookup;
pub use cache::fingerprint;
pub use cache::hit_available;
pub use cache::spec_fingerprint;
pub use codec::CacheFormatError;
pub use codec::encodable;
pub use codec::valid_encoding;
pub use determinize::engine_post;
pub use determinize::subset_moves;
pub use laws::lemma_language_preserved;
pub use laws::lemma_merge_commutative;
pub use laws::lemma_merge_idempotent;
pub use laws::lemma_merge_intersects;
pub use codec::decode_dfa;
pub use codec::encode_dfa;
pub use codec::lemma_encode_injective;
pub use codec::spec_encode;
pub use determinize::AddTarget;
pub use determinize::MalformedTransitionError;
pub use determinize::determinize;
pub use determinize::spec_best_label;
pub use automaton::Dfa;
pub use automaton::DfaState;
pub use automaton::Nfa;
pub use automaton::NfaTransition;
pub use map::MapValue;
pub use map::OverwriteWith;
pub use map::RangeTransform;
pub use map::TokenMap;
pub use set::TokenSet;
pub use subset::IdSet;
pub use token::Alphabet;
pub use token::AlphabetConversionError;
pub use token::token_from_char;
pub use token::token_from_u32;
pub use token::token_from_u8;
pub use token::token_to_u32;
pub use token::token_valid;
pub use token::render_token;
pub use set::case_sibling;
pub use set::spec_case_sibling;
pub use set::card_of;

use vstd::prelude::*;

verus! {

/// An inclusive interval of token values: the atomic unit of all
/// set and map operations over an alphabet.
#[derive(Clone, Copy, Debug, PartialEq, Eq, Structural)]
pub struct TokenRange {
    pub lo: u32,
    pub hi: u32,
}

impl TokenRange {
    /// A range is well-formed when its bounds are ordered.
    pub open spec fn wf(self) -> bool {
        self.lo <= self.hi
    }

    /// The tokens a range contains.
    pub open spec fn has(self, k: int) -> bool {
        self.lo <= k <= self.hi
    }

    pub fn new(a: u32, b: u32) -> (r: Self)
        requires
            a <= b,
        ensures
            r.wf(),
            forall|k: int| r.has(k) <==> a <= k <= b,
    {
        TokenRange { lo: a, hi: b }
    }

    /// The lowest token of the range.
    pub fn peek(&self) -> (r: u32)
        ensures
            r == self.lo,
    {
        self.lo
    }
}

} // verus!
