use vstd::prelude::*;

use crate::TokenRange;

verus! {

/// Swap the case of an ASCII letter; any other token folds to itself.
pub open spec fn spec_case_sibling(t: u32) -> u32 {
    if 65 <= t <= 90 {
        (t + 32) as u32
    } else if 97 <= t <= 122 {
        (t - 32) as u32
    } else {
        t
    }
}

/// The other casing of an ASCII letter, used when a singleton set is
/// built case-insensitively.
pub fn case_sibling(t: u32) -> (r: u32)
    ensures
        r == spec_case_sibling(t),
{
    if 65 <= t && t <= 90 {
        t + 32
    } else if 97 <= t && t <= 122 {
        t - 32
    } else {
        t
    }
}

/// A normalized union of disjoint token ranges: sorted by lower bound,
/// never overlapping, and never adjacent (adjacency is coalesced away).
#[derive(Debug)]
pub struct TokenSet {
    pub ranges: Vec<TokenRange>,
}

/// Total number of tokens in a sequence of ranges.
pub open spec fn card_of(s: Seq<TokenRange>) -> int
    decreases s.len(),
{
    if s.len() == 0 {
        0
    } else {
        card_of(s.drop_last()) + (s.last().hi - s.last().lo + 1)
    }
}

/// Normalization invariant over a sequence of ranges: every range is
/// well-formed, and each range ends at least two tokens before the next
/// one begins.
pub open spec fn ranges_wf(s: Seq<TokenRange>) -> bool {
    &&& forall|i: int| 0 <= i < s.len() ==> (#[trigger] s[i]).wf()
    &&& forall|i: int, j: int|
        0 <= i < j < s.len() ==> (#[trigger] s[i]).hi + 1 < (#[trigger] s[j]).lo
}

/// Membership of a token in a sequence of ranges.
pub open spec fn ranges_have(s: Seq<TokenRange>, k: int) -> bool {
    exists|i: int| 0 <= i < s.len() && (#[trigger] s[i]).has(k)
}

/// Membership of a token in the inclusive block `[lo, hi]`.
pub open spec fn block_has(lo: int, hi: int, k: int) -> bool {
    lo <= k <= hi
}

pub proof fn lemma_have_push_pub(s: Seq<TokenRange>, r: TokenRange, k: int)
    ensures
        ranges_have(s.push(r), k) <==> (ranges_have(s, k) || r.has(k)),
{
    if ranges_have(s, k) {
        let i = choose|i: int| 0 <= i < s.len() && (#[trigger] s[i]).has(k);
        assert(s.push(r)[i].has(k));
    }
    if r.has(k) {
        assert(s.push(r)[s.len() as int].has(k));
    }
    if ranges_have(s.push(r), k) {
        let i = choose|i: int| 0 <= i < s.push(r).len() && (#[trigger] s.push(r)[i]).has(k);
        if i < s.len() {
            assert(s[i].has(k));
        }
    }
}

impl TokenSet {
    /// Normalization invariant: see `ranges_wf`.
    pub open spec fn wf(self) -> bool {
        ranges_wf(self.ranges@)
    }

    /// The tokens the set contains.
    pub open spec fn has(self, k: int) -> bool {
        ranges_have(self.ranges@, k)
    }

    /// The set with no tokens.
    pub fn empty() -> (r: Self)
        ensures
            r.wf(),
            forall|k: int| !r.has(k),
            r.ranges@.len() == 0,
    {
        TokenSet { ranges: Vec::new() }
    }

    /// A set holding one token; when built case-insensitively it also
    /// holds the token's other ASCII casing (which may be the token
    /// itself, and is then coalesced away).
    pub fn singleton(token: u32, case_sensitive: bool) -> (r: Self)
        ensures
            r.wf(),
            forall|k: int|
                #![trigger r.has(k)]
                r.has(k) <==> (k == token || (!case_sensitive && k == spec_case_sibling(
                    token,
                ))),
    {
        let mut s = TokenSet::empty();
        let ghost s0 = s;
        s.insert_range(TokenRange { lo: token, hi: token });
        if !case_sensitive {
            let sib = case_sibling(token);
            let ghost s1 = s;
            s.insert_range(TokenRange { lo: sib, hi: sib });
            proof {
                assert(forall|k: int| s.has(k) <==> (s1.has(k) || k == sib));
            }
        }
        s
    }

    pub fn is_empty(&self) -> (r: bool)
        requires
            self.wf(),
        ensures
            r <==> forall|k: int| !self.has(k),
    {
        let r = self.ranges.len() == 0;
        proof {
            if r {
                assert(self.ranges@.len() == 0);
                assert forall|k: int| !self.has(k) by {
                    assert(!ranges_have(self.ranges@, k));
                }
            } else {
                assert(self.ranges@[0].has(self.ranges@[0].lo as int));
                assert(ranges_have(self.ranges@, self.ranges@[0].lo as int));
                assert(self.has(self.ranges@[0].lo as int));
            }
        }
        r
    }

    /// Cardinality: how many tokens the set holds.
    pub fn len(&self) -> (r: u64)
        requires
            self.wf(),
        ensures
            r == card_of(self.ranges@),
    {
        proof {
            lemma_card_bound(self.ranges@);
        }
        let mut total: u64 = 0;
        let mut i: usize = 0;
        while i < self.ranges.len()
            invariant
                self.wf(),
                0 <= i <= self.ranges.len(),
                total == card_of(self.ranges@.subrange(0, i as int)),
                total <= 0x1_0000_0000u64,
                card_of(self.ranges@) <= 0x1_0000_0000,
            decreases self.ranges.len() - i,
        {
            proof {
                lemma_card_prefix_bound(self.ranges@, i as int);
                assert(self.ranges@.subrange(0, i as int + 1).drop_last() =~= self.ranges@
                    .subrange(0, i as int));
            }
            let r = self.ranges[i];
            total = total + (r.hi - r.lo) as u64 + 1;
            i = i + 1;
        }
        proof {
            assert(self.ranges@.subrange(0, self.ranges@.len() as int) =~= self.ranges@);
        }
        total
    }

    /// The lowest token of the set, if the set is not empty.
    pub fn peek(&self) -> (r: Option<u32>)
        requires
            self.wf(),
        ensures
            match r {
                Some(t) => self.has(t as int) && forall|k: int| k < t ==> !self.has(k),
                None => forall|k: int| !self.has(k),
            },
    {
        if self.ranges.len() == 0 {
            None
        } else {
            let t = self.ranges[0].lo;
            proof {
                assert(self.ranges@[0].has(t as int));
                assert forall|k: int| k < t implies !self.has(k) by {
                    assert forall|i: int| 0 <= i < self.ranges@.len() implies !(
                    #[trigger] self.ranges@[i]).has(k) by {
                        if i > 0 {
                            assert(self.ranges@[0].hi + 1 < self.ranges@[i].lo);
                        }
                    }
                }
            }
            Some(t)
        }
    }

    /// Does the set share at least one token with the given range?
    pub fn intersects_range(&self, rng: TokenRange) -> (r: bool)
        requires
            self.wf(),
            rng.wf(),
        ensures
            r <==> exists|k: int| self.has(k) && rng.has(k),
    {
        let mut i: usize = 0;
        while i < self.ranges.len()
            invariant
                self.wf(),
                rng.wf(),
                0 <= i <= self.ranges.len(),
                forall|k: int|
                    rng.has(k) ==> forall|j: int|
                        0 <= j < i ==> !(#[trigger] self.ranges@[j]).has(k),
            decreases self.ranges.len() - i,
        {
            let r = self.ranges[i];
            if r.lo <= rng.hi && rng.lo <= r.hi {
                let w: u32 = if r.lo <= rng.lo {
                    rng.lo
                } else {
                    r.lo
                };
                proof {
                    assert(self.ranges@[i as int].has(w as int) && rng.has(w as int));
                }
                return true;
            }
            i = i + 1;
        }
        false
    }

    /// Insert one range, re-normalizing: overlapping or adjacent stored
    /// ranges are coalesced with the new one.
    pub fn insert_range(&mut self, rng: TokenRange)
        requires
            old(self).wf(),
            rng.wf(),
        ensures
            final(self).wf(),
            forall|k: int|
                #![trigger final(self).has(k)]
                #![trigger old(self).has(k)]
                final(self).has(k) <==> (old(self).has(k) || rng.has(k)),
    {
        let ghost orig = self.ranges@;
        let mut out: Vec<TokenRange> = Vec::new();
        let n = self.ranges.len();
        let mut i: usize = 0;
        // ranges that end with a gap before the new one: kept as they are
        while i < n && self.ranges[i].hi < rng.lo && rng.lo - self.ranges[i].hi >= 2
            invariant
                self.wf(),
                rng.wf(),
                n == self.ranges.len(),
                0 <= i <= n,
                out@ =~= self.ranges@.subrange(0, i as int),
                forall|j: int| 0 <= j < i ==> (#[trigger] self.ranges@[j]).hi + 1 < rng.lo,
            decreases n - i,
        {
            let r = self.ranges[i];
            out.push(r);
            i = i + 1;
        }
        let ghost i0 = i as int;
        // grow the new range by swallowing every stored range that
        // overlaps or touches it
        let mut lo: u32 = rng.lo;
        let mut hi: u32 = rng.hi;
        while i < n && (self.ranges[i].lo <= hi || self.ranges[i].lo - hi == 1)
            invariant
                self.wf(),
                rng.wf(),
                n == self.ranges.len(),
                0 <= i0 <= i <= n,
                lo <= hi,
                lo <= rng.lo,
                hi >= rng.hi,
                lo == rng.lo || (i > i0 && i0 < n && lo == self.ranges@[i0].lo),
                i < n ==> self.ranges@[i as int].hi + 1 >= lo,
                forall|k: int|
                    #[trigger] block_has(lo as int, hi as int, k) <==> (rng.has(k) || ranges_have(
                        self.ranges@.subrange(i0, i as int),
                        k,
                    )),
            decreases n - i,
        {
            let r = self.ranges[i];
            let ghost old_lo = lo as int;
            let ghost old_hi = hi as int;
            proof {
                // every range already swallowed lies inside the block,
                // so a later range never lowers the block's lower bound
                if i > i0 {
                    let p = self.ranges@[i - 1];
                    let sub = self.ranges@.subrange(i0, i as int);
                    assert(sub[i - 1 - i0].has(p.lo as int));
                    assert(ranges_have(sub, p.lo as int));
                    assert(block_has(lo as int, hi as int, p.lo as int));
                    assert(sub[i - 1 - i0].has(p.hi as int));
                    assert(ranges_have(sub, p.hi as int));
                    assert(block_has(lo as int, hi as int, p.hi as int));
                    assert(p.hi + 1 < r.lo);
                    assert(r.lo > lo);
                }
            }
            if r.lo < lo {
                lo = r.lo;
            }
            if r.hi > hi {
                hi = r.hi;
            }
            i = i + 1;
            proof {
                let prev = self.ranges@.subrange(i0, i - 1);
                let cur = self.ranges@.subrange(i0, i as int);
                assert(cur =~= prev.push(r));
                assert forall|k: int| #[trigger] block_has(lo as int, hi as int, k) <==> (rng.has(
                    k,
                ) || ranges_have(cur, k)) by {
                    lemma_have_push_pub(prev, r, k);
                    assert(block_has(lo as int, hi as int, k) <==> (block_has(old_lo, old_hi, k)
                        || r.has(k)));
                }
                if i < n {
                    assert(self.ranges@[i - 1].hi + 1 < self.ranges@[i as int].lo);
                }
            }
        }
        let ghost i1 = i as int;
        let merged = TokenRange { lo, hi };
        out.push(merged);
        proof {
            // gap between the kept prefix and the merged block
            assert forall|j: int| 0 <= j < i0 implies (#[trigger] self.ranges@[j]).hi + 1
                < merged.lo by {
                if lo == rng.lo {
                    assert(self.ranges@[j].hi + 1 < rng.lo);
                } else {
                    assert(self.ranges@[j].hi + 1 < self.ranges@[i0].lo);
                }
            }
            // gap between the merged block and the kept suffix
            assert forall|j: int| i1 <= j < n implies merged.hi + 1 < (
            #[trigger] self.ranges@[j]).lo by {
                if j > i1 {
                    assert(self.ranges@[i1].hi + 1 < self.ranges@[j].lo);
                    assert(self.ranges@[i1].wf());
                }
            }
        }
        // ranges that begin with a gap after the new one: kept as they are
        while i < n
            invariant
                self.wf(),
                n == self.ranges.len(),
                0 <= i0 <= i1 <= i <= n,
                out@ =~= self.ranges@.subrange(0, i0).push(merged) + self.ranges@.subrange(
                    i1,
                    i as int,
                ),
            decreases n - i,
        {
            let r = self.ranges[i];
            out.push(r);
            i = i + 1;
            proof {
                assert(self.ranges@.subrange(i1, i as int) =~= self.ranges@.subrange(
                    i1,
                    i - 1,
                ).push(r));
            }
        }
        proof {
            assert(out@ =~= orig.subrange(0, i0).push(merged) + orig.subrange(i1, n as int));
        }
        self.ranges = out;
        proof {
            assert forall|k: int| final(self).has(k) <==> (ranges_have(orig, k) || rng.has(
                k,
            )) by {
                assert(block_has(merged.lo as int, merged.hi as int, k) <==> (rng.has(k)
                    || ranges_have(orig.subrange(i0, i1), k)));
                lemma_insert_coverage(orig, self.ranges@, merged, i0, i1, rng, k);
            }
        }
    }

    /// Union another set into this one, re-normalizing.
    pub fn merge_with(&mut self, other: &TokenSet)
        requires
            old(self).wf(),
            other.wf(),
        ensures
            final(self).wf(),
            forall|k: int|
                #![trigger final(self).has(k)]
                #![trigger old(self).has(k)]
                final(self).has(k) <==> (old(self).has(k) || other.has(k)),
    {
        let mut i: usize = 0;
        while i < other.ranges.len()
            invariant
                self.wf(),
                other.wf(),
                0 <= i <= other.ranges.len(),
                forall|k: int|
                    self.has(k) <==> (old(self).has(k) || ranges_have(
                        other.ranges@.subrange(0, i as int),
                        k,
                    )),
            decreases other.ranges.len() - i,
        {
            let r = other.ranges[i];
            let ghost prev = *self;
            self.insert_range(r);
            i = i + 1;
            proof {
                assert(other.ranges@.subrange(0, i as int) =~= other.ranges@.subrange(
                    0,
                    i - 1,
                ).push(r));
                assert forall|k: int| self.has(k) <==> (old(self).has(k) || ranges_have(
                    other.ranges@.subrange(0, i as int),
                    k,
                )) by {
                    lemma_have_push_pub(other.ranges@.subrange(0, i - 1), r, k);
                }
            }
        }
        proof {
            assert(other.ranges@.subrange(0, other.ranges@.len() as int) =~= other.ranges@);
        }
    }

    /// Does the stored sequence of ranges satisfy the normalization
    /// invariant? Sets built through this type's own operations always
    /// do; a caller assembling one by hand can check.
    pub fn is_normalized(&self) -> (r: bool)
        ensures
            r == self.wf(),
    {
        let n = self.ranges.len();
        let mut i: usize = 0;
        while i < n
            invariant
                n == self.ranges@.len(),
                0 <= i <= n,
                forall|j: int| 0 <= j < i ==> (#[trigger] self.ranges@[j]).wf(),
                forall|x: int, y: int|
                    0 <= x < y < i ==> (#[trigger] self.ranges@[x]).hi + 1 < (
                    #[trigger] self.ranges@[y]).lo,
            decreases n - i,
        {
            let r = self.ranges[i];
            if r.lo > r.hi {
                return false;
            }
            if i > 0 {
                let p = self.ranges[i - 1];
                if !(p.hi < r.lo && r.lo - p.hi >= 2) {
                    return false;
                }
            }
            i = i + 1;
            proof {
                assert forall|x: int, y: int|
                    0 <= x < y < i implies (#[trigger] self.ranges@[x]).hi + 1 < (
                #[trigger] self.ranges@[y]).lo by {
                    if y == i - 1 && x < y - 1 {
                        assert(self.ranges@[x].hi + 1 < self.ranges@[y - 1].lo);
                        assert(self.ranges@[y - 1].wf());
                    }
                }
            }
        }
        true
    }

    /// Does the set contain this one token?
    pub fn contains_token(&self, t: u32) -> (r: bool)
        requires
            self.wf(),
        ensures
            r == self.has(t as int),
    {
        let mut i: usize = 0;
        while i < self.ranges.len()
            invariant
                self.wf(),
                0 <= i <= self.ranges@.len(),
                forall|j: int| 0 <= j < i ==> !(#[trigger] self.ranges@[j]).has(t as int),
            decreases self.ranges@.len() - i,
        {
            let r = self.ranges[i];
            if r.lo <= t && t <= r.hi {
                proof {
                    assert(self.ranges@[i as int].has(t as int));
                }
                return true;
            }
            i = i + 1;
        }
        proof {
            assert(!ranges_have(self.ranges@, t as int));
        }
        false
    }

    /// How many disjoint ranges the set stores.
    pub fn num_ranges(&self) -> (r: usize)
        ensures
            r == self.ranges@.len(),
    {
        self.ranges.len()
    }

    /// The `i`-th stored range, in increasing order.
    pub fn range_at(&self, i: usize) -> (r: TokenRange)
        requires
            i < self.ranges@.len(),
        ensures
            r == self.ranges@[i as int],
    {
        self.ranges[i]
    }

    /// An exact copy of the set.
    pub fn duplicate(&self) -> (r: Self)
        ensures
            r.ranges@ == self.ranges@,
    {
        let mut v: Vec<TokenRange> = Vec::new();
        let mut i: usize = 0;
        while i < self.ranges.len()
            invariant
                0 <= i <= self.ranges.len(),
                v@ =~= self.ranges@.subrange(0, i as int),
            decreases self.ranges.len() - i,
        {
            v.push(self.ranges[i]);
            i = i + 1;
        }
        proof {
            assert(v@ =~= self.ranges@);
        }
        TokenSet { ranges: v }
    }
}

/// Tokens covered by the result of an insertion are exactly those of the
/// original set plus those of the inserted range.
proof fn lemma_insert_coverage(
    orig: Seq<TokenRange>,
    new: Seq<TokenRange>,
    merged: TokenRange,
    i0: int,
    i1: int,
    rng: TokenRange,
    k: int,
)
    requires
        0 <= i0 <= i1 <= orig.len(),
        new =~= orig.subrange(0, i0).push(merged) + orig.subrange(i1, orig.len() as int),
        block_has(merged.lo as int, merged.hi as int, k) <==> (rng.has(k) || ranges_have(
            orig.subrange(i0, i1),
            k,
        )),
    ensures
        ranges_have(new, k) <==> (ranges_have(orig, k) || rng.has(k)),
{
    let mid = orig.subrange(i0, i1);
    if ranges_have(new, k) {
        let i = choose|i: int| 0 <= i < new.len() && (#[trigger] new[i]).has(k);
        if i < i0 {
            assert(orig[i].has(k));
        } else if i == i0 {
            assert(block_has(merged.lo as int, merged.hi as int, k));
            if !rng.has(k) {
                let j = choose|j: int| 0 <= j < mid.len() && (#[trigger] mid[j]).has(k);
                assert(orig[i0 + j].has(k));
            }
        } else {
            assert(orig[i1 + (i - i0 - 1)].has(k));
        }
    }
    if ranges_have(orig, k) {
        let i = choose|i: int| 0 <= i < orig.len() && (#[trigger] orig[i]).has(k);
        if i < i0 {
            assert(new[i].has(k));
        } else if i < i1 {
            assert(mid[i - i0].has(k));
            assert(block_has(merged.lo as int, merged.hi as int, k));
            assert(new[i0].has(k));
        } else {
            assert(new[i0 + 1 + (i - i1)].has(k));
        }
    }
    if rng.has(k) {
        assert(block_has(merged.lo as int, merged.hi as int, k));
        assert(new[i0].has(k));
    }
}

/// A normalized sequence of ranges holds no more tokens than the span
/// from its first lower bound to its last upper bound.
proof fn lemma_card_bound(s: Seq<TokenRange>)
    requires
        ranges_wf(s),
    ensures
        s.len() == 0 ==> card_of(s) == 0,
        s.len() > 0 ==> 0 <= card_of(s) <= s.last().hi - s[0].lo + 1,
        card_of(s) <= 0x1_0000_0000,
    decreases s.len(),
{
    if s.len() > 0 {
        assert(ranges_wf(s.drop_last()));
        lemma_card_bound(s.drop_last());
        if s.len() > 1 {
            assert(s.drop_last()[0] == s[0]);
            assert(s.drop_last().last().hi + 1 < s.last().lo);
        }
    }
}

/// Prefix sums of range cardinalities stay within the 32-bit span.
proof fn lemma_card_prefix_bound(s: Seq<TokenRange>, i: int)
    requires
        ranges_wf(s),
        0 <= i < s.len(),
    ensures
        card_of(s.subrange(0, i + 1)) <= 0x1_0000_0000,
        card_of(s.subrange(0, i + 1)) == card_of(s.subrange(0, i)) + (s[i].hi - s[i].lo + 1),
{
    let p = s.subrange(0, i + 1);
    assert(p.drop_last() =~= s.subrange(0, i));
    assert(ranges_wf(p));
    lemma_card_bound(p);
}

} // verus!
