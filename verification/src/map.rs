use vstd::prelude::*;

use crate::TokenRange;
use crate::set::TokenSet;

verus! {

/// A value a `TokenMap` can carry: it can be duplicated and compared,
/// and both operations are pinned to its view.
pub trait MapValue: View + Sized {
    fn eq_val(&self, other: &Self) -> (r: bool)
        ensures
            r <==> self@ == other@,
    ;

    fn dup(&self) -> (r: Self)
        ensures
            r@ == self@,
    ;
}

impl MapValue for u32 {
    fn eq_val(&self, other: &Self) -> (r: bool) {
        *self == *other
    }

    fn dup(&self) -> (r: Self) {
        *self
    }
}

/// A transformation applied to the value-or-absence found on each
/// sub-segment of an updated range.
pub trait RangeTransform<V: MapValue>: Sized {
    /// What the transform does, on views.
    spec fn spec_apply(&self, prev: Option<V::V>) -> Option<V::V>;

    /// Apply the transform to the value found (or to absence).
    fn apply(&self, prev: Option<&V>) -> (r: Option<V>)
        ensures
            (match r {
                Some(v) => Some(v@),
                None => None,
            }) == self.spec_apply(
                match prev {
                    Some(p) => Some(p@),
                    None => None,
                },
            ),
    ;
}

/// A transform that overwrites every sub-segment with one value:
/// range insertion is update by a constant.
pub struct OverwriteWith<V: MapValue> {
    pub value: V,
}

impl<V: MapValue> RangeTransform<V> for OverwriteWith<V> {
    open spec fn spec_apply(&self, prev: Option<V::V>) -> Option<V::V> {
        Some(self.value@)
    }

    fn apply(&self, prev: Option<&V>) -> (r: Option<V>) {
        Some(self.value.dup())
    }
}

/// Well-formed entries: ranges well-formed, strictly sorted and
/// disjoint, and adjacent ranges never carry equal values (they would
/// have been coalesced).
pub open spec fn entries_wf<V: MapValue>(s: Seq<(TokenRange, V)>) -> bool {
    &&& forall|i: int| 0 <= i < s.len() ==> (#[trigger] s[i]).0.wf()
    &&& forall|i: int, j: int|
        0 <= i < j < s.len() ==> (#[trigger] s[i]).0.hi < (#[trigger] s[j]).0.lo
    &&& forall|i: int|
        0 <= i < s.len() - 1 ==> ((#[trigger] s[i]).0.hi + 1 == s[i + 1].0.lo ==> s[i].1@
            != s[i + 1].1@)
}

/// The token `k` is mapped to value view `x` by some entry.
pub open spec fn maps_to<V: MapValue>(s: Seq<(TokenRange, V)>, k: int, x: V::V) -> bool {
    exists|i: int| 0 <= i < s.len() && (#[trigger] s[i]).0.has(k) && s[i].1@ == x
}

/// Some entry covers the token `k`.
pub open spec fn covered<V: MapValue>(s: Seq<(TokenRange, V)>, k: int) -> bool {
    exists|i: int| 0 <= i < s.len() && (#[trigger] s[i]).0.has(k)
}

/// The value-or-absence at token `k`.
pub open spec fn val_at<V: MapValue>(s: Seq<(TokenRange, V)>, k: int) -> Option<V::V> {
    if covered(s, k) {
        let i = choose|i: int| 0 <= i < s.len() && (#[trigger] s[i]).0.has(k);
        Some(s[i].1@)
    } else {
        None
    }
}

/// With disjoint entries, an entry covering `k` decides `val_at`.
pub proof fn lemma_val_at<V: MapValue>(s: Seq<(TokenRange, V)>, k: int, i: int)
    requires
        entries_wf(s),
        0 <= i < s.len(),
        s[i].0.has(k),
    ensures
        val_at(s, k) == Some(s[i].1@),
{
    assert(covered(s, k));
    let j = choose|j: int| 0 <= j < s.len() && (#[trigger] s[j]).0.has(k);
    if i < j {
        assert(s[i].0.hi < s[j].0.lo);
    } else if j < i {
        assert(s[j].0.hi < s[i].0.lo);
    }
}

/// `maps_to` and `val_at` agree on well-formed entries.
pub proof fn lemma_maps_to_val_at<V: MapValue>(s: Seq<(TokenRange, V)>, k: int, x: V::V)
    requires
        entries_wf(s),
        maps_to(s, k, x),
    ensures
        val_at(s, k) == Some(x),
{
    let i = choose|i: int| 0 <= i < s.len() && (#[trigger] s[i]).0.has(k) && s[i].1@ == x;
    lemma_val_at(s, k, i);
}

/// Append an entry that begins after everything stored, coalescing it
/// with the last entry when the two touch and carry equal values.
fn push_entry<V: MapValue>(out: &mut Vec<(TokenRange, V)>, rng: TokenRange, v: V)
    requires
        entries_wf(old(out)@),
        rng.wf(),
        forall|j: int| 0 <= j < old(out)@.len() ==> (#[trigger] old(out)@[j]).0.hi < rng.lo,
    ensures
        entries_wf(final(out)@),
        forall|j: int| 0 <= j < final(out)@.len() ==> (#[trigger] final(out)@[j]).0.hi <= rng.hi,
        final(out)@.len() > 0 && final(out)@.last().0.hi == rng.hi,
        forall|k: int, x: V::V|
            #![trigger maps_to(final(out)@, k, x)]
            #![trigger maps_to(old(out)@, k, x)]
            maps_to(final(out)@, k, x) <==> (maps_to(old(out)@, k, x) || (rng.has(k) && x
                == v@)),
{
    let ghost orig = out@;
    let m = out.len();
    let mut coal = false;
    if m > 0 {
        let last_hi = out[m - 1].0.hi;
        if last_hi < rng.lo && rng.lo - last_hi == 1 {
            if out[m - 1].1.eq_val(&v) {
                coal = true;
            }
        }
    }
    if coal {
        let last = out.pop().unwrap();
        let widened = TokenRange { lo: last.0.lo, hi: rng.hi };
        out.push((widened, last.1));
        proof {
            assert(out@ =~= orig.drop_last().push((widened, last.1)));
            assert forall|k: int, x: V::V|
                #![trigger maps_to(out@, k, x)]
                #![trigger maps_to(orig, k, x)]
                maps_to(out@, k, x) <==> (maps_to(orig, k, x) || (rng.has(k) && x == v@)) by {
                if maps_to(out@, k, x) {
                    let i = choose|i: int|
                        0 <= i < out@.len() && (#[trigger] out@[i]).0.has(k) && out@[i].1@ == x;
                    if i < out@.len() - 1 {
                        assert(orig[i].0.has(k) && orig[i].1@ == x);
                    } else {
                        if k <= last.0.hi {
                            assert(orig[orig.len() - 1].0.has(k) && orig[orig.len() - 1].1@
                                == x);
                        }
                    }
                }
                if maps_to(orig, k, x) {
                    let i = choose|i: int|
                        0 <= i < orig.len() && (#[trigger] orig[i]).0.has(k) && orig[i].1@ == x;
                    if i < orig.len() - 1 {
                        assert(out@[i].0.has(k) && out@[i].1@ == x);
                    } else {
                        assert(out@[out@.len() - 1].0.has(k) && out@[out@.len() - 1].1@ == x);
                    }
                }
                if rng.has(k) && x == v@ {
                    assert(out@[out@.len() - 1].0.has(k) && out@[out@.len() - 1].1@ == x);
                }
            }
        }
    } else {
        proof {
            if m > 0 {
                assert(orig[m - 1].0.hi < rng.lo);
            }
        }
        out.push((rng, v));
        proof {
            assert(out@ =~= orig.push((rng, v)));
            assert forall|k: int, x: V::V|
                #![trigger maps_to(out@, k, x)]
                #![trigger maps_to(orig, k, x)]
                maps_to(out@, k, x) <==> (maps_to(orig, k, x) || (rng.has(k) && x == v@)) by {
                if maps_to(out@, k, x) {
                    let i = choose|i: int|
                        0 <= i < out@.len() && (#[trigger] out@[i]).0.has(k) && out@[i].1@ == x;
                    if i < orig.len() {
                        assert(orig[i].0.has(k) && orig[i].1@ == x);
                    }
                }
                if maps_to(orig, k, x) {
                    let i = choose|i: int|
                        0 <= i < orig.len() && (#[trigger] orig[i]).0.has(k) && orig[i].1@ == x;
                    assert(out@[i].0.has(k) && out@[i].1@ == x);
                }
                if rng.has(k) && x == v@ {
                    assert(out@[out@.len() - 1].0.has(k) && out@[out@.len() - 1].1@ == x);
                }
            }
        }
    }
}

/// A range-keyed associative container: disjoint, sorted ranges each
/// carrying one value, adjacent equal-valued ranges coalesced.
#[derive(Debug)]
pub struct TokenMap<V: MapValue> {
    pub entries: Vec<(TokenRange, V)>,
}

impl<V: MapValue> TokenMap<V> {
    /// Normalization invariant: see `entries_wf`.
    pub open spec fn wf(self) -> bool {
        entries_wf(self.entries@)
    }

    /// The value-or-absence the map associates with token `k`.
    pub open spec fn at(self, k: int) -> Option<V::V> {
        val_at(self.entries@, k)
    }

    pub fn empty() -> (r: Self)
        ensures
            r.wf(),
            forall|k: int| r.at(k) is None,
            r.entries@.len() == 0,
    {
        let r = TokenMap { entries: Vec::new() };
        proof {
            assert forall|k: int| r.at(k) is None by {
                assert(!covered(r.entries@, k));
            }
        }
        r
    }

    pub fn is_empty(&self) -> (r: bool)
        requires
            self.wf(),
        ensures
            r <==> forall|k: int| self.at(k) is None,
    {
        let r = self.entries.len() == 0;
        proof {
            if r {
                assert forall|k: int| self.at(k) is None by {
                    assert(!covered(self.entries@, k));
                }
            } else {
                let k = self.entries@[0].0.lo as int;
                assert(self.entries@[0].0.has(k));
                lemma_val_at(self.entries@, k, 0);
                assert(self.at(k) is Some);
            }
        }
        r
    }

    /// How many disjoint ranges the map stores.
    pub fn len(&self) -> (r: usize)
        ensures
            r == self.entries@.len(),
    {
        self.entries.len()
    }

    /// The `i`-th stored range, in increasing order.
    pub fn range_at(&self, i: usize) -> (r: TokenRange)
        requires
            i < self.entries@.len(),
        ensures
            r == self.entries@[i as int].0,
    {
        self.entries[i].0
    }

    /// The value attached to the `i`-th stored range.
    pub fn value_at(&self, i: usize) -> (r: &V)
        requires
            i < self.entries@.len(),
        ensures
            r@ == self.entries@[i as int].1@,
    {
        &self.entries[i].1
    }

    /// Look one token up.
    pub fn get(&self, k: u32) -> (r: Option<&V>)
        requires
            self.wf(),
        ensures
            match r {
                Some(v) => self.at(k as int) == Some(v@) && exists|e: int|
                    0 <= e < self.entries@.len() && (#[trigger] self.entries@[e]).1@ == v@,
                None => self.at(k as int) is None,
            },
    {
        let mut e: usize = 0;
        while e < self.entries.len()
            invariant
                self.wf(),
                0 <= e <= self.entries@.len(),
                forall|j: int| 0 <= j < e ==> !(#[trigger] self.entries@[j]).0.has(k as int),
            decreases self.entries@.len() - e,
        {
            let rng = self.entries[e].0;
            if rng.lo <= k && k <= rng.hi {
                proof {
                    assert(self.entries@[e as int].0.has(k as int));
                    lemma_val_at(self.entries@, k as int, e as int);
                }
                return Some(&self.entries[e].1);
            }
            e = e + 1;
        }
        proof {
            assert(!covered(self.entries@, k as int));
        }
        None
    }

    /// Apply a transform to the value-or-absence over every sub-segment
    /// of `rng`, splitting stored ranges at its boundaries, dropping
    /// segments whose result is absence, and re-coalescing.
    #[verifier::rlimit(100)]
    pub fn update_range<T: RangeTransform<V>>(&mut self, rng: TokenRange, t: &T)
        requires
            old(self).wf(),
            rng.wf(),
        ensures
            final(self).wf(),
            forall|k: int|
                #![trigger final(self).at(k)]
                final(self).at(k) == if rng.has(k) {
                    t.spec_apply(old(self).at(k))
                } else {
                    old(self).at(k)
                },
    {
        let ghost orig = self.entries@;
        let mut out: Vec<(TokenRange, V)> = Vec::new();
        let n = self.entries.len();
        let mut i: usize = 0;
        // entries that end before the updated range: kept as they are
        while i < n && self.entries[i].0.hi < rng.lo
            invariant
                self.wf(),
                rng.wf(),
                self.entries@ == orig,
                n == orig.len(),
                0 <= i <= n,
                entries_wf(out@),
                forall|j: int| 0 <= j < out@.len() ==> (#[trigger] out@[j]).0.hi < rng.lo,
                i > 0 ==> forall|j: int|
                    0 <= j < out@.len() ==> (#[trigger] out@[j]).0.hi <= orig[i - 1].0.hi,
                i == 0 ==> out@.len() == 0,
                forall|j: int| 0 <= j < i ==> (#[trigger] orig[j]).0.hi < rng.lo,
                forall|k: int, x: V::V|
                    #![trigger maps_to(out@, k, x)]
                    maps_to(out@, k, x) <==> maps_to(orig.subrange(0, i as int), k, x),
            decreases n - i,
        {
            let r = self.entries[i].0;
            let v = self.entries[i].1.dup();
            proof {
                if i > 0 {
                    assert(orig[i - 1].0.hi < orig[i as int].0.lo);
                }
            }
            push_entry(&mut out, r, v);
            i = i + 1;
            proof {
                let sub = orig.subrange(0, i as int);
                let sub0 = orig.subrange(0, i - 1);
                assert(sub =~= sub0.push(orig[i - 1]));
                assert forall|k: int, x: V::V| #![trigger maps_to(out@, k, x)] maps_to(
                    out@,
                    k,
                    x,
                ) <==> maps_to(sub, k, x) by {
                    if maps_to(sub, k, x) {
                        let j = choose|j: int|
                            0 <= j < sub.len() && (#[trigger] sub[j]).0.has(k) && sub[j].1@ == x;
                        if j < i - 1 {
                            assert(sub0[j].0.has(k) && sub0[j].1@ == x);
                            assert(maps_to(sub0, k, x));
                        } else {
                            assert(r.has(k) && x == orig[i - 1].1@);
                        }
                    }
                    if maps_to(sub0, k, x) {
                        let j = choose|j: int|
                            0 <= j < sub0.len() && (#[trigger] sub0[j]).0.has(k) && sub0[j].1@
                                == x;
                        assert(sub[j].0.has(k) && sub[j].1@ == x);
                    }
                    if r.has(k) && x == orig[i - 1].1@ {
                        assert(sub[i - 1].0.has(k) && sub[i - 1].1@ == x);
                    }
                }
            }
        }
        // a stored range spanning the lower boundary: its left part is kept
        if i < n && self.entries[i].0.lo < rng.lo {
            let r = self.entries[i].0;
            let left = TokenRange { lo: r.lo, hi: rng.lo - 1 };
            let v = self.entries[i].1.dup();
            proof {
                if i > 0 {
                    assert(orig[i - 1].0.hi < orig[i as int].0.lo);
                }
            }
            push_entry(&mut out, left, v);
        }
        proof {
            // at this point everything below rng.lo is decided and mirrors
            // the original map
            assert forall|k: int, x: V::V|
                #![trigger maps_to(out@, k, x)]
                k < rng.lo implies (maps_to(out@, k, x) <==> maps_to(orig, k, x)) by {
                let subi = orig.subrange(0, i as int);
                if maps_to(orig, k, x) {
                    let j = choose|j: int|
                        0 <= j < orig.len() && (#[trigger] orig[j]).0.has(k) && orig[j].1@ == x;
                    if j < i {
                        assert(subi[j].0.has(k) && subi[j].1@ == x);
                        assert(maps_to(subi, k, x));
                    } else if j == i {
                        assert(orig[i as int].0.lo < rng.lo);
                    } else {
                        assert(orig[i as int].0.hi < orig[j].0.lo);
                        assert(orig[i as int].0.hi + 1 >= rng.lo);
                    }
                }
                if maps_to(subi, k, x) {
                    let j = choose|j: int|
                        0 <= j < subi.len() && (#[trigger] subi[j]).0.has(k) && subi[j].1@ == x;
                    assert(orig[j].0.has(k) && orig[j].1@ == x);
                }
            }
        }
        // walk the updated span segment by segment
        let mut cursor: u64 = rng.lo as u64;
        while cursor <= rng.hi as u64
            invariant
                self.wf(),
                rng.wf(),
                self.entries@ == orig,
                n == orig.len(),
                0 <= i <= n,
                rng.lo as int <= cursor <= rng.hi as int + 1,
                entries_wf(out@),
                forall|j: int| 0 <= j < out@.len() ==> (#[trigger] out@[j]).0.hi < cursor,
                forall|j: int| 0 <= j < i ==> (#[trigger] orig[j]).0.hi < cursor,
                i < n ==> (orig[i as int].0.hi >= cursor || orig[i as int].0.hi > rng.hi),
                forall|k: int, x: V::V|
                    #![trigger maps_to(out@, k, x)]
                    k < cursor ==> (maps_to(out@, k, x) <==> (if rng.has(k) {
                        t.spec_apply(val_at(orig, k)) == Some(x)
                    } else {
                        maps_to(orig, k, x)
                    })),
            decreases rng.hi as int + 1 - cursor,
        {
            let cur32: u32 = cursor as u32;
            if i < n && self.entries[i].0.lo <= cur32 && cur32 <= self.entries[i].0.hi {
                // a stored entry covers the cursor: transform this part
                let er = self.entries[i].0;
                let seg_end: u32 = if er.hi < rng.hi {
                    er.hi
                } else {
                    rng.hi
                };
                let seg = TokenRange { lo: cur32, hi: seg_end };
                let res = t.apply(Some(&self.entries[i].1));
                let ghost prev_out = out@;
                match res {
                    Some(w) => {
                        push_entry(&mut out, seg, w);
                    },
                    None => {},
                }
                proof {
                    assert forall|k: int, x: V::V|
                        #![trigger maps_to(out@, k, x)]
                        k < seg_end + 1 implies (maps_to(out@, k, x) <==> (if rng.has(k) {
                        t.spec_apply(val_at(orig, k)) == Some(x)
                    } else {
                        maps_to(orig, k, x)
                    })) by {
                        if cursor <= k <= seg_end {
                            assert(orig[i as int].0.has(k));
                            lemma_val_at(orig, k, i as int);
                            if maps_to(prev_out, k, x) {
                                let j = choose|j: int|
                                    0 <= j < prev_out.len() && (#[trigger] prev_out[j]).0.has(k)
                                        && prev_out[j].1@ == x;
                            }
                        }
                    }
                }
                if er.hi <= rng.hi {
                    i = i + 1;
                }
                cursor = seg_end as u64 + 1;
            } else {
                // no stored entry covers the cursor: a gap segment
                let gap_end: u32 = if i < n && self.entries[i].0.lo <= rng.hi {
                    let nlo = self.entries[i].0.lo;
                    if nlo > cur32 {
                        nlo - 1
                    } else {
                        rng.hi
                    }
                } else {
                    rng.hi
                };
                proof {
                    assert(i < n ==> orig[i as int].0.lo > cursor || orig[i as int].0.lo
                        > rng.hi);
                    assert forall|k: int| cursor <= k <= gap_end implies !covered(orig, k) by {
                        assert forall|j: int| 0 <= j < n implies !(
                        #[trigger] orig[j]).0.has(k) by {
                            if j < i {
                                assert(orig[j].0.hi < cursor);
                            } else if j > i && i < n {
                                assert(orig[i as int].0.hi < orig[j].0.lo);
                                assert(orig[i as int].0.lo <= orig[i as int].0.hi);
                            }
                        }
                    }
                }
                let res = t.apply(None);
                let ghost prev_out = out@;
                match res {
                    Some(w) => {
                        push_entry(&mut out, TokenRange { lo: cur32, hi: gap_end }, w);
                    },
                    None => {},
                }
                proof {
                    assert forall|k: int, x: V::V|
                        #![trigger maps_to(out@, k, x)]
                        k < gap_end + 1 implies (maps_to(out@, k, x) <==> (if rng.has(k) {
                        t.spec_apply(val_at(orig, k)) == Some(x)
                    } else {
                        maps_to(orig, k, x)
                    })) by {
                        if cursor <= k <= gap_end {
                            assert(!covered(orig, k));
                            assert(val_at(orig, k) is None);
                            if maps_to(orig, k, x) {
                                assert(covered(orig, k));
                            }
                            if maps_to(prev_out, k, x) {
                                let j = choose|j: int|
                                    0 <= j < prev_out.len() && (#[trigger] prev_out[j]).0.has(k)
                                        && prev_out[j].1@ == x;
                            }
                        }
                    }
                }
                cursor = gap_end as u64 + 1;
            }
        }
        // a stored range spanning the upper boundary: its right part is kept
        if i < n && self.entries[i].0.lo <= rng.hi {
            let er = self.entries[i].0;
            proof {
                assert(er.hi > rng.hi);
            }
            let right = TokenRange { lo: rng.hi + 1, hi: er.hi };
            let v = self.entries[i].1.dup();
            let ghost prev_out = out@;
            push_entry(&mut out, right, v);
            i = i + 1;
            proof {
                assert forall|k: int, x: V::V|
                    #![trigger maps_to(out@, k, x)]
                    k <= er.hi implies (maps_to(out@, k, x) <==> (if rng.has(k) {
                    t.spec_apply(val_at(orig, k)) == Some(x)
                } else {
                    maps_to(orig, k, x)
                })) by {
                    if rng.hi < k <= er.hi {
                        assert(orig[i - 1].0.has(k));
                        lemma_val_at(orig, k, i - 1);
                        assert(maps_to(orig, k, orig[i - 1].1@));
                        if maps_to(orig, k, x) {
                            let j = choose|j: int|
                                0 <= j < orig.len() && (#[trigger] orig[j]).0.has(k) && orig[j].1@
                                    == x;
                            if j < i - 1 {
                                assert(orig[j].0.hi < orig[i - 1].0.lo);
                            } else if j > i - 1 {
                                assert(orig[i - 1].0.hi < orig[j].0.lo);
                            }
                        }
                        if maps_to(prev_out, k, x) {
                            let j = choose|j: int|
                                0 <= j < prev_out.len() && (#[trigger] prev_out[j]).0.has(k)
                                    && prev_out[j].1@ == x;
                        }
                    }
                }
            }
        }
        // entries that begin after the updated range: kept as they are
        while i < n
            invariant
                self.wf(),
                rng.wf(),
                self.entries@ == orig,
                n == orig.len(),
                0 <= i <= n,
                entries_wf(out@),
                forall|j: int| i <= j < n ==> (#[trigger] orig[j]).0.lo > rng.hi,
                forall|j: int, m: int|
                    0 <= j < out@.len() && i <= m < n ==> (#[trigger] out@[j]).0.hi < (
                    #[trigger] orig[m]).0.lo,
                forall|k: int, x: V::V|
                    #![trigger maps_to(out@, k, x)]
                    (i == n || k < orig[i as int].0.lo) ==> (maps_to(out@, k, x) <==> (
                    if rng.has(k) {
                        t.spec_apply(val_at(orig, k)) == Some(x)
                    } else {
                        maps_to(orig, k, x)
                    })),
            decreases n - i,
        {
            let r = self.entries[i].0;
            let v = self.entries[i].1.dup();
            let ghost prev_out = out@;
            push_entry(&mut out, r, v);
            i = i + 1;
            proof {
                assert forall|k: int, x: V::V|
                    #![trigger maps_to(out@, k, x)]
                    (i == n || k < orig[i as int].0.lo) implies (maps_to(out@, k, x) <==> (
                    if rng.has(k) {
                        t.spec_apply(val_at(orig, k)) == Some(x)
                    } else {
                        maps_to(orig, k, x)
                    })) by {
                    if k < orig[i - 1].0.lo {
                        // already decided before this push; the pushed range
                        // cannot cover k
                        if maps_to(prev_out, k, x) {
                            let j = choose|j: int|
                                0 <= j < prev_out.len() && (#[trigger] prev_out[j]).0.has(k)
                                    && prev_out[j].1@ == x;
                        }
                    } else if r.has(k) {
                        // covered exactly by the entry just pushed
                        assert(k > rng.hi);
                        assert(maps_to(orig, k, orig[i - 1].1@));
                        if maps_to(orig, k, x) {
                            let j = choose|j: int|
                                0 <= j < orig.len() && (#[trigger] orig[j]).0.has(k) && orig[j].1@
                                    == x;
                            if j < i - 1 {
                                assert(orig[j].0.hi < orig[i - 1].0.lo);
                            } else if j > i - 1 {
                                assert(orig[i - 1].0.hi < orig[j].0.lo);
                            }
                        }
                        if maps_to(prev_out, k, x) {
                            let j = choose|j: int|
                                0 <= j < prev_out.len() && (#[trigger] prev_out[j]).0.has(k)
                                    && prev_out[j].1@ == x;
                        }
                    } else {
                        // between the pushed entry and the next one: covered
                        // by nothing on either side
                        assert(k > rng.hi);
                        assert(k > orig[i - 1].0.hi);
                        if maps_to(orig, k, x) {
                            let j = choose|j: int|
                                0 <= j < orig.len() && (#[trigger] orig[j]).0.has(k) && orig[j].1@
                                    == x;
                            if j < i - 1 {
                                assert(orig[j].0.hi < orig[i - 1].0.lo);
                            } else if j > i - 1 && j >= i && i < n {
                                assert(orig[i as int].0.lo <= orig[j].0.lo);
                            }
                        }
                        if maps_to(out@, k, x) {
                            let j = choose|j: int|
                                0 <= j < out@.len() && (#[trigger] out@[j]).0.has(k) && out@[j].1@
                                    == x;
                        }
                    }
                }
            }
        }
        self.entries = out;
        proof {
            lemma_update_final::<V, T>(self.entries@, orig, rng, t);
        }
    }

    /// Insert a value over a range: every token of the range maps to the
    /// value afterwards, tokens outside are untouched.
    pub fn insert_range(&mut self, rng: TokenRange, v: V)
        requires
            old(self).wf(),
            rng.wf(),
        ensures
            final(self).wf(),
            forall|k: int|
                #![trigger final(self).at(k)]
                final(self).at(k) == if rng.has(k) {
                    Some(v@)
                } else {
                    old(self).at(k)
                },
    {
        let t = OverwriteWith { value: v };
        self.update_range(rng, &t);
    }

    /// Insert a value over every range of a token set, in increasing
    /// order. The set need not be normalized: ranges may overlap or be
    /// out of order (later ranges are then authoritative, which carries
    /// the same value anyway), and degenerate ranges hold no tokens.
    /// A malformed set never makes this panic.
    pub fn insert_set(&mut self, set: &TokenSet, v: V)
        requires
            old(self).wf(),
        ensures
            final(self).wf(),
            forall|k: int|
                #![trigger final(self).at(k)]
                final(self).at(k) == if set.has(k) {
                    Some(v@)
                } else {
                    old(self).at(k)
                },
    {
        let m = set.num_ranges();
        let mut i: usize = 0;
        while i < m
            invariant
                self.wf(),
                m == set.ranges@.len(),
                0 <= i <= m,
                forall|k: int|
                    #![trigger self.at(k)]
                    self.at(k) == if crate::set::ranges_have(
                        set.ranges@.subrange(0, i as int),
                        k,
                    ) {
                        Some(v@)
                    } else {
                        old(self).at(k)
                    },
            decreases m - i,
        {
            let r = set.range_at(i);
            if r.lo <= r.hi {
                let w = v.dup();
                self.insert_range(r, w);
            }
            i = i + 1;
            proof {
                let sub = set.ranges@.subrange(0, i as int);
                assert(sub =~= set.ranges@.subrange(0, i - 1).push(r));
                assert forall|k: int| #![trigger self.at(k)] self.at(k) == (if crate::set::ranges_have(
                    sub,
                    k,
                ) {
                    Some(v@)
                } else {
                    old(self).at(k)
                }) by {
                    crate::set::lemma_have_push_pub(set.ranges@.subrange(0, i - 1), r, k);
                }
            }
        }
        proof {
            assert(set.ranges@.subrange(0, set.ranges@.len() as int) =~= set.ranges@);
        }
    }

    /// Apply a transform over every range of a token set, in increasing
    /// order.
    pub fn update_set<T: RangeTransform<V>>(&mut self, set: &TokenSet, t: &T)
        requires
            old(self).wf(),
            set.wf(),
        ensures
            final(self).wf(),
            forall|k: int|
                #![trigger final(self).at(k)]
                final(self).at(k) == if set.has(k) {
                    t.spec_apply(old(self).at(k))
                } else {
                    old(self).at(k)
                },
    {
        let m = set.num_ranges();
        let mut i: usize = 0;
        while i < m
            invariant
                self.wf(),
                set.wf(),
                m == set.ranges@.len(),
                0 <= i <= m,
                forall|k: int|
                    #![trigger self.at(k)]
                    self.at(k) == if crate::set::ranges_have(
                        set.ranges@.subrange(0, i as int),
                        k,
                    ) {
                        t.spec_apply(old(self).at(k))
                    } else {
                        old(self).at(k)
                    },
            decreases m - i,
        {
            let r = set.range_at(i);
            let ghost prev = *self;
            self.update_range(r, t);
            i = i + 1;
            proof {
                let sub = set.ranges@.subrange(0, i as int);
                assert(sub =~= set.ranges@.subrange(0, i - 1).push(r));
                assert forall|k: int| #![trigger self.at(k)] self.at(k) == (if crate::set::ranges_have(
                    sub,
                    k,
                ) {
                    t.spec_apply(old(self).at(k))
                } else {
                    old(self).at(k)
                }) by {
                    crate::set::lemma_have_push_pub(set.ranges@.subrange(0, i - 1), r, k);
                    if crate::set::ranges_have(set.ranges@.subrange(0, i - 1), k) && r.has(k) {
                        // ranges of a set are disjoint: an earlier range
                        // covering k keeps r from covering it
                        let sub0 = set.ranges@.subrange(0, i - 1);
                        let j = choose|j: int| 0 <= j < sub0.len() && (#[trigger] sub0[j]).has(k);
                        assert(set.ranges@[j].hi + 1 < set.ranges@[i - 1].lo);
                    }
                }
            }
        }
        proof {
            assert(set.ranges@.subrange(0, set.ranges@.len() as int) =~= set.ranges@);
        }
    }
}

/// Derive the final pointwise `at` relation of an update from the
/// `maps_to` characterization its rebuilding loops establish.
#[verifier::rlimit(100)]
proof fn lemma_update_final<V: MapValue, T: RangeTransform<V>>(
    new: Seq<(TokenRange, V)>,
    orig: Seq<(TokenRange, V)>,
    rng: TokenRange,
    t: &T,
)
    requires
        entries_wf(new),
        entries_wf(orig),
        forall|k: int, x: V::V|
            #![trigger maps_to(new, k, x)]
            maps_to(new, k, x) <==> (if rng.has(k) {
                t.spec_apply(val_at(orig, k)) == Some(x)
            } else {
                maps_to(orig, k, x)
            }),
    ensures
        forall|k: int|
            #![trigger val_at(new, k)]
            val_at(new, k) == if rng.has(k) {
                t.spec_apply(val_at(orig, k))
            } else {
                val_at(orig, k)
            },
{
    assert forall|k: int| #![trigger val_at(new, k)] val_at(new, k) == (if rng.has(k) {
        t.spec_apply(val_at(orig, k))
    } else {
        val_at(orig, k)
    }) by {
        let target: Option<V::V> = if rng.has(k) {
            t.spec_apply(val_at(orig, k))
        } else {
            val_at(orig, k)
        };
        assert forall|x: V::V| #![trigger maps_to(new, k, x)] maps_to(new, k, x) <==> target
            == Some(x) by {
            if !rng.has(k) {
                if maps_to(orig, k, x) {
                    lemma_maps_to_val_at(orig, k, x);
                }
                if val_at(orig, k) == Some(x) {
                    assert(covered(orig, k));
                    let j = choose|j: int| 0 <= j < orig.len() && (#[trigger] orig[j]).0.has(k);
                    lemma_val_at(orig, k, j);
                    assert(maps_to(orig, k, orig[j].1@));
                }
            }
        }
        lemma_at_from_maps_to(new, orig, rng, target, k);
    }
}

/// Derive the final `at` relation from the pointwise `maps_to`
/// characterization established by the rebuilding loops.
proof fn lemma_at_from_maps_to<V: MapValue>(
    new: Seq<(TokenRange, V)>,
    orig: Seq<(TokenRange, V)>,
    rng: TokenRange,
    target: Option<V::V>,
    k: int,
)
    requires
        entries_wf(new),
        entries_wf(orig),
        forall|x: V::V| #![trigger maps_to(new, k, x)] maps_to(new, k, x) <==> target == Some(x),
    ensures
        val_at(new, k) == target,
{
    if covered(new, k) {
        let i = choose|i: int| 0 <= i < new.len() && (#[trigger] new[i]).0.has(k);
        assert(maps_to(new, k, new[i].1@));
        lemma_val_at(new, k, i);
    } else {
        if target is Some {
            let x = target->0;
            assert(!maps_to(new, k, x));
        }
    }
}

} // verus!
