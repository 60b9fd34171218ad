use vstd::prelude::*;

use vstd::arithmetic::power2::pow2;
use vstd::arithmetic::power2::lemma_pow2_adds;
use vstd::arithmetic::power2::lemma_pow2_pos;
use vstd::arithmetic::power2::lemma_pow2_strictly_increases;
use vstd::set_lib::lemma_int_range;
use vstd::set_lib::lemma_len_subset;
use vstd::set_lib::set_int_range;

use crate::map::MapValue;

verus! {

/// A canonical sequence of automaton state ids: strictly increasing.
pub open spec fn ids_wf(s: Seq<usize>) -> bool {
    forall|i: int, j: int| 0 <= i < j < s.len() ==> s[i] < s[j]
}

/// Membership of a state id.
pub open spec fn ids_have(s: Seq<usize>, t: int) -> bool {
    exists|i: int| 0 <= i < s.len() && s[i] == t
}

/// A position splitting a sorted sequence into the part below `v` and
/// the part above it.
pub open spec fn cut_at(s: Seq<usize>, v: usize, c: int) -> bool {
    &&& 0 <= c <= s.len()
    &&& forall|i: int| 0 <= i < c ==> s[i] < v
    &&& forall|i: int| c <= i < s.len() ==> s[i] >= v
}

/// Canonical insertion of a state id into a sorted sequence.
pub open spec fn ids_insert(s: Seq<usize>, v: usize) -> Seq<usize> {
    if ids_have(s, v as int) {
        s
    } else {
        let c = choose|c: int| cut_at(s, v, c);
        s.subrange(0, c) + seq![v] + s.subrange(c, s.len() as int)
    }
}

/// The splitting position of a sorted sequence is unique.
pub proof fn lemma_cut_unique(s: Seq<usize>, v: usize, c1: int, c2: int)
    requires
        ids_wf(s),
        cut_at(s, v, c1),
        cut_at(s, v, c2),
    ensures
        c1 == c2,
{
    if c1 < c2 {
        assert(s[c1] < v);
        assert(s[c1] >= v);
    }
    if c2 < c1 {
        assert(s[c2] < v);
        assert(s[c2] >= v);
    }
}

/// What canonical insertion does: it keeps the sequence sorted and adds
/// exactly the inserted id.
pub proof fn lemma_ids_insert(s: Seq<usize>, v: usize, c: int)
    requires
        ids_wf(s),
        cut_at(s, v, c),
        !ids_have(s, v as int),
    ensures
        ids_insert(s, v) == s.subrange(0, c) + seq![v] + s.subrange(c, s.len() as int),
        ids_wf(ids_insert(s, v)),
        forall|t: int| ids_have(ids_insert(s, v), t) <==> (ids_have(s, t) || t == v),
        ids_insert(s, v).len() == s.len() + 1,
{
    let cc = choose|cc: int| cut_at(s, v, cc);
    lemma_cut_unique(s, v, c, cc);
    let r = s.subrange(0, c) + seq![v] + s.subrange(c, s.len() as int);
    assert(ids_insert(s, v) == r);
    assert forall|i: int, j: int| 0 <= i < j < r.len() implies r[i] < r[j] by {
        if c <= i < s.len() || i == c {
        }
        if j < c {
        }
        if i < c && j == c {
            assert(r[i] == s[i] && r[j] == v);
        }
        if i == c && j > c {
            assert(r[j] == s[j - 1] && s[j - 1] >= v && s[j - 1] != v);
        }
        if i < c && j > c {
            assert(r[i] == s[i] && r[j] == s[j - 1]);
        }
        if c < i < j {
            assert(r[i] == s[i - 1] && r[j] == s[j - 1]);
        }
    }
    assert forall|t: int| ids_have(r, t) <==> (ids_have(s, t) || t == v) by {
        if ids_have(r, t) {
            let i = choose|i: int| 0 <= i < r.len() && r[i] == t;
            if i < c {
                assert(s[i] == t);
            } else if i == c {
            } else {
                assert(s[i - 1] == t);
            }
        }
        if ids_have(s, t) {
            let i = choose|i: int| 0 <= i < s.len() && s[i] == t;
            if i < c {
                assert(r[i] == t);
            } else {
                assert(r[i + 1] == t);
            }
        }
        if t == v {
            assert(r[c] == t);
        }
    }
}

/// The set of state ids a subset stands for, encoded as a sum of powers
/// of two: the key to bounding how many distinct subsets can exist.
pub open spec fn mask_of(s: Seq<usize>) -> nat
    decreases s.len(),
{
    if s.len() == 0 {
        0nat
    } else {
        mask_of(s.drop_last()) + pow2(s.last() as nat)
    }
}

/// Ids below `m` keep the mask below `pow2(m)`.
pub proof fn lemma_mask_bound(s: Seq<usize>, m: nat)
    requires
        ids_wf(s),
        forall|i: int| 0 <= i < s.len() ==> s[i] < m,
    ensures
        mask_of(s) < pow2(m),
    decreases s.len(),
{
    lemma_pow2_pos(m);
    if s.len() > 0 {
        let d = s.drop_last();
        let last = s.last() as nat;
        assert(forall|i: int| 0 <= i < d.len() ==> (#[trigger] d[i]) == s[i] && s[i] < s[s.len() - 1]);
        lemma_mask_bound(d, last);
        lemma_pow2_adds(last, 1);
        assert(pow2(1) == 2) by {
            vstd::arithmetic::power2::lemma2_to64();
        }
        assert(mask_of(s) < pow2((last + 1) as nat));
        if last + 1 < m {
            lemma_pow2_strictly_increases((last + 1) as nat, m);
        }
    }
}

/// Distinct canonical subsets have distinct masks.
pub proof fn lemma_mask_injective(s: Seq<usize>, t: Seq<usize>)
    requires
        ids_wf(s),
        ids_wf(t),
        mask_of(s) == mask_of(t),
    ensures
        s == t,
    decreases s.len() + t.len(),
{
    if s.len() == 0 && t.len() == 0 {
        assert(s =~= t);
    } else if s.len() == 0 {
        lemma_pow2_pos(t.last() as nat);
        assert(mask_of(t) >= pow2(t.last() as nat));
        assert(false);
    } else if t.len() == 0 {
        lemma_pow2_pos(s.last() as nat);
        assert(mask_of(s) >= pow2(s.last() as nat));
        assert(false);
    } else {
        let sl = s.last() as nat;
        let tl = t.last() as nat;
        if sl < tl {
            assert(forall|i: int| 0 <= i < s.len() ==> (#[trigger] s[i]) <= s[s.len() - 1]);
            lemma_mask_bound(s, (sl + 1) as nat);
            if sl + 1 < tl {
                lemma_pow2_strictly_increases((sl + 1) as nat, tl);
            }
            assert(mask_of(t) >= pow2(tl));
            assert(false);
        }
        if tl < sl {
            assert(forall|i: int| 0 <= i < t.len() ==> (#[trigger] t[i]) <= t[t.len() - 1]);
            lemma_mask_bound(t, (tl + 1) as nat);
            if tl + 1 < sl {
                lemma_pow2_strictly_increases((tl + 1) as nat, sl);
            }
            assert(mask_of(s) >= pow2(sl));
            assert(false);
        }
        assert(s.last() == t.last());
        lemma_mask_injective(s.drop_last(), t.drop_last());
        assert(s =~= s.drop_last().push(s.last()));
        assert(t =~= t.drop_last().push(t.last()));
    }
}

/// A family of pairwise distinct canonical subsets of `n` states has at
/// most `pow2(n)` members.
pub proof fn lemma_subset_family_bound(tv: Seq<Seq<usize>>, n: nat)
    requires
        forall|a: int| 0 <= a < tv.len() ==> ids_wf(#[trigger] tv[a]),
        forall|a: int, i: int|
            0 <= a < tv.len() && 0 <= i < tv[a].len() ==> (#[trigger] tv[a][i]) < n,
        forall|a: int, b: int| 0 <= a < b < tv.len() ==> (#[trigger] tv[a]) != (#[trigger] tv[b]),
    ensures
        tv.len() <= pow2(n),
{
    let ms = Seq::new(tv.len(), |a: int| mask_of(tv[a]) as int);
    assert forall|a: int, b: int| 0 <= a < b < ms.len() implies ms[a] != ms[b] by {
        if mask_of(tv[a]) == mask_of(tv[b]) {
            lemma_mask_injective(tv[a], tv[b]);
        }
    }
    assert(ms.no_duplicates());
    ms.unique_seq_to_set();
    assert forall|a: int| 0 <= a < ms.len() implies 0 <= (#[trigger] ms[a]) < pow2(n) by {
        lemma_mask_bound(tv[a], n);
    }
    let rangeset = set_int_range(0, pow2(n) as int);
    assert(ms.to_set().subset_of(rangeset)) by {
        assert forall|x: int| ms.to_set().contains(x) implies rangeset.contains(x) by {
            let a = choose|a: int| 0 <= a < ms.len() && ms[a] == x;
        }
    }
    lemma_int_range(0, pow2(n) as int);
    lemma_len_subset(ms.to_set(), rangeset);
}

/// A canonical set of automaton state ids, ordered ascending with no
/// repeats: the identity of one deterministic state is such a set of the
/// nondeterministic states it stands for.
#[derive(Debug)]
pub struct IdSet {
    pub ids: Vec<usize>,
}

impl View for IdSet {
    type V = Seq<usize>;

    open spec fn view(&self) -> Seq<usize> {
        self.ids@
    }
}

impl MapValue for IdSet {
    fn eq_val(&self, other: &Self) -> (r: bool) {
        if self.ids.len() != other.ids.len() {
            return false;
        }
        let mut i: usize = 0;
        while i < self.ids.len()
            invariant
                self.ids@.len() == other.ids@.len(),
                0 <= i <= self.ids@.len(),
                forall|j: int| 0 <= j < i ==> self.ids@[j] == other.ids@[j],
            decreases self.ids@.len() - i,
        {
            if self.ids[i] != other.ids[i] {
                return false;
            }
            i = i + 1;
        }
        proof {
            assert(self.ids@ =~= other.ids@);
        }
        true
    }

    fn dup(&self) -> (r: Self) {
        let mut v: Vec<usize> = Vec::new();
        let mut i: usize = 0;
        while i < self.ids.len()
            invariant
                0 <= i <= self.ids@.len(),
                v@ =~= self.ids@.subrange(0, i as int),
            decreases self.ids@.len() - i,
        {
            v.push(self.ids[i]);
            i = i + 1;
        }
        proof {
            assert(v@ =~= self.ids@);
        }
        IdSet { ids: v }
    }
}

impl IdSet {
    pub open spec fn wf(self) -> bool {
        ids_wf(self@)
    }

    /// The set holding one state id.
    pub fn single(s: usize) -> (r: Self)
        ensures
            r.wf(),
            r@ =~= seq![s],
    {
        let mut v: Vec<usize> = Vec::new();
        v.push(s);
        proof {
            assert(v@ =~= seq![s]);
        }
        IdSet { ids: v }
    }

    pub fn len(&self) -> (r: usize)
        ensures
            r == self@.len(),
    {
        self.ids.len()
    }

    pub fn id_at(&self, i: usize) -> (r: usize)
        requires
            i < self@.len(),
        ensures
            r == self@[i as int],
    {
        self.ids[i]
    }

    /// Is the sequence of ids strictly increasing?
    pub fn sorted(&self) -> (r: bool)
        ensures
            r == ids_wf(self@),
    {
        let mut i: usize = 1;
        if self.ids.len() == 0 {
            return true;
        }
        while i < self.ids.len()
            invariant
                1 <= i <= self.ids@.len() || self.ids@.len() == 0,
                forall|x: int, y: int| 0 <= x < y < i ==> self.ids@[x] < self.ids@[y],
            decreases self.ids@.len() - i,
        {
            if self.ids[i - 1] >= self.ids[i] {
                return false;
            }
            i = i + 1;
            proof {
                assert forall|x: int, y: int| 0 <= x < y < i implies self.ids@[x]
                    < self.ids@[y] by {
                    if y == i - 1 && x < y - 1 {
                        assert(self.ids@[x] < self.ids@[y - 1]);
                    }
                }
            }
        }
        true
    }

    /// Insert a state id, keeping the set canonical.
    pub fn insert_id(&mut self, v: usize)
        requires
            old(self).wf(),
        ensures
            final(self).wf(),
            final(self)@ == ids_insert(old(self)@, v),
            forall|t: int|
                #![trigger ids_have(final(self)@, t)]
                ids_have(final(self)@, t) <==> (ids_have(old(self)@, t) || t == v),
    {
        let ghost orig = self.ids@;
        let n = self.ids.len();
        let mut c: usize = 0;
        while c < n && self.ids[c] < v
            invariant
                self.ids@ == orig,
                ids_wf(orig),
                n == orig.len(),
                0 <= c <= n,
                forall|i: int| 0 <= i < c ==> orig[i] < v,
            decreases n - c,
        {
            c = c + 1;
        }
        if c < n && self.ids[c] == v {
            proof {
                assert(ids_have(orig, v as int));
                assert(ids_insert(orig, v) == orig);
                assert forall|t: int| ids_have(self.ids@, t) <==> (ids_have(orig, t) || t
                    == v) by {
                    if t == v {
                        assert(orig[c as int] == v);
                    }
                }
            }
            return ;
        }
        proof {
            assert forall|i: int| c <= i < n implies orig[i] >= v by {
                if i > c && c < n {
                    assert(orig[c as int] < orig[i]);
                }
            }
            assert(cut_at(orig, v, c as int));
            if ids_have(orig, v as int) {
                let i = choose|i: int| 0 <= i < orig.len() && orig[i] == v;
                assert(i < c || i >= c);
            }
            lemma_ids_insert(orig, v, c as int);
        }
        self.ids.insert(c, v);
        proof {
            assert(self.ids@ =~= orig.subrange(0, c as int) + seq![v] + orig.subrange(
                c as int,
                n as int,
            ));
        }
    }
}

} // verus!
