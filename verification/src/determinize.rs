use vstd::prelude::*;

use vstd::arithmetic::power2::pow2;

use crate::automaton::Dfa;
use crate::automaton::DfaState;
use crate::automaton::Nfa;
use crate::map::RangeTransform;
use crate::map::TokenMap;
use crate::map::MapValue;
use crate::map::lemma_val_at;
use crate::set::TokenSet;
use crate::subset::IdSet;
use crate::subset::cut_at;
use crate::subset::ids_have;
use crate::subset::ids_insert;
use crate::subset::ids_wf;
use crate::subset::lemma_cut_unique;
use crate::subset::lemma_ids_insert;
use crate::subset::lemma_subset_family_bound;

verus! {

/// An input transition whose token set is empty: the nondeterministic
/// automaton is malformed and the construction is abandoned.
#[derive(Clone, Copy, Debug, PartialEq, Eq, Structural)]
pub struct MalformedTransitionError {
    pub state: usize,
    pub index: usize,
}

/// A token set with at least one token.
pub open spec fn label_nonempty(ts: TokenSet) -> bool {
    exists|k: int| ts.has(k)
}

/// A sorted sequence of ids always has a splitting position for any id.
pub proof fn lemma_cut_exists(s: Seq<usize>, v: usize)
    requires
        ids_wf(s),
    ensures
        exists|c: int| cut_at(s, v, c),
    decreases s.len(),
{
    if s.len() == 0 {
        assert(cut_at(s, v, 0));
    } else if s[0] >= v {
        assert(cut_at(s, v, 0));
    } else {
        let d = s.drop_first();
        assert(ids_wf(d));
        lemma_cut_exists(d, v);
        let c = choose|c: int| cut_at(d, v, c);
        assert forall|i: int| 0 <= i < c + 1 implies s[i] < v by {
            if i > 0 {
                assert(d[i - 1] < v);
            }
        }
        assert forall|i: int| c + 1 <= i < s.len() implies s[i] >= v by {
            assert(d[i - 1] >= v);
        }
        assert(cut_at(s, v, c + 1));
    }
}

/// Canonical insertion into a sorted set of ids keeps it sorted and adds
/// exactly the inserted id.
pub proof fn lemma_ids_insert_props(s: Seq<usize>, v: usize)
    requires
        ids_wf(s),
    ensures
        ids_wf(ids_insert(s, v)),
        ids_insert(s, v).len() >= 1,
        forall|t: int|
            #![trigger ids_have(ids_insert(s, v), t)]
            ids_have(ids_insert(s, v), t) <==> (ids_have(s, t) || t == v),
{
    if ids_have(s, v as int) {
        assert(ids_insert(s, v) == s);
        let i = choose|i: int| 0 <= i < s.len() && s[i] == v;
        assert(ids_have(s, v as int));
        assert(s.len() >= 1);
    } else {
        lemma_cut_exists(s, v);
        let c = choose|c: int| cut_at(s, v, c);
        lemma_ids_insert(s, v, c);
    }
}

/// The transform the subset construction applies: union one more target
/// state into the set accumulated for a sub-range.
pub struct AddTarget {
    pub target: usize,
}

impl RangeTransform<IdSet> for AddTarget {
    open spec fn spec_apply(&self, prev: Option<Seq<usize>>) -> Option<Seq<usize>> {
        match prev {
            None => Some(seq![self.target]),
            Some(s) => if ids_wf(s) {
                Some(ids_insert(s, self.target))
            } else {
                Some(s)
            },
        }
    }

    fn apply(&self, prev: Option<&IdSet>) -> (r: Option<IdSet>) {
        match prev {
            None => Some(IdSet::single(self.target)),
            Some(p) => {
                if p.sorted() {
                    let mut q = p.dup();
                    q.insert_id(self.target);
                    Some(q)
                } else {
                    Some(p.dup())
                }
            },
        }
    }
}

/// The lowest accept label among the members of a subset, if any member
/// accepts: the deterministic tie-break when several named productions
/// accept at once.
pub open spec fn spec_best_label(nfa: Nfa, s: Seq<usize>) -> Option<u32>
    decreases s.len(),
{
    if s.len() == 0 {
        None
    } else {
        opt_min(spec_best_label(nfa, s.drop_last()), nfa.accept@[s.last() as int])
    }
}

/// The smaller of two optional labels, absence losing to presence.
pub open spec fn opt_min(a: Option<u32>, b: Option<u32>) -> Option<u32> {
    match a {
        None => b,
        Some(x) => match b {
            None => Some(x),
            Some(y) => if x <= y {
                Some(x)
            } else {
                Some(y)
            },
        },
    }
}

fn best_label(nfa: &Nfa, ids: &IdSet) -> (r: Option<u32>)
    requires
        nfa.wf(),
        forall|i: int| 0 <= i < ids@.len() ==> (#[trigger] ids@[i]) < nfa.state_count(),
    ensures
        r == spec_best_label(*nfa, ids@),
{
    let mut acc: Option<u32> = None;
    let mut a: usize = 0;
    proof {
        assert(ids@.subrange(0, 0) =~= Seq::<usize>::empty());
    }
    while a < ids.len()
        invariant
            nfa.wf(),
            forall|i: int| 0 <= i < ids@.len() ==> (#[trigger] ids@[i]) < nfa.state_count(),
            0 <= a <= ids@.len(),
            acc == spec_best_label(*nfa, ids@.subrange(0, a as int)),
        decreases ids@.len() - a,
    {
        let s = ids.id_at(a);
        let lbl = nfa.accept[s];
        acc = match (acc, lbl) {
            (None, x) => x,
            (Some(x), None) => Some(x),
            (Some(x), Some(y)) => if x <= y {
                Some(x)
            } else {
                Some(y)
            },
        };
        a = a + 1;
        proof {
            assert(ids@.subrange(0, a as int).drop_last() =~= ids@.subrange(0, a - 1));
        }
    }
    proof {
        assert(ids@.subrange(0, ids@.len() as int) =~= ids@);
    }
    acc
}

/// Everything the construction guarantees of its table of founding
/// subsets: canonical, inside the automaton, never empty, and deduplicated.
pub open spec fn table_ok(nfa: Nfa, t: Seq<IdSet>) -> bool {
    &&& forall|a: int| 0 <= a < t.len() ==> ids_wf((#[trigger] t[a])@) && t[a]@.len() > 0
    &&& forall|a: int, i: int|
        0 <= a < t.len() && 0 <= i < t[a]@.len() ==> (#[trigger] t[a]@[i]) < nfa.state_count()
    &&& forall|a: int, b: int| 0 <= a < b < t.len() ==> (#[trigger] t[a])@ != (#[trigger] t[b])@
}

/// Token `k` leads from a member of `src` taken among the first `a`
/// members (plus the first `b` transitions of member `a`) to target `t`.
pub open spec fn subset_moves_upto(
    nfa: Nfa,
    src: Seq<usize>,
    k: int,
    t: int,
    a: int,
    b: int,
) -> bool {
    exists|x: int, y: int|
        0 <= x < src.len() && (x < a || (x == a && y < b)) && 0 <= y
            < nfa.transitions@[src[x] as int]@.len() && (#[trigger] nfa.trans_at(
            src[x] as int,
            y,
        )).label.has(k) && nfa.trans_at(src[x] as int, y).target == t

}

/// Token `k` leads from some member of `src` to target `t`.
pub open spec fn subset_moves(nfa: Nfa, src: Seq<usize>, k: int, t: int) -> bool {
    subset_moves_upto(nfa, src, k, t, src.len() as int, 0)
}

/// Everything the engine guarantees of a produced automaton and the
/// founding subsets of its states.
pub open spec fn engine_post(nfa: Nfa, d: Dfa, g: Seq<Seq<usize>>) -> bool {
    &&& d.wf()
    &&& d.start == 0
    &&& d.states@.len() >= 1
    &&& g.len() == d.states@.len()
    &&& g[0] == seq![nfa.start]
    &&& forall|a: int| 0 <= a < g.len() ==> ids_wf(#[trigger] g[a]) && g[a].len() > 0
    &&& forall|a: int, i: int|
        0 <= a < g.len() && 0 <= i < g[a].len() ==> (#[trigger] g[a][i]) < nfa.state_count()
    &&& forall|a: int, b: int| 0 <= a < b < g.len() ==> (#[trigger] g[a]) != (#[trigger] g[b])
    &&& forall|a: int|
        0 <= a < g.len() ==> (#[trigger] d.states@[a]).accept == spec_best_label(nfa, g[a])
    &&& forall|a: int, k: int|
        0 <= a < g.len() ==> match #[trigger] d.states@[a].transitions.at(k) {
            Some(t) => t < g.len() && (forall|q: int|
                #![trigger ids_have(g[t as int], q)]
                ids_have(g[t as int], q) <==> subset_moves(nfa, g[a], k, q)),
            None => forall|q: int| !subset_moves(nfa, g[a], k, q),
        }
}

/// Look a subset up in the dedup table, allocating a fresh state id for
/// it when it is new: identical subsets never yield two states.
fn lookup_or_add(table: &mut Vec<IdSet>, cand: &IdSet, nfa: &Nfa) -> (r: usize)
    requires
        nfa.wf(),
        table_ok(*nfa, old(table)@),
        ids_wf(cand@),
        cand@.len() > 0,
        forall|i: int| 0 <= i < cand@.len() ==> (#[trigger] cand@[i]) < nfa.state_count(),
    ensures
        table_ok(*nfa, final(table)@),
        old(table)@.len() <= final(table)@.len() <= old(table)@.len() + 1,
        r < final(table)@.len(),
        final(table)@[r as int]@ == cand@,
        forall|a: int| 0 <= a < old(table)@.len() ==> final(table)@[a] == old(table)@[a],
{
    let n = table.len();
    let mut idx: usize = 0;
    while idx < n
        invariant
            n == table@.len(),
            0 <= idx <= n,
            forall|a: int| 0 <= a < idx ==> (#[trigger] table@[a])@ != cand@,
            table_ok(*nfa, table@),
            ids_wf(cand@),
        decreases n - idx,
    {
        if table[idx].eq_val(cand) {
            return idx;
        }
        idx = idx + 1;
    }
    let fresh = cand.dup();
    table.push(fresh);
    proof {
        assert(table@.last()@ == cand@);
        assert forall|a: int, b: int| 0 <= a < b < table@.len() implies (#[trigger] table@[a])@
            != (#[trigger] table@[b])@ by {
            if b == table@.len() - 1 {
                assert(table@[a]@ != cand@);
            }
        }
    }
    n
}

/// Subset construction with range partitioning: turn a nondeterministic
/// automaton into a deterministic one whose transitions are disjoint,
/// coalesced token ranges, deduplicating states by the set of
/// nondeterministic states they stand for.
///
/// The construction fails exactly when an input transition carries an
/// empty token set. Alongside the automaton it returns, for the proofs'
/// benefit, the founding subset of each produced state.
#[verifier::rlimit(100)]
pub fn determinize(nfa: &Nfa) -> (r: Result<
    (Dfa, Ghost<Seq<Seq<usize>>>),
    MalformedTransitionError,
>)
    requires
        nfa.wf(),
    ensures
        match r {
            Ok((d, g)) => {
                &&& engine_post(*nfa, d, g@)
                &&& forall|a: int, b: int|
                    0 <= a < nfa.state_count() && 0 <= b < nfa.transitions@[a]@.len()
                        ==> label_nonempty((#[trigger] nfa.trans_at(a, b)).label)
            },
            Err(e) => {
                &&& e.state < nfa.state_count()
                &&& e.index < nfa.transitions@[e.state as int]@.len()
                &&& forall|k: int| !nfa.trans_at(e.state as int, e.index as int).label.has(k)
            },
        },
{
    let n = nfa.transitions.len();
    // pre-validate: a transition with an empty token set is malformed
    let mut s: usize = 0;
    while s < n
        invariant
            nfa.wf(),
            n == nfa.state_count(),
            0 <= s <= n,
            forall|a: int, b: int|
                0 <= a < s && 0 <= b < nfa.transitions@[a]@.len() ==> label_nonempty(
                    (#[trigger] nfa.trans_at(a, b)).label,
                ),
        decreases n - s,
    {
        let mut b: usize = 0;
        while b < nfa.transitions[s].len()
            invariant
                nfa.wf(),
                n == nfa.state_count(),
                0 <= s < n,
                0 <= b <= nfa.transitions@[s as int]@.len(),
                forall|a: int, y: int|
                    0 <= a < s && 0 <= y < nfa.transitions@[a]@.len() ==> label_nonempty(
                        (#[trigger] nfa.trans_at(a, y)).label,
                    ),
                forall|y: int|
                    0 <= y < b ==> label_nonempty(
                        (#[trigger] nfa.trans_at(s as int, y)).label,
                    ),
            decreases nfa.transitions@[s as int]@.len() - b,
        {
            proof {
                assert(nfa.trans_at(s as int, b as int).label.wf());
            }
            if nfa.transitions[s][b].label.is_empty() {
                return Err(MalformedTransitionError { state: s, index: b });
            }
            proof {
                let ts = nfa.trans_at(s as int, b as int).label;
                assert(exists|k: int| ts.has(k));
            }
            b = b + 1;
        }
        s = s + 1;
    }
    // the subset construction proper
    let mut table: Vec<IdSet> = Vec::new();
    table.push(IdSet::single(nfa.start));
    let mut dstates: Vec<DfaState> = Vec::new();
    let mut p: usize = 0;
    proof {
        lemma_table_bound(*nfa, table@);
    }
    while p < table.len()
        invariant
            nfa.wf(),
            n == nfa.state_count(),
            table_ok(*nfa, table@),
            1 <= table@.len() <= pow2(n as nat),
            table@[0]@ == seq![nfa.start],
            dstates@.len() == p,
            0 <= p <= table@.len(),
            forall|a: int|
                0 <= a < p ==> (#[trigger] dstates@[a]).accept == spec_best_label(
                    *nfa,
                    table@[a]@,
                ),
            forall|a: int| 0 <= a < p ==> (#[trigger] dstates@[a]).transitions.wf(),
            forall|a: int, e: int|
                0 <= a < p && 0 <= e < dstates@[a].transitions.entries@.len() ==> (
                #[trigger] dstates@[a].transitions.entries@[e]).1 < table@.len(),
            forall|a: int, k: int|
                0 <= a < p ==> match #[trigger] dstates@[a].transitions.at(k) {
                    Some(t) => t < table@.len() && (forall|q: int|
                        #![trigger ids_have(table@[t as int]@, q)]
                        ids_have(table@[t as int]@, q) <==> subset_moves(
                            *nfa,
                            table@[a]@,
                            k,
                            q,
                        )),
                    None => forall|q: int| !subset_moves(*nfa, table@[a]@, k, q),
                },
        decreases pow2(n as nat) - table@.len(), table@.len() - p,
    {
        let ghost table0 = table@;
        // partition the outgoing transitions of every member state into
        // disjoint ranges, accumulating the reachable target set per range
        let mut part: TokenMap<IdSet> = TokenMap::empty();
        let mut a: usize = 0;
        while a < table[p].len()
            invariant
                nfa.wf(),
                n == nfa.state_count(),
                table_ok(*nfa, table@),
                0 <= p < table@.len(),
                0 <= a <= table@[p as int]@.len(),
                part.wf(),
                forall|k: int|
                    #![trigger part.at(k)]
                    match part.at(k) {
                        None => forall|q: int|
                            !subset_moves_upto(*nfa, table@[p as int]@, k, q, a as int, 0),
                        Some(v) => ids_wf(v) && v.len() > 0 && (forall|i: int|
                            0 <= i < v.len() ==> (#[trigger] v[i]) < nfa.state_count())
                            && (forall|q: int|
                            #![trigger ids_have(v, q)]
                            ids_have(v, q) <==> subset_moves_upto(
                                *nfa,
                                table@[p as int]@,
                                k,
                                q,
                                a as int,
                                0,
                            )),
                    },
            decreases table@[p as int]@.len() - a,
        {
            let src = table[p].id_at(a);
            let mut b: usize = 0;
            while b < nfa.transitions[src].len()
                invariant
                    nfa.wf(),
                    n == nfa.state_count(),
                    table_ok(*nfa, table@),
                    0 <= p < table@.len(),
                    0 <= a < table@[p as int]@.len(),
                    src == table@[p as int]@[a as int],
                    src < n,
                    0 <= b <= nfa.transitions@[src as int]@.len(),
                    part.wf(),
                    forall|k: int|
                        #![trigger part.at(k)]
                        match part.at(k) {
                            None => forall|q: int|
                                !subset_moves_upto(
                                    *nfa,
                                    table@[p as int]@,
                                    k,
                                    q,
                                    a as int,
                                    b as int,
                                ),
                            Some(v) => ids_wf(v) && v.len() > 0 && (forall|i: int|
                                0 <= i < v.len() ==> (#[trigger] v[i]) < nfa.state_count())
                                && (forall|q: int|
                                #![trigger ids_have(v, q)]
                                ids_have(v, q) <==> subset_moves_upto(
                                    *nfa,
                                    table@[p as int]@,
                                    k,
                                    q,
                                    a as int,
                                    b as int,
                                )),
                        },
                decreases nfa.transitions@[src as int]@.len() - b,
            {
                proof {
                    assert(nfa.trans_at(src as int, b as int).label.wf());
                    assert(nfa.trans_at(src as int, b as int).target < n);
                }
                let tgt = nfa.transitions[src][b].target;
                let tr = AddTarget { target: tgt };
                let ghost prev_part = part;
                part.update_set(&nfa.transitions[src][b].label, &tr);
                b = b + 1;
                proof {
                    let sub = table@[p as int]@;
                    let lbl = nfa.trans_at(src as int, b - 1).label;
                    // the pairs admitted now but not before are exactly the
                    // transition just folded in
                    assert forall|k: int, q: int|
                        #![trigger subset_moves_upto(*nfa, sub, k, q, a as int, b as int)]
                        subset_moves_upto(*nfa, sub, k, q, a as int, b as int) <==> (
                        subset_moves_upto(*nfa, sub, k, q, a as int, b - 1) || (lbl.has(k) && q
                            == tgt)) by {
                        if subset_moves_upto(*nfa, sub, k, q, a as int, b as int) {
                            let (x, y) = choose|x: int, y: int|
                                0 <= x < sub.len() && (x < a || (x == a && y < b)) && 0 <= y
                                    < nfa.transitions@[sub[x] as int]@.len() && (
                                #[trigger] nfa.trans_at(sub[x] as int, y)).label.has(k)
                                    && nfa.trans_at(sub[x] as int, y).target == q;
                            if x < a || y < b - 1 {
                                assert(subset_moves_upto(*nfa, sub, k, q, a as int, b - 1));
                            } else {
                                assert(x == a && y == b - 1);
                            }
                        }
                        if subset_moves_upto(*nfa, sub, k, q, a as int, b - 1) {
                            let (x, y) = choose|x: int, y: int|
                                0 <= x < sub.len() && (x < a || (x == a && y < b - 1)) && 0 <= y
                                    < nfa.transitions@[sub[x] as int]@.len() && (
                                #[trigger] nfa.trans_at(sub[x] as int, y)).label.has(k)
                                    && nfa.trans_at(sub[x] as int, y).target == q;
                            assert(subset_moves_upto(*nfa, sub, k, q, a as int, b as int));
                        }
                        if lbl.has(k) && q == tgt {
                            assert(sub[a as int] == src);
                            assert(nfa.trans_at(sub[a as int] as int, b - 1).label.has(k)
                                && nfa.trans_at(sub[a as int] as int, b - 1).target == q);
                            assert(subset_moves_upto(*nfa, sub, k, q, a as int, b as int));
                        }
                    }
                    assert forall|k: int| #![trigger part.at(k)] match part.at(k) {
                        None => forall|q: int|
                            !subset_moves_upto(*nfa, sub, k, q, a as int, b as int),
                        Some(v) => ids_wf(v) && v.len() > 0 && (forall|i: int|
                            0 <= i < v.len() ==> (#[trigger] v[i]) < nfa.state_count()) && (
                        forall|q: int|
                            #![trigger ids_have(v, q)]
                            ids_have(v, q) <==> subset_moves_upto(
                                *nfa,
                                sub,
                                k,
                                q,
                                a as int,
                                b as int,
                            )),
                    } by {
                        if lbl.has(k) {
                            match prev_part.at(k) {
                                None => {
                                    assert(part.at(k) == Some(seq![tgt]));
                                    let w = seq![tgt];
                                    assert forall|q: int| #![trigger ids_have(w, q)] ids_have(
                                        w,
                                        q,
                                    ) <==> subset_moves_upto(
                                        *nfa,
                                        sub,
                                        k,
                                        q,
                                        a as int,
                                        b as int,
                                    ) by {
                                        if ids_have(w, q) {
                                            let m = choose|m: int|
                                                0 <= m < w.len() && w[m] == q;
                                            assert(q == tgt);
                                        }
                                        if q == tgt {
                                            assert(w[0] == tgt);
                                        }
                                    }
                                },
                                Some(v) => {
                                    assert(ids_wf(v));
                                    lemma_ids_insert_props(v, tgt);
                                    assert(part.at(k) == Some(ids_insert(v, tgt)));
                                    let w = ids_insert(v, tgt);
                                    assert forall|i: int| 0 <= i < w.len() implies (
                                    #[trigger] w[i]) < nfa.state_count() by {
                                        assert(ids_have(w, w[i] as int));
                                        if ids_have(v, w[i] as int) {
                                            let m = choose|m: int|
                                                0 <= m < v.len() && v[m] == w[i] as int;
                                            assert(v[m] < nfa.state_count());
                                        }
                                    }
                                },
                            }
                        } else {
                            assert(part.at(k) == prev_part.at(k));
                        }
                    }
                }
            }
            a = a + 1;
            proof {
                let sub = table@[p as int]@;
                let tl = nfa.transitions@[sub[a - 1] as int]@.len() as int;
                assert forall|k: int, q: int|
                    #![trigger subset_moves_upto(*nfa, sub, k, q, a as int, 0)]
                    subset_moves_upto(*nfa, sub, k, q, a as int, 0) <==> subset_moves_upto(
                    *nfa,
                    sub,
                    k,
                    q,
                    a - 1,
                    tl,
                ) by {
                    if subset_moves_upto(*nfa, sub, k, q, a as int, 0) {
                        let (x, y) = choose|x: int, y: int|
                            0 <= x < sub.len() && (x < a || (x == a && y < 0)) && 0 <= y
                                < nfa.transitions@[sub[x] as int]@.len() && (
                            #[trigger] nfa.trans_at(sub[x] as int, y)).label.has(k)
                                && nfa.trans_at(sub[x] as int, y).target == q;
                        assert(subset_moves_upto(*nfa, sub, k, q, a - 1, tl));
                    }
                    if subset_moves_upto(*nfa, sub, k, q, a - 1, tl) {
                        let (x, y) = choose|x: int, y: int|
                            0 <= x < sub.len() && (x < a - 1 || (x == a - 1 && y < tl)) && 0 <= y
                                < nfa.transitions@[sub[x] as int]@.len() && (
                            #[trigger] nfa.trans_at(sub[x] as int, y)).label.has(k)
                                && nfa.trans_at(sub[x] as int, y).target == q;
                        assert(subset_moves_upto(*nfa, sub, k, q, a as int, 0));
                    }
                }
            }
        }
        // allocate or reuse a deterministic state per accumulated subset,
        // and lay the partition down as this state's transition map
        let mut dmap: TokenMap<usize> = TokenMap::empty();
        let mut e: usize = 0;
        let pl = part.len();
        while e < pl
            invariant
                nfa.wf(),
                n == nfa.state_count(),
                table_ok(*nfa, table@),
                1 <= table@.len() <= pow2(n as nat),
                table0.len() <= table@.len(),
                forall|a: int| 0 <= a < table0.len() ==> (#[trigger] table@[a]) == table0[a],
                0 <= p < table0.len(),
                part.wf(),
                pl == part.entries@.len(),
                0 <= e <= pl,
                forall|k: int|
                    #![trigger part.at(k)]
                    match part.at(k) {
                        None => forall|q: int|
                            !subset_moves(*nfa, table@[p as int]@, k, q),
                        Some(v) => ids_wf(v) && v.len() > 0 && (forall|i: int|
                            0 <= i < v.len() ==> (#[trigger] v[i]) < nfa.state_count()) && (
                        forall|q: int|
                            #![trigger ids_have(v, q)]
                            ids_have(v, q) <==> subset_moves(*nfa, table@[p as int]@, k, q)),
                    },
                dmap.wf(),
                forall|y: int|
                    0 <= y < dmap.entries@.len() ==> (#[trigger] dmap.entries@[y]).1
                        < table@.len(),
                forall|k: int|
                    #![trigger dmap.at(k)]
                    match dmap.at(k) {
                        Some(t) => t < table@.len() && (match part.at(k) {
                            Some(v) => table@[t as int]@ == v,
                            None => false,
                        }),
                        None => forall|y: int|
                            0 <= y < e ==> !(#[trigger] part.entries@[y]).0.has(k),
                    },
            decreases pl - e,
        {
            let rng = part.range_at(e);
            proof {
                assert(part.entries@[e as int].0.wf());
                assert(part.entries@[e as int].0.has(rng.lo as int));
                lemma_val_at(part.entries@, rng.lo as int, e as int);
                assert(part.at(rng.lo as int) == Some(part.entries@[e as int].1@));
            }
            let cand = part.value_at(e);
            let ghost tbefore = table@;
            let id = lookup_or_add(&mut table, cand, nfa);
            proof {
                lemma_table_bound(*nfa, table@);
            }
            let ghost dbefore = dmap;
            dmap.insert_range(rng, id);
            e = e + 1;
            proof {
                assert forall|k: int| #![trigger dmap.at(k)] match dmap.at(k) {
                    Some(t) => t < table@.len() && (match part.at(k) {
                        Some(v) => table@[t as int]@ == v,
                        None => false,
                    }),
                    None => forall|y: int|
                        0 <= y < e ==> !(#[trigger] part.entries@[y]).0.has(k),
                } by {
                    if rng.has(k) {
                        assert(dmap.at(k) == Some(id));
                        assert(part.entries@[e - 1].0.has(k));
                        lemma_val_at(part.entries@, k, e - 1);
                        assert(part.at(k) == Some(part.entries@[e - 1].1@));
                        assert(table@[id as int]@ == part.entries@[e - 1].1@);
                    } else {
                        assert(dmap.at(k) == dbefore.at(k));
                        match dbefore.at(k) {
                            Some(t) => {
                                assert(t < tbefore.len());
                                assert(table@[t as int] == tbefore[t as int]);
                            },
                            None => {
                                assert forall|y: int| 0 <= y < e implies !(
                                #[trigger] part.entries@[y]).0.has(k) by {
                                    if y == e - 1 {
                                        assert(!rng.has(k));
                                    }
                                }
                            },
                        }
                    }
                }
                assert forall|y: int| 0 <= y < dmap.entries@.len() implies (
                #[trigger] dmap.entries@[y]).1 < table@.len() by {
                    let k = dmap.entries@[y].0.lo as int;
                    assert(dmap.entries@[y].0.has(k));
                    lemma_val_at(dmap.entries@, k, y);
                    assert(dmap.at(k) == Some(dmap.entries@[y].1));
                    if rng.has(k) {
                        assert(dmap.at(k) == Some(id));
                    } else {
                        assert(dmap.at(k) == dbefore.at(k));
                        if crate::map::covered(dbefore.entries@, k) {
                            let m = choose|m: int|
                                0 <= m < dbefore.entries@.len() && (
                                #[trigger] dbefore.entries@[m]).0.has(k);
                            lemma_val_at(dbefore.entries@, k, m);
                            assert(dbefore.entries@[m].1 < tbefore.len());
                        } else {
                            assert(dbefore.at(k) is None);
                            assert(false);
                        }
                    }
                }
            }
        }
        let acc = best_label(nfa, &table[p]);
        dstates.push(DfaState { transitions: dmap, accept: acc });
        p = p + 1;
        proof {
            lemma_table_bound(*nfa, table@);
            let pi: int = p - 1;
            assert forall|k: int| match #[trigger] dstates@[pi].transitions.at(k) {
                Some(t) => t < table@.len() && (forall|q: int|
                    #![trigger ids_have(table@[t as int]@, q)]
                    ids_have(table@[t as int]@, q) <==> subset_moves(*nfa, table@[pi]@, k, q)),
                None => forall|q: int| !subset_moves(*nfa, table@[pi]@, k, q),
            } by {
                assert(dstates@[pi].transitions == dmap);
                match dmap.at(k) {
                    Some(t) => {
                    },
                    None => {
                        // no partition entry covers the token, so the
                        // accumulated map holds nothing for it
                        if crate::map::covered(part.entries@, k) {
                            let y = choose|y: int|
                                0 <= y < part.entries@.len() && (
                                #[trigger] part.entries@[y]).0.has(k);
                            assert(!part.entries@[y].0.has(k));
                        }
                        assert(part.at(k) is None);
                    },
                }
            }
        }
    }
    let ghost g = Seq::new(table@.len(), |i: int| table@[i]@);
    proof {
        assert(g[0] == seq![nfa.start]);
        assert forall|a: int, b: int| 0 <= a < b < g.len() implies (#[trigger] g[a]) != (
        #[trigger] g[b]) by {
            assert(table@[a]@ != table@[b]@);
        }
    }
    let d = Dfa { start: 0, states: dstates };
    proof {
        assert(d.wf());
        assert forall|a: int, k: int|
            0 <= a < g.len() implies match #[trigger] d.states@[a].transitions.at(k) {
            Some(t) => t < g.len() && (forall|q: int|
                #![trigger ids_have(g[t as int], q)]
                ids_have(g[t as int], q) <==> subset_moves(*nfa, g[a], k, q)),
            None => forall|q: int| !subset_moves(*nfa, g[a], k, q),
        } by {
            assert(g[a] == table@[a]@);
            match dstates@[a].transitions.at(k) {
                Some(t) => {
                    assert(g[t as int] == table@[t as int]@);
                },
                None => {
                },
            }
        }
    }
    Ok((d, Ghost(g)))
}

/// A deduplicated table of canonical subsets cannot outgrow the number
/// of subsets that exist.
proof fn lemma_table_bound(nfa: Nfa, t: Seq<IdSet>)
    requires
        table_ok(nfa, t),
        nfa.state_count() >= 0,
    ensures
        t.len() <= pow2(nfa.state_count() as nat),
{
    let tv = Seq::new(t.len(), |i: int| t[i]@);
    assert forall|a: int| 0 <= a < tv.len() implies ids_wf(#[trigger] tv[a]) by {
        assert(ids_wf(t[a]@));
    }
    assert forall|a: int, i: int|
        0 <= a < tv.len() && 0 <= i < tv[a].len() implies (#[trigger] tv[a][i])
        < nfa.state_count() as nat by {
        assert(t[a]@[i] < nfa.state_count());
    }
    assert forall|a: int, b: int| 0 <= a < b < tv.len() implies (#[trigger] tv[a]) != (
    #[trigger] tv[b]) by {
        assert(t[a]@ != t[b]@);
    }
    lemma_subset_family_bound(tv, nfa.state_count() as nat);
}

} // verus!
