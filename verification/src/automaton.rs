use vstd::prelude::*;

use crate::TokenRange;
use crate::map::TokenMap;
use crate::map::MapValue;
use crate::map::entries_wf;
use crate::map::val_at;
use crate::map::lemma_val_at;
use crate::map::covered;
use crate::set::TokenSet;

verus! {

impl MapValue for usize {
    fn eq_val(&self, other: &Self) -> (r: bool) {
        *self == *other
    }

    fn dup(&self) -> (r: Self) {
        *self
    }
}

/// One nondeterministic transition: a set of tokens and the state it
/// leads to.
pub struct NfaTransition {
    pub label: TokenSet,
    pub target: usize,
}

/// A nondeterministic automaton: states are indices, each with its
/// outgoing transitions and an optional accept label.
pub struct Nfa {
    pub start: usize,
    pub accept: Vec<Option<u32>>,
    pub transitions: Vec<Vec<NfaTransition>>,
}

impl Nfa {
    pub open spec fn state_count(self) -> int {
        self.transitions@.len() as int
    }

    pub open spec fn trans_at(self, a: int, b: int) -> NfaTransition {
        self.transitions@[a]@[b]
    }

    pub open spec fn wf(self) -> bool {
        &&& self.accept@.len() == self.state_count()
        &&& 0 <= self.start < self.state_count()
        &&& forall|a: int, b: int|
            0 <= a < self.state_count() && 0 <= b < self.transitions@[a]@.len() ==> (
            #[trigger] self.trans_at(a, b)).target < self.state_count()
                && self.trans_at(a, b).label.wf()
    }

    /// Token `k` leads from some state of `src` to state `t`.
    pub open spec fn moves(self, src: Set<int>, k: int, t: int) -> bool {
        exists|a: int, b: int|
            0 <= a < self.state_count() && src.contains(a) && 0 <= b
                < self.transitions@[a]@.len() && (#[trigger] self.trans_at(a, b)).label.has(k)
                && self.trans_at(a, b).target == t
    }

    /// The set of states reachable on a word: the nondeterministic
    /// automaton's semantics.
    pub open spec fn reach(self, w: Seq<u32>) -> Set<int>
        decreases w.len(),
    {
        if w.len() == 0 {
            Set::new(|t: int| t == self.start)
        } else {
            Set::new(|t: int| self.moves(self.reach(w.drop_last()), w.last() as int, t))
        }
    }

    /// The automaton accepts a word when some reachable state accepts.
    pub open spec fn spec_accepts(self, w: Seq<u32>) -> bool {
        exists|t: int|
            0 <= t < self.state_count() && self.reach(w).contains(t) && (
            #[trigger] self.accept@[t]) is Some
    }

    /// Run the automaton on a word by tracking the reachable state set.
    pub fn accepts(&self, w: &Vec<u32>) -> (r: bool)
        requires
            self.wf(),
        ensures
            r == self.spec_accepts(w@),
    {
        let mut cur = crate::subset::IdSet::single(self.start);
        let mut i: usize = 0;
        proof {
            assert forall|t: int| crate::subset::ids_have(cur@, t) <==> self.reach(
                w@.subrange(0, 0),
            ).contains(t) by {
                assert(w@.subrange(0, 0).len() == 0);
                if crate::subset::ids_have(cur@, t) {
                    let j = choose|j: int| 0 <= j < cur@.len() && cur@[j] == t;
                }
                if t == self.start {
                    assert(cur@[0] == t);
                }
            }
        }
        while i < w.len()
            invariant
                self.wf(),
                0 <= i <= w@.len(),
                cur.wf(),
                forall|j: int| 0 <= j < cur@.len() ==> (#[trigger] cur@[j]) < self.state_count(),
                forall|t: int|
                    #![trigger crate::subset::ids_have(cur@, t)]
                    crate::subset::ids_have(cur@, t) <==> self.reach(
                        w@.subrange(0, i as int),
                    ).contains(t),
            decreases w@.len() - i,
        {
            let k = w[i];
            let ghost prev_reach = self.reach(w@.subrange(0, i as int));
            let mut next = crate::subset::IdSet { ids: Vec::new() };
            let mut a: usize = 0;
            proof {
                assert(crate::subset::ids_wf(next@));
            }
            while a < cur.len()
                invariant
                    self.wf(),
                    cur.wf(),
                    forall|j: int|
                        0 <= j < cur@.len() ==> (#[trigger] cur@[j]) < self.state_count(),
                    0 <= a <= cur@.len(),
                    next.wf(),
                    forall|j: int|
                        0 <= j < next@.len() ==> (#[trigger] next@[j]) < self.state_count(),
                    forall|t: int|
                        #![trigger crate::subset::ids_have(next@, t)]
                        crate::subset::ids_have(next@, t) <==> exists|x: int, b: int|
                            0 <= x < a && 0 <= b < self.transitions@[cur@[x] as int]@.len() && (
                            #[trigger] self.trans_at(cur@[x] as int, b)).label.has(k as int)
                                && self.trans_at(cur@[x] as int, b).target == t,
                decreases cur@.len() - a,
            {
                let s = cur.id_at(a);
                let trs = &self.transitions[s];
                let mut b: usize = 0;
                while b < trs.len()
                    invariant
                        self.wf(),
                        cur.wf(),
                        forall|j: int|
                            0 <= j < cur@.len() ==> (#[trigger] cur@[j]) < self.state_count(),
                        0 <= a < cur@.len(),
                        s == cur@[a as int],
                        s < self.state_count(),
                        trs@ == self.transitions@[s as int]@,
                        0 <= b <= trs@.len(),
                        next.wf(),
                        forall|j: int|
                            0 <= j < next@.len() ==> (#[trigger] next@[j]) < self.state_count(),
                        forall|t: int|
                            #![trigger crate::subset::ids_have(next@, t)]
                            crate::subset::ids_have(next@, t) <==> exists|x: int, y: int|
                                0 <= x < cur@.len() && (x < a || (x == a && y < b)) && 0 <= y
                                    < self.transitions@[cur@[x] as int]@.len() && (
                                #[trigger] self.trans_at(cur@[x] as int, y)).label.has(k as int)
                                    && self.trans_at(cur@[x] as int, y).target == t,
                    decreases trs@.len() - b,
                {
                    let ghost prev_next = next@;
                    proof {
                        assert(trs@[b as int] == self.trans_at(s as int, b as int));
                        assert(self.trans_at(s as int, b as int).label.wf());
                    }
                    if trs[b].label.contains_token(k) {
                        next.insert_id(trs[b].target);
                    }
                    b = b + 1;
                    proof {
                        assert forall|j: int| 0 <= j < next@.len() implies (#[trigger] next@[j])
                            < self.state_count() by {
                            assert(crate::subset::ids_have(next@, next@[j] as int));
                            if crate::subset::ids_have(prev_next, next@[j] as int) {
                                let m = choose|m: int|
                                    0 <= m < prev_next.len() && prev_next[m] == next@[j] as int;
                                assert(prev_next[m] < self.state_count());
                            }
                        }
                        assert forall|t: int|
                            #![trigger crate::subset::ids_have(next@, t)]
                            crate::subset::ids_have(next@, t) <==> exists|x: int, y: int|
                                0 <= x < cur@.len() && (x < a || (x == a && y < b)) && 0 <= y
                                    < self.transitions@[cur@[x] as int]@.len() && (
                                #[trigger] self.trans_at(cur@[x] as int, y)).label.has(k as int)
                                    && self.trans_at(cur@[x] as int, y).target == t by {
                            if crate::subset::ids_have(next@, t) {
                                if crate::subset::ids_have(prev_next, t) {
                                    let (x, y) = choose|x: int, y: int|
                                        0 <= x < cur@.len() && (x < a || (x == a && y < b - 1))
                                            && 0 <= y < self.transitions@[cur@[x] as int]@.len()
                                            && (#[trigger] self.trans_at(
                                            cur@[x] as int,
                                            y,
                                        )).label.has(k as int) && self.trans_at(
                                            cur@[x] as int,
                                            y,
                                        ).target == t;
                                    assert(self.trans_at(cur@[x] as int, y).label.has(k as int)
                                        && self.trans_at(cur@[x] as int, y).target == t);
                                } else {
                                    assert(self.trans_at(s as int, b - 1).label.has(k as int)
                                        && self.trans_at(s as int, b - 1).target == t);
                                }
                            } else {
                                if exists|x: int, y: int|
                                    0 <= x < cur@.len() && (x < a || (x == a && y < b)) && 0 <= y
                                        < self.transitions@[cur@[x] as int]@.len() && (
                                    #[trigger] self.trans_at(cur@[x] as int, y)).label.has(
                                        k as int,
                                    ) && self.trans_at(cur@[x] as int, y).target == t {
                                    let (x, y) = choose|x: int, y: int|
                                        0 <= x < cur@.len() && (x < a || (x == a && y < b)) && 0
                                            <= y < self.transitions@[cur@[x] as int]@.len() && (
                                        #[trigger] self.trans_at(cur@[x] as int, y)).label.has(
                                            k as int,
                                        ) && self.trans_at(cur@[x] as int, y).target == t;
                                    if x < a || (x == a && y < b - 1) {
                                        assert(crate::subset::ids_have(prev_next, t));
                                    } else {
                                        assert(x == a && y == b - 1);
                                        assert(crate::subset::ids_have(next@, t));
                                    }
                                    assert(false);
                                }
                            }
                        }
                    }
                }
                a = a + 1;
            }
            proof {
                let wi = w@.subrange(0, i as int + 1);
                assert(wi.drop_last() =~= w@.subrange(0, i as int));
                assert(wi.last() == k);
                assert forall|t: int|
                    #![trigger crate::subset::ids_have(next@, t)]
                    crate::subset::ids_have(next@, t) <==> self.reach(wi).contains(t) by {
                    if crate::subset::ids_have(next@, t) {
                        let (x, y) = choose|x: int, y: int|
                            0 <= x < cur@.len() && 0 <= y
                                < self.transitions@[cur@[x] as int]@.len() && (
                            #[trigger] self.trans_at(cur@[x] as int, y)).label.has(k as int)
                                && self.trans_at(cur@[x] as int, y).target == t;
                        assert(crate::subset::ids_have(cur@, cur@[x] as int));
                        assert(prev_reach.contains(cur@[x] as int));
                        assert(self.moves(prev_reach, k as int, t));
                    }
                    if self.reach(wi).contains(t) {
                        assert(self.moves(prev_reach, k as int, t));
                        let (a2, b2) = choose|a2: int, b2: int|
                            0 <= a2 < self.state_count() && prev_reach.contains(a2) && 0 <= b2
                                < self.transitions@[a2]@.len() && (#[trigger] self.trans_at(
                                a2,
                                b2,
                            )).label.has(k as int) && self.trans_at(a2, b2).target == t;
                        assert(crate::subset::ids_have(cur@, a2));
                        let x = choose|x: int| 0 <= x < cur@.len() && cur@[x] == a2;
                        assert(self.trans_at(cur@[x] as int, b2).label.has(k as int)
                            && self.trans_at(cur@[x] as int, b2).target == t);
                    }
                }
            }
            cur = next;
            i = i + 1;
        }
        proof {
            assert(w@.subrange(0, w@.len() as int) =~= w@);
        }
        let mut a: usize = 0;
        while a < cur.len()
            invariant
                self.wf(),
                cur.wf(),
                forall|j: int| 0 <= j < cur@.len() ==> (#[trigger] cur@[j]) < self.state_count(),
                forall|t: int|
                    #![trigger crate::subset::ids_have(cur@, t)]
                    crate::subset::ids_have(cur@, t) <==> self.reach(w@).contains(t),
                0 <= a <= cur@.len(),
                forall|x: int| 0 <= x < a ==> (#[trigger] self.accept@[cur@[x] as int]) is None,
            decreases cur@.len() - a,
        {
            let s = cur.id_at(a);
            if self.accept[s].is_some() {
                proof {
                    assert(crate::subset::ids_have(cur@, s as int));
                    assert(self.reach(w@).contains(s as int));
                }
                return true;
            }
            a = a + 1;
        }
        proof {
            if self.spec_accepts(w@) {
                let t = choose|t: int|
                    0 <= t < self.state_count() && self.reach(w@).contains(t) && (
                    #[trigger] self.accept@[t]) is Some;
                assert(crate::subset::ids_have(cur@, t));
                let x = choose|x: int| 0 <= x < cur@.len() && cur@[x] == t;
            }
        }
        false
    }
}

/// One deterministic state: a map from disjoint token ranges to target
/// state ids, and an optional accept label.
pub struct DfaState {
    pub transitions: TokenMap<usize>,
    pub accept: Option<u32>,
}

/// A deterministic automaton: the engine's artifact, immutable once
/// built.
pub struct Dfa {
    pub start: usize,
    pub states: Vec<DfaState>,
}

impl Dfa {
    pub open spec fn state_count(self) -> int {
        self.states@.len() as int
    }

    pub open spec fn wf(self) -> bool {
        &&& 0 <= self.start < self.state_count()
        &&& forall|i: int|
            0 <= i < self.state_count() ==> (#[trigger] self.states@[i]).transitions.wf()
        &&& forall|i: int, e: int|
            0 <= i < self.state_count() && 0 <= e < self.states@[i].transitions.entries@.len()
                ==> (#[trigger] self.states@[i].transitions.entries@[e]).1 < self.state_count()
    }

    /// Where token `k` leads from state `s`.
    pub open spec fn step(self, s: int, k: int) -> Option<usize> {
        val_at(self.states@[s].transitions.entries@, k)
    }

    /// The state reached from `s` on a word, if every step is defined.
    pub open spec fn run_from(self, s: int, w: Seq<u32>) -> Option<int>
        decreases w.len(),
    {
        if w.len() == 0 {
            Some(s)
        } else {
            match self.run_from(s, w.drop_last()) {
                Some(t) => match self.step(t, w.last() as int) {
                    Some(u) => Some(u as int),
                    None => None,
                },
                None => None,
            }
        }
    }

    /// The automaton accepts a word when the run ends in an accepting
    /// state.
    pub open spec fn spec_accepts(self, w: Seq<u32>) -> bool {
        match self.run_from(self.start as int, w) {
            Some(t) => 0 <= t < self.state_count() && self.states@[t].accept is Some,
            None => false,
        }
    }

    /// Follow the word step by step.
    pub fn accepts(&self, w: &Vec<u32>) -> (r: bool)
        requires
            self.wf(),
        ensures
            r == self.spec_accepts(w@),
    {
        let mut s: usize = self.start;
        let mut i: usize = 0;
        while i < w.len()
            invariant
                self.wf(),
                0 <= i <= w@.len(),
                s < self.state_count(),
                self.run_from(self.start as int, w@.subrange(0, i as int)) == Some(s as int),
            decreases w@.len() - i,
        {
            match self.states[s].transitions.get(w[i]) {
                Some(t) => {
                    let t2 = *t;
                    proof {
                        let wi = w@.subrange(0, i as int + 1);
                        assert(wi.drop_last() =~= w@.subrange(0, i as int));
                        // any stored target stays inside the automaton
                        let e = choose|e: int|
                            0 <= e < self.states@[s as int].transitions.entries@.len() && (
                            #[trigger] self.states@[s as int].transitions.entries@[e]).1@ == t2;
                        assert(self.states@[s as int].transitions.entries@[e].1
                            < self.state_count());
                    }
                    s = t2;
                },
                None => {
                    proof {
                        let wi = w@.subrange(0, i as int + 1);
                        assert(wi.drop_last() =~= w@.subrange(0, i as int));
                        lemma_run_extends_none(*self, w@, i as int);
                    }
                    return false;
                },
            }
            i = i + 1;
        }
        proof {
            assert(w@.subrange(0, w@.len() as int) =~= w@);
        }
        let acc = self.states[s].accept;
        acc.is_some()
    }

    /// Is every transition of the whole automaton inside the ASCII
    /// subrange?
    pub fn is_ascii(&self) -> (r: bool)
        requires
            self.wf(),
        ensures
            r <==> forall|i: int, e: int|
                0 <= i < self.state_count() && 0 <= e
                    < self.states@[i].transitions.entries@.len() ==> (
                #[trigger] self.states@[i].transitions.entries@[e]).0.hi <= 127,
    {
        let mut i: usize = 0;
        while i < self.states.len()
            invariant
                self.wf(),
                0 <= i <= self.state_count(),
                forall|x: int, e: int|
                    0 <= x < i && 0 <= e < self.states@[x].transitions.entries@.len() ==> (
                    #[trigger] self.states@[x].transitions.entries@[e]).0.hi <= 127,
            decreases self.state_count() - i,
        {
            let m = self.states[i].transitions.len();
            let mut e: usize = 0;
            while e < m
                invariant
                    self.wf(),
                    0 <= i < self.state_count(),
                    m == self.states@[i as int].transitions.entries@.len(),
                    0 <= e <= m,
                    forall|y: int|
                        0 <= y < e ==> (#[trigger] self.states@[i as int].transitions.entries@[y]).0.hi
                            <= 127,
                decreases m - e,
            {
                if self.states[i].transitions.range_at(e).hi > 127 {
                    return false;
                }
                e = e + 1;
            }
            i = i + 1;
        }
        true
    }
}

/// A failed step anywhere in a word makes the whole run undefined.
proof fn lemma_run_extends_none(d: Dfa, w: Seq<u32>, i: int)
    requires
        0 <= i < w.len(),
        (match d.run_from(d.start as int, w.subrange(0, i)) {
            Some(t) => d.step(t, w[i] as int) is None,
            None => true,
        }),
    ensures
        d.run_from(d.start as int, w) is None,
    decreases w.len() - i,
{
    if i + 1 == w.len() {
        assert(w.drop_last() =~= w.subrange(0, i));
    } else {
        let wi = w.subrange(0, i + 1);
        assert(wi.drop_last() =~= w.subrange(0, i));
        assert(d.run_from(d.start as int, wi) is None);
        lemma_run_extends_none_step(d, w, i + 1);
    }
}

/// Once the run is undefined on a prefix, it stays undefined.
proof fn lemma_run_extends_none_step(d: Dfa, w: Seq<u32>, i: int)
    requires
        0 < i <= w.len(),
        d.run_from(d.start as int, w.subrange(0, i)) is None,
    ensures
        d.run_from(d.start as int, w) is None,
    decreases w.len() - i,
{
    if i == w.len() {
        assert(w.subrange(0, i) =~= w);
    } else {
        let wi = w.subrange(0, i + 1);
        assert(wi.drop_last() =~= w.subrange(0, i));
        lemma_run_extends_none_step(d, w, i + 1);
    }
}

} // verus!
