use vstd::prelude::*;

use crate::automaton::Dfa;
use crate::automaton::Nfa;
use crate::determinize::engine_post;
use crate::determinize::spec_best_label;
use crate::determinize::subset_moves;
use crate::determinize::subset_moves_upto;
use crate::set::TokenSet;
use crate::subset::ids_have;

verus! {

/// The best label of a subset is absent exactly when no member accepts.
proof fn lemma_best_label_none(nfa: Nfa, s: Seq<usize>)
    ensures
        (spec_best_label(nfa, s) is None) <==> (forall|i: int|
            0 <= i < s.len() ==> (#[trigger] nfa.accept@[s[i] as int]) is None),
    decreases s.len(),
{
    if s.len() > 0 {
        lemma_best_label_none(nfa, s.drop_last());
        assert forall|i: int|
            0 <= i < s.len() && (spec_best_label(nfa, s) is None) implies (
        #[trigger] nfa.accept@[s[i] as int]) is None by {
            if i < s.len() - 1 {
                assert(s.drop_last()[i] == s[i]);
            }
        }
        if forall|i: int| 0 <= i < s.len() ==> (#[trigger] nfa.accept@[s[i] as int]) is None {
            assert forall|i: int|
                0 <= i < s.drop_last().len() implies (#[trigger] nfa.accept@[s.drop_last()[i] as int])
                is None by {
                assert(s.drop_last()[i] == s[i]);
            }
            assert(nfa.accept@[s.last() as int] is None);
        }
    }
}

/// Along any word, the engine's automaton sits in the state founded on
/// exactly the set of states the nondeterministic automaton can reach;
/// when its run dies, nothing is reachable.
proof fn lemma_run_reach(nfa: Nfa, d: Dfa, g: Seq<Seq<usize>>, w: Seq<u32>)
    requires
        nfa.wf(),
        engine_post(nfa, d, g),
    ensures
        match d.run_from(d.start as int, w) {
            Some(t) => 0 <= t < g.len() && (forall|q: int|
                #![trigger ids_have(g[t], q)]
                ids_have(g[t], q) <==> nfa.reach(w).contains(q)),
            None => forall|q: int| !nfa.reach(w).contains(q),
        },
    decreases w.len(),
{
    if w.len() == 0 {
        assert(d.run_from(d.start as int, w) == Some(0int));
        assert forall|q: int| ids_have(g[0], q) <==> nfa.reach(w).contains(q) by {
            if ids_have(g[0], q) {
                let x = choose|x: int| 0 <= x < g[0].len() && g[0][x] == q;
                assert(q == nfa.start);
            }
            if q == nfa.start {
                assert(g[0][0] == nfa.start);
            }
        }
    } else {
        let u = w.drop_last();
        let k = w.last() as int;
        lemma_run_reach(nfa, d, g, u);
        match d.run_from(d.start as int, u) {
            None => {
                assert(d.run_from(d.start as int, w) is None);
                assert forall|q: int| !nfa.reach(w).contains(q) by {
                    if nfa.reach(w).contains(q) {
                        assert(nfa.moves(nfa.reach(u), k, q));
                        let (x, y) = choose|x: int, y: int|
                            0 <= x < nfa.state_count() && nfa.reach(u).contains(x) && 0 <= y
                                < nfa.transitions@[x]@.len() && (#[trigger] nfa.trans_at(
                                x,
                                y,
                            )).label.has(k) && nfa.trans_at(x, y).target == q;
                    }
                }
            },
            Some(t) => {
                assert(0 <= t < g.len());
                // each deterministic step mirrors the reachable-set step
                assert forall|q: int| subset_moves(nfa, g[t], k, q) <==> nfa.moves(
                    nfa.reach(u),
                    k,
                    q,
                ) by {
                    if subset_moves(nfa, g[t], k, q) {
                        let (x, y) = choose|x: int, y: int|
                            0 <= x < g[t].len() && (x < g[t].len() as int || (x == g[t].len()
                                && y < 0)) && 0 <= y < nfa.transitions@[g[t][x] as int]@.len()
                                && (#[trigger] nfa.trans_at(g[t][x] as int, y)).label.has(k)
                                && nfa.trans_at(g[t][x] as int, y).target == q;
                        assert(ids_have(g[t], g[t][x] as int));
                        assert(nfa.reach(u).contains(g[t][x] as int));
                        assert(nfa.moves(nfa.reach(u), k, q));
                    }
                    if nfa.moves(nfa.reach(u), k, q) {
                        let (x, y) = choose|x: int, y: int|
                            0 <= x < nfa.state_count() && nfa.reach(u).contains(x) && 0 <= y
                                < nfa.transitions@[x]@.len() && (#[trigger] nfa.trans_at(
                                x,
                                y,
                            )).label.has(k) && nfa.trans_at(x, y).target == q;
                        assert(ids_have(g[t], x));
                        let m = choose|m: int| 0 <= m < g[t].len() && g[t][m] == x;
                        assert(nfa.trans_at(g[t][m] as int, y).label.has(k) && nfa.trans_at(
                            g[t][m] as int,
                            y,
                        ).target == q);
                        assert(subset_moves_upto(nfa, g[t], k, q, g[t].len() as int, 0));
                    }
                }
                match d.states@[t].transitions.at(k) {
                    Some(t2) => {
                        assert(d.run_from(d.start as int, w) == Some(t2 as int));
                        assert forall|q: int|
                            #![trigger ids_have(g[t2 as int], q)]
                            ids_have(g[t2 as int], q) <==> nfa.reach(w).contains(q) by {
                            assert(ids_have(g[t2 as int], q) <==> subset_moves(
                                nfa,
                                g[t],
                                k,
                                q,
                            ));
                        }
                    },
                    None => {
                        assert(d.run_from(d.start as int, w) is None);
                        assert forall|q: int| !nfa.reach(w).contains(q) by {
                            if nfa.reach(w).contains(q) {
                                assert(nfa.moves(nfa.reach(u), k, q));
                                assert(subset_moves(nfa, g[t], k, q));
                            }
                        }
                    },
                }
            },
        }
    }
}

/// The engine preserves the language: the automaton it produces accepts
/// exactly the words the nondeterministic automaton accepts.
pub proof fn lemma_language_preserved(nfa: Nfa, d: Dfa, g: Seq<Seq<usize>>, w: Seq<u32>)
    requires
        nfa.wf(),
        engine_post(nfa, d, g),
    ensures
        d.spec_accepts(w) == nfa.spec_accepts(w),
{
    lemma_run_reach(nfa, d, g, w);
    match d.run_from(d.start as int, w) {
        None => {
            if nfa.spec_accepts(w) {
                let t = choose|t: int|
                    0 <= t < nfa.state_count() && nfa.reach(w).contains(t) && (
                    #[trigger] nfa.accept@[t]) is Some;
            }
        },
        Some(t) => {
            assert(d.states@[t].accept == spec_best_label(nfa, g[t]));
            lemma_best_label_none(nfa, g[t]);
            if d.spec_accepts(w) {
                // some member of the founding subset accepts
                assert(!(spec_best_label(nfa, g[t]) is None));
                let i = choose|i: int|
                    0 <= i < g[t].len() && !((#[trigger] nfa.accept@[g[t][i] as int]) is None);
                assert(ids_have(g[t], g[t][i] as int));
                assert(nfa.reach(w).contains(g[t][i] as int));
                assert(g[t][i] < nfa.state_count());
                assert(nfa.spec_accepts(w));
            }
            if nfa.spec_accepts(w) {
                let q = choose|q: int|
                    0 <= q < nfa.state_count() && nfa.reach(w).contains(q) && (
                    #[trigger] nfa.accept@[q]) is Some;
                assert(ids_have(g[t], q));
                let m = choose|m: int| 0 <= m < g[t].len() && g[t][m] == q;
                assert(!(nfa.accept@[g[t][m] as int] is None));
                assert(!(spec_best_label(nfa, g[t]) is None));
                assert(d.spec_accepts(w));
            }
        },
    }
}

/// Merging is commutative under re-normalization: a set holding the
/// union of S and T and one holding the union of T and S contain exactly
/// the same tokens.
pub proof fn lemma_merge_commutative(s: TokenSet, t: TokenSet, st: TokenSet, ts: TokenSet)
    requires
        forall|k: int| #[trigger] st.has(k) <==> (s.has(k) || t.has(k)),
        forall|k: int| #[trigger] ts.has(k) <==> (t.has(k) || s.has(k)),
    ensures
        forall|k: int| #[trigger] st.has(k) <==> ts.has(k),
{
}

/// Merging is idempotent under re-normalization: merging T into a set
/// that already holds the union of S and T changes nothing.
pub proof fn lemma_merge_idempotent(s: TokenSet, t: TokenSet, st: TokenSet, stt: TokenSet)
    requires
        forall|k: int| #[trigger] st.has(k) <==> (s.has(k) || t.has(k)),
        forall|k: int| #[trigger] stt.has(k) <==> (st.has(k) || t.has(k)),
    ensures
        forall|k: int| #[trigger] stt.has(k) <==> st.has(k),
{
}

/// The merged set's intersection test agrees with the union of the two
/// merged sets' intersection tests, on every range.
pub proof fn lemma_merge_intersects(s: TokenSet, t: TokenSet, st: TokenSet, rng: crate::TokenRange)
    requires
        forall|k: int| #[trigger] st.has(k) <==> (s.has(k) || t.has(k)),
    ensures
        (exists|k: int| st.has(k) && rng.has(k)) <==> ((exists|k: int| s.has(k) && rng.has(k))
            || (exists|k: int| t.has(k) && rng.has(k))),
{
    if exists|k: int| st.has(k) && rng.has(k) {
        let k = choose|k: int| st.has(k) && rng.has(k);
        assert(st.has(k));
        assert(s.has(k) || t.has(k));
    }
    if exists|k: int| s.has(k) && rng.has(k) {
        let k = choose|k: int| s.has(k) && rng.has(k);
        assert(st.has(k));
    }
    if exists|k: int| t.has(k) && rng.has(k) {
        let k = choose|k: int| t.has(k) && rng.has(k);
        assert(st.has(k));
    }
}

} // verus!
