use regular_grammar::Dfa;
use regular_grammar::Nfa;
use regular_grammar::NfaTransition;
use regular_grammar::TokenMap;
use regular_grammar::TokenRange;
use regular_grammar::TokenSet;
use regular_grammar::determinize;

fn range_set(lo: u32, hi: u32) -> TokenSet {
    let mut s = TokenSet::empty();
    s.insert_range(TokenRange::new(lo, hi));
    s
}

fn map_ranges(m: &TokenMap<usize>) -> Vec<(u32, u32, usize)> {
    let mut out = Vec::new();
    for i in 0..m.len() {
        let r = m.range_at(i);
        out.push((r.lo, r.hi, *m.value_at(i)));
    }
    out
}

/// One rule recognizing a single decimal digit.
fn digit_nfa() -> Nfa {
    Nfa {
        start: 0,
        accept: vec![None, Some(0)],
        transitions: vec![
            vec![NfaTransition { label: range_set(0x30, 0x39), target: 1 }],
            vec![],
        ],
    }
}

/// Two overlapping transitions out of the start state.
fn overlap_nfa() -> Nfa {
    Nfa {
        start: 0,
        accept: vec![None, Some(0), Some(1)],
        transitions: vec![
            vec![
                NfaTransition { label: range_set(97, 109), target: 1 },
                NfaTransition { label: range_set(100, 122), target: 2 },
            ],
            vec![],
            vec![],
        ],
    }
}

#[test]
fn digit_grammar_produces_two_state_dfa() {
    let nfa = digit_nfa();
    let (dfa, _founding) = determinize(&nfa).unwrap();
    assert_eq!(dfa.states.len(), 2);
    assert_eq!(dfa.start, 0);
    assert!(dfa.states[0].accept.is_none());
    assert_eq!(map_ranges(&dfa.states[0].transitions), vec![(0x30, 0x39, 1)]);
    assert_eq!(dfa.states[1].accept, Some(0));
    assert_eq!(dfa.states[1].transitions.len(), 0);
    assert!(dfa.is_ascii());
}

#[test]
fn digit_grammar_accepts_digits_only() {
    let nfa = digit_nfa();
    let (dfa, _founding) = determinize(&nfa).unwrap();
    assert!(dfa.accepts(&vec![0x30]));
    assert!(dfa.accepts(&vec![0x39]));
    assert!(!dfa.accepts(&vec![]));
    assert!(!dfa.accepts(&vec![0x2F]));
    assert!(!dfa.accepts(&vec![0x3A]));
    assert!(!dfa.accepts(&vec![0x30, 0x30]));
}

#[test]
fn overlapping_transitions_partition_into_three_ranges() {
    let nfa = overlap_nfa();
    let (dfa, _founding) = determinize(&nfa).unwrap();
    let entries = map_ranges(&dfa.states[0].transitions);
    assert_eq!(entries.len(), 3);
    // [a-c] goes to the state for {X} alone, [d-m] to the merged state
    // for {X, Y}, [n-z] to the state for {Y} alone
    assert_eq!((entries[0].0, entries[0].1), (97, 99));
    assert_eq!((entries[1].0, entries[1].1), (100, 109));
    assert_eq!((entries[2].0, entries[2].1), (110, 122));
    assert_ne!(entries[0].2, entries[1].2);
    assert_ne!(entries[1].2, entries[2].2);
    assert_ne!(entries[0].2, entries[2].2);
    // the merged destination accepts with the lowest label of {X, Y}
    assert_eq!(dfa.states[entries[0].2].accept, Some(0));
    assert_eq!(dfa.states[entries[1].2].accept, Some(0));
    assert_eq!(dfa.states[entries[2].2].accept, Some(1));
}

#[test]
fn nfa_and_dfa_agree_on_samples() {
    for nfa in [digit_nfa(), overlap_nfa()] {
        let (dfa, _founding) = determinize(&nfa).unwrap();
        let mut samples: Vec<Vec<u32>> = vec![vec![]];
        for t in [0x2F, 0x30, 0x39, 0x3A, 96, 97, 99, 100, 109, 110, 122, 123] {
            samples.push(vec![t]);
            samples.push(vec![t, t]);
            samples.push(vec![97, t]);
        }
        for w in &samples {
            assert_eq!(nfa.accepts(w), dfa.accepts(w), "word {:?}", w);
        }
    }
}

fn shape(d: &Dfa) -> (usize, usize, usize) {
    let states = d.states.len();
    let mut transitions = 0;
    let mut accepting = 0;
    for st in &d.states {
        transitions += st.transitions.len();
        if st.accept.is_some() {
            accepting += 1;
        }
    }
    (states, transitions, accepting)
}

#[test]
fn determinization_is_deterministic() {
    let (d1, _g1) = determinize(&overlap_nfa()).unwrap();
    let (d2, _g2) = determinize(&overlap_nfa()).unwrap();
    assert_eq!(shape(&d1), shape(&d2));
    assert_eq!(d1.start, d2.start);
    for (a, b) in d1.states.iter().zip(d2.states.iter()) {
        assert_eq!(a.accept, b.accept);
        assert_eq!(map_ranges(&a.transitions), map_ranges(&b.transitions));
    }
}

#[test]
fn empty_label_is_malformed() {
    let nfa = Nfa {
        start: 0,
        accept: vec![None, Some(0)],
        transitions: vec![
            vec![NfaTransition { label: TokenSet::empty(), target: 1 }],
            vec![],
        ],
    };
    let err = match determinize(&nfa) {
        Err(e) => e,
        Ok(_) => panic!("an empty token set must be rejected"),
    };
    assert_eq!(err.state, 0);
    assert_eq!(err.index, 0);
}

#[test]
fn non_ascii_transition_is_detected() {
    let nfa = Nfa {
        start: 0,
        accept: vec![None, Some(0)],
        transitions: vec![
            vec![NfaTransition { label: range_set(0x30, 0x1F600), target: 1 }],
            vec![],
        ],
    };
    let (dfa, _founding) = determinize(&nfa).unwrap();
    assert!(!dfa.is_ascii());
}
