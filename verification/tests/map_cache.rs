use regular_grammar::AddTarget;
use regular_grammar::IdSet;
use regular_grammar::Nfa;
use regular_grammar::NfaTransition;
use regular_grammar::TokenMap;
use regular_grammar::TokenRange;
use regular_grammar::TokenSet;
use regular_grammar::build_with_cache;
use regular_grammar::cache_lookup;
use regular_grammar::decode_dfa;
use regular_grammar::determinize;
use regular_grammar::encode_dfa;
use regular_grammar::fingerprint;

fn map_ranges(m: &TokenMap<usize>) -> Vec<(u32, u32, usize)> {
    let mut out = Vec::new();
    for i in 0..m.len() {
        let r = m.range_at(i);
        out.push((r.lo, r.hi, *m.value_at(i)));
    }
    out
}

#[test]
fn insert_range_overwrites_exactly_the_range() {
    let mut m: TokenMap<usize> = TokenMap::empty();
    assert!(m.is_empty());
    m.insert_range(TokenRange::new(10, 30), 1);
    m.insert_range(TokenRange::new(15, 20), 2);
    // inside the inserted range every token maps to the new value,
    // outside it nothing changed: the old range is split around it
    assert_eq!(map_ranges(&m), vec![(10, 14, 1), (15, 20, 2), (21, 30, 1)]);
    for k in [15u32, 17, 20] {
        assert_eq!(m.get(k).copied(), Some(2));
    }
    for k in [10u32, 14, 21, 30] {
        assert_eq!(m.get(k).copied(), Some(1));
    }
    assert_eq!(m.get(9).copied(), None);
    assert_eq!(m.get(31).copied(), None);
}

#[test]
fn insert_coalesces_adjacent_equal_values() {
    let mut m: TokenMap<usize> = TokenMap::empty();
    m.insert_range(TokenRange::new(10, 19), 7);
    m.insert_range(TokenRange::new(20, 29), 7);
    assert_eq!(map_ranges(&m), vec![(10, 29, 7)]);
    m.insert_range(TokenRange::new(30, 39), 8);
    assert_eq!(map_ranges(&m), vec![(10, 29, 7), (30, 39, 8)]);
}

#[test]
fn insert_spans_and_splits_several_entries() {
    let mut m: TokenMap<usize> = TokenMap::empty();
    m.insert_range(TokenRange::new(10, 19), 1);
    m.insert_range(TokenRange::new(30, 39), 2);
    // the new range swallows the gap, coalesces with the equal-valued
    // left neighbor, and splits the right one
    m.insert_range(TokenRange::new(15, 34), 1);
    assert_eq!(map_ranges(&m), vec![(10, 34, 1), (35, 39, 2)]);
}

#[test]
fn insert_set_decomposes_per_range() {
    let mut s = TokenSet::empty();
    s.insert_range(TokenRange::new(1, 3));
    s.insert_range(TokenRange::new(8, 9));
    let mut m: TokenMap<usize> = TokenMap::empty();
    m.insert_set(&s, 5);
    assert_eq!(map_ranges(&m), vec![(1, 3, 5), (8, 9, 5)]);
}

#[test]
fn insert_set_tolerates_malformed_sets() {
    // a hand-assembled set violating normalization: overlapping ranges
    // and a degenerate one; insertion must not panic, later ranges are
    // authoritative (the value is the same everywhere)
    let mut s = TokenSet::empty();
    s.ranges.push(TokenRange::new(5, 10));
    s.ranges.push(TokenRange::new(8, 12));
    s.ranges.push(TokenRange { lo: 9, hi: 7 });
    let mut m: TokenMap<usize> = TokenMap::empty();
    m.insert_set(&s, 3);
    assert_eq!(map_ranges(&m), vec![(5, 12, 3)]);
    assert_eq!(m.get(4).copied(), None);
    assert_eq!(m.get(13).copied(), None);
}

#[test]
fn update_set_merges_targets_per_segment() {
    let mut part: TokenMap<IdSet> = TokenMap::empty();
    let mut ab = TokenSet::empty();
    ab.insert_range(TokenRange::new(97, 109));
    part.update_set(&ab, &AddTarget { target: 1 });
    let mut dz = TokenSet::empty();
    dz.insert_range(TokenRange::new(100, 122));
    part.update_set(&dz, &AddTarget { target: 2 });
    assert_eq!(part.len(), 3);
    let segs: Vec<(u32, u32, Vec<usize>)> = (0..part.len())
        .map(|i| {
            let r = part.range_at(i);
            (r.lo, r.hi, part.value_at(i).ids.clone())
        })
        .collect();
    assert_eq!(segs[0], (97, 99, vec![1]));
    assert_eq!(segs[1], (100, 109, vec![1, 2]));
    assert_eq!(segs[2], (110, 122, vec![2]));
}

fn digit_nfa() -> Nfa {
    let mut label = TokenSet::empty();
    label.insert_range(TokenRange::new(0x30, 0x39));
    Nfa {
        start: 0,
        accept: vec![None, Some(0)],
        transitions: vec![vec![NfaTransition { label, target: 1 }], vec![]],
    }
}

#[test]
fn fingerprint_matches_reference_values() {
    assert_eq!(fingerprint(&vec![]), 0xcbf29ce484222325);
    assert_eq!(fingerprint(&vec![0x61, 0x62, 0x63]), 0xe71fa2190541574b);
}

#[test]
fn cache_round_trip_preserves_the_automaton() {
    let (dfa, _g) = determinize(&digit_nfa()).unwrap();
    let fp = fingerprint(&vec![1, 2, 3]);
    let bytes = encode_dfa(&dfa, fp);
    let (loaded, f2) = decode_dfa(&bytes).unwrap();
    assert_eq!(f2, fp);
    assert_eq!(loaded.start, dfa.start);
    assert_eq!(loaded.states.len(), dfa.states.len());
    for (a, b) in loaded.states.iter().zip(dfa.states.iter()) {
        assert_eq!(a.accept, b.accept);
        assert_eq!(map_ranges(&a.transitions), map_ranges(&b.transitions));
    }
    // same accept behavior on a probe set
    for w in [vec![], vec![0x30], vec![0x39], vec![0x2F], vec![0x30, 0x31]] {
        assert_eq!(loaded.accepts(&w), dfa.accepts(&w));
    }
}

#[test]
fn corrupt_or_mismatched_cache_is_a_miss() {
    let (dfa, _g) = determinize(&digit_nfa()).unwrap();
    let fp = fingerprint(&vec![9]);
    let mut bytes = encode_dfa(&dfa, fp);
    assert!(cache_lookup(Some(&bytes), fp).is_some());
    // stored under another fingerprint: a miss
    assert!(cache_lookup(Some(&bytes), fp ^ 1).is_none());
    // truncated content: a miss
    bytes.pop();
    assert!(cache_lookup(Some(&bytes), fp).is_none());
    // no file at all: a miss
    assert!(cache_lookup(None, fp).is_none());
    // garbage is rejected by the decoder
    assert!(decode_dfa(&vec![1, 2, 3]).is_err());
}

#[test]
fn build_with_cache_hits_and_misses() {
    let nfa = digit_nfa();
    let fp = fingerprint(&vec![4, 5]);
    // a miss computes and hands back bytes to store
    let (d1, w1) = build_with_cache(&nfa, None, fp).unwrap();
    let bytes = w1.expect("a miss must produce bytes to store");
    // a hit skips the engine and hands back nothing to store
    let (d2, w2) = build_with_cache(&nfa, Some(&bytes), fp).unwrap();
    assert!(w2.is_none());
    assert_eq!(d1.states.len(), d2.states.len());
    for w in [vec![0x30], vec![0x40]] {
        assert_eq!(d1.accepts(&w), d2.accepts(&w));
    }
}
