use vstd::prelude::*;

use crate::TokenRange;
use crate::automaton::Dfa;
use crate::automaton::DfaState;
use crate::map::TokenMap;

verus! {

/// Corrupt or truncated serialized content: the cache treats it as a
/// miss and recomputes.
#[derive(Clone, Copy, Debug, PartialEq, Eq, Structural)]
pub struct CacheFormatError {
    pub offset: usize,
}

/// Little-endian bytes of a 32-bit value.
pub open spec fn le4(v: u32) -> Seq<u8> {
    seq![
        (v % 0x100) as u8,
        ((v / 0x100) % 0x100) as u8,
        ((v / 0x10000) % 0x100) as u8,
        ((v / 0x1000000) % 0x100) as u8,
    ]
}

/// The 32-bit value four little-endian bytes hold.
pub open spec fn from_le4(s: Seq<u8>) -> u32 {
    (s[0] + s[1] * 0x100 + s[2] * 0x10000 + s[3] * 0x1000000) as u32
}

pub proof fn lemma_le4_roundtrip(v: u32)
    ensures
        from_le4(le4(v)) == v,
{
    assert(v % 0x100 + ((v / 0x100) % 0x100) * 0x100 + ((v / 0x10000) % 0x100) * 0x10000 + ((v
        / 0x1000000) % 0x100) * 0x1000000 == v) by (bit_vector);
}

/// Four bytes survive being read as a value and written back.
pub proof fn lemma_read_roundtrip(s: Seq<u8>)
    requires
        s.len() == 4,
    ensures
        le4(from_le4(s)) == s,
{
    let b0 = s[0];
    let b1 = s[1];
    let b2 = s[2];
    let b3 = s[3];
    let v = from_le4(s);
    assert(v == (b0 + b1 * 0x100 + b2 * 0x10000 + b3 * 0x1000000) as u32);
    assert(v % 0x100 == b0 && (v / 0x100) % 0x100 == b1 && (v / 0x10000) % 0x100 == b2 && (v
        / 0x1000000) % 0x100 == b3) by (bit_vector)
        requires
            v == (b0 + b1 * 0x100 + b2 * 0x10000 + b3 * 0x1000000) as u32,
    ;
    assert(le4(v) =~= s);
}

fn push_u32(out: &mut Vec<u8>, v: u32)
    ensures
        final(out)@ == old(out)@ + le4(v),
{
    let ghost orig = out@;
    out.push((v % 0x100) as u8);
    out.push(((v / 0x100) % 0x100) as u8);
    out.push(((v / 0x10000) % 0x100) as u8);
    out.push(((v / 0x1000000) % 0x100) as u8);
    proof {
        assert(out@ =~= orig + le4(v));
    }
}

fn read_u32(buf: &Vec<u8>, pos: usize) -> (r: u32)
    requires
        pos + 4 <= buf@.len(),
    ensures
        r == from_le4(buf@.subrange(pos as int, pos as int + 4)),
{
    let n = buf.len();
    let b0 = buf[pos] as u32;
    let b1 = buf[pos + 1] as u32;
    let b2 = buf[pos + 2] as u32;
    let b3 = buf[pos + 3] as u32;
    proof {
        assert(b1 * 0x100 <= 0xFF00);
        assert(b2 * 0x10000 <= 0xFF0000);
        assert(b3 * 0x1000000 <= 0xFF000000);
    }
    let r = b0 + b1 * 0x100 + b2 * 0x10000 + b3 * 0x1000000;
    proof {
        let s = buf@.subrange(pos as int, pos as int + 4);
        assert(s[0] == buf@[pos as int] && s[1] == buf@[pos as int + 1] && s[2] == buf@[pos as int
            + 2] && s[3] == buf@[pos as int + 3]);
    }
    r
}

/// The bytes one deterministic state serializes to: accept tag and
/// label, entry count, then each entry's bounds and target.
pub open spec fn spec_encode_state(st: DfaState) -> Seq<u8> {
    (match st.accept {
        Some(l) => le4(1) + le4(l),
        None => le4(0) + le4(0),
    }) + le4(st.transitions.entries@.len() as u32) + spec_encode_entries(
        st.transitions.entries@,
    )
}

/// The bytes a sequence of map entries serializes to.
pub open spec fn spec_encode_entries(s: Seq<(TokenRange, usize)>) -> Seq<u8>
    decreases s.len(),
{
    if s.len() == 0 {
        Seq::empty()
    } else {
        spec_encode_entries(s.drop_last()) + le4(s.last().0.lo) + le4(s.last().0.hi) + le4(
            s.last().1 as u32,
        )
    }
}

/// The bytes a sequence of states serializes to.
pub open spec fn spec_encode_states(s: Seq<DfaState>) -> Seq<u8>
    decreases s.len(),
{
    if s.len() == 0 {
        Seq::empty()
    } else {
        spec_encode_states(s.drop_last()) + spec_encode_state(s.last())
    }
}

/// The serialized form of an automaton under a grammar fingerprint: the
/// fingerprint, the state count, the start state, then every state.
pub open spec fn spec_encode(d: Dfa, fingerprint: u64) -> Seq<u8> {
    le4((fingerprint % 0x1_0000_0000) as u32) + le4((fingerprint / 0x1_0000_0000) as u32) + le4(
        d.states@.len() as u32,
    ) + le4(d.start as u32) + spec_encode_states(d.states@)
}

/// A well-formed automaton that fits the serialized form's 32-bit
/// counts.
pub open spec fn encodable(d: Dfa) -> bool {
    &&& d.wf()
    &&& d.states@.len() <= 0xFFFF_FFFF
    &&& forall|i: int|
        0 <= i < d.states@.len() ==> (#[trigger] d.states@[i]).transitions.entries@.len()
            <= 0xFFFF_FFFF
}

#[verifier::rlimit(100)]
fn encode_state(out: &mut Vec<u8>, st: &DfaState)
    requires
        st.transitions.entries@.len() <= 0xFFFF_FFFF,
        forall|y: int|
            0 <= y < st.transitions.entries@.len() ==> (#[trigger] st.transitions.entries@[y]).1
                <= 0xFFFF_FFFF,
    ensures
        final(out)@ == old(out)@ + spec_encode_state(*st),
{
    let ghost pre = out@;
    match st.accept {
        Some(l) => {
            push_u32(out, 1);
            push_u32(out, l);
        },
        None => {
            push_u32(out, 0);
            push_u32(out, 0);
        },
    }
    let m = st.transitions.len();
    push_u32(out, m as u32);
    let ghost head = out@;
    let mut e: usize = 0;
    while e < m
        invariant
            st.transitions.entries@.len() == m,
            forall|y: int|
                0 <= y < m ==> (#[trigger] st.transitions.entries@[y]).1 <= 0xFFFF_FFFF,
            0 <= e <= m,
            out@ == head + spec_encode_entries(st.transitions.entries@.subrange(0, e as int)),
        decreases m - e,
    {
        let rng = st.transitions.range_at(e);
        push_u32(out, rng.lo);
        push_u32(out, rng.hi);
        let tgt = *st.transitions.value_at(e);
        push_u32(out, tgt as u32);
        e = e + 1;
        proof {
            let sub = st.transitions.entries@.subrange(0, e as int);
            assert(sub.drop_last() =~= st.transitions.entries@.subrange(0, e - 1));
        }
    }
    proof {
        assert(st.transitions.entries@.subrange(0, m as int) =~= st.transitions.entries@);
        assert(out@ =~= pre + spec_encode_state(*st));
    }
}

/// Serialize an automaton, keyed by the grammar's fingerprint.
pub fn encode_dfa(d: &Dfa, fingerprint: u64) -> (r: Vec<u8>)
    requires
        d.wf(),
        d.states@.len() <= 0xFFFF_FFFF,
        forall|i: int|
            0 <= i < d.states@.len() ==> (#[trigger] d.states@[i]).transitions.entries@.len()
                <= 0xFFFF_FFFF,
    ensures
        r@ == spec_encode(*d, fingerprint),
{
    let mut out: Vec<u8> = Vec::new();
    push_u32(&mut out, (fingerprint % 0x1_0000_0000) as u32);
    push_u32(&mut out, (fingerprint / 0x1_0000_0000) as u32);
    push_u32(&mut out, d.states.len() as u32);
    push_u32(&mut out, d.start as u32);
    let ghost head = out@;
    let mut i: usize = 0;
    while i < d.states.len()
        invariant
            d.wf(),
            d.states@.len() <= 0xFFFF_FFFF,
            forall|x: int|
                0 <= x < d.states@.len() ==> (#[trigger] d.states@[x]).transitions.entries@.len()
                    <= 0xFFFF_FFFF,
            0 <= i <= d.states@.len(),
            out@ == head + spec_encode_states(d.states@.subrange(0, i as int)),
        decreases d.states@.len() - i,
    {
        proof {
            assert forall|y: int|
                0 <= y < d.states@[i as int].transitions.entries@.len() implies (
            #[trigger] d.states@[i as int].transitions.entries@[y]).1 <= 0xFFFF_FFFF by {
                assert(d.states@[i as int].transitions.entries@[y].1 < d.states@.len());
            }
        }
        encode_state(&mut out, &d.states[i]);
        i = i + 1;
        proof {
            let sub = d.states@.subrange(0, i as int);
            assert(sub.drop_last() =~= d.states@.subrange(0, i - 1));
        }
    }
    proof {
        assert(d.states@.subrange(0, d.states@.len() as int) =~= d.states@);
        assert(out@ =~= spec_encode(*d, fingerprint));
    }
    out
}

/// One state record's entries, targets, and counts all fit the format
/// and point inside the automaton.
pub open spec fn state_fits(st: DfaState, maxstate: u32) -> bool {
    &&& crate::map::entries_wf(st.transitions.entries@)
    &&& st.transitions.entries@.len() <= 0xFFFF_FFFF
    &&& forall|y: int|
        0 <= y < st.transitions.entries@.len() ==> (#[trigger] st.transitions.entries@[y]).1
            < maxstate
}

/// The bytes at `pos` are exactly one state record for `st`.
pub open spec fn state_record_at(buf: Seq<u8>, pos: int, st: DfaState, maxstate: u32) -> bool {
    &&& state_fits(st, maxstate)
    &&& 0 <= pos
    &&& pos + spec_encode_state(st).len() <= buf.len()
    &&& buf.subrange(pos, pos + spec_encode_state(st).len() as int) == spec_encode_state(st)
}

/// Under a state record, the header fields read back as the record's
/// accept tag, accept label, and entry count.
proof fn lemma_record_header(buf: Seq<u8>, pos: int, st0: DfaState, maxstate: u32)
    requires
        state_record_at(buf, pos, st0, maxstate),
    ensures
        pos + 12 + 12 * st0.transitions.entries@.len() <= buf.len(),
        from_le4(buf.subrange(pos, pos + 4)) == (match st0.accept {
            Some(_) => 1u32,
            None => 0u32,
        }),
        from_le4(buf.subrange(pos + 4, pos + 8)) == (match st0.accept {
            Some(l) => l,
            None => 0u32,
        }),
        from_le4(buf.subrange(pos + 8, pos + 12)) == st0.transitions.entries@.len() as u32,
{
    lemma_state_head(st0);
    let enc = spec_encode_state(st0);
    assert(buf.subrange(pos, pos + 4) =~= enc.subrange(0, 4));
    assert(buf.subrange(pos + 4, pos + 8) =~= enc.subrange(4, 8));
    assert(buf.subrange(pos + 8, pos + 12) =~= enc.subrange(8, 12));
    lemma_le4_roundtrip(
        match st0.accept {
            Some(_) => 1u32,
            None => 0u32,
        },
    );
    lemma_le4_roundtrip(
        match st0.accept {
            Some(l) => l,
            None => 0u32,
        },
    );
    lemma_le4_roundtrip(st0.transitions.entries@.len() as u32);
}

/// Under a state record, the record's tail holds exactly the entries'
/// serialization.
proof fn lemma_record_body(buf: Seq<u8>, pos: int, st0: DfaState, maxstate: u32)
    requires
        state_record_at(buf, pos, st0, maxstate),
    ensures
        buf.subrange(pos + 12, pos + spec_encode_state(st0).len()) == spec_encode_entries(
            st0.transitions.entries@,
        ),
{
    lemma_state_head(st0);
    let enc = spec_encode_state(st0);
    assert(buf.subrange(pos + 12, pos + enc.len()) =~= enc.subrange(12, enc.len() as int));
}

/// Under a state record, a parsed prefix of entries equals the record's
/// own prefix.
#[verifier::rlimit(100)]
proof fn lemma_record_prefix(
    buf: Seq<u8>,
    pos: int,
    st0: DfaState,
    maxstate: u32,
    entries: Seq<(TokenRange, usize)>,
    p: int,
)
    requires
        state_record_at(buf, pos, st0, maxstate),
        crate::map::entries_wf(entries),
        forall|y: int| 0 <= y < entries.len() ==> (#[trigger] entries[y]).1 < maxstate,
        entries.len() <= st0.transitions.entries@.len(),
        p == pos + 12 + 12 * entries.len(),
        buf.subrange(pos + 12, p) == spec_encode_entries(entries),
    ensures
        entries == st0.transitions.entries@.subrange(0, entries.len() as int),
{
    lemma_record_body(buf, pos, st0, maxstate);
    lemma_state_head(st0);
    let s0 = st0.transitions.entries@;
    let e = entries.len() as int;
    lemma_entries_len(s0);
    lemma_entries_len(entries);
    lemma_entries_prefix(s0, e);
    assert(spec_encode_entries(s0.subrange(0, e)) =~= buf.subrange(pos + 12, p));
    lemma_entries_inj(entries, s0.subrange(0, e));
}

/// Under a state record, the bytes of one stored entry stand at its
/// offset.
#[verifier::rlimit(100)]
proof fn lemma_record_bytes(buf: Seq<u8>, pos: int, st0: DfaState, maxstate: u32, e: int, p: int)
    requires
        state_record_at(buf, pos, st0, maxstate),
        0 <= e < st0.transitions.entries@.len(),
        p == pos + 12 + 12 * e,
    ensures
        p + 12 <= buf.len(),
        buf.subrange(p, p + 12) == spec_encode_entries(st0.transitions.entries@).subrange(
            12 * e,
            12 * e + 12,
        ),
{
    lemma_record_body(buf, pos, st0, maxstate);
    lemma_state_head(st0);
    let s0 = st0.transitions.entries@;
    lemma_entries_len(s0);
    let rec = spec_encode_entries(s0).subrange(12 * e, 12 * e + 12);
    assert(buf.subrange(p, p + 12) =~= rec);
}

/// The bytes of one stored entry read back field for field.
#[verifier::rlimit(100)]
proof fn lemma_record_fields(buf: Seq<u8>, s0: Seq<(TokenRange, usize)>, e: int, p: int)
    requires
        0 <= e < s0.len(),
        0 <= p,
        p + 12 <= buf.len(),
        buf.subrange(p, p + 12) == spec_encode_entries(s0).subrange(12 * e, 12 * e + 12),
    ensures
        from_le4(buf.subrange(p, p + 4)) == s0[e].0.lo,
        from_le4(buf.subrange(p + 4, p + 8)) == s0[e].0.hi,
        from_le4(buf.subrange(p + 8, p + 12)) == s0[e].1 as u32,
{
    lemma_entries_len(s0);
    lemma_entries_record(s0, e);
    let rec = spec_encode_entries(s0).subrange(12 * e, 12 * e + 12);
    assert(buf.subrange(p, p + 4) =~= rec.subrange(0, 4));
    assert(buf.subrange(p + 4, p + 8) =~= rec.subrange(4, 8));
    assert(buf.subrange(p + 8, p + 12) =~= rec.subrange(8, 12));
    assert(rec.subrange(0, 4) =~= le4(s0[e].0.lo));
    assert(rec.subrange(4, 8) =~= le4(s0[e].0.hi));
    assert(rec.subrange(8, 12) =~= le4(s0[e].1 as u32));
    lemma_le4_roundtrip(s0[e].0.lo);
    lemma_le4_roundtrip(s0[e].0.hi);
    lemma_le4_roundtrip(s0[e].1 as u32);
}

/// Deserialize one state record beginning at `pos`. A record is rejected
/// only when no state's record stands there: exact records always parse.
#[verifier::rlimit(100)]
fn decode_state(buf: &Vec<u8>, pos: usize, maxstate: u32) -> (r: Result<
    (DfaState, usize),
    CacheFormatError,
>)
    requires
        pos <= buf@.len(),
    ensures
        match r {
            Ok((st, p2)) => {
                &&& pos <= p2 <= buf@.len()
                &&& buf@.subrange(pos as int, p2 as int) == spec_encode_state(st)
                &&& st.transitions.wf()
                &&& st.transitions.entries@.len() <= 0xFFFF_FFFF
                &&& forall|y: int|
                    0 <= y < st.transitions.entries@.len() ==> (
                    #[trigger] st.transitions.entries@[y]).1 < maxstate
            },
            Err(_) => forall|st0: DfaState|
                !(#[trigger] state_record_at(buf@, pos as int, st0, maxstate)),
        },
{
    let n = buf.len();
    if n - pos < 12 {
        proof {
            assert forall|st0: DfaState| !(#[trigger] state_record_at(
                buf@,
                pos as int,
                st0,
                maxstate,
            )) by {
                if state_record_at(buf@, pos as int, st0, maxstate) {
                    lemma_state_len(st0);
                }
            }
        }
        return Err(CacheFormatError { offset: pos });
    }
    let tag = read_u32(buf, pos);
    let label = read_u32(buf, pos + 4);
    let ecount = read_u32(buf, pos + 8);
    if tag > 1 || (tag == 0 && label != 0) {
        proof {
            assert forall|st0: DfaState| !(#[trigger] state_record_at(
                buf@,
                pos as int,
                st0,
                maxstate,
            )) by {
                if state_record_at(buf@, pos as int, st0, maxstate) {
                    lemma_record_header(buf@, pos as int, st0, maxstate);
                }
            }
        }
        return Err(CacheFormatError { offset: pos });
    }
    let mut p: usize = pos + 12;
    let mut entries: Vec<(TokenRange, usize)> = Vec::new();
    let mut e: u32 = 0;
    while e < ecount
        invariant
            n == buf@.len(),
            pos + 12 <= n,
            0 <= e <= ecount,
            entries@.len() == e,
            pos + 12 <= p <= n,
            p == pos + 12 + 12 * e,
            tag <= 1,
            tag == 0 ==> label == 0,
            tag == from_le4(buf@.subrange(pos as int, pos + 4)),
            label == from_le4(buf@.subrange(pos + 4, pos + 8)),
            ecount == from_le4(buf@.subrange(pos + 8, pos + 12)),
            buf@.subrange(pos + 12, p as int) == spec_encode_entries(entries@),
            crate::map::entries_wf(entries@),
            forall|y: int| 0 <= y < e ==> (#[trigger] entries@[y]).1 < maxstate,
        decreases ecount - e,
    {
        proof {
            lemma_entries_len(entries@);
        }
        if n - p < 12 {
            proof {
                assert forall|st0: DfaState| !(#[trigger] state_record_at(
                    buf@,
                    pos as int,
                    st0,
                    maxstate,
                )) by {
                    if state_record_at(buf@, pos as int, st0, maxstate) {
                        lemma_record_header(buf@, pos as int, st0, maxstate);
                        lemma_le4_roundtrip(st0.transitions.entries@.len() as u32);
                        assert(ecount == st0.transitions.entries@.len());
                    }
                }
            }
            return Err(CacheFormatError { offset: p });
        }
        let lo = read_u32(buf, p);
        let hi = read_u32(buf, p + 4);
        let tgt = read_u32(buf, p + 8);
        let mut bad = lo > hi || tgt >= maxstate;
        if entries.len() > 0 {
            let last = entries[entries.len() - 1];
            if last.0.hi >= lo {
                bad = true;
            } else if lo - last.0.hi == 1 && last.1 == tgt as usize {
                bad = true;
            }
        }
        if bad {
            proof {
                assert forall|st0: DfaState| !(#[trigger] state_record_at(
                    buf@,
                    pos as int,
                    st0,
                    maxstate,
                )) by {
                    if state_record_at(buf@, pos as int, st0, maxstate) {
                        lemma_record_header(buf@, pos as int, st0, maxstate);
                        assert(ecount == st0.transitions.entries@.len());
                        lemma_record_prefix(
                            buf@,
                            pos as int,
                            st0,
                            maxstate,
                            entries@,
                            p as int,
                        );
                        lemma_record_bytes(
                            buf@,
                            pos as int,
                            st0,
                            maxstate,
                            e as int,
                            p as int,
                        );
                        lemma_record_fields(
                            buf@,
                            st0.transitions.entries@,
                            e as int,
                            p as int,
                        );
                        let s0 = st0.transitions.entries@;
                        let ei = e as int;
                        assert(s0[ei].0.wf());
                        if e > 0 {
                            assert(entries@[ei - 1] == s0[ei - 1]);
                            assert(s0[ei - 1].0.hi < s0[ei].0.lo);
                            if s0[ei - 1].0.hi + 1 == s0[ei].0.lo {
                                assert(s0[ei - 1].1@ != s0[ei].1@);
                            }
                        }
                    }
                }
            }
            return Err(CacheFormatError { offset: p });
        }
        let ghost pre = entries@;
        entries.push((TokenRange { lo, hi }, tgt as usize));
        p = p + 12;
        e = e + 1;
        proof {
            lemma_read_roundtrip(buf@.subrange(p - 12, p - 8));
            lemma_read_roundtrip(buf@.subrange(p - 8, p - 4));
            lemma_read_roundtrip(buf@.subrange(p - 4, p as int));
            assert(entries@.drop_last() =~= pre);
            assert(buf@.subrange(p - 12, p - 8) == le4(lo));
            assert(buf@.subrange(p - 8, p - 4) == le4(hi));
            assert(buf@.subrange(p - 4, p as int) == le4(tgt));
            assert(buf@.subrange(pos + 12, p as int) =~= buf@.subrange(pos + 12, p - 12)
                + buf@.subrange(p - 12, p - 8) + buf@.subrange(p - 8, p - 4) + buf@.subrange(
                p - 4,
                p as int,
            ));
            assert forall|x: int, y: int|
                0 <= x < y < entries@.len() implies (#[trigger] entries@[x]).0.hi < (
            #[trigger] entries@[y]).0.lo by {
                if y == entries@.len() - 1 && x < y - 1 {
                    assert(pre[x].0.hi < pre[y - 1].0.lo);
                    assert(pre[y - 1].0.wf());
                }
            }
        }
    }
    let accept: Option<u32> = if tag == 1 {
        Some(label)
    } else {
        None
    };
    let st = DfaState { transitions: TokenMap { entries }, accept };
    proof {
        lemma_read_roundtrip(buf@.subrange(pos as int, pos + 4));
        lemma_read_roundtrip(buf@.subrange(pos + 4, pos + 8));
        lemma_read_roundtrip(buf@.subrange(pos + 8, pos + 12));
        assert(buf@.subrange(pos as int, pos + 4) == le4(tag));
        assert(buf@.subrange(pos + 4, pos + 8) == le4(label));
        assert(buf@.subrange(pos + 8, pos + 12) == le4(ecount));
        assert(buf@.subrange(pos as int, p as int) =~= buf@.subrange(pos as int, pos + 4)
            + buf@.subrange(pos + 4, pos + 8) + buf@.subrange(pos + 8, pos + 12) + buf@.subrange(
            pos + 12,
            p as int,
        ));
        assert(st.transitions.entries@.len() == ecount);
        assert(buf@.subrange(pos as int, p as int) == spec_encode_state(st));
    }
    Ok((st, p))
}

proof fn lemma_entries_len(s: Seq<(TokenRange, usize)>)
    ensures
        spec_encode_entries(s).len() == 12 * s.len(),
    decreases s.len(),
{
    if s.len() > 0 {
        lemma_entries_len(s.drop_last());
    }
}

proof fn lemma_state_len(st: DfaState)
    ensures
        spec_encode_state(st).len() == 12 + 12 * st.transitions.entries@.len(),
{
    lemma_entries_len(st.transitions.entries@);
}

proof fn lemma_states_front(s: Seq<DfaState>)
    requires
        s.len() > 0,
    ensures
        spec_encode_states(s) == spec_encode_state(s[0]) + spec_encode_states(s.drop_first()),
    decreases s.len(),
{
    if s.len() == 1 {
        assert(s.drop_last() =~= Seq::<DfaState>::empty());
        assert(s.drop_first() =~= Seq::<DfaState>::empty());
        assert(spec_encode_states(s) =~= spec_encode_state(s[0]) + spec_encode_states(
            s.drop_first(),
        ));
    } else {
        let d = s.drop_last();
        lemma_states_front(d);
        assert(d[0] == s[0]);
        assert(d.drop_first() =~= s.drop_first().drop_last());
        assert(s.drop_first().last() == s.last());
        assert(spec_encode_states(s) =~= spec_encode_state(s[0]) + (spec_encode_states(
            s.drop_first().drop_last(),
        ) + spec_encode_state(s.drop_first().last())));
    }
}

proof fn lemma_entries_prefix(s: Seq<(TokenRange, usize)>, e: int)
    requires
        0 <= e <= s.len(),
    ensures
        spec_encode_entries(s.subrange(0, e)) == spec_encode_entries(s).subrange(0, 12 * e),
    decreases s.len(),
{
    lemma_entries_len(s);
    if e == s.len() {
        assert(s.subrange(0, e) =~= s);
        assert(spec_encode_entries(s).subrange(0, 12 * e) =~= spec_encode_entries(s));
    } else {
        let d = s.drop_last();
        lemma_entries_len(d);
        assert(d.subrange(0, e) =~= s.subrange(0, e));
        lemma_entries_prefix(d, e);
        assert(spec_encode_entries(s).subrange(0, 12 * e) =~= spec_encode_entries(d).subrange(
            0,
            12 * e,
        ));
    }
}

#[verifier::rlimit(100)]
proof fn lemma_entries_record(s: Seq<(TokenRange, usize)>, e: int)
    requires
        0 <= e < s.len(),
    ensures
        spec_encode_entries(s).subrange(12 * e, 12 * e + 12) == le4(s[e].0.lo) + le4(s[e].0.hi)
            + le4(s[e].1 as u32),
{
    let p1 = s.subrange(0, e + 1);
    lemma_entries_prefix(s, e + 1);
    lemma_entries_len(s);
    lemma_entries_len(p1);
    assert(p1.drop_last() =~= s.subrange(0, e));
    assert(p1.last() == s[e]);
    lemma_entries_len(p1.drop_last());
    let a = spec_encode_entries(p1);
    assert(a == spec_encode_entries(s.subrange(0, e)) + le4(s[e].0.lo) + le4(s[e].0.hi) + le4(
        s[e].1 as u32,
    ));
    assert(a.subrange(12 * e, 12 * e + 12) =~= le4(s[e].0.lo) + le4(s[e].0.hi) + le4(
        s[e].1 as u32,
    ));
    assert(spec_encode_entries(s).subrange(12 * e, 12 * e + 12) =~= a.subrange(
        12 * e,
        12 * e + 12,
    ));
}

proof fn lemma_states_split(s: Seq<DfaState>, i: int)
    requires
        0 <= i <= s.len(),
    ensures
        spec_encode_states(s) == spec_encode_states(s.subrange(0, i)) + spec_encode_states(
            s.subrange(i, s.len() as int),
        ),
    decreases s.len(),
{
    if i == s.len() {
        assert(s.subrange(0, i) =~= s);
        assert(s.subrange(i, s.len() as int) =~= Seq::<DfaState>::empty());
        assert(spec_encode_states(s) =~= spec_encode_states(s) + spec_encode_states(
            Seq::<DfaState>::empty(),
        ));
    } else {
        let d = s.drop_last();
        assert(d.subrange(0, i) =~= s.subrange(0, i));
        lemma_states_split(d, i);
        assert(s.subrange(i, s.len() as int).drop_last() =~= d.subrange(i, d.len() as int));
        assert(s.subrange(i, s.len() as int).last() == s.last());
        assert(spec_encode_states(s) =~= spec_encode_states(s.subrange(0, i)) + (
        spec_encode_states(d.subrange(i, d.len() as int)) + spec_encode_state(s.last())));
        assert(spec_encode_states(s.subrange(i, s.len() as int)) == spec_encode_states(
            d.subrange(i, d.len() as int),
        ) + spec_encode_state(s.last()));
    }
}

/// The fixed head of one state record: accept tag, accept label, entry
/// count.
proof fn lemma_state_head(st: DfaState)
    ensures
        spec_encode_state(st).len() == 12 + 12 * st.transitions.entries@.len(),
        spec_encode_state(st).subrange(0, 4) == le4(
            match st.accept {
                Some(_) => 1u32,
                None => 0u32,
            },
        ),
        spec_encode_state(st).subrange(4, 8) == le4(
            match st.accept {
                Some(l) => l,
                None => 0u32,
            },
        ),
        spec_encode_state(st).subrange(8, 12) == le4(st.transitions.entries@.len() as u32),
        spec_encode_state(st).subrange(12, spec_encode_state(st).len() as int)
            == spec_encode_entries(st.transitions.entries@),
{
    lemma_state_len(st);
    let e = spec_encode_state(st);
    assert(e.subrange(0, 4) =~= le4(
        match st.accept {
            Some(_) => 1u32,
            None => 0u32,
        },
    ));
    assert(e.subrange(4, 8) =~= le4(
        match st.accept {
            Some(l) => l,
            None => 0u32,
        },
    ));
    assert(e.subrange(8, 12) =~= le4(st.transitions.entries@.len() as u32));
    assert(e.subrange(12, e.len() as int) =~= spec_encode_entries(st.transitions.entries@));
}

proof fn lemma_le4_inj(x: u32, y: u32)
    requires
        le4(x) == le4(y),
    ensures
        x == y,
{
    lemma_le4_roundtrip(x);
    lemma_le4_roundtrip(y);
}

proof fn lemma_entries_inj(a: Seq<(TokenRange, usize)>, b: Seq<(TokenRange, usize)>)
    requires
        spec_encode_entries(a) == spec_encode_entries(b),
        forall|y: int| 0 <= y < a.len() ==> (#[trigger] a[y]).1 <= 0xFFFF_FFFF,
        forall|y: int| 0 <= y < b.len() ==> (#[trigger] b[y]).1 <= 0xFFFF_FFFF,
    ensures
        a == b,
    decreases a.len(),
{
    lemma_entries_len(a);
    lemma_entries_len(b);
    if a.len() == 0 {
        assert(a =~= b);
    } else {
        let ea = spec_encode_entries(a);
        let pa = spec_encode_entries(a.drop_last());
        let pb = spec_encode_entries(b.drop_last());
        lemma_entries_len(a.drop_last());
        lemma_entries_len(b.drop_last());
        assert(pa =~= ea.subrange(0, ea.len() - 12));
        assert(pb =~= ea.subrange(0, ea.len() - 12));
        lemma_entries_inj(a.drop_last(), b.drop_last());
        assert(le4(a.last().0.lo) =~= ea.subrange(ea.len() - 12, ea.len() - 8));
        assert(le4(b.last().0.lo) =~= ea.subrange(ea.len() - 12, ea.len() - 8));
        lemma_le4_inj(a.last().0.lo, b.last().0.lo);
        assert(le4(a.last().0.hi) =~= ea.subrange(ea.len() - 8, ea.len() - 4));
        assert(le4(b.last().0.hi) =~= ea.subrange(ea.len() - 8, ea.len() - 4));
        lemma_le4_inj(a.last().0.hi, b.last().0.hi);
        assert(le4(a.last().1 as u32) =~= ea.subrange(ea.len() - 4, ea.len() as int));
        assert(le4(b.last().1 as u32) =~= ea.subrange(ea.len() - 4, ea.len() as int));
        lemma_le4_inj(a.last().1 as u32, b.last().1 as u32);
        assert(a.last() == b.last());
        assert(a =~= a.drop_last().push(a.last()));
        assert(b =~= b.drop_last().push(b.last()));
    }
}

proof fn lemma_state_inj(s1: DfaState, s2: DfaState)
    requires
        spec_encode_state(s1) == spec_encode_state(s2),
        s1.transitions.entries@.len() <= 0xFFFF_FFFF,
        s2.transitions.entries@.len() <= 0xFFFF_FFFF,
        forall|y: int|
            0 <= y < s1.transitions.entries@.len() ==> (#[trigger] s1.transitions.entries@[y]).1
                <= 0xFFFF_FFFF,
        forall|y: int|
            0 <= y < s2.transitions.entries@.len() ==> (#[trigger] s2.transitions.entries@[y]).1
                <= 0xFFFF_FFFF,
    ensures
        s1.accept == s2.accept,
        s1.transitions.entries@ == s2.transitions.entries@,
{
    let e1 = spec_encode_state(s1);
    let h1 = (match s1.accept {
        Some(l) => le4(1) + le4(l),
        None => le4(0) + le4(0),
    });
    let h2 = (match s2.accept {
        Some(l) => le4(1) + le4(l),
        None => le4(0) + le4(0),
    });
    assert(h1.subrange(0, 4) =~= e1.subrange(0, 4));
    assert(h2.subrange(0, 4) =~= e1.subrange(0, 4));
    match (s1.accept, s2.accept) {
        (Some(l1), Some(l2)) => {
            assert(le4(l1) =~= e1.subrange(4, 8));
            assert(le4(l2) =~= e1.subrange(4, 8));
            lemma_le4_inj(l1, l2);
        },
        (Some(l1), None) => {
            assert(le4(1) =~= e1.subrange(0, 4));
            assert(le4(0) =~= e1.subrange(0, 4));
            lemma_le4_inj(1, 0);
        },
        (None, Some(l2)) => {
            assert(le4(0) =~= e1.subrange(0, 4));
            assert(le4(1) =~= e1.subrange(0, 4));
            lemma_le4_inj(0, 1);
        },
        (None, None) => {},
    }
    assert(le4(s1.transitions.entries@.len() as u32) =~= e1.subrange(8, 12));
    assert(le4(s2.transitions.entries@.len() as u32) =~= e1.subrange(8, 12));
    lemma_le4_inj(s1.transitions.entries@.len() as u32, s2.transitions.entries@.len() as u32);
    lemma_entries_len(s1.transitions.entries@);
    lemma_entries_len(s2.transitions.entries@);
    assert(spec_encode_entries(s1.transitions.entries@) =~= e1.subrange(12, e1.len() as int));
    assert(spec_encode_entries(s2.transitions.entries@) =~= e1.subrange(12, e1.len() as int));
    lemma_entries_inj(s1.transitions.entries@, s2.transitions.entries@);
}

proof fn lemma_concat_cancel(x1: Seq<u8>, y1: Seq<u8>, x2: Seq<u8>, y2: Seq<u8>)
    requires
        x1 + y1 == x2 + y2,
        x1.len() == x2.len(),
    ensures
        x1 == x2,
        y1 == y2,
{
    assert(x1 =~= (x1 + y1).subrange(0, x1.len() as int));
    assert(x2 =~= (x2 + y2).subrange(0, x2.len() as int));
    assert(y1 =~= (x1 + y1).subrange(x1.len() as int, (x1 + y1).len() as int));
    assert(y2 =~= (x2 + y2).subrange(x2.len() as int, (x2 + y2).len() as int));
}

proof fn lemma_state_count_bytes(st: DfaState)
    requires
        spec_encode_state(st).len() >= 12,
    ensures
        spec_encode_state(st).subrange(8, 12) == le4(st.transitions.entries@.len() as u32),
{
    assert(spec_encode_state(st).subrange(8, 12) =~= le4(
        st.transitions.entries@.len() as u32,
    ));
}

proof fn lemma_states_inj(a: Seq<DfaState>, b: Seq<DfaState>)
    requires
        spec_encode_states(a) == spec_encode_states(b),
        a.len() == b.len(),
        forall|i: int|
            0 <= i < a.len() ==> (#[trigger] a[i]).transitions.entries@.len() <= 0xFFFF_FFFF,
        forall|i: int|
            0 <= i < b.len() ==> (#[trigger] b[i]).transitions.entries@.len() <= 0xFFFF_FFFF,
        forall|i: int, y: int|
            0 <= i < a.len() && 0 <= y < a[i].transitions.entries@.len() ==> (
            #[trigger] a[i].transitions.entries@[y]).1 <= 0xFFFF_FFFF,
        forall|i: int, y: int|
            0 <= i < b.len() && 0 <= y < b[i].transitions.entries@.len() ==> (
            #[trigger] b[i].transitions.entries@[y]).1 <= 0xFFFF_FFFF,
    ensures
        forall|i: int|
            0 <= i < a.len() ==> (#[trigger] a[i]).accept == b[i].accept
                && a[i].transitions.entries@ == b[i].transitions.entries@,
    decreases a.len(),
{
    if a.len() > 0 {
        lemma_states_front(a);
        lemma_states_front(b);
        let ea = spec_encode_states(a);
        lemma_state_len(a[0]);
        lemma_state_len(b[0]);
        // the leading record carries its own length in its count field
        let ra = spec_encode_state(a[0]);
        let rb = spec_encode_state(b[0]);
        lemma_state_count_bytes(a[0]);
        lemma_state_count_bytes(b[0]);
        assert(ra.subrange(8, 12) =~= ea.subrange(8, 12));
        assert(rb.subrange(8, 12) =~= ea.subrange(8, 12));
        lemma_le4_inj(
            a[0].transitions.entries@.len() as u32,
            b[0].transitions.entries@.len() as u32,
        );
        assert(ra.len() == rb.len());
        lemma_concat_cancel(
            ra,
            spec_encode_states(a.drop_first()),
            rb,
            spec_encode_states(b.drop_first()),
        );
        lemma_state_inj(a[0], b[0]);
        lemma_states_inj(a.drop_first(), b.drop_first());
        assert forall|i: int| 0 <= i < a.len() implies (#[trigger] a[i]).accept == b[i].accept
            && a[i].transitions.entries@ == b[i].transitions.entries@ by {
            if i > 0 {
                assert(a.drop_first()[i - 1] == a[i]);
                assert(b.drop_first()[i - 1] == b[i]);
            }
        }
    }
}

/// The serialized form pins the automaton down: two well-formed automata
/// with the same serialization have the same fingerprint, the same start
/// state, and state for state the same accept label and the same
/// transitions. Together with the decoder's guarantee that a successful
/// load returns exactly an automaton whose serialization is the stored
/// bytes, a cache hit is behaviorally identical to what was stored.
#[verifier::rlimit(100)]
pub proof fn lemma_encode_injective(d1: Dfa, f1: u64, d2: Dfa, f2: u64)
    requires
        d1.wf(),
        d2.wf(),
        d1.states@.len() <= 0xFFFF_FFFF,
        d2.states@.len() <= 0xFFFF_FFFF,
        forall|i: int|
            0 <= i < d1.states@.len() ==> (#[trigger] d1.states@[i]).transitions.entries@.len()
                <= 0xFFFF_FFFF,
        forall|i: int|
            0 <= i < d2.states@.len() ==> (#[trigger] d2.states@[i]).transitions.entries@.len()
                <= 0xFFFF_FFFF,
        spec_encode(d1, f1) == spec_encode(d2, f2),
    ensures
        f1 == f2,
        d1.start == d2.start,
        d1.states@.len() == d2.states@.len(),
        forall|i: int|
            0 <= i < d1.states@.len() ==> (#[trigger] d1.states@[i]).accept == d2.states@[i].accept
                && d1.states@[i].transitions.entries@ == d2.states@[i].transitions.entries@,
{
    let e = spec_encode(d1, f1);
    assert(le4((f1 % 0x1_0000_0000) as u32) =~= e.subrange(0, 4));
    assert(le4((f2 % 0x1_0000_0000) as u32) =~= e.subrange(0, 4));
    lemma_le4_inj((f1 % 0x1_0000_0000) as u32, (f2 % 0x1_0000_0000) as u32);
    assert(le4((f1 / 0x1_0000_0000) as u32) =~= e.subrange(4, 8));
    assert(le4((f2 / 0x1_0000_0000) as u32) =~= e.subrange(4, 8));
    lemma_le4_inj((f1 / 0x1_0000_0000) as u32, (f2 / 0x1_0000_0000) as u32);
    assert(f1 == f2) by (bit_vector)
        requires
            f1 % 0x1_0000_0000 == f2 % 0x1_0000_0000 && f1 / 0x1_0000_0000 == f2
                / 0x1_0000_0000,
    ;
    assert(le4(d1.states@.len() as u32) =~= e.subrange(8, 12));
    assert(le4(d2.states@.len() as u32) =~= e.subrange(8, 12));
    lemma_le4_inj(d1.states@.len() as u32, d2.states@.len() as u32);
    assert(le4(d1.start as u32) =~= e.subrange(12, 16));
    assert(le4(d2.start as u32) =~= e.subrange(12, 16));
    lemma_le4_inj(d1.start as u32, d2.start as u32);
    assert(spec_encode_states(d1.states@) =~= e.subrange(16, e.len() as int));
    assert(spec_encode_states(d2.states@) =~= e.subrange(16, e.len() as int));
    assert forall|i: int, y: int|
        0 <= i < d1.states@.len() && 0 <= y < d1.states@[i].transitions.entries@.len() implies (
    #[trigger] d1.states@[i].transitions.entries@[y]).1 <= 0xFFFF_FFFF by {
        assert(d1.states@[i].transitions.entries@[y].1 < d1.states@.len());
    }
    assert forall|i: int, y: int|
        0 <= i < d2.states@.len() && 0 <= y < d2.states@[i].transitions.entries@.len() implies (
    #[trigger] d2.states@[i].transitions.entries@[y]).1 <= 0xFFFF_FFFF by {
        assert(d2.states@[i].transitions.entries@[y].1 < d2.states@.len());
    }
    lemma_states_inj(d1.states@, d2.states@);
}

/// The bytes are exactly the serialization of an automaton that fits
/// the format.
pub open spec fn valid_encoding(buf: Seq<u8>, d: Dfa, f: u64) -> bool {
    &&& encodable(d)
    &&& buf == spec_encode(d, f)
}

/// Under a valid encoding, the header fields read back as the
/// automaton's fingerprint halves, state count, and start state, and the
/// tail is the states' serialization.
proof fn lemma_encoding_header(buf: Seq<u8>, d0: Dfa, f0: u64)
    requires
        valid_encoding(buf, d0, f0),
    ensures
        buf.len() == 16 + spec_encode_states(d0.states@).len(),
        from_le4(buf.subrange(0, 4)) == (f0 % 0x1_0000_0000) as u32,
        from_le4(buf.subrange(4, 8)) == (f0 / 0x1_0000_0000) as u32,
        from_le4(buf.subrange(8, 12)) == d0.states@.len() as u32,
        from_le4(buf.subrange(12, 16)) == d0.start as u32,
        buf.subrange(16, buf.len() as int) == spec_encode_states(d0.states@),
{
    assert(buf.subrange(0, 4) =~= le4((f0 % 0x1_0000_0000) as u32));
    assert(buf.subrange(4, 8) =~= le4((f0 / 0x1_0000_0000) as u32));
    assert(buf.subrange(8, 12) =~= le4(d0.states@.len() as u32));
    assert(buf.subrange(12, 16) =~= le4(d0.start as u32));
    assert(buf.subrange(16, buf.len() as int) =~= spec_encode_states(d0.states@));
    lemma_le4_roundtrip((f0 % 0x1_0000_0000) as u32);
    lemma_le4_roundtrip((f0 / 0x1_0000_0000) as u32);
    lemma_le4_roundtrip(d0.states@.len() as u32);
    lemma_le4_roundtrip(d0.start as u32);
}

/// Under a valid encoding, one state record stands exactly where the
/// records before it end.
#[verifier::rlimit(100)]
proof fn lemma_encoding_record(buf: Seq<u8>, d0: Dfa, f0: u64, i: int, pos: int)
    requires
        valid_encoding(buf, d0, f0),
        0 <= i < d0.states@.len(),
        pos == 16 + spec_encode_states(d0.states@.subrange(0, i)).len(),
    ensures
        state_record_at(buf, pos, d0.states@[i], d0.states@.len() as u32),
        pos + spec_encode_state(d0.states@[i]).len() <= buf.len(),
{
    lemma_encoding_header(buf, d0, f0);
    let s = d0.states@;
    lemma_states_split(s, i);
    let suffix = s.subrange(i, s.len() as int);
    lemma_states_front(suffix);
    assert(suffix[0] == s[i]);
    assert(suffix.drop_first() =~= s.subrange(i + 1, s.len() as int));
    let pre = spec_encode_states(s.subrange(0, i));
    let rec = spec_encode_state(s[i]);
    assert(spec_encode_states(s) == pre + (rec + spec_encode_states(
        s.subrange(i + 1, s.len() as int),
    )));
    assert(buf.subrange(pos, pos + rec.len()) =~= rec);
    assert(state_fits(s[i], s.len() as u32)) by {
        assert forall|y: int| 0 <= y < s[i].transitions.entries@.len() implies (
        #[trigger] s[i].transitions.entries@[y]).1 < s.len() as u32 by {
            assert(s[i].transitions.entries@[y].1 < d0.states@.len());
        }
    }
}

/// Two state records occupying the same place in a buffer are the same
/// bytes.
proof fn lemma_same_record(buf: Seq<u8>, pos: int, st1: DfaState, st2: DfaState)
    requires
        0 <= pos,
        pos + spec_encode_state(st1).len() <= buf.len(),
        pos + spec_encode_state(st2).len() <= buf.len(),
        buf.subrange(pos, pos + spec_encode_state(st1).len() as int) == spec_encode_state(st1),
        buf.subrange(pos, pos + spec_encode_state(st2).len() as int) == spec_encode_state(st2),
        st1.transitions.entries@.len() <= 0xFFFF_FFFF,
        st2.transitions.entries@.len() <= 0xFFFF_FFFF,
    ensures
        spec_encode_state(st1) == spec_encode_state(st2),
{
    lemma_state_head(st1);
    lemma_state_head(st2);
    assert(buf.subrange(pos + 8, pos + 12) =~= le4(st1.transitions.entries@.len() as u32));
    assert(buf.subrange(pos + 8, pos + 12) =~= le4(st2.transitions.entries@.len() as u32));
    lemma_le4_inj(
        st1.transitions.entries@.len() as u32,
        st2.transitions.entries@.len() as u32,
    );
    assert(spec_encode_state(st1).len() == spec_encode_state(st2).len());
    assert(spec_encode_state(st1) =~= spec_encode_state(st2));
}

/// Deserialize an automaton. On success the bytes are exactly the
/// serialization of what is returned, under the returned fingerprint:
/// a load can only hand back what a store put in. And a store is always
/// loadable: rejection means no automaton at all serializes to these
/// bytes.
#[verifier::rlimit(100)]
pub fn decode_dfa(buf: &Vec<u8>) -> (r: Result<(Dfa, u64), CacheFormatError>)
    ensures
        match r {
            Ok((d, f)) => encodable(d) && buf@ == spec_encode(d, f),
            Err(_) => forall|d0: Dfa, f0: u64| !(#[trigger] valid_encoding(buf@, d0, f0)),
        },
{
    let n = buf.len();
    if n < 16 {
        proof {
            assert forall|d0: Dfa, f0: u64| !(#[trigger] valid_encoding(buf@, d0, f0)) by {
                if valid_encoding(buf@, d0, f0) {
                    lemma_encoding_header(buf@, d0, f0);
                }
            }
        }
        return Err(CacheFormatError { offset: 0 });
    }
    let flo = read_u32(buf, 0);
    let fhi = read_u32(buf, 4);
    let count = read_u32(buf, 8);
    let start = read_u32(buf, 12);
    let f: u64 = flo as u64 + (fhi as u64) * 0x1_0000_0000;
    let mut states: Vec<DfaState> = Vec::new();
    let mut pos: usize = 16;
    let mut i: u32 = 0;
    while i < count
        invariant
            n == buf@.len(),
            n >= 16,
            0 <= i <= count,
            states@.len() == i,
            16 <= pos <= n,
            count == from_le4(buf@.subrange(8, 12)),
            buf@.subrange(16, pos as int) == spec_encode_states(states@),
            forall|x: int| 0 <= x < i ==> (#[trigger] states@[x]).transitions.wf(),
            forall|x: int|
                0 <= x < i ==> (#[trigger] states@[x]).transitions.entries@.len() <= 0xFFFF_FFFF,
            forall|x: int, y: int|
                0 <= x < i && 0 <= y < states@[x].transitions.entries@.len() ==> (
                #[trigger] states@[x].transitions.entries@[y]).1 < count,
            forall|d0: Dfa, f0: u64|
                #[trigger] valid_encoding(buf@, d0, f0) ==> spec_encode_states(states@)
                    == spec_encode_states(d0.states@.subrange(0, i as int)),
        decreases count - i,
    {
        let ghost pos0 = pos as int;
        proof {
            assert forall|d0: Dfa, f0: u64| #[trigger] valid_encoding(buf@, d0, f0) implies i
                < d0.states@.len() && state_record_at(
                buf@,
                pos0,
                d0.states@[i as int],
                count,
            ) by {
                lemma_encoding_header(buf@, d0, f0);
                lemma_le4_roundtrip(d0.states@.len() as u32);
                assert(count == d0.states@.len() as u32);
                assert(i < d0.states@.len());
                assert(spec_encode_states(states@).len() == spec_encode_states(
                    d0.states@.subrange(0, i as int),
                ).len());
                lemma_encoding_record(buf@, d0, f0, i as int, pos0);
            }
        }
        let st = match decode_state(buf, pos, count) {
            Ok(sp) => sp,
            Err(err) => {
                proof {
                    assert forall|d0: Dfa, f0: u64| !(#[trigger] valid_encoding(
                        buf@,
                        d0,
                        f0,
                    )) by {
                        if valid_encoding(buf@, d0, f0) {
                            assert(state_record_at(buf@, pos0, d0.states@[i as int], count));
                        }
                    }
                }
                return Err(err);
            },
        };
        let ghost spre = states@;
        pos = st.1;
        states.push(st.0);
        i = i + 1;
        proof {
            assert(states@.drop_last() =~= spre);
            assert(buf@.subrange(16, pos as int) =~= buf@.subrange(16, pos0) + buf@.subrange(
                pos0,
                pos as int,
            ));
            assert forall|d0: Dfa, f0: u64| #[trigger] valid_encoding(buf@, d0, f0) implies
                spec_encode_states(states@) == spec_encode_states(
                d0.states@.subrange(0, i as int),
            ) by {
                assert(state_record_at(buf@, pos0, d0.states@[i - 1], count));
                lemma_same_record(buf@, pos0, states@.last(), d0.states@[i - 1]);
                let p1 = d0.states@.subrange(0, i as int);
                assert(p1.drop_last() =~= d0.states@.subrange(0, i - 1));
                assert(p1.last() == d0.states@[i - 1]);
                assert(spec_encode_states(states@) == spec_encode_states(spre)
                    + spec_encode_state(states@.last()));
                assert(spec_encode_states(p1) == spec_encode_states(
                    d0.states@.subrange(0, i - 1),
                ) + spec_encode_state(d0.states@[i - 1]));
            }
        }
    }
    if pos != n {
        proof {
            assert forall|d0: Dfa, f0: u64| !(#[trigger] valid_encoding(buf@, d0, f0)) by {
                if valid_encoding(buf@, d0, f0) {
                    lemma_encoding_header(buf@, d0, f0);
                    lemma_le4_roundtrip(d0.states@.len() as u32);
                    assert(d0.states@.subrange(0, i as int) =~= d0.states@);
                    assert(spec_encode_states(states@).len() == spec_encode_states(
                        d0.states@,
                    ).len());
                }
            }
        }
        return Err(CacheFormatError { offset: pos });
    }
    if count == 0 || start >= count {
        proof {
            assert forall|d0: Dfa, f0: u64| !(#[trigger] valid_encoding(buf@, d0, f0)) by {
                if valid_encoding(buf@, d0, f0) {
                    lemma_encoding_header(buf@, d0, f0);
                    lemma_le4_roundtrip(d0.states@.len() as u32);
                    lemma_le4_roundtrip(d0.start as u32);
                    assert(d0.start < d0.states@.len());
                }
            }
        }
        return Err(CacheFormatError { offset: 12 });
    }
    let d = Dfa { start: start as usize, states };
    proof {
        lemma_read_roundtrip(buf@.subrange(0, 4));
        lemma_read_roundtrip(buf@.subrange(4, 8));
        lemma_read_roundtrip(buf@.subrange(8, 12));
        lemma_read_roundtrip(buf@.subrange(12, 16));
        assert(d.wf());
        assert(buf@.subrange(0, 4) == le4(flo));
        assert(buf@.subrange(4, 8) == le4(fhi));
        assert(buf@.subrange(8, 12) == le4(count));
        assert(buf@.subrange(12, 16) == le4(start));
        assert(f % 0x1_0000_0000 == flo && f / 0x1_0000_0000 == fhi) by (bit_vector)
            requires
                f == flo as u64 + (fhi as u64) * 0x1_0000_0000,
        ;
        assert(buf@ =~= buf@.subrange(0, 4) + buf@.subrange(4, 8) + buf@.subrange(8, 12)
            + buf@.subrange(12, 16) + buf@.subrange(16, n as int));
        assert(buf@ == spec_encode(d, f));
    }
    Ok((d, f))
}

} // verus!
