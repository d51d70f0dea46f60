use vstd::prelude::*;

use crate::batch::parse_key;
use crate::index::compare_bytes;
use crate::log_record::{
    decode_at, encode_spec, header_at, lemma_decode_encoded, lemma_decode_extend, LogRecordPos,
    LogRecordType, ReadOutcome,
};

verus! {

/// A staged member of a batch seen during replay: user key, location, kind.
pub type PendingEntry = (Vec<u8>, LogRecordPos, LogRecordType);

/// The members seen so far of one batch, under its session prefix and id.
pub struct PendingBatch {
    pub prefix: Vec<u8>,
    pub seq_id: usize,
    pub entries: Vec<PendingEntry>,
}

pub type EntryView = (Seq<u8>, LogRecordPos, LogRecordType);

pub type BatchView = ((Seq<u8>, nat), Seq<EntryView>);

pub open spec fn entry_view(e: PendingEntry) -> EntryView {
    (e.0@, e.1, e.2)
}

impl PendingBatch {
    pub open spec fn view(&self) -> BatchView {
        ((self.prefix@, self.seq_id as nat), self.entries@.map_values(|e: PendingEntry| entry_view(e)))
    }
}

pub open spec fn pending_view(p: Seq<PendingBatch>) -> Seq<BatchView> {
    p.map_values(|b: PendingBatch| b.view())
}

/// The state of a replay: the keydir built so far, and the batches whose
/// terminator has not been met yet, in the order they were first seen.
pub struct ReplayState {
    pub keydir: Map<Seq<u8>, LogRecordPos>,
    pub pending: Seq<BatchView>,
}

/// The first batch staged under `id`, or -1.
pub open spec fn pending_find(p: Seq<BatchView>, id: (Seq<u8>, nat)) -> int
    decreases p.len(),
{
    if p.len() == 0 {
        -1
    } else {
        let r = pending_find(p.drop_last(), id);
        if r >= 0 {
            r
        } else if p.last().0.0 == id.0 && p.last().0.1 == id.1 {
            p.len() - 1
        } else {
            -1
        }
    }
}

/// Applies the members of a batch to a keydir in the order they were logged.
pub open spec fn apply_entries(keydir: Map<Seq<u8>, LogRecordPos>, es: Seq<EntryView>) -> Map<
    Seq<u8>,
    LogRecordPos,
>
    decreases es.len(),
{
    if es.len() == 0 {
        keydir
    } else {
        let kd = apply_entries(keydir, es.drop_last());
        let e = es.last();
        if e.2 == LogRecordType::Normal {
            kd.insert(e.0, e.1)
        } else {
            kd.remove(e.0)
        }
    }
}

/// One record of the log replayed: a write outside any batch goes to the
/// keydir at once; a batch member is staged under its batch; a terminator
/// applies its batch's members. `None` where the key framing is malformed
/// or a terminator has no batch.
pub open spec fn replay_record(
    st: ReplayState,
    pos: LogRecordPos,
    t: LogRecordType,
    framed: Seq<u8>,
) -> Option<ReplayState> {
    match parse_key(framed) {
        None => None,
        Some((prefix, seq, k)) => {
            let i = pending_find(st.pending, (prefix, seq));
            if t == LogRecordType::BatchCommit {
                if i >= 0 {
                    Some(
                        ReplayState {
                            keydir: apply_entries(st.keydir, st.pending[i].1),
                            pending: st.pending.remove(i),
                        },
                    )
                } else {
                    None
                }
            } else if seq == 0 {
                Some(
                    ReplayState {
                        keydir: if t == LogRecordType::Normal {
                            st.keydir.insert(k, pos)
                        } else {
                            st.keydir.remove(k)
                        },
                        pending: st.pending,
                    },
                )
            } else if i >= 0 {
                Some(
                    ReplayState {
                        keydir: st.keydir,
                        pending: st.pending.update(
                            i,
                            (st.pending[i].0, st.pending[i].1.push((k, pos, t))),
                        ),
                    },
                )
            } else {
                Some(
                    ReplayState {
                        keydir: st.keydir,
                        pending: st.pending.push(((prefix, seq), seq![(k, pos, t)])),
                    },
                )
            }
        },
    }
}

/// Replays the records of segment `fid` from offset `off` up to its end:
/// the state after them and the offset where the records end, or `None` on
/// corruption.
pub open spec fn scan(data: Seq<u8>, fid: u32, off: nat, st: ReplayState) -> Option<
    (ReplayState, nat),
>
    decreases data.len() - off,
{
    match decode_at(data, off) {
        ReadOutcome::EndOfData => Some((st, off)),
        ReadOutcome::Corrupted => None,
        ReadOutcome::Record { record_type, key, size, .. } => {
            if size == 0 || off + size > data.len() {
                None
            } else {
                match replay_record(
                    st,
                    LogRecordPos { file_id: fid, offset: off as u64 },
                    record_type,
                    key,
                ) {
                    None => None,
                    Some(st2) => scan(data, fid, off + size, st2),
                }
            }
        },
    }
}

/// Replays segments `segs[i..]` in order, the pending batches carried from
/// one segment to the next.
pub open spec fn replay_from(segs: Seq<(u32, Seq<u8>)>, i: nat, st: ReplayState) -> Option<
    ReplayState,
>
    decreases segs.len() - i,
{
    if i >= segs.len() {
        Some(st)
    } else {
        match scan(segs[i as int].1, segs[i as int].0, 0, st) {
            None => None,
            Some((st2, end)) => replay_from(segs, i + 1, st2),
        }
    }
}

pub open spec fn empty_replay() -> ReplayState {
    ReplayState { keydir: Map::empty(), pending: Seq::empty() }
}

/// The keydir that replaying the segments in order rebuilds; batches left
/// without a terminator are dropped.
pub open spec fn replay(segs: Seq<(u32, Seq<u8>)>) -> Option<Map<Seq<u8>, LogRecordPos>> {
    match replay_from(segs, 0, empty_replay()) {
        Some(st) => Some(st.keydir),
        None => None,
    }
}

/// Finds the batch staged under `(prefix, seq_id)`.
pub fn find_pending(p: &Vec<PendingBatch>, prefix: &[u8], seq_id: usize) -> (r: Option<usize>)
    ensures
        r is Some ==> pending_find(pending_view(p@), (prefix@, seq_id as nat)) == r.unwrap() as int,
        r is None ==> pending_find(pending_view(p@), (prefix@, seq_id as nat)) == -1,
{
    let ghost id = (prefix@, seq_id as nat);
    let ghost pv = pending_view(p@);
    let mut i: usize = 0;
    while i < p.len()
        invariant
            pv == pending_view(p@),
            id == (prefix@, seq_id as nat),
            i <= p@.len(),
            pending_find(pv.take(i as int), id) == -1,
        decreases p@.len() - i,
    {
        proof {
            lemma_pending_find_step(pv, id, i as int);
        }
        assert(pv[i as int].0 == (p@[i as int].prefix@, p@[i as int].seq_id as nat));
        let same_prefix = match compare_bytes(p[i].prefix.as_slice(), prefix) {
            core::cmp::Ordering::Equal => true,
            _ => false,
        };
        assert(same_prefix == (p@[i as int].prefix@ == prefix@));
        if p[i].seq_id == seq_id && same_prefix {
            proof {
                lemma_pending_find_prefix(pv, id, i as int + 1);
            }
            return Some(i);
        }
        i = i + 1;
    }
    assert(pv.take(i as int) =~= pv);
    None
}

proof fn lemma_pending_find_step(p: Seq<BatchView>, id: (Seq<u8>, nat), i: int)
    requires
        0 <= i < p.len(),
    ensures
        pending_find(p.take(i + 1), id) == (if pending_find(p.take(i), id) >= 0 {
            pending_find(p.take(i), id)
        } else if p[i].0.0 == id.0 && p[i].0.1 == id.1 {
            i
        } else {
            -1
        }),
{
    let q = p.take(i + 1);
    assert(q.drop_last() =~= p.take(i));
    assert(q.last() == p[i]);
}

/// The first match found in a prefix of the table is the first match in it.
proof fn lemma_pending_find_prefix(p: Seq<BatchView>, id: (Seq<u8>, nat), n: int)
    requires
        0 <= n <= p.len(),
        pending_find(p.take(n), id) >= 0,
    ensures
        pending_find(p, id) == pending_find(p.take(n), id),
    decreases p.len(),
{
    if p.len() > n {
        assert(p.drop_last().take(n) =~= p.take(n));
        lemma_pending_find_prefix(p.drop_last(), id, n);
    } else {
        assert(p.take(n) =~= p);
    }
}

/// The first match lies in the table and carries the id.
pub proof fn lemma_pending_find_range(p: Seq<BatchView>, id: (Seq<u8>, nat))
    ensures
        -1 <= pending_find(p, id) < p.len(),
        pending_find(p, id) >= 0 ==> p[pending_find(p, id)].0.0 == id.0 && p[pending_find(
            p,
            id,
        )].0.1 == id.1,
    decreases p.len(),
{
    if p.len() > 0 {
        lemma_pending_find_range(p.drop_last(), id);
    }
}

/// A batch member does not reach the keydir when it is replayed: it only
/// joins its batch's staged entries.
pub proof fn lemma_batch_member_staged(st: ReplayState, pos: LogRecordPos, t: LogRecordType, framed: Seq<u8>)
    requires
        parse_key(framed) is Some,
        parse_key(framed).unwrap().1 != 0,
        t != LogRecordType::BatchCommit,
    ensures
        replay_record(st, pos, t, framed) is Some,
        replay_record(st, pos, t, framed).unwrap().keydir == st.keydir,
{
}

/// A batch's terminator applies all of the batch's staged members at once,
/// and a terminator without staged members is corruption.
pub proof fn lemma_batch_commit_applies_all(
    st: ReplayState,
    pos: LogRecordPos,
    framed: Seq<u8>,
)
    requires
        parse_key(framed) is Some,
    ensures
        ({
            let (prefix, seq, k) = parse_key(framed).unwrap();
            let i = pending_find(st.pending, (prefix, seq));
            &&& i >= 0 ==> replay_record(st, pos, LogRecordType::BatchCommit, framed) == Some(
                ReplayState {
                    keydir: apply_entries(st.keydir, st.pending[i].1),
                    pending: st.pending.remove(i),
                },
            )
            &&& i < 0 ==> replay_record(st, pos, LogRecordType::BatchCommit, framed) is None
        }),
{
}

/// No record starts at the end of the data.
pub proof fn lemma_decode_at_end(data: Seq<u8>)
    ensures
        decode_at(data, data.len()) is EndOfData,
{
    let h = header_at(data, data.len());
    assert(h.skip(1) =~= Seq::new(14, |i: int| 0u8));
    assert(h.skip(2) =~= Seq::new(13, |i: int| 0u8));
    reveal_with_fuel(crate::log_record::varint_dec, 2);
}

/// Where the records of a segment fill it to its end, appending bytes lets
/// the replay go on from that end.
pub proof fn lemma_scan_extend(
    data: Seq<u8>,
    more: Seq<u8>,
    fid: u32,
    off: nat,
    st: ReplayState,
)
    requires
        scan(data, fid, off, st) is Some,
        scan(data, fid, off, st).unwrap().1 == data.len(),
    ensures
        scan(data + more, fid, off, st) == scan(
            data + more,
            fid,
            data.len(),
            scan(data, fid, off, st).unwrap().0,
        ),
    decreases data.len() - off,
{
    match decode_at(data, off) {
        ReadOutcome::Record { record_type, key, size, .. } => {
            lemma_decode_extend(data, more, off);
            let st2 = replay_record(
                st,
                LogRecordPos { file_id: fid, offset: off as u64 },
                record_type,
                key,
            ).unwrap();
            lemma_scan_extend(data, more, fid, off + size, st2);
        },
        _ => {},
    }
}

/// An empty segment leaves the replay state as it is.
pub proof fn lemma_scan_empty(fid: u32, st: ReplayState)
    ensures
        scan(Seq::empty(), fid, 0, st) == Some((st, 0nat)),
{
    lemma_decode_at_end(Seq::<u8>::empty());
}

/// Replaying all segments is replaying all but the last, then the last.
pub proof fn lemma_replay_split(segs: Seq<(u32, Seq<u8>)>, i: nat, st: ReplayState)
    requires
        segs.len() > 0,
        i < segs.len(),
    ensures
        replay_from(segs, i, st) == match replay_from(segs.drop_last(), i, st) {
            None => None,
            Some(mid) => match scan(segs.last().1, segs.last().0, 0, mid) {
                None => None,
                Some((st2, end)) => Some(st2),
            },
        },
    decreases segs.len() - i,
{
    let n = segs.len() - 1;
    if i < n {
        assert(segs.drop_last()[i as int] == segs[i as int]);
        match scan(segs[i as int].1, segs[i as int].0, 0, st) {
            None => {},
            Some((st2, end)) => {
                lemma_replay_split(segs, i + 1, st2);
            },
        }
    } else {
        assert(replay_from(segs.drop_last(), i, st) == Some(st));
        match scan(segs[i as int].1, segs[i as int].0, 0, st) {
            None => {},
            Some((st2, end)) => {
                assert(replay_from(segs, i + 1, st2) == Some(st2));
            },
        }
    }
}

/// Replaying is unchanged by cutting the data where its records end.
pub proof fn lemma_scan_truncate(data: Seq<u8>, fid: u32, off: nat, st: ReplayState)
    requires
        scan(data, fid, off, st) is Some,
        off <= data.len(),
    ensures
        off <= scan(data, fid, off, st).unwrap().1 <= data.len(),
        scan(data.take(scan(data, fid, off, st).unwrap().1 as int), fid, off, st) == scan(
            data,
            fid,
            off,
            st,
        ),
    decreases data.len() - off,
{
    let end = scan(data, fid, off, st).unwrap().1;
    match decode_at(data, off) {
        ReadOutcome::Record { record_type, key, size, .. } => {
            let st2 = replay_record(
                st,
                LogRecordPos { file_id: fid, offset: off as u64 },
                record_type,
                key,
            ).unwrap();
            lemma_scan_truncate(data, fid, off + size, st2);
            crate::log_record::lemma_decode_bounds(data, off);
            let d2 = data.take(end as int);
            assert(d2.take((off + size) as int) =~= data.take((off + size) as int));
            crate::log_record::lemma_decode_agree(data, d2, off);
            assert(d2.take(end as int) =~= d2);
        },
        _ => {
            lemma_decode_at_end(data.take(end as int));
        },
    }
}

/// Appending a record where the records of a segment fill it makes the
/// replay go on with that record, when it replays at all.
#[verifier::rlimit(60)]
pub proof fn lemma_record_replays(
    data: Seq<u8>,
    fid: u32,
    st: ReplayState,
    t: LogRecordType,
    key: Seq<u8>,
    value: Seq<u8>,
)
    requires
        scan(data, fid, 0, st) is Some,
        scan(data, fid, 0, st).unwrap().1 == data.len(),
        key.len() <= u32::MAX,
        value.len() <= u32::MAX,
        key.len() + value.len() > 0,
        key.len() + value.len() + 4 <= usize::MAX,
        data.len() + encode_spec(t, key, value).len() <= u64::MAX,
        replay_record(
            scan(data, fid, 0, st).unwrap().0,
            LogRecordPos { file_id: fid, offset: data.len() as u64 },
            t,
            key,
        ) is Some,
    ensures
        scan(data + encode_spec(t, key, value), fid, 0, st) == Some(
            (
                replay_record(
                    scan(data, fid, 0, st).unwrap().0,
                    LogRecordPos { file_id: fid, offset: data.len() as u64 },
                    t,
                    key,
                ).unwrap(),
                data.len() + encode_spec(t, key, value).len(),
            ),
        ),
{
    let enc = encode_spec(t, key, value);
    let d2 = data + enc;
    let st1 = scan(data, fid, 0, st).unwrap().0;
    let pos = LogRecordPos { file_id: fid, offset: data.len() as u64 };
    lemma_scan_extend(data, enc, fid, 0, st);
    assert(d2.subrange(data.len() as int, (data.len() + enc.len()) as int) =~= enc);
    lemma_decode_encoded(d2, data.len(), t, key, value);
    lemma_decode_at_end(d2);
    let st2 = replay_record(st1, pos, t, key).unwrap();
    assert(d2.len() == data.len() + enc.len());
    assert(scan(d2, fid, d2.len(), st2) == Some((st2, d2.len())));
    assert(scan(d2, fid, data.len(), st1) == scan(d2, fid, d2.len(), st2));
}

pub proof fn lemma_pending_find_push(p: Seq<BatchView>, x: BatchView, id: (Seq<u8>, nat))
    ensures
        pending_find(p.push(x), id) == (if pending_find(p, id) >= 0 {
            pending_find(p, id)
        } else if x.0.0 == id.0 && x.0.1 == id.1 {
            p.len() as int
        } else {
            -1
        }),
{
    assert(p.push(x).drop_last() =~= p);
}

/// No staged batch carries the id: it is found nowhere.
pub proof fn lemma_pending_absent(p: Seq<BatchView>, id: (Seq<u8>, nat))
    requires
        forall|b: int| 0 <= b < p.len() ==> !((#[trigger] p[b]).0.0 == id.0 && p[b].0.1 == id.1),
    ensures
        pending_find(p, id) == -1,
{
    lemma_pending_find_range(p, id);
}

} // verus!
