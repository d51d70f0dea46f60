use vstd::prelude::*;

use crate::db::{fits_record, Engine};
use crate::error::{Errors, Result};
use crate::fio::{is_io_error, IOManager};
use crate::index::{compare_bytes, Indexer};
use crate::log_record::{LogRecord, LogRecordPos, LogRecordType};
use crate::options::WriteBatchOptions;
use crate::replay::{
    apply_entries, lemma_pending_absent, lemma_pending_find_push, pending_find, BatchView,
    EntryView, ReplayState,
};
use crate::log_record::{
    append_bytes, lemma_varint_dec_len, lemma_varint_round_trip, take_varint, varint_bytes,
    varint_decode, copy_bytes,
};

verus! {

/// A stored key taken apart: session prefix, batch sequence id, user key.
#[derive(Debug, PartialEq)]
pub struct LogRecordKey {
    pub prefix: Vec<u8>,
    pub seq_id: usize,
    pub key: Vec<u8>,
}

/// The key as a record stores it: `[varint(prefix_len)][prefix][varint(seq_id)][key]`.
pub open spec fn frame_key(prefix: Seq<u8>, seq_id: nat, key: Seq<u8>) -> Seq<u8> {
    varint_bytes(prefix.len()) + prefix + varint_bytes(seq_id) + key
}

/// A stored key taken apart, or `None` where its framing is malformed.
pub open spec fn parse_key(k: Seq<u8>) -> Option<(Seq<u8>, nat, Seq<u8>)> {
    match varint_decode(k) {
        None => None,
        Some((pl, a)) => if pl > usize::MAX || a + pl > k.len() {
            None
        } else {
            let rest = k.skip((a + pl) as int);
            match varint_decode(rest) {
                None => None,
                Some((sid, b)) => if sid > usize::MAX {
                    None
                } else {
                    Some((k.subrange(a as int, (a + pl) as int), sid, rest.skip(b as int)))
                },
            }
        },
    }
}

/// Frames a user key with a prefix and a sequence id.
pub fn log_record_key_with_sequence(key: &[u8], prefix: &[u8], seq_id: usize) -> (r: Vec<u8>)
    ensures
        r@ == frame_key(prefix@, seq_id as nat, key@),
{
    let mut buffer = crate::log_record::varint_of(prefix.len());
    append_bytes(&mut buffer, prefix);
    let s = crate::log_record::varint_of(seq_id);
    append_bytes(&mut buffer, s.as_slice());
    append_bytes(&mut buffer, key);
    buffer
}

/// Takes a stored key apart.
pub fn log_record_key_parse(key: &[u8]) -> (r: Result<LogRecordKey>)
    ensures
        parse_key(key@) is None ==> r is Err && r->Err_0 is DecodingError,
        parse_key(key@) is Some ==> r is Ok && r->Ok_0.prefix@ == parse_key(key@).unwrap().0
            && r->Ok_0.seq_id as nat == parse_key(key@).unwrap().1 && r->Ok_0.key@ == parse_key(
            key@,
        ).unwrap().2,
{
    let (pl, rest) = match take_varint(key) {
        Some(p) => p,
        None => return Err(Errors::DecodingError),
    };
    proof {
        lemma_varint_dec_len(key@, 0);
    }
    if pl > rest.len() {
        return Err(Errors::DecodingError);
    }
    let prefix = copy_bytes(vstd::slice::slice_subrange(rest, 0, pl));
    let rest1 = vstd::slice::slice_subrange(rest, pl, rest.len());
    let ghost a = varint_decode(key@).unwrap().1;
    assert(prefix@ =~= key@.subrange(a as int, (a + pl) as int));
    assert(rest1@ =~= key@.skip((a + pl) as int));
    let (seq_id, rest2) = match take_varint(rest1) {
        Some(p) => p,
        None => return Err(Errors::DecodingError),
    };
    Ok(LogRecordKey { prefix, seq_id, key: copy_bytes(rest2) })
}

/// A framed key reads back as the prefix, id and key it was made of.
pub proof fn lemma_frame_round_trip(prefix: Seq<u8>, seq_id: nat, key: Seq<u8>)
    requires
        prefix.len() <= usize::MAX,
        seq_id <= usize::MAX,
    ensures
        parse_key(frame_key(prefix, seq_id, key)) == Some((prefix, seq_id, key)),
{
    let k = frame_key(prefix, seq_id, key);
    let pb = varint_bytes(prefix.len());
    let sb = varint_bytes(seq_id);
    assert(k =~= pb + (prefix + sb + key));
    lemma_varint_round_trip(prefix.len(), prefix + sb + key);
    let a = pb.len();
    assert(k.subrange(a as int, (a + prefix.len()) as int) =~= prefix);
    let rest = k.skip((a + prefix.len()) as int);
    assert(rest =~= sb + key);
    lemma_varint_round_trip(seq_id, key);
    assert(rest.skip(sb.len() as int) =~= key);
}

/// The key of a batch's terminator record: "txn_fin".
pub open spec fn txn_fin_key_spec() -> Seq<u8> {
    seq![116u8, 120, 110, 95, 102, 105, 110]
}

fn txn_fin_key() -> (r: Vec<u8>)
    ensures
        r@ == txn_fin_key_spec(),
{
    let r: Vec<u8> = vec![116u8, 120, 110, 95, 102, 105, 110];
    assert(r@ =~= txn_fin_key_spec());
    r
}

/// A staged write: user key, kind, value.
pub type StagedView = (Seq<u8>, LogRecordType, Seq<u8>);

pub open spec fn staged_view(r: LogRecord) -> StagedView {
    (r.key@, r.record_type, r.value@)
}

/// What the staged writes make of a store's contents, applied in order.
pub open spec fn apply_staged(m: Map<Seq<u8>, Seq<u8>>, s: Seq<StagedView>) -> Map<Seq<u8>, Seq<u8>>
    decreases s.len(),
{
    if s.len() == 0 {
        m
    } else {
        let m2 = apply_staged(m, s.drop_last());
        let e = s.last();
        if e.1 == LogRecordType::Normal {
            m2.insert(e.0, e.2)
        } else {
            m2.remove(e.0)
        }
    }
}

/// The staged writes as a map from key to kind and value.
pub open spec fn staged_map(s: Seq<StagedView>) -> Map<Seq<u8>, (LogRecordType, Seq<u8>)> {
    Map::new(
        |k: Seq<u8>| exists|i: int| 0 <= i < s.len() && s[i].0 == k,
        |k: Seq<u8>| {
            let i = choose|i: int| 0 <= i < s.len() && s[i].0 == k;
            (s[i].1, s[i].2)
        },
    )
}

/// An atomic group of puts and deletes staged over an engine.
pub struct WriteBatch {
    pub options: WriteBatchOptions,
    pub pending_batch: Vec<LogRecord>,
}

impl<F: IOManager> Engine<F> {
    /// A new, empty batch.
    pub fn write_batch(&self, options: &WriteBatchOptions) -> (r: Result<WriteBatch>)
        ensures
            r is Ok,
            r->Ok_0.wf(),
            r->Ok_0.staged().len() == 0,
            r->Ok_0.options == *options,
    {
        Ok(WriteBatch { options: *options, pending_batch: Vec::new() })
    }
}

impl WriteBatch {
    pub open spec fn staged(&self) -> Seq<StagedView> {
        self.pending_batch@.map_values(|r: LogRecord| staged_view(r))
    }

    /// Each key is staged once, as a put or a tombstone.
    pub open spec fn wf(&self) -> bool {
        &&& forall|i: int, j: int|
            0 <= i < j < self.staged().len() ==> (#[trigger] self.staged()[i]).0 != (
            #[trigger] self.staged()[j]).0
        &&& forall|i: int|
            0 <= i < self.staged().len() ==> (#[trigger] self.staged()[i]).1
                != LogRecordType::BatchCommit
    }

    pub open spec fn view(&self) -> Map<Seq<u8>, (LogRecordType, Seq<u8>)> {
        staged_map(self.staged())
    }

    proof fn lemma_view_at(&self, i: int)
        requires
            self.wf(),
            0 <= i < self.staged().len(),
        ensures
            self.view().contains_key(self.staged()[i].0),
            self.view()[self.staged()[i].0] == (self.staged()[i].1, self.staged()[i].2),
    {
        let k = self.staged()[i].0;
        assert(exists|j: int| 0 <= j < self.staged().len() && self.staged()[j].0 == k);
        let j = choose|j: int| 0 <= j < self.staged().len() && self.staged()[j].0 == k;
        assert(j == i);
    }

    fn find(&self, key: &[u8]) -> (r: Option<usize>)
        requires
            self.wf(),
        ensures
            r is Some ==> r.unwrap() < self.staged().len() && self.staged()[r.unwrap() as int].0
                == key@,
            r is None ==> !self.view().contains_key(key@),
    {
        let mut i: usize = 0;
        while i < self.pending_batch.len()
            invariant
                i <= self.staged().len(),
                self.staged().len() == self.pending_batch@.len(),
                forall|j: int| 0 <= j < i ==> (#[trigger] self.staged()[j]).0 != key@,
            decreases self.pending_batch@.len() - i,
        {
            assert(self.staged()[i as int].0 == self.pending_batch@[i as int].key@);
            match compare_bytes(self.pending_batch[i].key.as_slice(), key) {
                core::cmp::Ordering::Equal => {
                    return Some(i);
                },
                _ => {},
            }
            i = i + 1;
        }
        None
    }

    /// Stages a put of `value` under `key`, replacing what was staged for it.
    pub fn put(&mut self, key: &[u8], value: &[u8]) -> (r: Result<()>)
        requires
            old(self).wf(),
        ensures
            final(self).wf(),
            final(self).options == old(self).options,
            key@.len() == 0 ==> r is Err && r->Err_0 is EmptyKey && final(self).view() == old(
                self,
            ).view(),
            key@.len() > 0 ==> r is Ok && final(self).view() == old(self).view().insert(
                key@,
                (LogRecordType::Normal, value@),
            ),
    {
        if key.len() == 0 {
            return Err(Errors::EmptyKey);
        }
        let record = LogRecord {
            key: copy_bytes(key),
            value: copy_bytes(value),
            record_type: LogRecordType::Normal,
        };
        let ghost s0 = self.staged();
        let ghost v0 = self.view();
        match self.find(key) {
            Some(i) => {
                self.pending_batch.set(i, record);
                assert(self.staged() =~= s0.update(i as int, (key@, LogRecordType::Normal, value@)));
                proof {
                    let s1 = self.staged();
                    assert forall|x: Seq<u8>| #[trigger] self.view().contains_key(x) <==> v0.insert(
                        key@,
                        (LogRecordType::Normal, value@),
                    ).contains_key(x) by {
                        if v0.contains_key(x) {
                            let j = choose|j: int| 0 <= j < s0.len() && s0[j].0 == x;
                            assert(s1[j].0 == x);
                        }
                        if self.view().contains_key(x) {
                            let j = choose|j: int| 0 <= j < s1.len() && s1[j].0 == x;
                            if j != i {
                                assert(s0[j].0 == x);
                            }
                        }
                        if x == key@ {
                            assert(s1[i as int].0 == x);
                        }
                    }
                    assert forall|x: Seq<u8>| #[trigger]
                        self.view().contains_key(x) implies self.view()[x] == v0.insert(
                        key@,
                        (LogRecordType::Normal, value@),
                    )[x] by {
                        let j = choose|j: int| 0 <= j < s1.len() && s1[j].0 == x;
                        self.lemma_view_at(j);
                        if j != i {
                            assert(s0[j] == s1[j]);
                            assert(s0[i as int].0 == key@);
                        }
                    }
                    assert(self.view() =~= v0.insert(key@, (LogRecordType::Normal, value@)));
                }
            },
            None => {
                self.pending_batch.push(record);
                assert(self.staged() =~= s0.push((key@, LogRecordType::Normal, value@)));
                proof {
                    let s1 = self.staged();
                    assert forall|j: int| 0 <= j < s0.len() implies (#[trigger] s0[j]).0 != key@ by {
                        assert(v0.contains_key(s0[j].0));
                    }
                    assert forall|x: Seq<u8>| #[trigger] self.view().contains_key(x) <==> v0.insert(
                        key@,
                        (LogRecordType::Normal, value@),
                    ).contains_key(x) by {
                        if v0.contains_key(x) {
                            let j = choose|j: int| 0 <= j < s0.len() && s0[j].0 == x;
                            assert(s1[j].0 == x);
                        }
                        if self.view().contains_key(x) {
                            let j = choose|j: int| 0 <= j < s1.len() && s1[j].0 == x;
                            if j < s0.len() {
                                assert(s0[j].0 == x);
                            }
                        }
                        if x == key@ {
                            assert(s1[s0.len() as int].0 == x);
                        }
                    }
                    assert forall|x: Seq<u8>| #[trigger]
                        self.view().contains_key(x) implies self.view()[x] == v0.insert(
                        key@,
                        (LogRecordType::Normal, value@),
                    )[x] by {
                        let j = choose|j: int| 0 <= j < s1.len() && s1[j].0 == x;
                        self.lemma_view_at(j);
                        if j < s0.len() {
                            assert(s0[j] == s1[j]);
                        }
                    }
                    assert(self.view() =~= v0.insert(key@, (LogRecordType::Normal, value@)));
                }
            },
        }
        Ok(())
    }
}

impl WriteBatch {
    /// Drops what is staged for the entry at `i`.
    fn unstage(&mut self, i: usize)
        requires
            old(self).wf(),
            i < old(self).staged().len(),
        ensures
            final(self).wf(),
            final(self).options == old(self).options,
            final(self).view() == old(self).view().remove(old(self).staged()[i as int].0),
    {
        let ghost s0 = self.staged();
        let ghost v0 = self.view();
        let ghost k = s0[i as int].0;
        self.pending_batch.remove(i);
        assert(self.staged() =~= s0.remove(i as int));
        proof {
            let s1 = self.staged();
            assert forall|x: Seq<u8>| #[trigger] self.view().contains_key(x) <==> v0.remove(
                k,
            ).contains_key(x) by {
                if v0.contains_key(x) && x != k {
                    let j = choose|j: int| 0 <= j < s0.len() && s0[j].0 == x;
                    if j < i {
                        assert(s1[j].0 == x);
                    } else {
                        assert(j != i);
                        assert(s1[j - 1].0 == x);
                    }
                }
                if self.view().contains_key(x) {
                    let j = choose|j: int| 0 <= j < s1.len() && s1[j].0 == x;
                    let j0 = if j < i {
                        j
                    } else {
                        j + 1
                    };
                    assert(s0[j0].0 == x);
                    assert(j0 != i);
                }
            }
            assert forall|x: Seq<u8>| #[trigger]
                self.view().contains_key(x) implies self.view()[x] == v0.remove(k)[x] by {
                let j = choose|j: int| 0 <= j < s1.len() && s1[j].0 == x;
                self.lemma_view_at(j);
                let j0 = if j < i {
                    j
                } else {
                    j + 1
                };
                assert(s0[j0] == s1[j]);
            }
            assert(self.view() =~= v0.remove(k));
        }
    }

    /// Stages the removal of `key`: a staged put of it is dropped, and a
    /// tombstone is staged where the engine holds the key.
    pub fn delete<F: IOManager>(&mut self, engine: &Engine<F>, key: &[u8]) -> (r: Result<()>)
        requires
            old(self).wf(),
            engine.wf(),
        ensures
            final(self).wf(),
            final(self).options == old(self).options,
            key@.len() == 0 ==> r is Err && r->Err_0 is EmptyKey && final(self).view() == old(
                self,
            ).view(),
            key@.len() > 0 ==> r is Ok && final(self).view() == (if old(self).view().contains_key(
                key@,
            ) && old(self).view()[key@].0 != LogRecordType::Normal {
                old(self).view()
            } else if engine.view().contains_key(key@) {
                old(self).view().insert(key@, (LogRecordType::Deleted, Seq::empty()))
            } else {
                old(self).view().remove(key@)
            }),
    {
        if key.len() == 0 {
            return Err(Errors::EmptyKey);
        }
        let has_key = match engine.indexer.get(key) {
            Some(_) => true,
            None => false,
        };
        let ghost v0 = self.view();
        match self.find(key) {
            Some(i) => {
                proof {
                    self.lemma_view_at(i as int);
                }
                match self.pending_batch[i].record_type {
                    LogRecordType::Normal => {},
                    _ => {
                        return Ok(());
                    },
                }
                self.unstage(i);
            },
            None => {
                assert(v0.remove(key@) =~= v0);
            },
        }
        if has_key {
            let ghost v1 = self.view();
            let tomb = LogRecord {
                key: copy_bytes(key),
                value: Vec::new(),
                record_type: LogRecordType::Deleted,
            };
            let ghost s0 = self.staged();
            proof {
                assert forall|j: int| 0 <= j < s0.len() implies (#[trigger] s0[j]).0 != key@ by {
                    self.lemma_view_at(j);
                }
            }
            self.pending_batch.push(tomb);
            assert(self.staged() =~= s0.push((key@, LogRecordType::Deleted, Seq::empty())));
            proof {
                let s1 = self.staged();
                assert forall|x: Seq<u8>| #[trigger] self.view().contains_key(x) <==> v1.insert(
                    key@,
                    (LogRecordType::Deleted, Seq::empty()),
                ).contains_key(x) by {
                    if v1.contains_key(x) {
                        let j = choose|j: int| 0 <= j < s0.len() && s0[j].0 == x;
                        assert(s1[j].0 == x);
                    }
                    if self.view().contains_key(x) {
                        let j = choose|j: int| 0 <= j < s1.len() && s1[j].0 == x;
                        if j < s0.len() {
                            assert(s0[j].0 == x);
                        }
                    }
                    if x == key@ {
                        assert(s1[s0.len() as int].0 == x);
                    }
                }
                assert forall|x: Seq<u8>| #[trigger]
                    self.view().contains_key(x) implies self.view()[x] == v1.insert(
                    key@,
                    (LogRecordType::Deleted, Seq::empty()),
                )[x] by {
                    let j = choose|j: int| 0 <= j < s1.len() && s1[j].0 == x;
                    self.lemma_view_at(j);
                    if j < s0.len() {
                        assert(s0[j] == s1[j]);
                    }
                }
                assert(self.view() =~= v1.insert(key@, (LogRecordType::Deleted, Seq::empty())));
                assert(v1.insert(key@, (LogRecordType::Deleted, Seq::empty())) =~= v0.insert(
                    key@,
                    (LogRecordType::Deleted, Seq::empty()),
                ));
            }
        }
        Ok(())
    }

    /// What `key` reads as inside the batch: a staged write wins over the engine.
    pub fn get<F: IOManager>(&self, engine: &Engine<F>, key: &[u8]) -> (r: Result<Vec<u8>>)
        requires
            self.wf(),
            engine.wf(),
        ensures
            key@.len() == 0 ==> r is Err && r->Err_0 is EmptyKey,
            key@.len() > 0 && self.view().contains_key(key@) && self.view()[key@].0
                == LogRecordType::Normal ==> r is Ok && r->Ok_0@ == self.view()[key@].1,
            key@.len() > 0 && self.view().contains_key(key@) && self.view()[key@].0
                != LogRecordType::Normal ==> r is Err && r->Err_0 is KeyNotFound,
            key@.len() > 0 && !self.view().contains_key(key@) && !engine.view().contains_key(key@)
                ==> r is Err && r->Err_0 is KeyNotFound,
            key@.len() > 0 && !self.view().contains_key(key@) && engine.view().contains_key(key@)
                ==> (r is Ok && r->Ok_0@ == engine.view()[key@]) || (r is Err
                && r->Err_0 is FailToReadFromDataFile),
    {
        if key.len() == 0 {
            return Err(Errors::EmptyKey);
        }
        match self.find(key) {
            Some(i) => {
                proof {
                    self.lemma_view_at(i as int);
                }
                match self.pending_batch[i].record_type {
                    LogRecordType::Normal => Ok(copy_bytes(self.pending_batch[i].value.as_slice())),
                    _ => Err(Errors::KeyNotFound),
                }
            },
            None => engine.get(key),
        }
    }
}

/// A framed key is never empty.
pub proof fn lemma_frame_nonempty(prefix: Seq<u8>, seq_id: nat, key: Seq<u8>)
    requires
        prefix.len() <= u64::MAX,
    ensures
        frame_key(prefix, seq_id, key).len() > 0,
{
    crate::log_record::lemma_varint_len_bound(prefix.len());
}

/// The records written for staged entries: each at its place, of its kind,
/// under its framed key, with its value.
pub open spec fn written_ok<F: IOManager>(
    engine: &Engine<F>,
    written: Seq<LogRecordPos>,
    st: Seq<StagedView>,
    prefix: Seq<u8>,
    seq_id: nat,
    n: int,
) -> bool {
    forall|j: int|
        0 <= j < n ==> (#[trigger] engine.record_at(written[j])) is Record && engine.record_at(
            written[j],
        )->record_type == st[j].1 && engine.record_at(written[j])->key == frame_key(
            prefix,
            seq_id,
            st[j].0,
        ) && engine.record_at(written[j])->value == st[j].2
}

proof fn lemma_written_kept<F: IOManager>(
    before: &Engine<F>,
    after: &Engine<F>,
    written: Seq<LogRecordPos>,
    st: Seq<StagedView>,
    prefix: Seq<u8>,
    seq_id: nat,
    n: int,
)
    requires
        before.keeps_records(after),
        written_ok(before, written, st, prefix, seq_id, n),
    ensures
        written_ok(after, written, st, prefix, seq_id, n),
{
    assert forall|j: int| 0 <= j < n implies (#[trigger] after.record_at(written[j]))
        == before.record_at(written[j]) by {
        assert(before.record_at(written[j]) is Record);
    }
}

/// The log's replay has batch `id` last among its open batches, and no
/// other open batch under that id.
pub open spec fn commits_last(s: Option<ReplayState>, id: (Seq<u8>, nat)) -> bool {
    &&& s is Some
    &&& s.unwrap().pending.len() > 0
    &&& s.unwrap().pending.last().0 == id
    &&& pending_find(s.unwrap().pending.drop_last(), id) == -1
    &&& id.1 != 0
}

/// Every staged entry, framed under `prefix` and `seq_id`, fits a record.
pub open spec fn batch_fits(st: Seq<StagedView>, prefix: Seq<u8>, seq_id: nat) -> bool {
    forall|i: int| 0 <= i < st.len() ==> fits_record(frame_key(prefix, seq_id, (#[trigger] st[i]).0), st[i].2)
}

/// The batch members as replay stages them: user key, location, kind.
pub open spec fn staged_entries(st: Seq<StagedView>, written: Seq<LogRecordPos>, n: nat) -> Seq<
    EntryView,
> {
    Seq::new(n, |j: int| (st[j].0, written[j], st[j].1))
}

/// The log's replay with the first `n` members of batch `id` staged after
/// the batches `p` that were open before.
pub open spec fn staging(
    p: Seq<BatchView>,
    id: (Seq<u8>, nat),
    st: Seq<StagedView>,
    written: Seq<LogRecordPos>,
    n: nat,
) -> Seq<BatchView> {
    if n == 0 {
        p
    } else {
        p.push((id, staged_entries(st, written, n)))
    }
}

impl WriteBatch {
    /// Appends the staged entries, framed under `prefix` and `seq_id`.
    fn write_staged<F: IOManager>(&self, engine: &mut Engine<F>, prefix: &Vec<u8>, seq_id: usize) -> (r:
        Result<Vec<LogRecordPos>>)
        requires
            self.wf(),
            old(engine).wf(),
        ensures
            final(engine).wf(),
            final(engine).indexer == old(engine).indexer,
            final(engine).options == old(engine).options,
            final(engine).batch_prefix == old(engine).batch_prefix,
            final(engine).batch_commit_id == old(engine).batch_commit_id,
            final(engine).view() == old(engine).view(),
            r is Ok ==> r->Ok_0@.len() == self.staged().len() && written_ok(
                final(engine),
                r->Ok_0@,
                self.staged(),
                prefix@,
                seq_id as nat,
                self.staged().len() as int,
            ),
            r is Err ==> is_io_error(r->Err_0) || r->Err_0 is EncodingError,
            batch_fits(self.staged(), prefix@, seq_id as nat) ==> r is Ok || is_io_error(r->Err_0),
            r is Ok && old(engine).log_state() is Some && pending_find(
                old(engine).log_state().unwrap().pending,
                (prefix@, seq_id as nat),
            ) == -1 && seq_id != 0 ==> final(engine).log_state() == Some(
                ReplayState {
                    keydir: old(engine).log_state().unwrap().keydir,
                    pending: staging(
                        old(engine).log_state().unwrap().pending,
                        (prefix@, seq_id as nat),
                        self.staged(),
                        r->Ok_0@,
                        self.staged().len(),
                    ),
                },
            ),
    {
        let n = self.pending_batch.len();
        let ghost st = self.staged();
        let ghost id = (prefix@, seq_id as nat);
        let ghost track = old(engine).log_state() is Some && pending_find(
            old(engine).log_state().unwrap().pending,
            id,
        ) == -1 && seq_id != 0;
        let ghost s0 = old(engine).log_state();
        let plen = prefix.len();
        let mut written: Vec<LogRecordPos> = Vec::new();
        let mut i: usize = 0;
        while i < n
            invariant
                n == self.pending_batch@.len(),
                st == self.staged(),
                self.wf(),
                i <= n,
                written@.len() == i,
                id == (prefix@, seq_id as nat),
                prefix@.len() <= usize::MAX,
                s0 == old(engine).log_state(),
                track == (s0 is Some && pending_find(s0.unwrap().pending, id) == -1 && seq_id != 0),
                track ==> engine.log_state() == Some(
                    ReplayState {
                        keydir: s0.unwrap().keydir,
                        pending: staging(s0.unwrap().pending, id, st, written@, i as nat),
                    },
                ),
                engine.wf(),
                engine.indexer == old(engine).indexer,
                engine.options == old(engine).options,
                engine.batch_prefix == old(engine).batch_prefix,
                engine.batch_commit_id == old(engine).batch_commit_id,
                engine.view() == old(engine).view(),
                written_ok(engine, written@, st, prefix@, seq_id as nat, i as int),
            decreases n - i,
        {
            let framed = log_record_key_with_sequence(
                self.pending_batch[i].key.as_slice(),
                prefix.as_slice(),
                seq_id,
            );
            if framed.len() > 0xffff_ffffusize || self.pending_batch[i].value.len() > 0xffff_ffffusize {
                assert(st[i as int] == staged_view(self.pending_batch@[i as int]));
                return Err(Errors::EncodingError);
            }
            let plen = prefix.len();
            proof {
                lemma_frame_nonempty(prefix@, seq_id as nat, self.pending_batch@[i as int].key@);
            }
            let record = LogRecord {
                key: framed,
                value: copy_bytes(self.pending_batch[i].value.as_slice()),
                record_type: self.pending_batch[i].record_type,
            };
            let ghost before = *engine;
            let appended = engine.append_log_record(&record);
            proof {
                before.lemma_keeps_view(engine);
            }
            match appended {
                Ok(pos) => {
                    let ghost wbefore = written@;
                    written.push(pos);
                    proof {
                        if track {
                            lemma_frame_round_trip(prefix@, seq_id as nat, st[i as int].0);
                            assert(st[i as int] == staged_view(self.pending_batch@[i as int]));
                            let e = (st[i as int].0, pos, st[i as int].1);
                            before.lemma_append_log_state(
                                engine,
                                record.record_type,
                                record.key@,
                                record.value@,
                                pos,
                            );
                            let open_batches = s0.unwrap().pending;
                            assert(staged_entries(st, written@, (i + 1) as nat) =~= staged_entries(
                                st,
                                wbefore,
                                i as nat,
                            ).push(e));
                            if i > 0 {
                                lemma_pending_find_push(
                                    open_batches,
                                    (id, staged_entries(st, wbefore, i as nat)),
                                    id,
                                );
                                assert(staging(open_batches, id, st, wbefore, i as nat).update(
                                    open_batches.len() as int,
                                    (id, staged_entries(st, wbefore, i as nat).push(e)),
                                ) =~= staging(open_batches, id, st, written@, (i + 1) as nat));
                            } else {
                                assert(staged_entries(st, written@, 1) =~= seq![e]);
                            }
                        }
                        assert forall|j: int| 0 <= j < i + 1 implies (#[trigger] engine.record_at(
                            written@[j],
                        )) is Record && engine.record_at(written@[j])->record_type == st[j].1
                            && engine.record_at(written@[j])->key == frame_key(
                            prefix@,
                            seq_id as nat,
                            st[j].0,
                        ) && engine.record_at(written@[j])->value == st[j].2 by {
                            if j < i {
                                assert(before.record_at(written@[j]) is Record);
                            } else {
                                assert(st[j] == staged_view(self.pending_batch@[j]));
                            }
                        }
                    }
                },
                Err(e) => return Err(e),
            }
            i = i + 1;
        }
        Ok(written)
    }

    /// Points the keydir at the written entries, in order.
    fn apply_written<F: IOManager>(
        &self,
        engine: &mut Engine<F>,
        written: &Vec<LogRecordPos>,
        prefix: &Vec<u8>,
        seq_id: usize,
    )
        requires
            self.wf(),
            old(engine).wf(),
            written@.len() == self.staged().len(),
            written_ok(
                old(engine),
                written@,
                self.staged(),
                prefix@,
                seq_id as nat,
                self.staged().len() as int,
            ),
        ensures
            final(engine).wf(),
            final(engine).options == old(engine).options,
            final(engine).batch_prefix == old(engine).batch_prefix,
            final(engine).batch_commit_id == old(engine).batch_commit_id,
            final(engine).view() == apply_staged(old(engine).view(), self.staged()),
            final(engine).active_file == old(engine).active_file,
            final(engine).old_files == old(engine).old_files,
            final(engine).indexer.view() == apply_entries(
                old(engine).indexer.view(),
                staged_entries(self.staged(), written@, self.staged().len()),
            ),
    {
        let n = self.pending_batch.len();
        let ghost st = self.staged();
        let ghost e_pre = *engine;
        let ghost ents = staged_entries(st, written@, n as nat);
        let plen = prefix.len();
        let mut i: usize = 0;
        assert(st.take(0) =~= Seq::<StagedView>::empty());
        while i < n
            invariant
                n == self.pending_batch@.len(),
                st == self.staged(),
                i <= n,
                written@.len() == n,
                prefix@.len() <= usize::MAX,
                engine.wf(),
                engine.active_file == e_pre.active_file,
                engine.old_files == e_pre.old_files,
                engine.options == old(engine).options,
                engine.batch_prefix == old(engine).batch_prefix,
                engine.batch_commit_id == old(engine).batch_commit_id,
                e_pre == *old(engine),
                engine.view() == apply_staged(old(engine).view(), st.take(i as int)),
                ents == staged_entries(st, written@, n as nat),
                engine.indexer.view() == apply_entries(e_pre.indexer.view(), ents.take(i as int)),
                written_ok(&e_pre, written@, st, prefix@, seq_id as nat, n as int),
            decreases n - i,
        {
            let key = copy_bytes(self.pending_batch[i].key.as_slice());
            let pos = written[i];
            let ghost mid = *engine;
            proof {
                e_pre.lemma_same_files(&mid);
                assert(st.take(i + 1).drop_last() =~= st.take(i as int));
                assert(st.take(i + 1).last() == st[i as int]);
                assert(st[i as int] == staged_view(self.pending_batch@[i as int]));
                assert(e_pre.record_at(written@[i as int]) is Record);
                assert(ents.take(i + 1).drop_last() =~= ents.take(i as int));
                assert(ents.take(i + 1).last() == (st[i as int].0, written@[i as int], st[i as int].1));
            }
            match self.pending_batch[i].record_type {
                LogRecordType::Normal => {
                    proof {
                        lemma_frame_round_trip(prefix@, seq_id as nat, key@);
                        assert(mid.live_at(key@, pos));
                    }
                    engine.indexer.put(key, pos);
                    proof {
                        mid.lemma_put_index(engine, st[i as int].0, pos);
                    }
                },
                _ => {
                    engine.indexer.delete(key.as_slice());
                    proof {
                        mid.lemma_delete_index(engine, st[i as int].0);
                    }
                },
            }
            i = i + 1;
        }
        assert(st.take(n as int) =~= st);
        assert(ents.take(n as int) =~= ents);
    }

    /// Appends the terminator of batch `seq_id`, and syncs where the options say so.
    #[verifier::rlimit(40)]
    fn write_terminator<F: IOManager>(
        &self,
        engine: &mut Engine<F>,
        prefix: &Vec<u8>,
        seq_id: usize,
        written: &Vec<LogRecordPos>,
    ) -> (r: Result<()>)
        requires
            self.wf(),
            old(engine).wf(),
            written@.len() == self.staged().len(),
            written_ok(
                old(engine),
                written@,
                self.staged(),
                prefix@,
                seq_id as nat,
                self.staged().len() as int,
            ),
        ensures
            final(engine).wf(),
            final(engine).indexer == old(engine).indexer,
            final(engine).options == old(engine).options,
            final(engine).batch_prefix == old(engine).batch_prefix,
            final(engine).batch_commit_id == old(engine).batch_commit_id,
            final(engine).view() == old(engine).view(),
            r is Ok ==> written_ok(
                final(engine),
                written@,
                self.staged(),
                prefix@,
                seq_id as nat,
                self.staged().len() as int,
            ),
            r is Err ==> is_io_error(r->Err_0) || r->Err_0 is EncodingError,
            fits_record(frame_key(prefix@, seq_id as nat, txn_fin_key_spec()), Seq::empty())
                ==> r is Ok || is_io_error(r->Err_0),
            r is Ok && commits_last(old(engine).log_state(), (prefix@, seq_id as nat))
                ==> final(engine).log_state() == Some(
                ReplayState {
                    keydir: apply_entries(
                        old(engine).log_state().unwrap().keydir,
                        old(engine).log_state().unwrap().pending.last().1,
                    ),
                    pending: old(engine).log_state().unwrap().pending.drop_last(),
                },
            ),
    {
        let fin = log_record_key_with_sequence(txn_fin_key().as_slice(), prefix.as_slice(), seq_id);
        if fin.len() > 0xffff_ffffusize {
            return Err(Errors::EncodingError);
        }
        proof {
            lemma_frame_nonempty(prefix@, seq_id as nat, txn_fin_key_spec());
        }
        let terminator = LogRecord {
            key: fin,
            value: Vec::new(),
            record_type: LogRecordType::BatchCommit,
        };
        let ghost before = *engine;
        let appended = engine.append_log_record(&terminator);
        proof {
            before.lemma_keeps_view(engine);
        }
        let pos = match appended {
            Ok(p) => p,
            Err(e) => return Err(e),
        };
        proof {
            let id = (prefix@, seq_id as nat);
            if commits_last(before.log_state(), id) {
                let st = before.log_state().unwrap();
                let plen = prefix@.len();
                lemma_frame_round_trip(prefix@, seq_id as nat, txn_fin_key_spec());
                assert(st.pending =~= st.pending.drop_last().push(st.pending.last()));
                lemma_pending_find_push(st.pending.drop_last(), st.pending.last(), id);
                assert(st.pending.remove(st.pending.len() - 1) =~= st.pending.drop_last());
                assert(terminator.value@ =~= Seq::<u8>::empty());
                before.lemma_append_log_state(
                    engine,
                    LogRecordType::BatchCommit,
                    terminator.key@,
                    terminator.value@,
                    pos,
                );
            }
        }
        let ghost mid = *engine;
        if self.options.sync_on_write {
            let synced = engine.sync();
            match synced {
                Ok(()) => {},
                Err(e) => return Err(e),
            }
        }
        proof {
            lemma_written_kept(
                &before,
                &mid,
                written@,
                self.staged(),
                prefix@,
                seq_id as nat,
                self.staged().len() as int,
            );
            lemma_written_kept(
                &mid,
                engine,
                written@,
                self.staged(),
                prefix@,
                seq_id as nat,
                self.staged().len() as int,
            );
        }
        Ok(())
    }

    /// Writes the staged entries under a fresh sequence id, then the
    /// terminator that commits them, then applies them to the keydir. Until
    /// the terminator is written the engine's contents do not change.
    pub fn commit<F: IOManager>(&mut self, engine: &mut Engine<F>) -> (r: Result<()>)
        requires
            old(self).wf(),
            old(engine).wf(),
        ensures
            final(self).wf(),
            final(engine).wf(),
            final(self).options == old(self).options,
            final(engine).options == old(engine).options,
            final(engine).batch_prefix == old(engine).batch_prefix,
            old(self).staged().len() == 0 ==> r is Ok && *final(engine) == *old(engine),
            old(self).staged().len() > old(self).options.max_batch_size ==> r is Err
                && r->Err_0 is ExceedBatchMaxSize && *final(engine) == *old(engine),
            old(self).staged().len() <= old(self).options.max_batch_size ==> r is Ok
                || is_io_error(r->Err_0) || r->Err_0 is EncodingError,
            old(self).staged().len() <= old(self).options.max_batch_size
                && old(engine).batch_commit_id < usize::MAX && batch_fits(
                old(self).staged(),
                old(engine).batch_prefix@,
                (old(engine).batch_commit_id + 1) as nat,
            ) && fits_record(
                frame_key(
                    old(engine).batch_prefix@,
                    (old(engine).batch_commit_id + 1) as nat,
                    txn_fin_key_spec(),
                ),
                Seq::empty(),
            ) ==> r is Ok || is_io_error(r->Err_0),
            r is Ok ==> final(engine).view() == apply_staged(old(engine).view(), old(self).staged())
                && final(self).staged().len() == 0,
            r is Err ==> final(engine).view() == old(engine).view() && final(self).staged()
                == old(self).staged(),
            old(engine).replays() && old(engine).batches_fresh() && r is Ok
                ==> final(engine).replays() && final(engine).batches_fresh(),
    {
        let n = self.pending_batch.len();
        if n == 0 {
            assert(self.staged() =~= Seq::<StagedView>::empty());
            return Ok(());
        }
        if n > self.options.max_batch_size {
            return Err(Errors::ExceedBatchMaxSize);
        }
        if engine.batch_commit_id == usize::MAX {
            return Err(Errors::EncodingError);
        }
        let seq_id = engine.batch_commit_id + 1;
        let ghost e_start = *engine;
        engine.batch_commit_id = seq_id;
        proof {
            e_start.lemma_same_files_keeps(engine);
            e_start.lemma_keeps_view(engine);
        }
        let prefix = copy_bytes(engine.batch_prefix.as_slice());
        let ghost id = (prefix@, seq_id as nat);
        let ghost tracked_log = e_start.replays() && e_start.batches_fresh();
        proof {
            assert(engine.log_state() == e_start.log_state());
            if tracked_log {
                let open_batches = e_start.log_state().unwrap().pending;
                assert forall|b: int| 0 <= b < open_batches.len() implies !((#[trigger] open_batches[b]).0.0 == id.0
                    && open_batches[b].0.1 == id.1) by {
                    assert(crate::db::fresh_for(open_batches[b], e_start.batch_prefix@, e_start.batch_commit_id as nat));
                }
                lemma_pending_absent(open_batches, id);
            }
        }
        let ghost e_staged_from = *engine;
        let written = match self.write_staged(engine, &prefix, seq_id) {
            Ok(w) => w,
            Err(e) => return Err(e),
        };
        let ghost e_staged = *engine;
        proof {
            if tracked_log {
                let open_batches = e_start.log_state().unwrap().pending;
                let ents = staged_entries(self.staged(), written@, n as nat);
                assert(e_staged.log_state().unwrap().pending == open_batches.push((id, ents)));
                assert(open_batches.push((id, ents)).drop_last() =~= open_batches);
            }
        }
        match self.write_terminator(engine, &prefix, seq_id, &written) {
            Ok(()) => {},
            Err(e) => return Err(e),
        }
        let ghost e_fin = *engine;
        self.apply_written(engine, &written, &prefix, seq_id);
        proof {
            assert(engine.log_state() == e_fin.log_state());
            if tracked_log {
                let st0 = e_start.log_state().unwrap();
                assert(engine.indexer.view() == apply_entries(
                    st0.keydir,
                    staged_entries(self.staged(), written@, n as nat),
                ));
                assert forall|b: int| 0 <= b < engine.log_state().unwrap().pending.len() implies crate::db::fresh_for(
                    #[trigger] engine.log_state().unwrap().pending[b],
                    engine.batch_prefix@,
                    engine.batch_commit_id as nat,
                ) by {
                    assert(crate::db::fresh_for(st0.pending[b], e_start.batch_prefix@, e_start.batch_commit_id as nat));
                }
            }
        }
        self.pending_batch.clear();
        assert(self.staged() =~= Seq::<StagedView>::empty());
        Ok(())
    }
}

} // verus!
