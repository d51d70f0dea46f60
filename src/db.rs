use vstd::prelude::*;

use crate::batch::{
    frame_key, lemma_frame_round_trip, log_record_key_parse, log_record_key_with_sequence,
    parse_key,
};
use crate::data_file::DataFile;
use crate::error::{Errors, Result};
use crate::fio::{is_io_error, IOManager};
use crate::index::{bytes_lt, key_index, lemma_map_of_at, BTreeIndexer, Indexer};
use crate::log_record::{
    encode_spec, decode_at, lemma_decode_agree, lemma_decode_bounds, lemma_decode_encoded, lemma_decode_extend,
    LogRecord, LogRecordPos, LogRecordType, ReadOutcome,
};
use crate::options::{check_options, options_valid, Options};
use crate::replay::{
    lemma_record_replays, lemma_replay_split, lemma_scan_empty, lemma_scan_truncate, apply_entries, empty_replay, entry_view, find_pending, lemma_pending_find_range, pending_find,
    pending_view, replay, replay_from, replay_record, scan, EntryView, PendingBatch, PendingEntry,
    ReplayState,
};

verus! {

/// The sequence id of a write outside any batch.
pub const NON_BATCH_COMMIT_ID: usize = 0;

/// The prefix that frames the keys of writes outside any batch: "non_txn".
pub open spec fn non_txn_prefix_spec() -> Seq<u8> {
    seq![110u8, 111, 110, 95, 116, 120, 110]
}

pub fn non_txn_prefix() -> (r: Vec<u8>)
    ensures
        r@ == non_txn_prefix_spec(),
{
    let r: Vec<u8> = vec![110u8, 111, 110, 95, 116, 120, 110];
    assert(r@ =~= non_txn_prefix_spec());
    r
}

/// A key and a value that fit the record format: lengths up to `u32::MAX`.
pub open spec fn fits_record(framed_key: Seq<u8>, value: Seq<u8>) -> bool {
    framed_key.len() <= u32::MAX && value.len() <= u32::MAX
}

/// The storage engine: the active segment, the sealed ones, the keydir, and
/// the state that frames batches.
pub struct Engine<F> {
    pub options: Options,
    pub active_file: DataFile<F>,
    pub old_files: Vec<DataFile<F>>,
    pub indexer: BTreeIndexer,
    pub batch_prefix: Vec<u8>,
    pub batch_commit_id: usize,
}

impl<F: IOManager> Engine<F> {
    /// The active segment's cursor is its end; sealed segments have ids
    /// ascending and below the active one.
    pub open spec fn files_wf(&self) -> bool {
        &&& self.active_file.at_end()
        &&& self.ids_wf()
    }

    /// Sealed segments have ids ascending and below the active one.
    pub open spec fn ids_wf(&self) -> bool {
        &&& forall|i: int, j: int|
            0 <= i < j < self.old_files@.len() ==> (#[trigger] self.old_files@[i]).file_id < (
            #[trigger] self.old_files@[j]).file_id
        &&& forall|i: int|
            0 <= i < self.old_files@.len() ==> (#[trigger] self.old_files@[i]).file_id
                < self.active_file.file_id
    }

    pub open spec fn old_index(&self, fid: u32) -> int {
        choose|i: int| 0 <= i < self.old_files@.len() && self.old_files@[i].file_id == fid
    }

    /// The bytes of segment `fid`, if the engine has it.
    pub open spec fn file_bytes(&self, fid: u32) -> Option<Seq<u8>> {
        if fid == self.active_file.file_id {
            Some(self.active_file.bytes())
        } else if exists|i: int| 0 <= i < self.old_files@.len() && self.old_files@[i].file_id == fid {
            Some(self.old_files@[self.old_index(fid)].bytes())
        } else {
            None
        }
    }

    /// What a read at `pos` finds.
    pub open spec fn record_at(&self, pos: LogRecordPos) -> ReadOutcome {
        match self.file_bytes(pos.file_id) {
            Some(b) => decode_at(b, pos.offset as nat),
            None => ReadOutcome::Corrupted,
        }
    }

    /// At `pos` stands a Normal record of user key `k`.
    pub open spec fn live_at(&self, k: Seq<u8>, pos: LogRecordPos) -> bool {
        match self.record_at(pos) {
            ReadOutcome::Record { record_type, key, .. } => record_type == LogRecordType::Normal
                && parse_key(key) is Some && parse_key(key).unwrap().2 == k,
            _ => false,
        }
    }

    pub open spec fn value_at(&self, pos: LogRecordPos) -> Seq<u8> {
        match self.record_at(pos) {
            ReadOutcome::Record { value, .. } => value,
            _ => Seq::empty(),
        }
    }

    /// Every key of the keydir points to a Normal record of that key.
    pub open spec fn wf(&self) -> bool {
        &&& self.files_wf()
        &&& self.indexer.wf()
        &&& forall|k: Seq<u8>| #[trigger]
            self.indexer.view().contains_key(k) ==> self.live_at(k, self.indexer.view()[k])
    }

    /// The engine's contents: each live key with the value of its latest record.
    pub open spec fn view(&self) -> Map<Seq<u8>, Seq<u8>> {
        Map::new(
            |k: Seq<u8>| self.indexer.view().contains_key(k),
            |k: Seq<u8>| self.value_at(self.indexer.view()[k]),
        )
    }

    /// Every record that `self` holds, `other` holds at the same place.
    pub open spec fn keeps_records(&self, other: &Self) -> bool {
        forall|pos: LogRecordPos| #[trigger]
            self.record_at(pos) is Record ==> other.record_at(pos) == self.record_at(pos)
    }

    proof fn lemma_old_index(&self, i: int)
        requires
            self.ids_wf(),
            0 <= i < self.old_files@.len(),
        ensures
            self.old_index(self.old_files@[i].file_id) == i,
    {
        let fid = self.old_files@[i].file_id;
        let j = self.old_index(fid);
        if j != i {
            if j < i {
                assert(self.old_files@[j].file_id < self.old_files@[i].file_id);
            } else {
                assert(self.old_files@[i].file_id < self.old_files@[j].file_id);
            }
        }
    }

    /// With the same keydir and the records kept, the contents stay the same
    /// and the keydir stays valid.
    pub(crate) proof fn lemma_keeps_view(&self, other: &Self)
        requires
            self.wf(),
            self.keeps_records(other),
            other.indexer == self.indexer,
            other.files_wf(),
        ensures
            other.wf(),
            other.view() == self.view(),
    {
        assert forall|k: Seq<u8>| #[trigger]
            other.indexer.view().contains_key(k) implies other.live_at(
            k,
            other.indexer.view()[k],
        ) by {
            let pos = self.indexer.view()[k];
            assert(self.live_at(k, pos));
            assert(self.record_at(pos) is Record);
        }
        assert forall|k: Seq<u8>| #[trigger]
            other.view().contains_key(k) implies other.view()[k] == self.view()[k] by {
            let pos = self.indexer.view()[k];
            assert(self.live_at(k, pos));
            assert(self.record_at(pos) is Record);
        }
        assert(other.view() =~= self.view());
    }

    /// Index of the sealed segment `fid`, if there is one.
    fn find_old_file(&self, fid: u32) -> (r: Option<usize>)
        requires
            self.ids_wf(),
        ensures
            r is Some ==> r.unwrap() < self.old_files@.len() && self.old_files@[r.unwrap() as int].file_id
                == fid && self.old_index(fid) == r.unwrap(),
            r is None ==> !exists|i: int|
                0 <= i < self.old_files@.len() && self.old_files@[i].file_id == fid,
    {
        let mut i: usize = 0;
        while i < self.old_files.len()
            invariant
                self.ids_wf(),
                i <= self.old_files@.len(),
                forall|j: int| 0 <= j < i ==> (#[trigger] self.old_files@[j]).file_id != fid,
            decreases self.old_files@.len() - i,
        {
            if self.old_files[i].file_id == fid {
                proof {
                    self.lemma_old_index(i as int);
                }
                return Some(i);
            }
            i = i + 1;
        }
        None
    }

    /// Engines over the same segments read the same records.
    pub(crate) proof fn lemma_same_files(&self, other: &Self)
        requires
            other.active_file == self.active_file,
            other.old_files@ == self.old_files@,
        ensures
            forall|pos: LogRecordPos| #[trigger] other.record_at(pos) == self.record_at(pos),
    {
        assert forall|pos: LogRecordPos| #[trigger] other.record_at(pos) == self.record_at(pos) by {
            assert(other.old_index(pos.file_id) == self.old_index(pos.file_id));
            assert(other.file_bytes(pos.file_id) == self.file_bytes(pos.file_id));
        }
    }

    /// Only the active segment grew: every record stays where it was.
    proof fn lemma_extend_keeps(&self, other: &Self, more: Seq<u8>)
        requires
            self.files_wf(),
            other.old_files@ == self.old_files@,
            other.active_file.file_id == self.active_file.file_id,
            other.active_file.bytes() == self.active_file.bytes() + more,
        ensures
            self.keeps_records(other),
    {
        assert forall|pos: LogRecordPos| #[trigger]
            self.record_at(pos) is Record implies other.record_at(pos) == self.record_at(pos) by {
            if pos.file_id == self.active_file.file_id {
                lemma_decode_extend(self.active_file.bytes(), more, pos.offset as nat);
            }
        }
    }

    /// Nothing that the records depend on changed.
    pub(crate) proof fn lemma_same_files_keeps(&self, other: &Self)
        requires
            other.old_files@ == self.old_files@,
            other.active_file.file_id == self.active_file.file_id,
            other.active_file.bytes() == self.active_file.bytes(),
        ensures
            self.keeps_records(other),
    {
        assert forall|pos: LogRecordPos| #[trigger]
            self.record_at(pos) is Record implies other.record_at(pos) == self.record_at(pos) by {
            assert(other.file_bytes(pos.file_id) == self.file_bytes(pos.file_id));
        }
    }

    /// Seals the active segment and starts segment `active + 1`.
    fn rotate_active_file(&mut self) -> (r: Result<()>)
        requires
            old(self).files_wf(),
        ensures
            final(self).files_wf(),
            old(self).keeps_records(final(self)),
            final(self).indexer == old(self).indexer,
            final(self).options == old(self).options,
            final(self).batch_prefix == old(self).batch_prefix,
            final(self).batch_commit_id == old(self).batch_commit_id,
            r is Ok ==> final(self).active_file.write_offset == 0,
            r is Ok ==> final(self).active_file.bytes() == Seq::<u8>::empty()
                && final(self).active_file.file_id == old(self).active_file.file_id + 1
                && segments_of(final(self).old_files@) == segments_of(old(self).old_files@).push(
                (old(self).active_file.file_id, old(self).active_file.bytes()),
            ),
            r is Err ==> is_io_error(r->Err_0),
    {
        let ghost before = *self;
        match self.active_file.sync() {
            Ok(()) => {},
            Err(e) => {
                proof {
                    before.lemma_same_files_keeps(self);
                }
                return Err(e);
            },
        }
        if self.active_file.file_id() == u32::MAX {
            proof {
                before.lemma_same_files_keeps(self);
            }
            return Err(Errors::FailToOpenDataFile("no file id left".to_owned()));
        }
        let mut next = match DataFile::new(
            self.options.dir_path.as_str(),
            self.active_file.file_id() + 1,
        ) {
            Ok(f) => f,
            Err(e) => {
                proof {
                    before.lemma_same_files_keeps(self);
                }
                return Err(e);
            },
        };
        let ghost mid = *self;
        core::mem::swap(&mut self.active_file, &mut next);
        self.old_files.push(next);
        proof {
            assert(segments_of(self.old_files@) =~= segments_of(before.old_files@).push(
                (before.active_file.file_id, before.active_file.bytes()),
            ));
            let n = self.old_files@.len() - 1;
            assert(self.old_files@[n] == mid.active_file);
            assert forall|i: int| 0 <= i < n implies self.old_files@[i] == mid.old_files@[i] by {}
            assert forall|pos: LogRecordPos| #[trigger]
                before.record_at(pos) is Record implies self.record_at(pos) == before.record_at(
                pos,
            ) by {
                let fid = pos.file_id;
                if fid == mid.active_file.file_id {
                    self.lemma_old_index(n);
                    assert(self.file_bytes(fid) == before.file_bytes(fid));
                } else {
                    assert(before.file_bytes(fid) is Some);
                    let i = before.old_index(fid);
                    before.lemma_old_index(i);
                    self.lemma_old_index(i);
                    assert(self.old_files@[i] == mid.old_files@[i]);
                    assert(self.file_bytes(fid) == before.file_bytes(fid));
                }
            }
        }
        Ok(())
    }

    /// Appends a record to the active segment, first sealing it and starting
    /// the next one where the record would not fit under the size threshold.
    /// Returns where the record was written.
    pub fn append_log_record(&mut self, record: &LogRecord) -> (r: Result<LogRecordPos>)
        requires
            old(self).files_wf(),
            record.key@.len() > 0,
            fits_record(record.key@, record.value@),
        ensures
            final(self).files_wf(),
            old(self).keeps_records(final(self)),
            final(self).indexer == old(self).indexer,
            final(self).options == old(self).options,
            final(self).batch_prefix == old(self).batch_prefix,
            final(self).batch_commit_id == old(self).batch_commit_id,
            r is Ok ==> final(self).record_at(r->Ok_0) == (ReadOutcome::Record {
                record_type: record.record_type,
                key: record.key@,
                value: record.value@,
                size: record.encoded().len(),
            }),
            r is Ok ==> appended(old(self), final(self), record.encoded(), r->Ok_0),
            r is Ok ==> (old(self).active_file.write_offset + record.encoded().len()
                > old(self).options.datafile_size <==> final(self).active_file.file_id
                == old(self).active_file.file_id + 1),
            r is Ok && record.encoded().len() <= old(self).options.datafile_size
                ==> final(self).active_file.write_offset <= old(self).options.datafile_size,
            r is Ok ==> record.encoded().len() <= usize::MAX,
            r is Err ==> is_io_error(r->Err_0),
    {
        let ghost start = *self;
        let encoded = record.encode();
        let len = encoded.len();
        if self.active_file.get_offset() > self.options.datafile_size || len as u64
            > self.options.datafile_size - self.active_file.get_offset() {
            match self.rotate_active_file() {
                Ok(()) => {},
                Err(e) => return Err(e),
            }
        }
        let ghost before = *self;
        let offset = self.active_file.get_offset();
        let written = self.active_file.write(encoded.as_slice());
        proof {
            let old_bytes = before.active_file.bytes();
            let new_bytes = self.active_file.bytes();
            assert(new_bytes =~= old_bytes + new_bytes.skip(old_bytes.len() as int));
            before.lemma_extend_keeps(self, new_bytes.skip(old_bytes.len() as int));
        }
        match written {
            Ok(_) => {},
            Err(e) => return Err(e),
        }
        let ghost after_write = *self;
        if self.options.sync_in_write {
            let synced = self.active_file.sync();
            proof {
                after_write.lemma_same_files_keeps(self);
            }
            match synced {
                Ok(()) => {},
                Err(e) => return Err(e),
            }
        }
        let pos = LogRecordPos { file_id: self.active_file.file_id(), offset };
        proof {
            assert(self.active_file.bytes() == before.active_file.bytes() + encoded@);
            assert(segments_of(self.old_files@) == segments_of(before.old_files@));
            let new_bytes = self.active_file.bytes();
            assert(new_bytes.subrange(offset as int, offset + encoded@.len()) =~= encoded@);
            lemma_decode_encoded(
                new_bytes,
                offset as nat,
                record.record_type,
                record.key@,
                record.value@,
            );
        }
        Ok(pos)
    }
}

impl<F: IOManager> Engine<F> {
    /// Pointing `k` at a live record of it gives the engine that value under `k`.
    pub(crate) proof fn lemma_put_index(&self, after: &Self, k: Seq<u8>, pos: LogRecordPos)
        requires
            self.wf(),
            self.live_at(k, pos),
            after.active_file == self.active_file,
            after.old_files == self.old_files,
            after.indexer.wf(),
            after.indexer.view() == self.indexer.view().insert(k, pos),
        ensures
            after.wf(),
            after.view() == self.view().insert(k, self.value_at(pos)),
    {
        assert forall|x: Seq<u8>| #[trigger]
            after.indexer.view().contains_key(x) implies after.live_at(
            x,
            after.indexer.view()[x],
        ) by {
            if x != k {
                assert(self.indexer.view().contains_key(x));
            }
        }
        assert(after.view() =~= self.view().insert(k, self.value_at(pos)));
    }

    /// Dropping `k` from the keydir drops it from the contents.
    pub(crate) proof fn lemma_delete_index(&self, after: &Self, k: Seq<u8>)
        requires
            self.wf(),
            after.active_file == self.active_file,
            after.old_files == self.old_files,
            after.indexer.wf(),
            after.indexer.view() == self.indexer.view().remove(k),
        ensures
            after.wf(),
            after.view() == self.view().remove(k),
    {
        assert forall|x: Seq<u8>| #[trigger]
            after.indexer.view().contains_key(x) implies after.live_at(
            x,
            after.indexer.view()[x],
        ) by {
            assert(self.indexer.view().contains_key(x));
        }
        assert(after.view() =~= self.view().remove(k));
    }

    /// Reads the value of the record at `pos`; a tombstone reads as not found.
    pub fn get_by_position(&self, pos: &LogRecordPos) -> (r: Result<Vec<u8>>)
        requires
            self.files_wf(),
        ensures
            self.file_bytes(pos.file_id) is None ==> r is Err && r->Err_0 is DataFileNotFound,
            r is Ok ==> match self.record_at(*pos) {
                ReadOutcome::Record { record_type, value, .. } => record_type
                    != LogRecordType::Deleted && r->Ok_0@ == value,
                _ => false,
            },
            match self.record_at(*pos) {
                ReadOutcome::Record { record_type, .. } => record_type != LogRecordType::Deleted
                    ==> r is Ok || r->Err_0 is FailToReadFromDataFile,
                _ => true,
            },
    {
        let read = if self.active_file.file_id() == pos.file_id {
            self.active_file.read_log_record(pos.offset)
        } else {
            match self.find_old_file(pos.file_id) {
                Some(i) => self.old_files[i].read_log_record(pos.offset),
                None => return Err(Errors::DataFileNotFound),
            }
        };
        match read {
            Ok(rr) => {
                if rr.record.record_type == LogRecordType::Deleted {
                    Err(Errors::KeyNotFound)
                } else {
                    Ok(rr.record.value)
                }
            },
            Err(e) => Err(e),
        }
    }

    /// The value of `key`.
    pub fn get(&self, key: &[u8]) -> (r: Result<Vec<u8>>)
        requires
            self.wf(),
        ensures
            key@.len() == 0 ==> r is Err && r->Err_0 is EmptyKey,
            key@.len() > 0 && !self.view().contains_key(key@) ==> r is Err
                && r->Err_0 is KeyNotFound,
            key@.len() > 0 && self.view().contains_key(key@) ==> (r is Ok && r->Ok_0@
                == self.view()[key@]) || (r is Err && r->Err_0 is FailToReadFromDataFile),
    {
        if key.len() == 0 {
            return Err(Errors::EmptyKey);
        }
        let record_pos = match self.indexer.get(key) {
            Some(p) => p,
            None => return Err(Errors::KeyNotFound),
        };
        proof {
            assert(self.live_at(key@, record_pos));
        }
        self.get_by_position(&record_pos)
    }

    /// Writes `value` under `key`.
    pub fn put(&mut self, key: &[u8], value: &[u8]) -> (r: Result<()>)
        requires
            old(self).wf(),
        ensures
            final(self).wf(),
            key@.len() == 0 ==> r is Err && r->Err_0 is EmptyKey && *final(self) == *old(self),
            key@.len() > 0 && !fits_record(frame_key(non_txn_prefix_spec(), 0, key@), value@)
                ==> r is Err && r->Err_0 is EncodingError && *final(self) == *old(self),
            r is Ok ==> final(self).indexer.view().contains_key(key@) && appended(
                old(self),
                final(self),
                encode_spec(LogRecordType::Normal, frame_key(non_txn_prefix_spec(), 0, key@), value@),
                final(self).indexer.view()[key@],
            ),
            key@.len() > 0 && fits_record(frame_key(non_txn_prefix_spec(), 0, key@), value@)
                ==> r is Ok || is_io_error(r->Err_0),
            r is Ok ==> final(self).view() == old(self).view().insert(key@, value@),
            r is Err ==> final(self).view() == old(self).view(),
            old(self).replays() && r is Ok ==> final(self).replays(),
            old(self).replays() && old(self).batches_fresh() && r is Ok
                ==> final(self).batches_fresh(),
    {
        if key.len() == 0 {
            return Err(Errors::EmptyKey);
        }
        let prefix = non_txn_prefix();
        let framed = log_record_key_with_sequence(key, prefix.as_slice(), NON_BATCH_COMMIT_ID);
        if framed.len() > 0xffff_ffffusize || value.len() > 0xffff_ffffusize {
            return Err(Errors::EncodingError);
        }
        let record = LogRecord {
            key: framed,
            value: crate::log_record::copy_bytes(value),
            record_type: LogRecordType::Normal,
        };
        let ghost before = *self;
        let appended = self.append_log_record(&record);
        proof {
            before.lemma_keeps_view(self);
        }
        let record_pos = match appended {
            Ok(p) => p,
            Err(e) => return Err(e),
        };
        let ghost mid = *self;
        self.indexer.put(crate::log_record::copy_bytes(key), record_pos);
        proof {
            lemma_frame_round_trip(non_txn_prefix_spec(), 0, key@);
            assert(mid.live_at(key@, record_pos));
            mid.lemma_put_index(self, key@, record_pos);
            if before.replays() {
                before.lemma_write_keeps_replays(
                    self,
                    LogRecordType::Normal,
                    key@,
                    value@,
                    record_pos,
                );
            }
        }
        Ok(())
    }

    /// Removes `key`: a tombstone is appended where the key is live; a key
    /// that is not there is left as it is.
    #[verifier::rlimit(40)]
    pub fn delete(&mut self, key: &[u8]) -> (r: Result<()>)
        requires
            old(self).wf(),
        ensures
            final(self).wf(),
            key@.len() == 0 ==> r is Err && r->Err_0 is EmptyKey && *final(self) == *old(self),
            key@.len() > 0 && !old(self).view().contains_key(key@) ==> r is Ok && *final(self)
                == *old(self),
            key@.len() > 0 && old(self).view().contains_key(key@) && r is Ok ==> exists|
                pos: LogRecordPos,
            |
                appended(
                    old(self),
                    final(self),
                    encode_spec(
                        LogRecordType::Deleted,
                        frame_key(non_txn_prefix_spec(), 0, key@),
                        Seq::empty(),
                    ),
                    pos,
                ),
            key@.len() > 0 && old(self).view().contains_key(key@) && !fits_record(
                frame_key(non_txn_prefix_spec(), 0, key@),
                Seq::empty(),
            ) ==> r is Err && r->Err_0 is EncodingError,
            key@.len() > 0 && fits_record(frame_key(non_txn_prefix_spec(), 0, key@), Seq::empty())
                ==> r is Ok || is_io_error(r->Err_0),
            r is Ok ==> final(self).view() == old(self).view().remove(key@),
            r is Err ==> final(self).view() == old(self).view(),
            old(self).replays() && r is Ok ==> final(self).replays(),
            old(self).replays() && old(self).batches_fresh() && r is Ok
                ==> final(self).batches_fresh(),
    {
        if key.len() == 0 {
            return Err(Errors::EmptyKey);
        }
        match self.indexer.get(key) {
            None => {
                assert(self.view().remove(key@) =~= self.view());
                return Ok(());
            },
            Some(_) => {},
        }
        let prefix = non_txn_prefix();
        let framed = log_record_key_with_sequence(key, prefix.as_slice(), NON_BATCH_COMMIT_ID);
        if framed.len() > 0xffff_ffffusize {
            return Err(Errors::EncodingError);
        }
        let record = LogRecord {
            key: framed,
            value: Vec::new(),
            record_type: LogRecordType::Deleted,
        };
        let ghost before = *self;
        let appended = self.append_log_record(&record);
        proof {
            before.lemma_keeps_view(self);
        }
        let record_pos = match appended {
            Ok(p) => p,
            Err(e) => return Err(e),
        };
        let ghost mid = *self;
        self.indexer.delete(key);
        proof {
            mid.lemma_delete_index(self, key@);
            assert(record.value@ =~= Seq::<u8>::empty());
            assert(crate::db::appended(
                &before,
                self,
                encode_spec(
                    LogRecordType::Deleted,
                    frame_key(non_txn_prefix_spec(), 0, key@),
                    Seq::empty(),
                ),
                record_pos,
            ));
            if before.replays() {
                assert(record.value@ =~= Seq::<u8>::empty());
                before.lemma_write_keeps_replays(
                    self,
                    LogRecordType::Deleted,
                    key@,
                    Seq::empty(),
                    record_pos,
                );
            }
        }
        Ok(())
    }

    /// Flushes the active segment.
    pub fn sync(&mut self) -> (r: Result<()>)
        requires
            old(self).wf(),
        ensures
            final(self).wf(),
            final(self).view() == old(self).view(),
            old(self).keeps_records(final(self)),
            final(self).indexer == old(self).indexer,
            final(self).options == old(self).options,
            final(self).batch_prefix == old(self).batch_prefix,
            final(self).batch_commit_id == old(self).batch_commit_id,
            final(self).old_files == old(self).old_files,
            final(self).active_file.file_id == old(self).active_file.file_id,
            final(self).active_file.bytes() == old(self).active_file.bytes(),
            final(self).log_state() == old(self).log_state(),
            old(self).replays() ==> final(self).replays(),
            r is Err ==> is_io_error(r->Err_0),
    {
        let ghost before = *self;
        let r = self.active_file.sync();
        proof {
            before.lemma_same_files_keeps(self);
            before.lemma_keeps_view(self);
        }
        r
    }

    /// Gives back the engine's segments, sealed ones first and the active one
    /// last: an engine can be opened over them again.
    pub fn into_data_files(self) -> (r: Vec<DataFile<F>>)
        ensures
            r@ == self.old_files@.push(self.active_file),
    {
        let mut files = self.old_files;
        files.push(self.active_file);
        files
    }

    /// Flushes the active segment; the engine stays usable.
    pub fn close(&mut self) -> (r: Result<()>)
        requires
            old(self).wf(),
        ensures
            final(self).wf(),
            final(self).view() == old(self).view(),
            old(self).replays() ==> final(self).replays(),
            r is Err ==> is_io_error(r->Err_0),
    {
        self.sync()
    }

    /// Every live key, in ascending order.
    pub fn list_keys(&self) -> (r: Vec<Vec<u8>>)
        requires
            self.wf(),
        ensures
            forall|i: int, j: int|
                0 <= i < j < r@.len() ==> bytes_lt(#[trigger] r@[i]@, #[trigger] r@[j]@),
            forall|i: int| 0 <= i < r@.len() ==> self.view().contains_key(#[trigger] r@[i]@),
            forall|k: Seq<u8>| #[trigger]
                self.view().contains_key(k) ==> exists|i: int| 0 <= i < r@.len() && r@[i]@ == k,
    {
        let r = self.indexer.list_keys();
        proof {
            let e = self.indexer.entries();
            assert forall|i: int| 0 <= i < r@.len() implies self.view().contains_key(
                #[trigger] r@[i]@,
            ) by {
                lemma_map_of_at(e, i);
            }
            assert forall|k: Seq<u8>| #[trigger] self.view().contains_key(k) implies exists|i: int|
                0 <= i < r@.len() && r@[i]@ == k by {
                let i = key_index(e, k);
                assert(r@[i]@ == k);
            }
            assert forall|i: int, j: int| 0 <= i < j < r@.len() implies bytes_lt(
                #[trigger] r@[i]@,
                #[trigger] r@[j]@,
            ) by {
                assert(r@[i]@ == e[i].0 && r@[j]@ == e[j].0);
            }
        }
        r
    }
}

/// The segments' ids and bytes, in the order given.
pub open spec fn segments_of<F: IOManager>(files: Seq<DataFile<F>>) -> Seq<(u32, Seq<u8>)> {
    files.map_values(|f: DataFile<F>| (f.file_id, f.bytes()))
}

/// A batch left open in the log that a session with this prefix, whose
/// last id is `id`, will not reuse.
pub open spec fn fresh_for(b: crate::replay::BatchView, prefix: Seq<u8>, id: nat) -> bool {
    b.0.0 != prefix || b.0.1 <= id
}

/// The errors that a log that does not replay gives: bad framing, a bad
/// checksum or an unpaired terminator, or a malformed stored key.
pub open spec fn corruption_error(e: Errors) -> bool {
    e is DatabaseFileCorrupted || e is DecodingError
}

/// `after` is `before` with `enc` appended at `pos`: to the active segment,
/// or to a new one that follows it once it is sealed.
pub open spec fn appended<F: IOManager>(
    before: &Engine<F>,
    after: &Engine<F>,
    enc: Seq<u8>,
    pos: LogRecordPos,
) -> bool {
    ||| {
        &&& segments_of(after.old_files@) == segments_of(before.old_files@)
        &&& after.active_file.file_id == before.active_file.file_id
        &&& after.active_file.bytes() == before.active_file.bytes() + enc
        &&& pos == LogRecordPos {
            file_id: before.active_file.file_id,
            offset: before.active_file.bytes().len() as u64,
        }
    }
    ||| {
        &&& segments_of(after.old_files@) == segments_of(before.old_files@).push(
            (before.active_file.file_id, before.active_file.bytes()),
        )
        &&& after.active_file.file_id == before.active_file.file_id + 1
        &&& after.active_file.bytes() == enc
        &&& pos == LogRecordPos { file_id: after.active_file.file_id, offset: 0 }
    }
}

impl<F: IOManager> Engine<F> {
    /// The sealed segments replayed in order.
    pub open spec fn sealed_replay(&self) -> Option<ReplayState> {
        replay_from(segments_of(self.old_files@), 0, empty_replay())
    }

    /// The state that replaying the log reaches: the sealed segments, then
    /// the active one, whose records must fill it to its end.
    pub open spec fn log_state(&self) -> Option<ReplayState> {
        match self.sealed_replay() {
            None => None,
            Some(mid) => match scan(self.active_file.bytes(), self.active_file.file_id, 0, mid) {
                None => None,
                Some((st, end)) => if end == self.active_file.bytes().len() {
                    Some(st)
                } else {
                    None
                },
            },
        }
    }

    /// The log replays to the keydir.
    pub open spec fn replays(&self) -> bool {
        self.log_state() is Some && self.log_state().unwrap().keydir == self.indexer.view()
    }

    /// No batch left open in the log could be mistaken for one this session
    /// commits later: none has the session prefix and a later id.
    pub open spec fn batches_fresh(&self) -> bool {
        &&& self.log_state() is Some
        &&& forall|b: int|
            0 <= b < self.log_state().unwrap().pending.len() ==> fresh_for(
                #[trigger] self.log_state().unwrap().pending[b],
                self.batch_prefix@,
                self.batch_commit_id as nat,
            )
    }

    /// Appending a record moves the log's replay on by that record.
    pub(crate) proof fn lemma_append_log_state(
        &self,
        after: &Self,
        t: LogRecordType,
        key: Seq<u8>,
        value: Seq<u8>,
        pos: LogRecordPos,
    )
        requires
            self.log_state() is Some,
            after.files_wf(),
            appended(self, after, encode_spec(t, key, value), pos),
            key.len() > 0,
            fits_record(key, value),
            encode_spec(t, key, value).len() <= usize::MAX,
            replay_record(self.log_state().unwrap(), pos, t, key) is Some,
        ensures
            after.log_state() == replay_record(self.log_state().unwrap(), pos, t, key),
    {
        let enc = encode_spec(t, key, value);
        crate::log_record::lemma_varint_len_bound(key.len());
        crate::log_record::lemma_varint_len_bound(value.len());
        let mid = self.sealed_replay().unwrap();
        if segments_of(after.old_files@) == segments_of(self.old_files@) {
            lemma_record_replays(
                self.active_file.bytes(),
                self.active_file.file_id,
                mid,
                t,
                key,
                value,
            );
        } else {
            let sealed = segments_of(after.old_files@);
            assert(sealed.drop_last() =~= segments_of(self.old_files@));
            lemma_replay_split(sealed, 0, empty_replay());
            let st = self.log_state().unwrap();
            lemma_scan_empty(after.active_file.file_id, st);
            lemma_record_replays(Seq::empty(), after.active_file.file_id, st, t, key, value);
            assert(Seq::<u8>::empty() + enc =~= enc);
        }
    }

    /// Where the log replays to the keydir, replaying all the segments, as
    /// opening does, rebuilds the keydir.
    pub proof fn lemma_replays_rebuilds(&self)
        requires
            self.replays(),
        ensures
            replay(self.segments()) == Some(self.indexer.view()),
    {
        let segs = self.segments();
        assert(segs.drop_last() =~= segments_of(self.old_files@));
        assert(segs.last() == (self.active_file.file_id, self.active_file.bytes()));
        lemma_replay_split(segs, 0, empty_replay());
    }

    /// A write outside any batch keeps the log replaying to the keydir, and
    /// leaves the batches open in it as they were.
    pub(crate) proof fn lemma_write_keeps_replays(
        &self,
        after: &Self,
        t: LogRecordType,
        key: Seq<u8>,
        value: Seq<u8>,
        pos: LogRecordPos,
    )
        requires
            self.replays(),
            after.files_wf(),
            t != LogRecordType::BatchCommit,
            appended(self, after, encode_spec(t, frame_key(non_txn_prefix_spec(), 0, key), value), pos),
            fits_record(frame_key(non_txn_prefix_spec(), 0, key), value),
            encode_spec(t, frame_key(non_txn_prefix_spec(), 0, key), value).len() <= usize::MAX,
            after.indexer.view() == (if t == LogRecordType::Normal {
                self.indexer.view().insert(key, pos)
            } else {
                self.indexer.view().remove(key)
            }),
        ensures
            after.replays(),
            after.log_state().unwrap().pending == self.log_state().unwrap().pending,
    {
        let framed = frame_key(non_txn_prefix_spec(), 0, key);
        lemma_frame_round_trip(non_txn_prefix_spec(), 0, key);
        crate::batch::lemma_frame_nonempty(non_txn_prefix_spec(), 0, key);
        self.lemma_append_log_state(after, t, framed, value, pos);
    }

    /// All segments, sealed ones first, the active one last.
    pub open spec fn segments(&self) -> Seq<(u32, Seq<u8>)> {
        segments_of(self.old_files@.push(self.active_file))
    }

    /// The replay state that the keydir and a table of pending batches stand for.
    pub open spec fn state_of(&self, pending: Seq<PendingBatch>) -> ReplayState {
        ReplayState { keydir: self.indexer.view(), pending: pending_view(pending) }
    }

    /// A record is read at `pos`, in a segment no later than `fid`, and ends
    /// by `off` when in `fid`.
    pub open spec fn placed(&self, pos: LogRecordPos, fid: u32, off: nat) -> bool {
        &&& self.record_at(pos) is Record
        &&& pos.file_id <= fid
        &&& pos.file_id == fid ==> pos.offset + self.record_at(pos)->size <= off
    }

    /// A staged batch member: of a write kind, placed, and live if a put.
    pub open spec fn entry_ok(&self, e: EntryView, fid: u32, off: nat) -> bool {
        &&& e.2 != LogRecordType::BatchCommit
        &&& e.2 == LogRecordType::Normal ==> self.live_at(e.0, e.1)
        &&& self.placed(e.1, fid, off)
    }

    /// What replay keeps true while it reads segment `fid` up to `off`.
    pub open spec fn replay_inv(&self, pending: Seq<PendingBatch>, fid: u32, off: nat) -> bool {
        &&& self.indexer.wf()
        &&& forall|k: Seq<u8>| #[trigger]
            self.indexer.view().contains_key(k) ==> self.live_at(k, self.indexer.view()[k])
                && self.placed(self.indexer.view()[k], fid, off)
        &&& forall|b: int, j: int|
            0 <= b < pending_view(pending).len() && 0 <= j < pending_view(pending)[b].1.len()
                ==> self.entry_ok(#[trigger] pending_view(pending)[b].1[j], fid, off)
    }

    proof fn lemma_placed_later(&self, pos: LogRecordPos, fid: u32, off: nat, fid2: u32, off2: nat)
        requires
            self.placed(pos, fid, off),
            fid < fid2 || (fid == fid2 && off <= off2),
        ensures
            self.placed(pos, fid2, off2),
    {
    }

    proof fn lemma_replay_inv_later(
        &self,
        pending: Seq<PendingBatch>,
        fid: u32,
        off: nat,
        fid2: u32,
        off2: nat,
    )
        requires
            self.replay_inv(pending, fid, off),
            fid < fid2 || (fid == fid2 && off <= off2),
        ensures
            self.replay_inv(pending, fid2, off2),
    {
        assert forall|k: Seq<u8>| #[trigger]
            self.indexer.view().contains_key(k) implies self.live_at(k, self.indexer.view()[k])
            && self.placed(self.indexer.view()[k], fid2, off2) by {
            self.lemma_placed_later(self.indexer.view()[k], fid, off, fid2, off2);
        }
        assert forall|b: int, j: int|
            0 <= b < pending_view(pending).len() && 0 <= j < pending_view(pending)[b].1.len()
                implies self.entry_ok(#[trigger] pending_view(pending)[b].1[j], fid2, off2) by {
            self.lemma_placed_later(pending_view(pending)[b].1[j].1, fid, off, fid2, off2);
        }
    }

    /// Applies the members of a committed batch to the keydir, in order.
    fn apply_batch(&mut self, entries: &Vec<PendingEntry>, Ghost(fid): Ghost<u32>, Ghost(off): Ghost<nat>)
        requires
            old(self).indexer.wf(),
            forall|k: Seq<u8>| #[trigger]
                old(self).indexer.view().contains_key(k) ==> old(self).live_at(
                    k,
                    old(self).indexer.view()[k],
                ) && old(self).placed(old(self).indexer.view()[k], fid, off),
            forall|j: int|
                0 <= j < entries@.len() ==> old(self).entry_ok(
                    #[trigger] entry_view(entries@[j]),
                    fid,
                    off,
                ),
        ensures
            final(self).active_file == old(self).active_file,
            final(self).old_files == old(self).old_files,
            final(self).options == old(self).options,
            final(self).batch_prefix == old(self).batch_prefix,
            final(self).batch_commit_id == old(self).batch_commit_id,
            final(self).indexer.wf(),
            final(self).indexer.view() == apply_entries(
                old(self).indexer.view(),
                entries@.map_values(|e: PendingEntry| entry_view(e)),
            ),
            forall|k: Seq<u8>| #[trigger]
                final(self).indexer.view().contains_key(k)
                    ==> final(self).live_at(k, final(self).indexer.view()[k])
                    && final(self).placed(final(self).indexer.view()[k], fid, off),
    {
        let ghost ev = entries@.map_values(|e: PendingEntry| entry_view(e));
        let ghost kd0 = self.indexer.view();
        let mut j: usize = 0;
        assert(ev.take(0) =~= Seq::<EntryView>::empty());
        while j < entries.len()
            invariant
                ev == entries@.map_values(|e: PendingEntry| entry_view(e)),
                j <= entries@.len(),
                self.active_file == old(self).active_file,
                self.old_files == old(self).old_files,
                self.options == old(self).options,
                self.batch_prefix == old(self).batch_prefix,
                self.batch_commit_id == old(self).batch_commit_id,
                self.indexer.wf(),
                self.indexer.view() == apply_entries(kd0, ev.take(j as int)),
                forall|j2: int|
                    0 <= j2 < entries@.len() ==> old(self).entry_ok(
                        #[trigger] entry_view(entries@[j2]),
                        fid,
                        off,
                    ),
                forall|k: Seq<u8>| #[trigger]
                    self.indexer.view().contains_key(k) ==> self.live_at(
                        k,
                        self.indexer.view()[k],
                    ) && self.placed(self.indexer.view()[k], fid, off),
            decreases entries@.len() - j,
        {
            let ghost pre = *self;
            assert(ev.take(j + 1).drop_last() =~= ev.take(j as int));
            assert(ev.take(j + 1).last() == entry_view(entries@[j as int]));
            assert(self.entry_ok(entry_view(entries@[j as int]), fid, off));
            let key = crate::log_record::copy_bytes(entries[j].0.as_slice());
            match entries[j].2 {
                LogRecordType::Normal => {
                    self.indexer.put(key, entries[j].1);
                },
                _ => {
                    self.indexer.delete(key.as_slice());
                },
            }
            proof {
                let e = entry_view(entries@[j as int]);
                assert(old(self).entry_ok(e, fid, off));
                old(self).lemma_same_files(self);
                pre.lemma_same_files(self);
                assert forall|k: Seq<u8>| #[trigger]
                    self.indexer.view().contains_key(k) implies self.live_at(
                    k,
                    self.indexer.view()[k],
                ) && self.placed(self.indexer.view()[k], fid, off) by {
                    if k != key@ {
                        assert(pre.indexer.view().contains_key(k));
                        assert(self.indexer.view()[k] == pre.indexer.view()[k]);
                        assert(self.record_at(pre.indexer.view()[k]) == pre.record_at(
                            pre.indexer.view()[k],
                        ));
                    }
                }
            }
            j = j + 1;
        }
        assert(ev.take(j as int) =~= ev);
    }

    /// Replays one record read at `pos` that ends at `end`.
    fn replay_one(
        &mut self,
        pending: &mut Vec<PendingBatch>,
        pos: LogRecordPos,
        record: LogRecord,
        Ghost(end): Ghost<nat>,
    ) -> (r: Result<()>)
        requires
            old(self).replay_inv(old(pending)@, pos.file_id, pos.offset as nat),
            old(self).record_at(pos) is Record,
            old(self).record_at(pos)->record_type == record.record_type,
            old(self).record_at(pos)->key == record.key@,
            end == pos.offset + old(self).record_at(pos)->size,
        ensures
            final(self).active_file == old(self).active_file,
            final(self).old_files == old(self).old_files,
            final(self).options == old(self).options,
            final(self).batch_prefix == old(self).batch_prefix,
            final(self).batch_commit_id == old(self).batch_commit_id,
            match replay_record(
                old(self).state_of(old(pending)@),
                pos,
                record.record_type,
                record.key@,
            ) {
                Some(st2) => r is Ok && final(self).state_of(final(pending)@) == st2
                    && final(self).replay_inv(final(pending)@, pos.file_id, end),
                None => r is Err && (if parse_key(record.key@) is None {
                    r->Err_0 is DecodingError
                } else {
                    r->Err_0 is DatabaseFileCorrupted
                }),
            },
    {
        proof {
            self.lemma_replay_inv_later(pending@, pos.file_id, pos.offset as nat, pos.file_id, end);
        }
        let parsed = match log_record_key_parse(record.key.as_slice()) {
            Ok(p) => p,
            Err(e) => return Err(e),
        };
        let found = find_pending(pending, parsed.prefix.as_slice(), parsed.seq_id);
        proof {
            lemma_pending_find_range(
                pending_view(pending@),
                (parsed.prefix@, parsed.seq_id as nat),
            );
        }
        match record.record_type {
            LogRecordType::BatchCommit => match found {
                Some(i) => {
                    self.replay_commit(pending, i, Ghost(pos.file_id), Ghost(end));
                    Ok(())
                },
                None => Err(Errors::DatabaseFileCorrupted),
            },
            _ => {
                if parsed.seq_id == 0 {
                    self.replay_direct(parsed.key, pos, record.record_type, Ghost(end));
                } else {
                    self.replay_stage(pending, found, parsed, pos, record.record_type, Ghost(end));
                }
                Ok(())
            },
        }
    }

    /// A terminator: the batch at `i` leaves the table and its members reach the keydir.
    fn replay_commit(
        &mut self,
        pending: &mut Vec<PendingBatch>,
        i: usize,
        Ghost(fid): Ghost<u32>,
        Ghost(end): Ghost<nat>,
    )
        requires
            old(self).replay_inv(old(pending)@, fid, end),
            i < old(pending)@.len(),
        ensures
            final(self).active_file == old(self).active_file,
            final(self).old_files == old(self).old_files,
            final(self).options == old(self).options,
            final(self).batch_prefix == old(self).batch_prefix,
            final(self).batch_commit_id == old(self).batch_commit_id,
            final(self).replay_inv(final(pending)@, fid, end),
            final(self).indexer.view() == apply_entries(
                old(self).indexer.view(),
                pending_view(old(pending)@)[i as int].1,
            ),
            pending_view(final(pending)@) == pending_view(old(pending)@).remove(i as int),
    {
        let ghost pv = pending_view(pending@);
        let batch = pending.remove(i);
        assert(pending_view(pending@) =~= pv.remove(i as int));
        assert(pv[i as int] == batch.view());
        assert forall|j: int| 0 <= j < batch.entries@.len() implies self.entry_ok(
            #[trigger] entry_view(batch.entries@[j]),
            fid,
            end,
        ) by {
            assert(pv[i as int].1[j] == entry_view(batch.entries@[j]));
        }
        let ghost pre = *self;
        self.apply_batch(&batch.entries, Ghost(fid), Ghost(end));
        proof {
            assert forall|b: int, j: int|
                0 <= b < pending_view(pending@).len() && 0 <= j < pending_view(
                    pending@,
                )[b].1.len() implies self.entry_ok(
                #[trigger] pending_view(pending@)[b].1[j],
                fid,
                end,
            ) by {
                let b0 = if b < i {
                    b
                } else {
                    b + 1
                };
                assert(pending_view(pending@)[b] == pv[b0]);
                assert(pre.entry_ok(pv[b0].1[j], fid, end));
                pre.lemma_same_files(self);
            }
        }
    }

    /// A write outside any batch reaches the keydir at once.
    fn replay_direct(
        &mut self,
        key: Vec<u8>,
        pos: LogRecordPos,
        t: LogRecordType,
        Ghost(end): Ghost<nat>,
    )
        requires
            old(self).replay_inv(Seq::empty(), pos.file_id, end),
            t != LogRecordType::BatchCommit,
            old(self).placed(pos, pos.file_id, end),
            t == LogRecordType::Normal ==> old(self).live_at(key@, pos),
        ensures
            final(self).active_file == old(self).active_file,
            final(self).old_files == old(self).old_files,
            final(self).options == old(self).options,
            final(self).batch_prefix == old(self).batch_prefix,
            final(self).batch_commit_id == old(self).batch_commit_id,
            final(self).indexer.wf(),
            final(self).indexer.view() == (if t == LogRecordType::Normal {
                old(self).indexer.view().insert(key@, pos)
            } else {
                old(self).indexer.view().remove(key@)
            }),
            forall|k: Seq<u8>| #[trigger]
                final(self).indexer.view().contains_key(k)
                    ==> final(self).live_at(k, final(self).indexer.view()[k])
                    && final(self).placed(final(self).indexer.view()[k], pos.file_id, end),
    {
        let ghost pre = *self;
        let ghost k = key@;
        match t {
            LogRecordType::Normal => {
                self.indexer.put(key, pos);
            },
            _ => {
                self.indexer.delete(key.as_slice());
            },
        }
        proof {
            pre.lemma_same_files(self);
            assert forall|k2: Seq<u8>| #[trigger]
                self.indexer.view().contains_key(k2) implies self.live_at(
                k2,
                self.indexer.view()[k2],
            ) && self.placed(self.indexer.view()[k2], pos.file_id, end) by {
                if k2 != k {
                    assert(pre.indexer.view().contains_key(k2));
                    assert(self.record_at(pre.indexer.view()[k2]) == pre.record_at(
                        pre.indexer.view()[k2],
                    ));
                }
            }
        }
    }

    /// A batch member joins its batch in the table, which is started where
    /// it is not there yet.
    fn replay_stage(
        &mut self,
        pending: &mut Vec<PendingBatch>,
        found: Option<usize>,
        parsed: crate::batch::LogRecordKey,
        pos: LogRecordPos,
        t: LogRecordType,
        Ghost(end): Ghost<nat>,
    )
        requires
            old(self).replay_inv(old(pending)@, pos.file_id, end),
            t != LogRecordType::BatchCommit,
            old(self).placed(pos, pos.file_id, end),
            t == LogRecordType::Normal ==> old(self).live_at(parsed.key@, pos),
            found is Some ==> found.unwrap() < old(pending)@.len() && pending_find(
                pending_view(old(pending)@),
                (parsed.prefix@, parsed.seq_id as nat),
            ) == found.unwrap() as int,
            found is None ==> pending_find(
                pending_view(old(pending)@),
                (parsed.prefix@, parsed.seq_id as nat),
            ) == -1,
        ensures
            *final(self) == *old(self),
            final(self).replay_inv(final(pending)@, pos.file_id, end),
            found is Some ==> pending_view(final(pending)@) == pending_view(old(pending)@).update(
                found.unwrap() as int,
                (
                    pending_view(old(pending)@)[found.unwrap() as int].0,
                    pending_view(old(pending)@)[found.unwrap() as int].1.push(
                        (parsed.key@, pos, t),
                    ),
                ),
            ),
            found is None ==> pending_view(final(pending)@) == pending_view(old(pending)@).push(
                ((parsed.prefix@, parsed.seq_id as nat), seq![(parsed.key@, pos, t)]),
            ),
    {
        let ghost pv = pending_view(pending@);
        let ghost k = parsed.key@;
        let entry: PendingEntry = (parsed.key, pos, t);
        assert(entry_view(entry) == (k, pos, t));
        match found {
            Some(i) => {
                let mut batch = pending.remove(i);
                assert(pv[i as int] == batch.view());
                batch.entries.push(entry);
                pending.insert(i, batch);
                assert(batch.view().1 =~= pv[i as int].1.push((k, pos, t)));
                assert(pending_view(pending@) =~= pv.update(
                    i as int,
                    (pv[i as int].0, pv[i as int].1.push((k, pos, t))),
                ));
            },
            None => {
                let mut entries: Vec<PendingEntry> = Vec::new();
                entries.push(entry);
                let batch = PendingBatch {
                    prefix: parsed.prefix,
                    seq_id: parsed.seq_id,
                    entries,
                };
                assert(batch.view().1 =~= seq![(k, pos, t)]);
                pending.push(batch);
                assert(pending_view(pending@) =~= pv.push(
                    ((batch.prefix@, batch.seq_id as nat), seq![(k, pos, t)]),
                ));
            },
        }
        proof {
            assert(self.entry_ok((k, pos, t), pos.file_id, end));
            let pv2 = pending_view(pending@);
            assert forall|b: int, j: int|
                0 <= b < pv2.len() && 0 <= j < pv2[b].1.len() implies self.entry_ok(
                #[trigger] pv2[b].1[j],
                pos.file_id,
                end,
            ) by {
                if b < pv.len() && j < pv[b].1.len() {
                    assert(pv2[b].1[j] == pv[b].1[j]);
                } else {
                    assert(pv2[b].1[j] == (k, pos, t));
                }
            }
        }
    }
}

impl<F: IOManager> Engine<F> {
    /// The id and bytes of the sealed segment at `i`, or of the active one.
    pub open spec fn seg(&self, which: Option<usize>) -> (u32, Seq<u8>) {
        match which {
            Some(i) => (self.old_files@[i as int].file_id, self.old_files@[i as int].bytes()),
            None => (self.active_file.file_id, self.active_file.bytes()),
        }
    }

    /// Replays one segment from its start to its last record; returns the
    /// offset where its records end.
    fn replay_segment(&mut self, pending: &mut Vec<PendingBatch>, which: Option<usize>) -> (r:
        Result<u64>)
        requires
            old(self).ids_wf(),
            which is Some ==> which.unwrap() < old(self).old_files@.len(),
            old(self).replay_inv(old(pending)@, old(self).seg(which).0, 0),
        ensures
            final(self).active_file == old(self).active_file,
            final(self).old_files == old(self).old_files,
            final(self).options == old(self).options,
            final(self).batch_prefix == old(self).batch_prefix,
            final(self).batch_commit_id == old(self).batch_commit_id,
            r is Ok ==> scan(old(self).seg(which).1, old(self).seg(which).0, 0, old(self).state_of(old(pending)@))
                == Some((final(self).state_of(final(pending)@), r->Ok_0 as nat))
                && r->Ok_0 <= old(self).seg(which).1.len()
                && final(self).replay_inv(final(pending)@, old(self).seg(which).0, r->Ok_0 as nat),
            r is Err ==> is_io_error(r->Err_0) || (scan(
                old(self).seg(which).1,
                old(self).seg(which).0,
                0,
                old(self).state_of(old(pending)@),
            ) is None && corruption_error(r->Err_0)),
    {
        let ghost data = self.seg(which).1;
        let ghost st0 = self.state_of(pending@);
        let fid = match which {
            Some(i) => self.old_files[i].file_id(),
            None => self.active_file.file_id(),
        };
        proof {
            if which is Some {
                self.lemma_old_index(which.unwrap() as int);
            }
            assert(self.file_bytes(fid) == Some(data));
        }
        let mut off: u64 = 0;
        let mut eof = false;
        while !eof
            invariant
                self.active_file == old(self).active_file,
                self.old_files == old(self).old_files,
                self.options == old(self).options,
                self.batch_prefix == old(self).batch_prefix,
                self.batch_commit_id == old(self).batch_commit_id,
                self.ids_wf(),
                which is Some ==> which.unwrap() < self.old_files@.len(),
                data == self.seg(which).1,
                fid == self.seg(which).0,
                self.file_bytes(fid) == Some(data),
                st0 == old(self).state_of(old(pending)@),
                off <= data.len(),
                self.replay_inv(pending@, fid, off as nat),
                !eof ==> scan(data, fid, off as nat, self.state_of(pending@)) == scan(data, fid, 0, st0),
                eof ==> scan(data, fid, 0, st0) == Some((self.state_of(pending@), off as nat)),
            decreases data.len() - off + (if eof {
                0int
            } else {
                1int
            }),
        {
            let read = match which {
                Some(i) => self.old_files[i].read_log_record(off),
                None => self.active_file.read_log_record(off),
            };
            match read {
                Ok(rr) => {
                    proof {
                        lemma_decode_bounds(data, off as nat);
                    }
                    let pos = LogRecordPos { file_id: fid, offset: off };
                    let size = rr.size;
                    let ghost st_before = self.state_of(pending@);
                    assert(self.record_at(pos) == decode_at(data, off as nat));
                    match self.replay_one(pending, pos, rr.record, Ghost((off + size) as nat)) {
                        Ok(()) => {},
                        Err(e) => return Err(e),
                    }
                    off = off + size;
                },
                Err(e) => match e {
                    Errors::ReadEOF => {
                        eof = true;
                    },
                    _ => return Err(e),
                },
            }
        }
        Ok(off)
    }

    /// Rebuilds the keydir by replaying every segment in id order, then sets
    /// the active segment's cursor to the end of its last record, cutting off
    /// a partial record behind it.
    fn load_index_from_data_files(&mut self) -> (r: Result<()>)
        requires
            old(self).ids_wf(),
            old(self).indexer.wf(),
            old(self).indexer.view() == Map::<Seq<u8>, LogRecordPos>::empty(),
        ensures
            final(self).options == old(self).options,
            final(self).batch_prefix == old(self).batch_prefix,
            final(self).batch_commit_id == old(self).batch_commit_id,
            r is Ok ==> final(self).wf() && replay(old(self).segments()) == Some(
                final(self).indexer.view(),
            ),
            r is Ok ==> final(self).replays(),
            r is Ok ==> final(self).old_files == old(self).old_files
                && final(self).active_file.file_id == old(self).active_file.file_id
                && final(self).active_file.bytes().len() <= old(self).active_file.bytes().len()
                && old(self).active_file.bytes().take(final(self).active_file.bytes().len() as int)
                == final(self).active_file.bytes(),
            r is Ok ==> old(self).sealed_replay() is Some && scan(
                old(self).active_file.bytes(),
                old(self).active_file.file_id,
                0,
                old(self).sealed_replay().unwrap(),
            ) is Some && final(self).active_file.write_offset == scan(
                old(self).active_file.bytes(),
                old(self).active_file.file_id,
                0,
                old(self).sealed_replay().unwrap(),
            ).unwrap().1,
            r is Err ==> is_io_error(r->Err_0) || (replay(old(self).segments()) is None
                && corruption_error(r->Err_0)),
    {
        let ghost segs = self.segments();
        let ghost start = *self;
        let mut pending: Vec<PendingBatch> = Vec::new();
        let n = self.old_files.len();
        assert(pending_view(pending@) =~= Seq::<crate::replay::BatchView>::empty());
        assert(self.state_of(pending@) == empty_replay());
        assert(segs.len() == n + 1);
        assert(segs.take(0) =~= Seq::<(u32, Seq<u8>)>::empty());
        let mut fi: usize = 0;
        while fi < n
            invariant
                n == self.old_files@.len(),
                fi <= n,
                segs == start.segments(),
                segs.len() == n + 1,
                self.active_file == start.active_file,
                self.old_files == start.old_files,
                self.options == old(self).options,
                self.batch_prefix == old(self).batch_prefix,
                self.batch_commit_id == old(self).batch_commit_id,
                start == *old(self),
                self.ids_wf(),
                self.replay_inv(pending@, self.seg(if fi < n { Some(fi) } else { None }).0, 0),
                replay_from(segs, fi as nat, self.state_of(pending@)) == replay_from(
                    segs,
                    0,
                    empty_replay(),
                ),
                replay_from(segs.take(fi as int), 0, empty_replay()) == Some(
                    self.state_of(pending@),
                ),
            decreases n - fi,
        {
            let ghost st = self.state_of(pending@);
            assert(segs[fi as int] == self.seg(Some(fi)));
            let ghost st_before = self.state_of(pending@);
            match self.replay_segment(&mut pending, Some(fi)) {
                Ok(end) => {
                    proof {
                        let t1 = segs.take(fi + 1);
                        assert(t1.drop_last() =~= segs.take(fi as int));
                        assert(t1.last() == segs[fi as int]);
                        lemma_replay_split(t1, 0, empty_replay());
                    }
                    let ghost next = if fi + 1 < n {
                        Some((fi + 1) as usize)
                    } else {
                        None
                    };
                    proof {
                        self.lemma_replay_inv_later(
                            pending@,
                            self.seg(Some(fi)).0,
                            end as nat,
                            self.seg(next).0,
                            0,
                        );
                    }
                },
                Err(e) => return Err(e),
            }
            fi = fi + 1;
        }
        assert(segs[n as int] == self.seg(None));
        let ghost st_active = self.state_of(pending@);
        let end = match self.replay_segment(&mut pending, None) {
            Ok(end) => end,
            Err(e) => return Err(e),
        };
        assert(replay_from(segs, (n + 1) as nat, self.state_of(pending@)) == Some(
            self.state_of(pending@),
        ));
        let ghost before = *self;
        match self.active_file.set_offset(end) {
            Ok(()) => {},
            Err(e) => return Err(e),
        }
        proof {
            assert(segs.take(n as int) =~= segments_of(self.old_files@));
            lemma_scan_truncate(before.active_file.bytes(), self.active_file.file_id, 0, st_active);
            let fid = self.active_file.file_id;
            let old_bytes = before.active_file.bytes();
            let new_bytes = self.active_file.bytes();
            assert forall|k: Seq<u8>| #[trigger]
                self.indexer.view().contains_key(k) implies self.live_at(
                k,
                self.indexer.view()[k],
            ) by {
                let pos = self.indexer.view()[k];
                assert(before.live_at(k, pos) && before.placed(pos, fid, end as nat));
                if pos.file_id == fid {
                    let sz = before.record_at(pos)->size;
                    assert(new_bytes.take(pos.offset + sz) =~= old_bytes.take(pos.offset + sz));
                    lemma_decode_agree(old_bytes, new_bytes, pos.offset as nat);
                } else {
                    assert(self.old_index(pos.file_id) == before.old_index(pos.file_id));
                    assert(self.file_bytes(pos.file_id) == before.file_bytes(pos.file_id));
                }
            }
        }
        Ok(())
    }
}

/// Segment ids strictly ascending.
pub open spec fn ids_ascending<F: IOManager>(files: Seq<DataFile<F>>) -> bool {
    forall|i: int, j: int| 0 <= i < j < files.len() ==> files[i].file_id < files[j].file_id
}

impl<F: IOManager> Engine<F> {
    /// Opens an engine over the segments of its directory, given in ascending
    /// id order (a new segment 0 where there is none), with a fresh session
    /// prefix, and rebuilds the keydir by replaying them.
    pub fn open(opts: Options, files: Vec<DataFile<F>>, session_prefix: Vec<u8>) -> (r: Result<
        Engine<F>,
    >)
        ensures
            opts.dir_path@.len() == 0 ==> r is Err && r->Err_0 is InvalidDatabasePath,
            opts.dir_path@.len() > 0 && opts.datafile_size == 0 ==> r is Err
                && r->Err_0 is DatafileSizeTooSmall,
            options_valid(&opts) && !ids_ascending(files@) ==> r is Err
                && r->Err_0 is DatabaseFileCorrupted,
            r is Ok ==> r->Ok_0.wf() && r->Ok_0.options == opts && r->Ok_0.batch_prefix
                == session_prefix && r->Ok_0.batch_commit_id == 1,
            r is Ok ==> r->Ok_0.replays(),
            r is Ok && files@.len() > 0 ==> replay(segments_of(files@)) == Some(
                r->Ok_0.indexer.view(),
            ),
            r is Ok && files@.len() == 0 ==> r->Ok_0.view() == Map::<Seq<u8>, Seq<u8>>::empty(),
            options_valid(&opts) && ids_ascending(files@) && files@.len() > 0 ==> r is Ok
                || is_io_error(r->Err_0) || (replay(segments_of(files@)) is None
                && corruption_error(r->Err_0)),
            options_valid(&opts) && files@.len() == 0 ==> r is Ok || is_io_error(r->Err_0),
            r is Ok && files@.len() == 0 ==> r->Ok_0.active_file.file_id == 0
                && r->Ok_0.active_file.bytes() == Seq::<u8>::empty() && r->Ok_0.old_files@.len()
                == 0,
            r is Ok && files@.len() > 0 ==> segments_of(r->Ok_0.old_files@) == segments_of(
                files@,
            ).drop_last() && r->Ok_0.active_file.file_id == files@.last().file_id
                && r->Ok_0.active_file.bytes().len() <= files@.last().bytes().len()
                && files@.last().bytes().take(r->Ok_0.active_file.bytes().len() as int)
                == r->Ok_0.active_file.bytes(),
    {
        match check_options(&opts) {
            Ok(()) => {},
            Err(e) => return Err(e),
        }
        let mut i: usize = 1;
        while i < files.len()
            invariant
                1 <= i,
                options_valid(&opts),
                forall|a: int, b: int|
                    0 <= a < b < i && b < files@.len() ==> files@[a].file_id < files@[b].file_id,
            decreases files@.len() - i,
        {
            if files[i - 1].file_id() >= files[i].file_id() {
                return Err(Errors::DatabaseFileCorrupted);
            }
            proof {
                assert forall|a: int, b: int|
                    0 <= a < b < i + 1 && b < files@.len() implies files@[a].file_id
                    < files@[b].file_id by {
                    if b == i && a < i - 1 {
                        assert(files@[a].file_id < files@[i - 1].file_id);
                    }
                }
            }
            i = i + 1;
        }
        let ghost input = files@;
        let mut files = files;
        let created = files.len() == 0;
        if created {
            match DataFile::new(opts.dir_path.as_str(), 0) {
                Ok(f) => files.push(f),
                Err(e) => return Err(e),
            }
        }
        let active_file = match files.pop() {
            Some(f) => f,
            None => return Err(Errors::DataFileNotFound),
        };
        let mut engine = Engine {
            options: opts,
            active_file,
            old_files: files,
            indexer: BTreeIndexer::new(),
            batch_prefix: session_prefix,
            batch_commit_id: 1,
        };
        proof {
            if !created {
                assert(engine.old_files@.push(engine.active_file) =~= input);
                assert(segments_of(engine.old_files@) =~= segments_of(input).drop_last());
                assert(engine.active_file == input.last());
            }
        }
        let ghost segs0 = engine.segments();
        proof {
            if created {
                lemma_decode_empty();
                assert(segs0.len() == 1);
                assert(segs0[0].1 == Seq::<u8>::empty());
                let st = scan(segs0[0].1, segs0[0].0, 0, empty_replay());
                assert(st == Some((empty_replay(), 0nat)));
                assert(replay_from(segs0, 1, empty_replay()) == Some(empty_replay()));
                assert(replay_from(segs0, 0, empty_replay()) == Some(empty_replay()));
            }
        }
        match engine.load_index_from_data_files() {
            Ok(()) => {},
            Err(e) => return Err(e),
        }
        proof {
            if created {
                assert(engine.indexer.view() =~= Map::<Seq<u8>, LogRecordPos>::empty());
                assert(engine.view() =~= Map::<Seq<u8>, Seq<u8>>::empty());
            }
        }
        Ok(engine)
    }
}

/// An empty segment holds no record.
proof fn lemma_decode_empty()
    ensures
        decode_at(Seq::<u8>::empty(), 0) is EndOfData,
{
    let h = crate::log_record::header_at(Seq::<u8>::empty(), 0);
    assert(h.skip(1) =~= Seq::new(14, |i: int| 0u8));
    assert(h.skip(2) =~= Seq::new(13, |i: int| 0u8));
    reveal_with_fuel(crate::log_record::varint_dec, 2);
}

/// Recovery is a function of the segments: two opens over the same segment
/// ids and bytes list the same keys, in the same order.
pub proof fn lemma_recovery_deterministic(
    segs: Seq<(u32, Seq<u8>)>,
    m1: Map<Seq<u8>, LogRecordPos>,
    m2: Map<Seq<u8>, LogRecordPos>,
    keys1: Seq<Seq<u8>>,
    keys2: Seq<Seq<u8>>,
)
    requires
        replay(segs) == Some(m1),
        replay(segs) == Some(m2),
        forall|i: int, j: int|
            0 <= i < j < keys1.len() ==> bytes_lt(#[trigger] keys1[i], #[trigger] keys1[j]),
        forall|i: int, j: int|
            0 <= i < j < keys2.len() ==> bytes_lt(#[trigger] keys2[i], #[trigger] keys2[j]),
        forall|x: Seq<u8>| keys1.contains(x) <==> m1.contains_key(x),
        forall|x: Seq<u8>| keys2.contains(x) <==> m2.contains_key(x),
    ensures
        keys1 == keys2,
{
    crate::index::lemma_sorted_keys_unique(keys1, keys2);
}

/// Durability: an engine is opened with its log replaying to its keydir;
/// `put`, `delete`, `sync` and `close` keep it so, and so does a batch's
/// `commit` while no batch left open in the log carries the session prefix.
/// Opening again over the engine's segments then rebuilds the same keydir.
pub proof fn lemma_reopen_rebuilds_keydir<F: IOManager>(
    e: &Engine<F>,
    files: Seq<DataFile<F>>,
    m: Map<Seq<u8>, LogRecordPos>,
)
    requires
        e.replays(),
        files == e.old_files@.push(e.active_file),
        replay(segments_of(files)) == Some(m),
    ensures
        m == e.indexer.view(),
{
    e.lemma_replays_rebuilds();
}

/// Reopening keeps the contents: an engine opened over the segments of an
/// engine whose log replays to its keydir reads every key as that engine did.
pub proof fn lemma_reopen_same_contents<F: IOManager>(
    e: &Engine<F>,
    files: Seq<DataFile<F>>,
    r: &Engine<F>,
)
    requires
        e.wf(),
        e.replays(),
        r.wf(),
        files == e.old_files@.push(e.active_file),
        replay(segments_of(files)) == Some(r.indexer.view()),
        segments_of(r.old_files@) == segments_of(files).drop_last(),
        r.active_file.file_id == files.last().file_id,
        r.active_file.bytes().len() <= files.last().bytes().len(),
        files.last().bytes().take(r.active_file.bytes().len() as int) == r.active_file.bytes(),
    ensures
        r.view() == e.view(),
{
    lemma_reopen_rebuilds_keydir(e, files, r.indexer.view());
    assert(files.drop_last() =~= e.old_files@);
    assert(files.last() == e.active_file);
    assert(segments_of(files).drop_last() =~= segments_of(e.old_files@));
    assert forall|k: Seq<u8>| #[trigger] r.view().contains_key(k) implies r.view()[k]
        == e.view()[k] by {
        lemma_same_record(e, r, r.indexer.view()[k]);
    }
    assert(r.view() =~= e.view());
}

/// A record that reads well in an engine whose segments are those of
/// another, its active one cut short, reads the same in the other.
proof fn lemma_same_record<F: IOManager>(e: &Engine<F>, r: &Engine<F>, pos: LogRecordPos)
    requires
        e.ids_wf(),
        r.ids_wf(),
        r.record_at(pos) is Record,
        segments_of(r.old_files@) == segments_of(e.old_files@),
        r.active_file.file_id == e.active_file.file_id,
        r.active_file.bytes().len() <= e.active_file.bytes().len(),
        e.active_file.bytes().take(r.active_file.bytes().len() as int) == r.active_file.bytes(),
    ensures
        e.record_at(pos) == r.record_at(pos),
{
    let fid = pos.file_id;
    if fid == e.active_file.file_id {
        let rb = r.active_file.bytes();
        let eb = e.active_file.bytes();
        crate::log_record::lemma_decode_bounds(rb, pos.offset as nat);
        let end = pos.offset + decode_at(rb, pos.offset as nat)->size;
        assert forall|i: int| 0 <= i < end implies eb[i] == rb[i] by {
            assert(eb.take(rb.len() as int)[i] == eb[i]);
        }
        assert(eb.take(end) =~= rb.take(end));
        lemma_decode_agree(rb, eb, pos.offset as nat);
    } else {
        let i = r.old_index(fid);
        assert(segments_of(r.old_files@).len() == r.old_files@.len());
        assert(segments_of(e.old_files@).len() == e.old_files@.len());
        assert(segments_of(r.old_files@)[i] == (r.old_files@[i].file_id, r.old_files@[i].bytes()));
        assert(segments_of(e.old_files@)[i] == (e.old_files@[i].file_id, e.old_files@[i].bytes()));
        assert(e.old_files@[i].file_id == fid);
        r.lemma_old_index(i);
        e.lemma_old_index(i);
        assert(r.file_bytes(fid) == e.file_bytes(fid));
    }
}

/// Contents after a series of writes: a put (`Some(value)`) or a delete
/// (`None`) of each key in turn, as `put` and `delete` state them.
pub open spec fn apply_writes(
    m: Map<Seq<u8>, Seq<u8>>,
    ws: Seq<(Seq<u8>, Option<Seq<u8>>)>,
) -> Map<Seq<u8>, Seq<u8>>
    decreases ws.len(),
{
    if ws.len() == 0 {
        m
    } else {
        let m2 = apply_writes(m, ws.drop_last());
        match ws.last().1 {
            Some(v) => m2.insert(ws.last().0, v),
            None => m2.remove(ws.last().0),
        }
    }
}

/// Point reads: writes to other keys leave a key as it is. After
/// `put(k, v)` the contents map `k` to `v`, so `get(k)` returns `v` until
/// `k` is written again; after `delete(k)`, `get(k)` finds nothing.
pub proof fn lemma_point_read(
    m: Map<Seq<u8>, Seq<u8>>,
    ws: Seq<(Seq<u8>, Option<Seq<u8>>)>,
    k: Seq<u8>,
)
    requires
        forall|i: int| 0 <= i < ws.len() ==> (#[trigger] ws[i]).0 != k,
    ensures
        apply_writes(m, ws).contains_key(k) == m.contains_key(k),
        m.contains_key(k) ==> apply_writes(m, ws)[k] == m[k],
    decreases ws.len(),
{
    if ws.len() > 0 {
        let w = ws.drop_last();
        assert forall|i: int| 0 <= i < w.len() implies (#[trigger] w[i]).0 != k by {
            assert(w[i] == ws[i]);
        }
        lemma_point_read(m, w, k);
        assert(ws.last() == ws[ws.len() - 1]);
    }
}

/// Rotation keeps records addressable: every append, sealing the active
/// segment or not, keeps each record where it was (`append_log_record`), and
/// so does any series of them.
pub proof fn lemma_records_stay<F: IOManager>(a: &Engine<F>, b: &Engine<F>, c: &Engine<F>)
    requires
        a.keeps_records(b),
        b.keeps_records(c),
    ensures
        a.keeps_records(c),
{
    assert forall|pos: LogRecordPos| #[trigger] a.record_at(pos) is Record implies c.record_at(pos)
        == a.record_at(pos) by {
        assert(b.record_at(pos) == a.record_at(pos));
    }
}

} // verus!
