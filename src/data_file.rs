use vstd::prelude::*;
use vstd::slice::slice_subrange;

use crate::error::{Errors, Result};
use crate::fio::{is_io_error, IOManager};
use crate::log_record::{
    copy_bytes, decode_at, header_at, lemma_varint_dec_len, read_u32_le, take_varint,
    varint_decode, LogRecord, LogRecordType, ReadLogRecord, ReadOutcome, MAX_HEADER_SIZE,
};

verus! {

/// How a read of a record turned out, against what the bytes hold there: the
/// record itself, the end of the data, corruption, or a failed read.
pub open spec fn read_agrees(o: ReadOutcome, r: Result<ReadLogRecord>) -> bool {
    match r {
        Ok(rr) => match o {
            ReadOutcome::Record { record_type, key, value, size } => {
                &&& rr.record.record_type == record_type
                &&& rr.record.key@ == key
                &&& rr.record.value@ == value
                &&& rr.size as nat == size
            },
            _ => false,
        },
        Err(e) => {
            ||| (e is ReadEOF && o is EndOfData)
            ||| (e is DatabaseFileCorrupted && o is Corrupted)
            ||| e is FailToReadFromDataFile
        },
    }
}

/// One numbered segment of the log: its id, its write cursor and its file.
pub struct DataFile<F> {
    pub file_id: u32,
    pub write_offset: u64,
    pub io_manager: F,
}

impl<F: IOManager> DataFile<F> {
    pub open spec fn bytes(&self) -> Seq<u8> {
        self.io_manager.bytes()
    }

    /// The write cursor stands at the end of the file: where the next append lands.
    pub open spec fn at_end(&self) -> bool {
        self.write_offset as nat == self.bytes().len()
    }

    /// Creates the empty segment `fid` in the directory `dir`.
    pub fn new(dir: &str, fid: u32) -> (r: Result<DataFile<F>>)
        ensures
            r is Ok ==> r->Ok_0.file_id == fid && r->Ok_0.at_end() && r->Ok_0.bytes()
                == Seq::<u8>::empty(),
            r is Err ==> is_io_error(r->Err_0),
    {
        match F::create(dir, fid) {
            Ok(io) => Ok(DataFile { file_id: fid, write_offset: 0, io_manager: io }),
            Err(e) => Err(e),
        }
    }

    /// A segment over a file that already exists; its cursor starts at 0.
    pub fn from_io(fid: u32, io: F) -> (r: DataFile<F>)
        ensures
            r.file_id == fid,
            r.write_offset == 0,
            r.io_manager == io,
    {
        DataFile { file_id: fid, write_offset: 0, io_manager: io }
    }

    pub fn get_offset(&self) -> (r: u64)
        ensures
            r == self.write_offset,
    {
        self.write_offset
    }

    pub fn file_id(&self) -> (r: u32)
        ensures
            r == self.file_id,
    {
        self.file_id
    }

    pub fn sync(&mut self) -> (r: Result<()>)
        ensures
            final(self).file_id == old(self).file_id,
            final(self).write_offset == old(self).write_offset,
            final(self).bytes() == old(self).bytes(),
            r is Err ==> is_io_error(r->Err_0),
    {
        self.io_manager.sync()
    }

    /// Appends `buf`; a short write advances the cursor by what was written
    /// and fails.
    pub fn write(&mut self, buf: &[u8]) -> (r: Result<usize>)
        requires
            old(self).at_end(),
        ensures
            final(self).at_end(),
            final(self).file_id == old(self).file_id,
            final(self).bytes().len() >= old(self).bytes().len(),
            final(self).bytes().take(old(self).bytes().len() as int) == old(self).bytes(),
            r is Ok ==> r->Ok_0 == buf@.len() && final(self).bytes() == old(self).bytes()
                + buf@,
            r is Err ==> is_io_error(r->Err_0),
    {
        if buf.len() as u64 > u64::MAX - self.write_offset {
            return Err(Errors::FailToWriteToDataFile("file size limit".to_owned()));
        }
        match self.io_manager.write(buf) {
            Ok(n) => {
                self.write_offset = self.write_offset + n as u64;
                assert(self.bytes().take(old(self).bytes().len() as int) =~= old(self).bytes());
                if n < buf.len() {
                    return Err(Errors::FailToWriteToDataFile("short write".to_owned()));
                }
                assert(buf@.take(n as int) =~= buf@);
                Ok(n)
            },
            Err(e) => {
                assert(self.bytes().take(old(self).bytes().len() as int) =~= old(self).bytes());
                Err(e)
            },
        }
    }

    /// Sets the write cursor to `offset` and cuts off whatever the file holds
    /// past it.
    pub fn set_offset(&mut self, offset: u64) -> (r: Result<()>)
        requires
            offset as nat <= old(self).bytes().len(),
        ensures
            final(self).file_id == old(self).file_id,
            r is Ok ==> final(self).at_end() && final(self).write_offset == offset
                && final(self).bytes() == old(self).bytes().take(offset as int),
            r is Err ==> final(self).bytes() == old(self).bytes() && final(self).write_offset
                == old(self).write_offset && is_io_error(r->Err_0),
    {
        match self.io_manager.set_len(offset) {
            Ok(()) => {
                self.write_offset = offset;
                Ok(())
            },
            Err(e) => Err(e),
        }
    }

    /// Reads the record at `offset`: its header first, then key, value and
    /// checksum, which must match.
    #[verifier::rlimit(30)]
    pub fn read_log_record(&self, offset: u64) -> (r: Result<ReadLogRecord>)
        ensures
            read_agrees(decode_at(self.bytes(), offset as nat), r),
    {
        let ghost data = self.bytes();
        let header = match self.io_manager.read(MAX_HEADER_SIZE, offset) {
            Ok(h) => h,
            Err(e) => return Err(e),
        };
        let mut h = header;
        while h.len() < MAX_HEADER_SIZE
            invariant
                header@.len() <= h@.len() <= MAX_HEADER_SIZE,
                h@ == header@ + Seq::new((h@.len() - header@.len()) as nat, |i: int| 0u8),
            decreases MAX_HEADER_SIZE - h@.len(),
        {
            h.push(0u8);
            assert(h@ =~= header@ + Seq::new((h@.len() - header@.len()) as nat, |i: int| 0u8));
        }
        assert(h@ =~= header_at(data, offset as nat));
        let record_type = h[0];
        let s1 = slice_subrange(h.as_slice(), 1, MAX_HEADER_SIZE);
        assert(s1@ =~= h@.skip(1));
        let (key_size, rest) = match take_varint(s1) {
            Some(p) => p,
            None => return Err(Errors::DatabaseFileCorrupted),
        };
        proof {
            lemma_varint_dec_len(h@.skip(1), 0);
        }
        let ghost a = varint_decode(h@.skip(1)).unwrap().1;
        assert(rest@ =~= h@.skip(1 + a as int));
        let (value_size, rest2) = match take_varint(rest) {
            Some(p) => p,
            None => return Err(Errors::DatabaseFileCorrupted),
        };
        proof {
            lemma_varint_dec_len(h@.skip(1 + a as int), 0);
        }
        if key_size == 0 && value_size == 0 {
            return Err(Errors::ReadEOF);
        }
        let hl: usize = MAX_HEADER_SIZE - rest2.len();
        if key_size > usize::MAX - 4 || value_size > usize::MAX - 4 - key_size {
            return Err(Errors::DatabaseFileCorrupted);
        }
        let kv_len: usize = key_size + value_size + 4;
        if offset > u64::MAX - hl as u64 {
            return Err(Errors::DatabaseFileCorrupted);
        }
        let body_at: u64 = offset + hl as u64;
        if kv_len as u64 > u64::MAX - body_at {
            return Err(Errors::DatabaseFileCorrupted);
        }
        let kv = match self.io_manager.read(kv_len, body_at) {
            Ok(v) => v,
            Err(e) => return Err(e),
        };
        if kv.len() < kv_len {
            return Err(Errors::ReadEOF);
        }
        let t = match LogRecordType::from_u8(record_type) {
            Some(t) => t,
            None => return Err(Errors::DatabaseFileCorrupted),
        };
        let ghost k0 = body_at as int;
        let key = copy_bytes(slice_subrange(kv.as_slice(), 0, key_size));
        let value = copy_bytes(slice_subrange(kv.as_slice(), key_size, key_size + value_size));
        let stored = read_u32_le(kv.as_slice(), key_size + value_size);
        assert(key@ =~= data.subrange(k0, k0 + key_size));
        assert(value@ =~= data.subrange(k0 + key_size, k0 + key_size + value_size));
        assert(kv@.subrange(key_size + value_size, key_size + value_size + 4) =~= data.subrange(
            k0 + key_size + value_size,
            k0 + key_size + value_size + 4,
        ));
        let record = LogRecord { key, value, record_type: t };
        let crc = record.get_crc();
        if crc != stored {
            return Err(Errors::DatabaseFileCorrupted);
        }
        Ok(ReadLogRecord { record, size: body_at - offset + kv_len as u64 })
    }
}

/// The suffix of a segment's file name: ".bcdata".
pub open spec fn suffix_spec() -> Seq<u8> {
    seq![46u8, 98, 99, 100, 97, 116, 97]
}

/// The last `width` decimal digits of `n`, most significant first.
pub open spec fn decimal(n: nat, width: nat) -> Seq<u8>
    decreases width,
{
    if width == 0 {
        Seq::empty()
    } else {
        decimal(n / 10, (width - 1) as nat).push((48 + n % 10) as u8)
    }
}

/// The value of a string of decimal digits.
pub open spec fn digits_value(s: Seq<u8>) -> nat
    decreases s.len(),
{
    if s.len() == 0 {
        0
    } else {
        10 * digits_value(s.drop_last()) + (s.last() - 48) as nat
    }
}

pub open spec fn all_digits(s: Seq<u8>) -> bool {
    forall|i: int| 0 <= i < s.len() ==> 48 <= #[trigger] s[i] <= 57
}

/// The number of digits in a segment file name: nine, or ten for ids that
/// need them.
pub open spec fn name_width(fid: u32) -> nat {
    if fid < 1_000_000_000 {
        9
    } else {
        10
    }
}

/// The file name of segment `fid`: its id in nine zero-padded decimal
/// digits, then the suffix.
pub fn generate_datafile_name(fid: u32) -> (r: Vec<u8>)
    ensures
        r@ == decimal(fid as nat, name_width(fid)) + suffix_spec(),
{
    let width: usize = if fid < 1_000_000_000 {
        9
    } else {
        10
    };
    let mut digits: Vec<u8> = Vec::new();
    let mut n: u32 = fid;
    let mut k: usize = 0;
    while k < width
        invariant
            k <= width,
            width as nat == name_width(fid),
            digits@.len() == k,
            decimal(fid as nat, width as nat) == decimal(n as nat, (width - k) as nat)
                + digits@.reverse(),
        decreases width - k,
    {
        let ghost before = digits@;
        digits.push((48 + n % 10) as u8);
        assert(digits@.reverse() =~= seq![(48 + n % 10) as u8] + before.reverse());
        assert(decimal(n as nat, (width - k) as nat) == decimal(
            (n / 10) as nat,
            (width - k - 1) as nat,
        ).push((48 + n % 10) as u8));
        assert(decimal(n as nat, (width - k) as nat) + before.reverse() =~= decimal(
            (n / 10) as nat,
            (width - k - 1) as nat,
        ) + digits@.reverse());
        n = n / 10;
        k = k + 1;
    }
    assert(decimal(n as nat, 0) =~= Seq::<u8>::empty());
    let mut name: Vec<u8> = Vec::new();
    let mut j: usize = 0;
    while j < width
        invariant
            j <= width,
            digits@.len() == width,
            name@ == digits@.reverse().take(j as int),
        decreases width - j,
    {
        name.push(digits[width - 1 - j]);
        assert(name@ =~= digits@.reverse().take(j + 1));
        j = j + 1;
    }
    assert(name@ =~= digits@.reverse());
    let suffix: Vec<u8> = vec![46u8, 98, 99, 100, 97, 116, 97];
    crate::log_record::append_bytes(&mut name, suffix.as_slice());
    assert(suffix@ =~= suffix_spec());
    name
}

/// Reads a segment's id from a file name: `Ok(None)` for a name without the
/// segment suffix, the id for decimal digits before it, and
/// `DatabaseFileCorrupted` for anything else there.
pub fn parse_datafile_name(name: &[u8]) -> (r: Result<Option<u32>>)
    ensures
        !(name@.len() >= 7 && name@.skip(name@.len() - 7) == suffix_spec()) ==> r == Ok::<
            Option<u32>,
            Errors,
        >(None),
        name@.len() >= 7 && name@.skip(name@.len() - 7) == suffix_spec() ==> ({
            let stem = name@.take(name@.len() - 7);
            if stem.len() > 0 && all_digits(stem) && digits_value(stem) <= u32::MAX {
                r is Ok && r->Ok_0 is Some && r->Ok_0.unwrap() as nat == digits_value(stem)
            } else {
                r is Err && r->Err_0 is DatabaseFileCorrupted
            }
        }),
{
    let suffix: Vec<u8> = vec![46u8, 98, 99, 100, 97, 116, 97];
    assert(suffix@ =~= suffix_spec());
    if name.len() < 7 {
        return Ok(None);
    }
    let stem_len = name.len() - 7;
    let tail = vstd::slice::slice_subrange(name, stem_len, name.len());
    assert(tail@ =~= name@.skip(stem_len as int));
    match crate::index::compare_bytes(tail, suffix.as_slice()) {
        core::cmp::Ordering::Equal => {},
        _ => return Ok(None),
    }
    let ghost stem = name@.take(stem_len as int);
    if stem_len == 0 {
        return Err(Errors::DatabaseFileCorrupted);
    }
    let mut value: u64 = 0;
    let mut i: usize = 0;
    while i < stem_len
        invariant
            stem_len + 7 == name@.len(),
            stem_len > 0,
            name@.skip(stem_len as int) == suffix_spec(),
            stem == name@.take(stem_len as int),
            i <= stem_len,
            all_digits(stem.take(i as int)),
            value as nat == digits_value(stem.take(i as int)),
            value <= u32::MAX,
        decreases stem_len - i,
    {
        let c = name[i];
        assert(stem.take(i + 1).drop_last() =~= stem.take(i as int));
        assert(stem.take(i + 1).last() == c);
        if c < 48 || c > 57 {
            proof {
                assert(!(48 <= stem[i as int] <= 57));
            }
            return Err(Errors::DatabaseFileCorrupted);
        }
        let next = value * 10 + (c - 48) as u64;
        if next > 0xffff_ffffu64 {
            proof {
                assert(digits_value(stem.take(i + 1)) == next as nat);
                assert(all_digits(stem.take(i + 1)));
                if all_digits(stem) {
                    lemma_digits_value_grows(stem, (i + 1) as nat);
                }
            }
            return Err(Errors::DatabaseFileCorrupted);
        }
        value = next;
        i = i + 1;
    }
    assert(stem.take(stem_len as int) =~= stem);
    Ok(Some(value as u32))
}

/// A longer string of digits has at least the value of its prefix.
proof fn lemma_digits_value_grows(s: Seq<u8>, n: nat)
    requires
        n <= s.len(),
        all_digits(s),
    ensures
        digits_value(s) >= digits_value(s.take(n as int)),
    decreases s.len(),
{
    if s.len() > n {
        assert(s.drop_last().take(n as int) =~= s.take(n as int));
        assert(all_digits(s.drop_last()));
        lemma_digits_value_grows(s.drop_last(), n);
    } else {
        assert(s.take(n as int) =~= s);
    }
}

/// Segment ids in ascending order, each as often as given.
pub fn sort_file_ids(ids: Vec<u32>) -> (r: Vec<u32>)
    ensures
        r@.len() == ids@.len(),
        forall|i: int, j: int| 0 <= i < j < r@.len() ==> r@[i] <= r@[j],
        r@.to_multiset() == ids@.to_multiset(),
{
    let mut out: Vec<u32> = Vec::new();
    let mut k: usize = 0;
    proof {
        broadcast use vstd::seq_lib::group_to_multiset_ensures;

        assert(ids@.take(0) =~= Seq::<u32>::empty());
    }
    while k < ids.len()
        invariant
            k <= ids@.len(),
            out@.len() == k,
            forall|i: int, j: int| 0 <= i < j < out@.len() ==> out@[i] <= out@[j],
            out@.to_multiset() == ids@.take(k as int).to_multiset(),
        decreases ids@.len() - k,
    {
        let x = ids[k];
        let mut p: usize = 0;
        while p < out.len() && out[p] <= x
            invariant
                p <= out@.len(),
                forall|i: int| 0 <= i < p ==> out@[i] <= x,
            decreases out@.len() - p,
        {
            p = p + 1;
        }
        let ghost before = out@;
        out.insert(p, x);
        proof {
            broadcast use vstd::seq_lib::group_to_multiset_ensures;

            assert(out@ =~= before.insert(p as int, x));
            vstd::seq_lib::to_multiset_insert(before, p as int, x);
            assert(ids@.take(k + 1) =~= ids@.take(k as int).push(x));
            assert forall|i: int, j: int| 0 <= i < j < out@.len() implies out@[i] <= out@[j] by {
                if j == p {
                } else if i == p {
                    assert(out@[j] == before[j - 1]);
                    if p < before.len() {
                        assert(before[p as int] > x);
                        if j - 1 > p {
                            assert(before[p as int] <= before[j - 1]);
                        }
                    }
                }
            }
        }
        k = k + 1;
    }
    assert(ids@.take(k as int) =~= ids@);
    out
}

} // verus!
