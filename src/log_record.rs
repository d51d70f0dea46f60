use vstd::prelude::*;

verus! {

/// Where a record lives: the segment that holds it and its byte offset there.
#[derive(Clone, Copy, Debug, PartialEq, Eq, Structural)]
pub struct LogRecordPos {
    pub file_id: u32,
    pub offset: u64,
}

/// The kind of a log record.
#[derive(Debug, PartialEq, Eq, Clone, Copy, Structural)]
pub enum LogRecordType {
    /// a key holding a value
    Normal,
    /// a tombstone: the key was removed
    Deleted,
    /// the terminator that commits a batch
    BatchCommit,
}

impl LogRecordType {
    /// The byte that stands for this kind on disk.
    pub open spec fn spec_byte(self) -> u8 {
        match self {
            LogRecordType::Normal => 1,
            LogRecordType::Deleted => 2,
            LogRecordType::BatchCommit => 3,
        }
    }

    pub fn to_u8(self) -> (r: u8)
        ensures
            r == self.spec_byte(),
    {
        match self {
            LogRecordType::Normal => 1,
            LogRecordType::Deleted => 2,
            LogRecordType::BatchCommit => 3,
        }
    }

    /// The kind written as `v`, if `v` names one.
    pub fn from_u8(v: u8) -> (r: Option<LogRecordType>)
        ensures
            r == type_of_byte(v),
    {
        match v {
            1 => Some(LogRecordType::Normal),
            2 => Some(LogRecordType::Deleted),
            3 => Some(LogRecordType::BatchCommit),
            _ => None,
        }
    }
}

pub open spec fn type_of_byte(v: u8) -> Option<LogRecordType> {
    if v == 1 {
        Some(LogRecordType::Normal)
    } else if v == 2 {
        Some(LogRecordType::Deleted)
    } else if v == 3 {
        Some(LogRecordType::BatchCommit)
    } else {
        None
    }
}

/// One entry of the log.
#[derive(Debug, PartialEq)]
pub struct LogRecord {
    pub key: Vec<u8>,
    pub value: Vec<u8>,
    pub record_type: LogRecordType,
}

/// A record read back from a segment, with the number of bytes it takes there.
pub struct ReadLogRecord {
    pub record: LogRecord,
    pub size: u64,
}

pub const LOG_CRC_SIZE: usize = 4;

pub const LOG_TYPE_FLAG_SIZE: usize = 1;

/// The bytes read in front of a record to learn its sizes: a type byte and
/// two varints of lengths up to `u32::MAX`, plus the checksum's width.
pub const MAX_HEADER_SIZE: usize = 15;

/// The LEB128 varint of `n`: seven bits per byte, low bits first, the high
/// bit set on every byte but the last.
pub open spec fn varint_bytes(n: nat) -> Seq<u8>
    decreases n,
{
    if n < 128 {
        seq![n as u8]
    } else {
        seq![(n % 128 + 128) as u8] + varint_bytes(n / 128)
    }
}

/// Reads a varint whose first byte is the `depth`-th of the whole varint:
/// the value and the count of bytes, or `None` when the bytes run out, when
/// more than ten bytes carry the continuation bit, or when a tenth byte
/// would overflow 64 bits.
pub open spec fn varint_dec(s: Seq<u8>, depth: nat) -> Option<(nat, nat)>
    decreases s.len(),
{
    if s.len() == 0 || depth >= 10 {
        None
    } else if s[0] < 128 {
        if depth == 9 && s[0] >= 2 {
            None
        } else {
            Some((s[0] as nat, 1nat))
        }
    } else {
        match varint_dec(s.drop_first(), depth + 1) {
            Some((v, n)) => Some(((s[0] - 128) as nat + 128 * v, n + 1)),
            None => None,
        }
    }
}

pub open spec fn varint_decode(s: Seq<u8>) -> Option<(nat, nat)> {
    varint_dec(s, 0)
}

/// The checksum of a byte string, as crc32fast computes it.
pub uninterp spec fn crc32_of(b: Seq<u8>) -> u32;

/// The four little-endian bytes of `x`.
pub open spec fn le32(x: u32) -> Seq<u8> {
    seq![
        (x % 256) as u8,
        ((x / 256) % 256) as u8,
        ((x / 65536) % 256) as u8,
        ((x / 16777216) % 256) as u8,
    ]
}

/// The value of four little-endian bytes.
pub open spec fn le32_value(s: Seq<u8>) -> nat {
    s[0] as nat + 256 * s[1] as nat + 65536 * s[2] as nat + 16777216 * s[3] as nat
}

/// What the checksum covers: type, key size, value size, key, value.
pub open spec fn record_body(t: LogRecordType, key: Seq<u8>, value: Seq<u8>) -> Seq<u8> {
    seq![t.spec_byte()] + varint_bytes(key.len()) + varint_bytes(value.len()) + key + value
}

/// The encoded record: its body followed by the body's checksum.
pub open spec fn encode_spec(t: LogRecordType, key: Seq<u8>, value: Seq<u8>) -> Seq<u8> {
    record_body(t, key, value) + le32(crc32_of(record_body(t, key, value)))
}

/// Relies on crc32fast::hash: the IEEE CRC-32 of the bytes, which depends on
/// the bytes alone.
#[verifier::external_body]
fn crc32(b: &[u8]) -> (r: u32)
    ensures
        r == crc32_of(b@),
{
    crc32fast::hash(b)
}

/// Relies on prost::encode_length_delimiter: it appends the LEB128 varint of
/// `n`; a new `Vec` has room for it, so it does not fail.
#[verifier::external_body]
pub(crate) fn varint_of(n: usize) -> (r: Vec<u8>)
    ensures
        r@ == varint_bytes(n as nat),
{
    let mut buf: Vec<u8> = Vec::new();
    let _ = prost::encode_length_delimiter(n, &mut buf);
    buf
}

/// Relies on prost::length_delimiter_len: the number of bytes that the varint
/// of `n` takes.
#[verifier::external_body]
fn varint_len(n: usize) -> (r: usize)
    ensures
        r as nat == varint_bytes(n as nat).len(),
{
    prost::length_delimiter_len(n)
}

/// Relies on prost::decode_length_delimiter: it reads one varint from the
/// front of the bytes (at most ten, the tenth below 2), fails when they end
/// first, and leaves the buffer just past the varint.
#[verifier::external_body]
pub(crate) fn take_varint(s: &[u8]) -> (r: Option<(usize, &[u8])>)
    ensures
        r is Some <==> (varint_decode(s@) is Some && varint_decode(s@).unwrap().0 <= usize::MAX),
        r is Some ==> r.unwrap().0 as nat == varint_decode(s@).unwrap().0 && r.unwrap().1@
            == s@.skip(varint_decode(s@).unwrap().1 as int),
{
    let mut rest = s;
    match prost::decode_length_delimiter(&mut rest) {
        Ok(v) => Some((v, rest)),
        Err(_) => None,
    }
}

/// Appends `src` to `dst`.
pub fn append_bytes(dst: &mut Vec<u8>, src: &[u8])
    ensures
        final(dst)@ == old(dst)@ + src@,
{
    let mut i: usize = 0;
    while i < src.len()
        invariant
            i <= src@.len(),
            dst@ == old(dst)@ + src@.take(i as int),
        decreases src@.len() - i,
    {
        dst.push(src[i]);
        i = i + 1;
        assert(src@.take(i as int) == src@.take(i - 1) + seq![src@[i - 1]]);
    }
    assert(src@.take(src@.len() as int) == src@);
}

/// A fresh copy of `src`.
pub fn copy_bytes(src: &[u8]) -> (r: Vec<u8>)
    ensures
        r@ == src@,
{
    let mut r: Vec<u8> = Vec::new();
    append_bytes(&mut r, src);
    assert(r@ =~= src@);
    r
}

/// Appends the four little-endian bytes of `x`.
fn push_u32_le(buf: &mut Vec<u8>, x: u32)
    ensures
        final(buf)@ == old(buf)@ + le32(x),
{
    buf.push((x % 256) as u8);
    buf.push(((x / 256) % 256) as u8);
    buf.push(((x / 65536) % 256) as u8);
    buf.push(((x / 16777216) % 256) as u8);
    assert(buf@ =~= old(buf)@ + le32(x));
}

/// The `u32` written little-endian at `s[at..at + 4]`.
pub fn read_u32_le(s: &[u8], at: usize) -> (r: u32)
    requires
        at + 4 <= s@.len(),
    ensures
        r as nat == le32_value(s@.subrange(at as int, at + 4)),
{
    let r = s[at] as u32 + 256 * (s[at + 1] as u32) + 65536 * (s[at + 2] as u32) + 16777216 * (
    s[at + 3] as u32);
    r
}

impl LogRecord {
    pub open spec fn body(&self) -> Seq<u8> {
        record_body(self.record_type, self.key@, self.value@)
    }

    pub open spec fn encoded(&self) -> Seq<u8> {
        encode_spec(self.record_type, self.key@, self.value@)
    }

    /// The record as it is written to a segment:
    /// | type | key_size | value_size | key | value | crc |
    pub fn encode(&self) -> (r: Vec<u8>)
        ensures
            r@ == self.encoded(),
    {
        self.encode_and_crc().0
    }

    /// The checksum stored with the record.
    pub fn get_crc(&self) -> (r: u32)
        ensures
            r == crc32_of(self.body()),
    {
        self.encode_and_crc().1
    }

    /// The encoded record together with its checksum.
    pub fn encode_and_crc(&self) -> (r: (Vec<u8>, u32))
        ensures
            r.0@ == self.encoded(),
            r.1 == crc32_of(self.body()),
    {
        let mut buf: Vec<u8> = Vec::new();
        buf.push(self.record_type.to_u8());
        let ks = varint_of(self.key.len());
        append_bytes(&mut buf, ks.as_slice());
        let vs = varint_of(self.value.len());
        append_bytes(&mut buf, vs.as_slice());
        append_bytes(&mut buf, self.key.as_slice());
        append_bytes(&mut buf, self.value.as_slice());
        assert(buf@ =~= self.body());
        let crc = crc32(buf.as_slice());
        push_u32_le(&mut buf, crc);
        (buf, crc)
    }

    /// The number of bytes that `encode` yields.
    pub fn encoded_length(&self) -> (r: usize)
        requires
            self.key@.len() + self.value@.len() + 25 <= usize::MAX,
        ensures
            r as nat == self.encoded().len(),
    {
        proof {
            lemma_varint_len_bound(self.key@.len());
            lemma_varint_len_bound(self.value@.len());
        }
        LOG_TYPE_FLAG_SIZE + varint_len(self.key.len()) + varint_len(self.value.len())
            + self.key.len() + self.value.len() + LOG_CRC_SIZE
    }
}

/// The size of the header buffer that a read fetches before the body.
pub fn log_record_max_size() -> (r: usize)
    ensures
        r == MAX_HEADER_SIZE,
{
    proof {
        lemma_varint_u32_max_len();
    }
    LOG_TYPE_FLAG_SIZE + varint_len(0xffff_ffffusize) * 2 + LOG_CRC_SIZE
}

pub open spec fn pow128(k: nat) -> nat
    decreases k,
{
    if k == 0 {
        1
    } else {
        128 * pow128((k - 1) as nat)
    }
}

proof fn lemma_varint_u32_max_len()
    ensures
        varint_bytes(0xffff_ffff).len() == 5,
{
    reveal_with_fuel(varint_bytes, 6);
}

/// A varint of a value below `128^k` takes at most `k` bytes.
pub proof fn lemma_varint_len_pow(n: nat, k: nat)
    requires
        n < pow128(k),
        k >= 1,
    ensures
        varint_bytes(n).len() <= k,
        varint_bytes(n).len() >= 1,
    decreases n,
{
    if n >= 128 {
        if k <= 1 {
            reveal_with_fuel(pow128, 2);
        } else {
            assert(n / 128 < pow128((k - 1) as nat));
            lemma_varint_len_pow(n / 128, (k - 1) as nat);
        }
    }
}

/// A varint of a `u64` takes between one and ten bytes; of a `u32`, at most five.
pub proof fn lemma_varint_len_bound(n: nat)
    ensures
        n <= u64::MAX ==> 1 <= varint_bytes(n).len() <= 10,
        n <= u32::MAX ==> varint_bytes(n).len() <= 5,
{
    reveal_with_fuel(pow128, 11);
    if n <= u64::MAX {
        lemma_varint_len_pow(n, 10);
    }
    if n <= u32::MAX {
        lemma_varint_len_pow(n, 5);
    }
}

/// Reading back the varint of `n` at a depth where it fits gives `n` and its length,
/// whatever follows it.
proof fn lemma_varint_dec_bytes(n: nat, depth: nat, rest: Seq<u8>)
    requires
        depth <= 9,
        n < 2 * pow128((9 - depth) as nat),
    ensures
        varint_dec(varint_bytes(n) + rest, depth) == Some((n, varint_bytes(n).len())),
    decreases n,
{
    let s = varint_bytes(n) + rest;
    if n < 128 {
        assert(s[0] == n as u8);
        if depth == 9 {
            assert(pow128(0) == 1);
        }
    } else {
        if depth == 9 {
            assert(pow128(0) == 1);
        }
        assert(depth < 9);
        assert(pow128((9 - depth) as nat) == 128 * pow128((9 - (depth + 1)) as nat));
        assert(n / 128 < 2 * pow128((9 - (depth + 1)) as nat));
        lemma_varint_dec_bytes(n / 128, depth + 1, rest);
        assert(s.drop_first() =~= varint_bytes(n / 128) + rest);
        assert(s[0] == (n % 128 + 128) as u8);
    }
}

/// A `u64` read back from its varint.
pub proof fn lemma_varint_round_trip(n: nat, rest: Seq<u8>)
    requires
        n <= u64::MAX,
    ensures
        varint_decode(varint_bytes(n) + rest) == Some((n, varint_bytes(n).len())),
{
    reveal_with_fuel(pow128, 10);
    lemma_varint_dec_bytes(n, 0, rest);
}

/// A varint read depends only on the bytes that it takes.
pub proof fn lemma_varint_dec_prefix(s: Seq<u8>, t: Seq<u8>, depth: nat)
    requires
        varint_dec(s, depth) is Some,
        varint_dec(s, depth).unwrap().1 <= t.len(),
        s.take(varint_dec(s, depth).unwrap().1 as int) == t.take(
            varint_dec(s, depth).unwrap().1 as int,
        ),
    ensures
        varint_dec(t, depth) == varint_dec(s, depth),
    decreases s.len(),
{
    let n = varint_dec(s, depth).unwrap().1;
    lemma_varint_dec_len(s, depth);
    assert(s[0] == s.take(n as int)[0]);
    assert(t[0] == t.take(n as int)[0]);
    if s[0] >= 128 {
        assert(s.drop_first().take(n - 1) =~= s.take(n as int).drop_first());
        assert(t.drop_first().take(n - 1) =~= t.take(n as int).drop_first());
        lemma_varint_dec_prefix(s.drop_first(), t.drop_first(), depth + 1);
    }
}

/// A varint read takes at least one byte, and no more than there are.
pub proof fn lemma_varint_dec_len(s: Seq<u8>, depth: nat)
    requires
        varint_dec(s, depth) is Some,
    ensures
        1 <= varint_dec(s, depth).unwrap().1 <= s.len(),
        varint_dec(s, depth).unwrap().1 + depth <= 10,
    decreases s.len(),
{
    if s[0] >= 128 {
        lemma_varint_dec_len(s.drop_first(), depth + 1);
    }
}

/// What reading a record at some offset of a segment finds.
pub enum ReadOutcome {
    /// a well-formed record, and the number of bytes it takes
    Record { record_type: LogRecordType, key: Seq<u8>, value: Seq<u8>, size: nat },
    /// no further record: zero sizes, or a record cut off by the end of the data
    EndOfData,
    /// bad framing, an unknown type, or a checksum that does not match
    Corrupted,
}

/// The bytes of `data` in `[off, off + len)`, cut short at its end.
pub open spec fn window(data: Seq<u8>, off: int, len: int) -> Seq<u8> {
    if off >= data.len() {
        Seq::empty()
    } else if off + len >= data.len() {
        data.subrange(off, data.len() as int)
    } else {
        data.subrange(off, off + len)
    }
}

/// `s` filled up with zeros to length `n`.
pub open spec fn zero_pad(s: Seq<u8>, n: nat) -> Seq<u8> {
    if s.len() >= n {
        s
    } else {
        s + Seq::new((n - s.len()) as nat, |i: int| 0u8)
    }
}

/// The header buffer that a read at `off` fetches: the next header-size
/// bytes, zero where the data has ended.
pub open spec fn header_at(data: Seq<u8>, off: nat) -> Seq<u8> {
    zero_pad(window(data, off as int, MAX_HEADER_SIZE as int), MAX_HEADER_SIZE as nat)
}

/// Reads the record that starts at `off`. The checksum is compared with the
/// one of the record's canonical body.
pub open spec fn decode_at(data: Seq<u8>, off: nat) -> ReadOutcome {
    let h = header_at(data, off);
    match varint_decode(h.skip(1)) {
        None => ReadOutcome::Corrupted,
        Some((ks, a)) => match varint_decode(h.skip(1 + a as int)) {
            None => ReadOutcome::Corrupted,
            Some((vs, b)) => {
                let hl = 1 + a + b;
                if ks > usize::MAX || vs > usize::MAX {
                    ReadOutcome::Corrupted
                } else if ks == 0 && vs == 0 {
                    ReadOutcome::EndOfData
                } else if ks + vs + 4 > usize::MAX || off + hl + ks + vs + 4 > u64::MAX {
                    ReadOutcome::Corrupted
                } else if off + hl + ks + vs + 4 > data.len() {
                    ReadOutcome::EndOfData
                } else {
                    match type_of_byte(h[0]) {
                        None => ReadOutcome::Corrupted,
                        Some(t) => {
                            let k0 = (off + hl) as int;
                            let ks = ks as int;
                            let vs = vs as int;
                            let key = data.subrange(k0, k0 + ks);
                            let value = data.subrange(k0 + ks, k0 + ks + vs);
                            let stored = data.subrange(k0 + ks + vs, k0 + ks + vs + 4);
                            if le32_value(stored) == crc32_of(record_body(t, key, value)) as nat {
                                ReadOutcome::Record {
                                    record_type: t,
                                    key,
                                    value,
                                    size: (hl + ks + vs + 4) as nat,
                                }
                            } else {
                                ReadOutcome::Corrupted
                            }
                        },
                    }
                }
            },
        },
    }
}

pub proof fn lemma_le32_value(x: u32)
    ensures
        le32_value(le32(x)) == x as nat,
{
    let y = x as u64;
    assert((y % 256) + 256 * ((y / 256) % 256) + 65536 * ((y / 65536) % 256) + 16777216 * ((y
        / 16777216) % 256) == y) by (bit_vector)
        requires
            y < 0x1_0000_0000u64,
    ;
}

proof fn lemma_type_byte(t: LogRecordType)
    ensures
        type_of_byte(t.spec_byte()) == Some(t),
{
}

/// Reading at `off` gives back a record that was encoded there, whatever
/// precedes or follows it.
#[verifier::rlimit(60)]
pub proof fn lemma_decode_encoded(
    data: Seq<u8>,
    off: nat,
    t: LogRecordType,
    key: Seq<u8>,
    value: Seq<u8>,
)
    requires
        off + encode_spec(t, key, value).len() <= data.len(),
        data.subrange(off as int, off + encode_spec(t, key, value).len() as int) == encode_spec(
            t,
            key,
            value,
        ),
        key.len() <= u32::MAX,
        value.len() <= u32::MAX,
        key.len() + value.len() > 0,
        key.len() + value.len() + 4 <= usize::MAX,
        off + encode_spec(t, key, value).len() <= u64::MAX,
    ensures
        decode_at(data, off) == (ReadOutcome::Record {
            record_type: t,
            key,
            value,
            size: encode_spec(t, key, value).len(),
        }),
{
    let enc = encode_spec(t, key, value);
    let body = record_body(t, key, value);
    let kb = varint_bytes(key.len());
    let vb = varint_bytes(value.len());
    lemma_varint_len_bound(key.len());
    lemma_varint_len_bound(value.len());
    let a = kb.len() as int;
    let b = vb.len() as int;
    let hl = 1 + a + b;
    assert(enc.len() == hl + key.len() + value.len() + 4);
    let h = header_at(data, off);
    assert(h.len() == 15);
    assert forall|i: int| 0 <= i < hl implies h[i] == enc[i] by {
        assert(data.subrange(off as int, off + enc.len() as int)[i] == enc[i]);
    }
    assert(enc[0] == t.spec_byte());
    assert forall|j: int| 0 <= j < a implies enc[1 + j] == kb[j] by {
        assert(enc[1 + j] == body[1 + j]);
    }
    assert forall|j: int| 0 <= j < b implies enc[1 + a + j] == vb[j] by {
        assert(enc[1 + a + j] == body[1 + a + j]);
    }
    assert(h.skip(1) =~= kb + h.skip(1 + a));
    lemma_varint_round_trip(key.len(), h.skip(1 + a));
    assert(h.skip(1 + a) =~= vb + h.skip(hl));
    lemma_varint_round_trip(value.len(), h.skip(hl));
    lemma_type_byte(t);
    let k0 = (off + hl) as int;
    assert(data.subrange(k0, k0 + key.len()) =~= key) by {
        assert forall|j: int| 0 <= j < key.len() implies data[k0 + j] == key[j] by {
            assert(data.subrange(off as int, off + enc.len() as int)[hl + j] == enc[hl + j]);
            assert(enc[hl + j] == body[hl + j]);
        }
    }
    assert(data.subrange(k0 + key.len(), k0 + key.len() + value.len()) =~= value) by {
        assert forall|j: int| 0 <= j < value.len() implies data[k0 + key.len() + j]
            == value[j] by {
            assert(data.subrange(off as int, off + enc.len() as int)[hl + key.len() + j] == enc[hl
                + key.len() + j]);
            assert(enc[hl + key.len() + j] == body[hl + key.len() + j]);
        }
    }
    let c0 = k0 + key.len() + value.len();
    assert(data.subrange(c0, c0 + 4) =~= le32(crc32_of(body))) by {
        assert forall|j: int| 0 <= j < 4 implies data[c0 + j] == le32(crc32_of(body))[j] by {
            assert(data.subrange(off as int, off + enc.len() as int)[body.len() + j] == enc[body.len()
                + j]);
        }
    }
    lemma_le32_value(crc32_of(body));
}

/// A record that reads well keeps reading the same when data is appended.
pub proof fn lemma_decode_extend(data: Seq<u8>, more: Seq<u8>, off: nat)
    requires
        decode_at(data, off) is Record,
    ensures
        decode_at(data + more, off) == decode_at(data, off),
{
    let d2 = data + more;
    let h = header_at(data, off);
    let h2 = header_at(d2, off);
    let (ks, a) = varint_decode(h.skip(1)).unwrap();
    lemma_varint_dec_len(h.skip(1), 0);
    let (vs, b) = varint_decode(h.skip(1 + a as int)).unwrap();
    lemma_varint_dec_len(h.skip(1 + a as int), 0);
    let ks = ks as int;
    let vs = vs as int;
    let a = a as int;
    let b = b as int;
    let hl = 1 + a + b;
    assert(off + hl <= data.len());
    assert forall|i: int| 0 <= i < hl implies h[i] == h2[i] by {
        assert(h[i] == data[off + i]);
        assert(h2[i] == d2[off + i]);
    }
    assert(h.skip(1).take(a) =~= h2.skip(1).take(a));
    lemma_varint_dec_prefix(h.skip(1), h2.skip(1), 0);
    assert(h.skip(1 + a).take(b) =~= h2.skip(1 + a).take(b));
    lemma_varint_dec_prefix(h.skip(1 + a), h2.skip(1 + a), 0);
    let k0 = off + hl;
    assert(d2.subrange(k0, k0 + ks) =~= data.subrange(k0, k0 + ks));
    assert(d2.subrange(k0 + ks, k0 + ks + vs) =~= data.subrange(k0 + ks, k0 + ks + vs));
    assert(d2.subrange(k0 + ks + vs, k0 + ks + vs + 4) =~= data.subrange(
        k0 + ks + vs,
        k0 + ks + vs + 4,
    ));
}

/// The size of a record that reads well: at least a header byte, two
/// sizes and a checksum, and within the data.
pub proof fn lemma_decode_bounds(data: Seq<u8>, off: nat)
    requires
        decode_at(data, off) is Record,
    ensures
        decode_at(data, off)->size >= 5,
        off + decode_at(data, off)->size <= data.len(),
        off + decode_at(data, off)->size <= u64::MAX,
{
    let h = header_at(data, off);
    lemma_varint_dec_len(h.skip(1), 0);
    let a = varint_decode(h.skip(1)).unwrap().1;
    lemma_varint_dec_len(h.skip(1 + a as int), 0);
}

/// A record that reads well reads the same from other data that agrees
/// with it up to the record's end.
pub proof fn lemma_decode_agree(data: Seq<u8>, d2: Seq<u8>, off: nat)
    requires
        decode_at(data, off) is Record,
        off + decode_at(data, off)->size <= d2.len(),
        d2.take((off + decode_at(data, off)->size) as int) == data.take(
            (off + decode_at(data, off)->size) as int,
        ),
    ensures
        decode_at(d2, off) == decode_at(data, off),
{
    lemma_decode_bounds(data, off);
    let end = off + decode_at(data, off)->size;
    let h = header_at(data, off);
    let h2 = header_at(d2, off);
    let (ks, a) = varint_decode(h.skip(1)).unwrap();
    lemma_varint_dec_len(h.skip(1), 0);
    let (vs, b) = varint_decode(h.skip(1 + a as int)).unwrap();
    lemma_varint_dec_len(h.skip(1 + a as int), 0);
    let ks = ks as int;
    let vs = vs as int;
    let a = a as int;
    let b = b as int;
    let hl = 1 + a + b;
    assert forall|i: int| 0 <= i < end implies data[i] == d2[i] by {
        assert(data.take(end as int)[i] == d2.take(end as int)[i]);
    }
    assert forall|i: int| 0 <= i < hl implies h[i] == h2[i] by {
        assert(h[i] == data[off + i]);
        assert(h2[i] == d2[off + i]);
    }
    assert(h.skip(1).take(a) =~= h2.skip(1).take(a));
    lemma_varint_dec_prefix(h.skip(1), h2.skip(1), 0);
    assert(h.skip(1 + a).take(b) =~= h2.skip(1 + a).take(b));
    lemma_varint_dec_prefix(h.skip(1 + a), h2.skip(1 + a), 0);
    let k0 = off + hl;
    assert(d2.subrange(k0, k0 + ks) =~= data.subrange(k0, k0 + ks));
    assert(d2.subrange(k0 + ks, k0 + ks + vs) =~= data.subrange(k0 + ks, k0 + ks + vs));
    assert(d2.subrange(k0 + ks + vs, k0 + ks + vs + 4) =~= data.subrange(
        k0 + ks + vs,
        k0 + ks + vs + 4,
    ));
}

/// A record is read back only when the checksum stored after it equals the
/// checksum of its type, sizes, key and value.
pub proof fn lemma_read_checks_crc(data: Seq<u8>, off: nat)
    requires
        decode_at(data, off) is Record,
    ensures
        ({
            let rec = decode_at(data, off);
            let end = off + rec->size;
            le32_value(data.subrange(end - 4, end as int)) == crc32_of(
                record_body(rec->record_type, rec->key, rec->value),
            ) as nat
        }),
{
    lemma_decode_bounds(data, off);
    let h = header_at(data, off);
    lemma_varint_dec_len(h.skip(1), 0);
    let a = varint_decode(h.skip(1)).unwrap().1;
    lemma_varint_dec_len(h.skip(1 + a as int), 0);
}

} // verus!
