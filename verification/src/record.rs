//! Checksummed records of the write-ahead log.
//!
//! A record on disk is laid out big-endian as
//! `len (u32) | type (u16) | version (u16) | seq (u64) | data | crc32 (u32)`,
//! where `len` counts every byte of the record, the trailing checksum
//! included, and the checksum covers every byte before it.
use vstd::prelude::*;
use vstd::slice::slice_subrange;

verus! {

/// Bytes before the payload: `len`, `type`, `version` and `seq`.
pub const HEADER_LEN: usize = 16;

/// Bytes after the payload: the CRC-32.
pub const TRAILER_LEN: usize = 4;

/// Schema versions of a record.
pub enum RecordVersion {
    Version1,
}

impl RecordVersion {
    pub open spec fn spec_code(&self) -> u16 {
        match self {
            RecordVersion::Version1 => 1,
        }
    }

    /// The number that stands for this version in a record's `version` field.
    pub fn code(&self) -> (c: u16)
        ensures
            c == self.spec_code(),
    {
        match self {
            RecordVersion::Version1 => 1,
        }
    }
}

/// Kinds of record.
pub enum RecordType {
    /// A store operation.
    DataOp,
    /// A no-op barrier that forces a sync point.
    NoopFence,
}

impl RecordType {
    pub open spec fn spec_code(&self) -> u16 {
        match self {
            RecordType::DataOp => 1,
            RecordType::NoopFence => 2,
        }
    }

    /// The number that stands for this kind in a record's `type` field.
    pub fn code(&self) -> (c: u16)
        ensures
            c == self.spec_code(),
    {
        match self {
            RecordType::DataOp => 1,
            RecordType::NoopFence => 2,
        }
    }
}

/// Why bytes could not be read back as a record.
#[derive(Debug, PartialEq, Eq)]
pub enum RecordError {
    /// The stored checksum does not match the bytes it covers.
    HashMismatch,
    /// The bytes end before the record does (a torn write).
    Truncated,
    /// The length field is smaller than a record with an empty payload.
    InvalidLength,
}

/// A record of the write-ahead log.
#[derive(Debug, PartialEq, Eq)]
pub struct Record {
    pub len: u32,
    pub _type: u16,
    pub version: u16,
    pub seq: u64,
    pub data: Vec<u8>,
}

/// The abstract content of a record.
pub struct RecordView {
    pub len: u32,
    pub record_type: u16,
    pub version: u16,
    pub seq: u64,
    pub data: Seq<u8>,
}

impl View for Record {
    type V = RecordView;

    open spec fn view(&self) -> RecordView {
        RecordView {
            len: self.len,
            record_type: self._type,
            version: self.version,
            seq: self.seq,
            data: self.data@,
        }
    }
}

/// One bit step of the reflected CRC-32 (IEEE 802.3) register: shift right,
/// and where a one bit falls out, add the reflected generator polynomial.
pub open spec fn crc32_bit(c: u32) -> u32 {
    if c & 1u32 == 1u32 {
        (c >> 1u32) ^ 0xEDB8_8320u32
    } else {
        c >> 1u32
    }
}

/// The CRC-32 register after taking in one more byte.
pub open spec fn crc32_byte(c: u32, b: u8) -> u32 {
    let x = c ^ (b as u32);
    crc32_bit(crc32_bit(crc32_bit(crc32_bit(crc32_bit(crc32_bit(crc32_bit(crc32_bit(x))))))))
}

/// The CRC-32 register after taking in `bytes`, starting from all ones.
pub open spec fn crc32_register(bytes: Seq<u8>) -> u32
    decreases bytes.len(),
{
    if bytes.len() == 0 {
        0xFFFF_FFFFu32
    } else {
        crc32_byte(crc32_register(bytes.drop_last()), bytes.last())
    }
}

/// The CRC-32 (IEEE) checksum of a byte sequence: the final register,
/// inverted.
pub open spec fn crc32(bytes: Seq<u8>) -> u32 {
    crc32_register(bytes) ^ 0xFFFF_FFFFu32
}

/// Calls `crc32fast::hash`, which computes the CRC-32 (IEEE) checksum of the
/// bytes passed; the contract says the result is that checksum.
#[verifier::external_body]
fn crc32_of(bytes: &[u8]) -> (sum: u32)
    ensures
        sum == crc32(bytes@),
{
    crc32fast::hash(bytes)
}

pub open spec fn be_u16(x: u16) -> Seq<u8> {
    seq![(x >> 8u16) as u8, x as u8]
}

pub open spec fn be_u32(x: u32) -> Seq<u8> {
    seq![(x >> 24u32) as u8, (x >> 16u32) as u8, (x >> 8u32) as u8, x as u8]
}

pub open spec fn be_u64(x: u64) -> Seq<u8> {
    seq![
        (x >> 56u64) as u8,
        (x >> 48u64) as u8,
        (x >> 40u64) as u8,
        (x >> 32u64) as u8,
        (x >> 24u64) as u8,
        (x >> 16u64) as u8,
        (x >> 8u64) as u8,
        x as u8,
    ]
}

pub open spec fn u16_of(b0: u8, b1: u8) -> u16 {
    ((b0 as u16) << 8u16) | (b1 as u16)
}

pub open spec fn u32_of(b0: u8, b1: u8, b2: u8, b3: u8) -> u32 {
    ((b0 as u32) << 24u32) | ((b1 as u32) << 16u32) | ((b2 as u32) << 8u32) | (b3 as u32)
}

pub open spec fn u64_of(b0: u8, b1: u8, b2: u8, b3: u8, b4: u8, b5: u8, b6: u8, b7: u8) -> u64 {
    ((b0 as u64) << 56u64) | ((b1 as u64) << 48u64) | ((b2 as u64) << 40u64) | ((b3 as u64)
        << 32u64) | ((b4 as u64) << 24u64) | ((b5 as u64) << 16u64) | ((b6 as u64) << 8u64) | (
    b7 as u64)
}

/// The big-endian `u16` at offset `i` of `s`.
pub open spec fn be16_at(s: Seq<u8>, i: int) -> u16 {
    u16_of(s[i], s[i + 1])
}

/// The big-endian `u32` at offset `i` of `s`.
pub open spec fn be32_at(s: Seq<u8>, i: int) -> u32 {
    u32_of(s[i], s[i + 1], s[i + 2], s[i + 3])
}

/// The big-endian `u64` at offset `i` of `s`.
pub open spec fn be64_at(s: Seq<u8>, i: int) -> u64 {
    u64_of(s[i], s[i + 1], s[i + 2], s[i + 3], s[i + 4], s[i + 5], s[i + 6], s[i + 7])
}

impl RecordView {
    /// The length field agrees with the payload.
    pub open spec fn wf(self) -> bool {
        self.len == self.data.len() + HEADER_LEN + TRAILER_LEN
    }

    /// The header: `len`, `type`, `version`, `seq`.
    pub open spec fn header_bytes(self) -> Seq<u8> {
        be_u32(self.len) + be_u16(self.record_type) + be_u16(self.version) + be_u64(self.seq)
    }

    /// The bytes the checksum covers: header and payload.
    pub open spec fn checked_bytes(self) -> Seq<u8> {
        self.header_bytes() + self.data
    }

    /// The record as written to the log.
    pub open spec fn encoding(self) -> Seq<u8> {
        self.checked_bytes() + be_u32(crc32(self.checked_bytes()))
    }
}

/// The bytes from `pos` on, or none where `pos` lies past the end.
pub open spec fn rest_from(bytes: Seq<u8>, pos: int) -> Seq<u8> {
    if 0 <= pos <= bytes.len() {
        bytes.skip(pos)
    } else {
        Seq::empty()
    }
}

/// The total length a record declares in its first four bytes, where that
/// length is plausible.
pub open spec fn spec_declared_len(bytes: Seq<u8>) -> Result<nat, RecordError> {
    if bytes.len() < 4 {
        Err(RecordError::Truncated)
    } else if be32_at(bytes, 0) < HEADER_LEN + TRAILER_LEN {
        Err(RecordError::InvalidLength)
    } else {
        Ok(be32_at(bytes, 0) as nat)
    }
}

/// Reading one record from the start of `bytes`: the record and the number
/// of bytes it takes, or why there is none.
#[verifier::opaque]
pub open spec fn spec_read(bytes: Seq<u8>) -> Result<(RecordView, nat), RecordError> {
    match spec_declared_len(bytes) {
        Err(e) => Err(e),
        Ok(len) => {
            if bytes.len() < len {
                Err(RecordError::Truncated)
            } else {
                let end = len - TRAILER_LEN;
                let r = RecordView {
                    len: len as u32,
                    record_type: be16_at(bytes, 4),
                    version: be16_at(bytes, 6),
                    seq: be64_at(bytes, 8),
                    data: bytes.subrange(HEADER_LEN as int, end),
                };
                if be32_at(bytes, end) == crc32(bytes.subrange(0, end)) {
                    Ok((r, len))
                } else {
                    Err(RecordError::HashMismatch)
                }
            }
        },
    }
}

fn push_be_u16(out: &mut Vec<u8>, x: u16)
    ensures
        final(out)@ == old(out)@ + be_u16(x),
{
    out.push((x >> 8u16) as u8);
    out.push(x as u8);
    assert(final(out)@ =~= old(out)@ + be_u16(x));
}

fn push_be_u32(out: &mut Vec<u8>, x: u32)
    ensures
        final(out)@ == old(out)@ + be_u32(x),
{
    out.push((x >> 24u32) as u8);
    out.push((x >> 16u32) as u8);
    out.push((x >> 8u32) as u8);
    out.push(x as u8);
    assert(final(out)@ =~= old(out)@ + be_u32(x));
}

fn push_be_u64(out: &mut Vec<u8>, x: u64)
    ensures
        final(out)@ == old(out)@ + be_u64(x),
{
    out.push((x >> 56u64) as u8);
    out.push((x >> 48u64) as u8);
    out.push((x >> 40u64) as u8);
    out.push((x >> 32u64) as u8);
    out.push((x >> 24u64) as u8);
    out.push((x >> 16u64) as u8);
    out.push((x >> 8u64) as u8);
    out.push(x as u8);
    assert(final(out)@ =~= old(out)@ + be_u64(x));
}

fn push_all(out: &mut Vec<u8>, bytes: &[u8])
    ensures
        final(out)@ == old(out)@ + bytes@,
{
    let mut i: usize = 0;
    while i < bytes.len()
        invariant
            i <= bytes@.len(),
            out@ == old(out)@ + bytes@.subrange(0, i as int),
        decreases bytes@.len() - i,
    {
        out.push(bytes[i]);
        i = i + 1;
        assert(out@ =~= old(out)@ + bytes@.subrange(0, i as int));
    }
    assert(bytes@.subrange(0, bytes@.len() as int) =~= bytes@);
}

fn read_be16(bytes: &[u8], i: usize) -> (x: u16)
    requires
        i + 2 <= bytes@.len(),
    ensures
        x == be16_at(bytes@, i as int),
{
    ((bytes[i] as u16) << 8u16) | (bytes[i + 1] as u16)
}

fn read_be32(bytes: &[u8], i: usize) -> (x: u32)
    requires
        i + 4 <= bytes@.len(),
    ensures
        x == be32_at(bytes@, i as int),
{
    ((bytes[i] as u32) << 24u32) | ((bytes[i + 1] as u32) << 16u32) | ((bytes[i + 2] as u32)
        << 8u32) | (bytes[i + 3] as u32)
}

fn read_be64(bytes: &[u8], i: usize) -> (x: u64)
    requires
        i + 8 <= bytes@.len(),
    ensures
        x == be64_at(bytes@, i as int),
{
    ((bytes[i] as u64) << 56u64) | ((bytes[i + 1] as u64) << 48u64) | ((bytes[i + 2] as u64)
        << 40u64) | ((bytes[i + 3] as u64) << 32u64) | ((bytes[i + 4] as u64) << 24u64) | ((bytes[i
        + 5] as u64) << 16u64) | ((bytes[i + 6] as u64) << 8u64) | (bytes[i + 7] as u64)
}

impl Record {
    /// A data-operation record of schema version 1 carrying `data`.
    pub fn init_v1_op(seq: u64, data: Vec<u8>) -> (r: Record)
        requires
            data@.len() + HEADER_LEN + TRAILER_LEN <= u32::MAX,
        ensures
            r@ == (RecordView {
                len: (data@.len() + HEADER_LEN + TRAILER_LEN) as u32,
                record_type: RecordType::DataOp.spec_code(),
                version: RecordVersion::Version1.spec_code(),
                seq,
                data: data@,
            }),
            r@.wf(),
    {
        let len = data.len() + HEADER_LEN + TRAILER_LEN;
        Record {
            version: RecordVersion::Version1.code(),
            len: len as u32,
            _type: RecordType::DataOp.code(),
            seq,
            data,
        }
    }

    /// The header and payload, the bytes that the checksum covers.
    fn checked_bytes(&self) -> (out: Vec<u8>)
        ensures
            out@ == self@.checked_bytes(),
    {
        let mut out: Vec<u8> = Vec::new();
        push_be_u32(&mut out, self.len);
        push_be_u16(&mut out, self._type);
        push_be_u16(&mut out, self.version);
        push_be_u64(&mut out, self.seq);
        push_all(&mut out, self.data.as_slice());
        assert(out@ =~= self@.checked_bytes());
        out
    }

    /// The CRC-32 of the header and payload.
    pub fn crc(&self) -> (sum: u32)
        ensures
            sum == crc32(self@.checked_bytes()),
    {
        let bytes = self.checked_bytes();
        crc32_of(bytes.as_slice())
    }

    /// Appends the record, checksum last, to `writer`.
    pub fn write_to(&self, writer: &mut Vec<u8>)
        ensures
            final(writer)@ == old(writer)@ + self@.encoding(),
    {
        let bytes = self.checked_bytes();
        let sum = crc32_of(bytes.as_slice());
        push_all(writer, bytes.as_slice());
        push_be_u32(writer, sum);
        assert(final(writer)@ =~= old(writer)@ + self@.encoding());
    }

    /// Whether the record carries a store operation (rather than a no-op
    /// fence).
    pub fn is_data_op(&self) -> (b: bool)
        ensures
            b == (self._type == RecordType::DataOp.spec_code()),
    {
        self._type == RecordType::DataOp.code()
    }

    /// The total length that the record starting at `prefix` declares,
    /// once its first four bytes are there; an error where they are not,
    /// or where the length is too small for a record.
    pub fn declared_len(prefix: &[u8]) -> (r: Result<usize, RecordError>)
        ensures
            match spec_declared_len(prefix@) {
                Ok(n) => r == Ok::<usize, RecordError>(n as usize),
                Err(e) => r == Err::<usize, RecordError>(e),
            },
    {
        if prefix.len() < 4 {
            return Err(RecordError::Truncated);
        }
        let len = read_be32(prefix, 0);
        if len < (HEADER_LEN + TRAILER_LEN) as u32 {
            Err(RecordError::InvalidLength)
        } else {
            Ok(len as usize)
        }
    }

    /// Reads the record that starts at offset `*pos` of `bytes`. On success
    /// `*pos` moves past it; on an error it stays.
    pub fn read_from(bytes: &[u8], pos: &mut usize) -> (r: Result<Record, RecordError>)
        ensures
            match spec_read(rest_from(bytes@, *old(pos) as int)) {
                Ok((rv, n)) => {
                    &&& r matches Ok(rec) && rec@ == rv
                    &&& *final(pos) == *old(pos) + n
                },
                Err(e) => {
                    &&& r == Err::<Record, RecordError>(e)
                    &&& *final(pos) == *old(pos)
                },
            },
    {
        proof {
            reveal(spec_read);
        }
        let start = *pos;
        let rest: &[u8] = if start <= bytes.len() {
            slice_subrange(bytes, start, bytes.len())
        } else {
            slice_subrange(bytes, 0, 0)
        };
        assert(rest@ =~= rest_from(bytes@, start as int));
        let len = match Record::declared_len(rest) {
            Ok(n) => n,
            Err(e) => {
                return Err(e);
            },
        };
        if rest.len() < len {
            return Err(RecordError::Truncated);
        }
        let end = len - TRAILER_LEN;
        let _type = read_be16(rest, 4);
        let version = read_be16(rest, 6);
        let seq = read_be64(rest, 8);
        let mut data: Vec<u8> = Vec::new();
        push_all(&mut data, slice_subrange(rest, HEADER_LEN, end));
        let actual_crc = read_be32(rest, end);
        let record = Record { len: len as u32, _type, version, seq, data };
        let expected = record.crc();
        proof {
            lemma_checked_bytes_of_parsed(rest@, len as int);
        }
        if actual_crc == expected {
            *pos = start + len;
            Ok(record)
        } else {
            Err(RecordError::HashMismatch)
        }
    }
}

proof fn lemma_be16_roundtrip(b0: u8, b1: u8)
    ensures
        be_u16(u16_of(b0, b1)) == seq![b0, b1],
{
    let x = u16_of(b0, b1);
    assert((x >> 8u16) as u8 == b0 && x as u8 == b1) by (bit_vector)
        requires
            x == ((b0 as u16) << 8u16) | (b1 as u16),
    ;
    assert(be_u16(x) =~= seq![b0, b1]);
}

proof fn lemma_be32_roundtrip(b0: u8, b1: u8, b2: u8, b3: u8)
    ensures
        be_u32(u32_of(b0, b1, b2, b3)) == seq![b0, b1, b2, b3],
{
    let x = u32_of(b0, b1, b2, b3);
    assert((x >> 24u32) as u8 == b0 && (x >> 16u32) as u8 == b1 && (x >> 8u32) as u8 == b2
        && x as u8 == b3) by (bit_vector)
        requires
            x == ((b0 as u32) << 24u32) | ((b1 as u32) << 16u32) | ((b2 as u32) << 8u32) | (
            b3 as u32),
    ;
    assert(be_u32(x) =~= seq![b0, b1, b2, b3]);
}

proof fn lemma_be64_roundtrip(b0: u8, b1: u8, b2: u8, b3: u8, b4: u8, b5: u8, b6: u8, b7: u8)
    ensures
        be_u64(u64_of(b0, b1, b2, b3, b4, b5, b6, b7)) == seq![b0, b1, b2, b3, b4, b5, b6, b7],
{
    let x = u64_of(b0, b1, b2, b3, b4, b5, b6, b7);
    assert((x >> 56u64) as u8 == b0 && (x >> 48u64) as u8 == b1 && (x >> 40u64) as u8 == b2
        && (x >> 32u64) as u8 == b3 && (x >> 24u64) as u8 == b4 && (x >> 16u64) as u8 == b5 && (x
        >> 8u64) as u8 == b6 && x as u8 == b7) by (bit_vector)
        requires
            x == ((b0 as u64) << 56u64) | ((b1 as u64) << 48u64) | ((b2 as u64) << 40u64) | ((
            b3 as u64) << 32u64) | ((b4 as u64) << 24u64) | ((b5 as u64) << 16u64) | ((b6 as u64)
                << 8u64) | (b7 as u64),
    ;
    assert(be_u64(x) =~= seq![b0, b1, b2, b3, b4, b5, b6, b7]);
}

proof fn lemma_u16_roundtrip(x: u16)
    ensures
        u16_of(be_u16(x)[0], be_u16(x)[1]) == x,
{
    assert(u16_of((x >> 8u16) as u8, x as u8) == x) by (bit_vector);
}

proof fn lemma_u32_roundtrip(x: u32)
    ensures
        u32_of(be_u32(x)[0], be_u32(x)[1], be_u32(x)[2], be_u32(x)[3]) == x,
{
    assert(u32_of((x >> 24u32) as u8, (x >> 16u32) as u8, (x >> 8u32) as u8, x as u8) == x)
        by (bit_vector);
}

proof fn lemma_u64_roundtrip(x: u64)
    ensures
        u64_of(
            be_u64(x)[0],
            be_u64(x)[1],
            be_u64(x)[2],
            be_u64(x)[3],
            be_u64(x)[4],
            be_u64(x)[5],
            be_u64(x)[6],
            be_u64(x)[7],
        ) == x,
{
    assert(u64_of(
        (x >> 56u64) as u8,
        (x >> 48u64) as u8,
        (x >> 40u64) as u8,
        (x >> 32u64) as u8,
        (x >> 24u64) as u8,
        (x >> 16u64) as u8,
        (x >> 8u64) as u8,
        x as u8,
    ) == x) by (bit_vector);
}

/// Re-encoding the header fields read from `bytes` gives back the bytes
/// they were read from.
proof fn lemma_checked_bytes_of_parsed(bytes: Seq<u8>, len: int)
    requires
        HEADER_LEN + TRAILER_LEN <= len <= bytes.len(),
        len <= u32::MAX,
        be32_at(bytes, 0) == len,
    ensures
        (RecordView {
            len: len as u32,
            record_type: be16_at(bytes, 4),
            version: be16_at(bytes, 6),
            seq: be64_at(bytes, 8),
            data: bytes.subrange(HEADER_LEN as int, len - TRAILER_LEN),
        }).checked_bytes() == bytes.subrange(0, len - TRAILER_LEN),
{
    lemma_be32_roundtrip(bytes[0], bytes[1], bytes[2], bytes[3]);
    lemma_be16_roundtrip(bytes[4], bytes[5]);
    lemma_be16_roundtrip(bytes[6], bytes[7]);
    lemma_be64_roundtrip(
        bytes[8],
        bytes[9],
        bytes[10],
        bytes[11],
        bytes[12],
        bytes[13],
        bytes[14],
        bytes[15],
    );
    let r = RecordView {
        len: len as u32,
        record_type: be16_at(bytes, 4),
        version: be16_at(bytes, 6),
        seq: be64_at(bytes, 8),
        data: bytes.subrange(HEADER_LEN as int, len - TRAILER_LEN),
    };
    assert(r.checked_bytes() =~= bytes.subrange(0, len - TRAILER_LEN));
}

/// A well-formed record written to the log reads back as itself, taking
/// exactly the bytes that were written, whatever follows it.
pub proof fn lemma_read_after_write(r: RecordView, rest: Seq<u8>)
    requires
        r.wf(),
    ensures
        r.encoding().len() == r.len,
        spec_read(r.encoding() + rest) == Ok::<(RecordView, nat), RecordError>((r, r.len as nat)),
{
    reveal(spec_read);
    let enc = r.encoding();
    let s = enc + rest;
    let len = r.len as int;
    let end = len - TRAILER_LEN;
    assert(enc.len() == len);
    lemma_u32_roundtrip(r.len);
    lemma_u16_roundtrip(r.record_type);
    lemma_u16_roundtrip(r.version);
    lemma_u64_roundtrip(r.seq);
    let sum = crc32(r.checked_bytes());
    lemma_u32_roundtrip(sum);
    assert(s[0] == be_u32(r.len)[0] && s[1] == be_u32(r.len)[1] && s[2] == be_u32(r.len)[2] && s[3]
        == be_u32(r.len)[3]);
    assert(be32_at(s, 0) == r.len);
    assert(s[4] == be_u16(r.record_type)[0] && s[5] == be_u16(r.record_type)[1]);
    assert(s[6] == be_u16(r.version)[0] && s[7] == be_u16(r.version)[1]);
    assert(forall|i: int| 0 <= i < 8 ==> s[8 + i] == #[trigger] be_u64(r.seq)[i]);
    assert(be64_at(s, 8) == r.seq);
    assert(s.subrange(HEADER_LEN as int, end) =~= r.data);
    assert(s.subrange(0, end) =~= r.checked_bytes());
    assert(forall|i: int| 0 <= i < 4 ==> s[end + i] == #[trigger] be_u32(sum)[i]);
    assert(be32_at(s, end) == sum);
}

/// A record read from the start of `bytes` is well formed, and its
/// encoding is exactly the bytes the read took.
pub proof fn lemma_read_yields_encoding(bytes: Seq<u8>)
    requires
        spec_read(bytes) is Ok,
    ensures
        ({
            let (r, n) = spec_read(bytes)->Ok_0;
            &&& r.wf()
            &&& r.len == n
            &&& HEADER_LEN + TRAILER_LEN <= n <= bytes.len()
            &&& bytes.take(n as int) == r.encoding()
        }),
{
    reveal(spec_read);
    let (r, n) = spec_read(bytes)->Ok_0;
    let len = n as int;
    let end = len - TRAILER_LEN;
    lemma_checked_bytes_of_parsed(bytes, len);
    lemma_be32_roundtrip(bytes[end], bytes[end + 1], bytes[end + 2], bytes[end + 3]);
    assert(be32_at(bytes, end) == crc32(bytes.subrange(0, end)));
    assert(bytes.take(len) =~= bytes.subrange(0, end) + seq![bytes[end], bytes[end + 1], bytes[end + 2], bytes[end + 3]]);
    assert(bytes.take(len) =~= r.encoding());
}

proof fn lemma_crc32_bit_injective(x: u32, y: u32)
    requires
        x != y,
    ensures
        crc32_bit(x) != crc32_bit(y),
{
    assert(x != y ==> crc32_bit(x) != crc32_bit(y)) by (bit_vector);
}

proof fn lemma_crc32_byte_injective(c: u32, d: u32, b: u8, e: u8)
    requires
        c != d || b != e,
        c == d || b == e,
    ensures
        crc32_byte(c, b) != crc32_byte(d, e),
{
    let x = c ^ (b as u32);
    let y = d ^ (e as u32);
    assert((c != d || b != e) && (c == d || b == e) ==> c ^ (b as u32) != d ^ (e as u32))
        by (bit_vector);
    lemma_crc32_bit_injective(x, y);
    lemma_crc32_bit_injective(crc32_bit(x), crc32_bit(y));
    let x2 = crc32_bit(crc32_bit(x));
    let y2 = crc32_bit(crc32_bit(y));
    lemma_crc32_bit_injective(x2, y2);
    lemma_crc32_bit_injective(crc32_bit(x2), crc32_bit(y2));
    let x4 = crc32_bit(crc32_bit(x2));
    let y4 = crc32_bit(crc32_bit(y2));
    lemma_crc32_bit_injective(x4, y4);
    lemma_crc32_bit_injective(crc32_bit(x4), crc32_bit(y4));
    let x6 = crc32_bit(crc32_bit(x4));
    let y6 = crc32_bit(crc32_bit(y4));
    lemma_crc32_bit_injective(x6, y6);
    lemma_crc32_bit_injective(crc32_bit(x6), crc32_bit(y6));
}

/// Two byte sequences of the same length that differ in exactly one byte
/// have different CRC-32 checksums.
pub proof fn lemma_crc32_detects_single_byte_change(s: Seq<u8>, i: int, x: u8)
    requires
        0 <= i < s.len(),
        x != s[i],
    ensures
        crc32(s.update(i, x)) != crc32(s),
    decreases s.len(),
{
    lemma_register_differs(s, i, x);
    let a = crc32_register(s.update(i, x));
    let b = crc32_register(s);
    assert(a != b ==> a ^ 0xFFFF_FFFFu32 != b ^ 0xFFFF_FFFFu32) by (bit_vector);
}

proof fn lemma_register_differs(s: Seq<u8>, i: int, x: u8)
    requires
        0 <= i < s.len(),
        x != s[i],
    ensures
        crc32_register(s.update(i, x)) != crc32_register(s),
    decreases s.len(),
{
    let t = s.update(i, x);
    let n = s.len() - 1;
    if i == n {
        assert(t.drop_last() =~= s.drop_last());
        lemma_crc32_byte_injective(
            crc32_register(t.drop_last()),
            crc32_register(s.drop_last()),
            t.last(),
            s.last(),
        );
    } else {
        lemma_register_differs(s.drop_last(), i, x);
        assert(t.drop_last() =~= s.drop_last().update(i, x));
        lemma_crc32_byte_injective(
            crc32_register(t.drop_last()),
            crc32_register(s.drop_last()),
            t.last(),
            s.last(),
        );
    }
}

/// Changing any one byte of a written record after its length field, to
/// any other value, makes the record fail its checksum.
pub proof fn lemma_single_byte_change_detected(r: RecordView, i: int, x: u8)
    requires
        r.wf(),
        4 <= i < r.len,
        x != r.encoding()[i],
    ensures
        spec_read(r.encoding().update(i, x)) == Err::<(RecordView, nat), RecordError>(
            RecordError::HashMismatch,
        ),
{
    reveal(spec_read);
    let e = r.encoding();
    let e2 = e.update(i, x);
    let len = r.len as int;
    let end = len - TRAILER_LEN;
    lemma_read_after_write(r, Seq::empty());
    assert(e + Seq::<u8>::empty() =~= e);
    assert(e.len() == len);
    assert(be32_at(e2, 0) == be32_at(e, 0));
    assert(be32_at(e, end) == crc32(e.subrange(0, end)));
    if i < end {
        assert(e2.subrange(0, end) =~= e.subrange(0, end).update(i, x));
        lemma_crc32_detects_single_byte_change(e.subrange(0, end), i, x);
        assert(be32_at(e2, end) == be32_at(e, end));
    } else {
        assert(e2.subrange(0, end) =~= e.subrange(0, end));
        let (a0, a1, a2, a3) = (e[end], e[end + 1], e[end + 2], e[end + 3]);
        let (b0, b1, b2, b3) = (e2[end], e2[end + 1], e2[end + 2], e2[end + 3]);
        assert(a0 != b0 || a1 != b1 || a2 != b2 || a3 != b3);
        assert((a0 != b0 || a1 != b1 || a2 != b2 || a3 != b3) ==> u32_of(a0, a1, a2, a3) != u32_of(
            b0,
            b1,
            b2,
            b3,
        )) by (bit_vector);
    }
}

/// Any prefix of a written record that holds its length field declares the
/// record's whole length, however much of the rest has been read.
pub proof fn lemma_declared_len_of_prefix(r: RecordView, k: int)
    requires
        r.wf(),
        4 <= k <= r.len,
    ensures
        spec_declared_len(r.encoding().take(k)) == Ok::<nat, RecordError>(r.len as nat),
        spec_declared_len(r.encoding().take(k)) == spec_declared_len(r.encoding()),
{
    let e = r.encoding();
    lemma_u32_roundtrip(r.len);
    assert(e.take(k)[0] == be_u32(r.len)[0] && e.take(k)[1] == be_u32(r.len)[1]
        && e.take(k)[2] == be_u32(r.len)[2] && e.take(k)[3] == be_u32(r.len)[3]);
    assert(e[0] == be_u32(r.len)[0] && e[1] == be_u32(r.len)[1] && e[2] == be_u32(r.len)[2]
        && e[3] == be_u32(r.len)[3]);
}

/// A record cut short anywhere, as a torn write leaves it, is never read
/// back: the read reports the bytes missing.
pub proof fn lemma_torn_write_detected(r: RecordView, kept: int)
    requires
        r.wf(),
        0 <= kept < r.len,
    ensures
        spec_read(r.encoding().take(kept)) == Err::<(RecordView, nat), RecordError>(
            RecordError::Truncated,
        ),
{
    reveal(spec_read);
    let s = r.encoding().take(kept);
    if kept >= 4 {
        lemma_u32_roundtrip(r.len);
        assert(be32_at(s, 0) == r.len);
    }
}

} // verus!
