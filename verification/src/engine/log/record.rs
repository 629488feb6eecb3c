//! Log records: a fixed header, then the key, the value and the metadata.
use vstd::prelude::*;

use crate::bytes;
use crate::codec::{le32, le64, lemma_le32, lemma_le64, u32_at, u64_at};
use crate::codec;
use crate::engine::error::{EngineError, Result};

pub mod flags;

verus! {

/// Fixed header bytes preceding every record.
/// Layout (little-endian):
///   0..8   crc64
///   8..16  tstamp_ms
///   16..17 flags
///   17..25 expires_at_ms
///   25..29 key_size
///   29..33 val_size
///   33..37 meta_size
pub const HEADER_LEN: usize = 37;

#[derive(Debug, Clone, Copy)]
pub struct RecordHeader {
    pub crc: u64,
    pub tstamp_ms: u64,
    pub flags: u8,
    pub expires_at_ms: u64,
    pub key_size: u32,
    pub val_size: u32,
    pub meta_size: u32,
}

/// How many bytes follow the header.
pub open spec fn body_size(h: RecordHeader) -> int {
    h.key_size + h.val_size + h.meta_size
}

impl RecordHeader {
    pub fn body_len(&self) -> (n: usize)
        requires
            body_size(*self) <= usize::MAX,
        ensures
            n == body_size(*self),
    {
        self.key_size as usize + self.val_size as usize + self.meta_size as usize
    }

    pub fn record_len(&self) -> (n: usize)
        requires
            HEADER_LEN + body_size(*self) <= usize::MAX,
        ensures
            n == HEADER_LEN + body_size(*self),
    {
        HEADER_LEN + self.body_len()
    }

    /// The length of the whole record as a file offset, which always has room for it.
    pub fn span(&self) -> (n: u64)
        ensures
            n == HEADER_LEN + body_size(*self),
    {
        HEADER_LEN as u64 + self.key_size as u64 + self.val_size as u64 + self.meta_size as u64
    }
}

/// The CRC-64/NVME checksum.
pub uninterp spec fn crc64(data: Seq<u8>) -> u64;

/// `crc_fast::checksum` with `CrcAlgorithm::Crc64Nvme`: the checksum of `data`.
#[verifier::external_body]
pub(crate) fn checksum(data: &[u8]) -> (r: u64)
    ensures
        r == crc64(data@),
{
    crc_fast::checksum(crc_fast::CrcAlgorithm::Crc64Nvme, data)
}

/// `crc_fast::Digest`, made with `CrcAlgorithm::Crc64Nvme` and updated with two byte strings: the
/// checksum of the one followed by the other.
#[verifier::external_body]
fn checksum_of_two(first: &[u8], second: &[u8]) -> (r: u64)
    ensures
        r == crc64(first@ + second@),
{
    let mut digest = crc_fast::Digest::new(crc_fast::CrcAlgorithm::Crc64Nvme);
    digest.update(first);
    digest.update(second);
    digest.finalize()
}

/// The header fields behind the checksum.
pub open spec fn header_tail(
    tstamp_ms: u64,
    flags: u8,
    expires_at_ms: u64,
    key_size: u32,
    val_size: u32,
    meta_size: u32,
) -> Seq<u8> {
    le64(tstamp_ms) + seq![flags] + le64(expires_at_ms) + le32(key_size) + le32(val_size) + le32(
        meta_size,
    )
}

/// What the checksum of a record covers: everything behind it.
pub open spec fn covered(
    tstamp_ms: u64,
    flags: u8,
    expires_at_ms: u64,
    key: Seq<u8>,
    value: Seq<u8>,
    metadata: Seq<u8>,
) -> Seq<u8> {
    header_tail(
        tstamp_ms,
        flags,
        expires_at_ms,
        key.len() as u32,
        value.len() as u32,
        metadata.len() as u32,
    ) + (key + value + metadata)
}

/// The bytes of a record.
pub open spec fn record_bytes(
    tstamp_ms: u64,
    flags: u8,
    expires_at_ms: u64,
    key: Seq<u8>,
    value: Seq<u8>,
    metadata: Seq<u8>,
) -> Seq<u8> {
    le64(crc64(covered(tstamp_ms, flags, expires_at_ms, key, value, metadata))) + covered(
        tstamp_ms,
        flags,
        expires_at_ms,
        key,
        value,
        metadata,
    )
}

/// The length of a record fits in 32 bits.
pub open spec fn fits(key: Seq<u8>, value: Seq<u8>, metadata: Seq<u8>) -> bool {
    HEADER_LEN + key.len() + value.len() + metadata.len() <= u32::MAX
}

/// The header that the first bytes of `buf` spell.
pub open spec fn header_at(buf: Seq<u8>) -> RecordHeader {
    RecordHeader {
        crc: u64_at(buf, 0),
        tstamp_ms: u64_at(buf, 8),
        flags: buf[16],
        expires_at_ms: u64_at(buf, 17),
        key_size: u32_at(buf, 25),
        val_size: u32_at(buf, 29),
        meta_size: u32_at(buf, 33),
    }
}

/// Reads a record header; does not look at what follows it.
pub fn parse_header(buf: &[u8], offset: u64) -> (r: Result<RecordHeader>)
    ensures
        buf@.len() >= HEADER_LEN ==> r == Ok::<RecordHeader, EngineError>(header_at(buf@)),
        buf@.len() < HEADER_LEN ==> r == Err::<RecordHeader, EngineError>(
            EngineError::BadRecord { offset, reason: "short header" },
        ),
{
    if buf.len() < HEADER_LEN {
        return Err(EngineError::BadRecord { offset, reason: "short header" });
    }
    Ok(
        RecordHeader {
            crc: codec::read_u64(buf, 0),
            tstamp_ms: codec::read_u64(buf, 8),
            flags: buf[16],
            expires_at_ms: codec::read_u64(buf, 17),
            key_size: codec::read_u32(buf, 25),
            val_size: codec::read_u32(buf, 29),
            meta_size: codec::read_u32(buf, 33),
        },
    )
}

/// Checks a header's checksum against the header's other bytes and the body that follows it.
pub fn verify_crc(header: &RecordHeader, header_bytes: &[u8], body: &[u8], offset: u64) -> (r:
    Result<()>)
    requires
        header_bytes@.len() == HEADER_LEN,
    ensures
        crc64(header_bytes@.skip(8) + body@) == header.crc ==> r == Ok::<(), EngineError>(()),
        crc64(header_bytes@.skip(8) + body@) != header.crc ==> r == Err::<(), EngineError>(
            EngineError::CrcMismatch { offset },
        ),
{
    let tail = vstd::slice::slice_subrange(header_bytes, 8, header_bytes.len());
    assert(tail@ =~= header_bytes@.skip(8));
    let actual: u64 = checksum_of_two(tail, body);
    if actual != header.crc {
        return Err(EngineError::CrcMismatch { offset });
    }
    Ok(())
}

/// Appends a record to a buffer. The caller passes the timestamp: no clock is read here.
pub fn encode_into(
    buf: &mut Vec<u8>,
    tstamp_ms: u64,
    flags: u8,
    expires_at_ms: u64,
    key: &[u8],
    value: &[u8],
    metadata: &[u8],
) -> (r: Result<()>)
    ensures
        fits(key@, value@, metadata@) ==> r == Ok::<(), EngineError>(()) && final(buf)@ == old(
            buf,
        )@ + record_bytes(tstamp_ms, flags, expires_at_ms, key@, value@, metadata@),
        !fits(key@, value@, metadata@) ==> final(buf)@ == old(buf)@ && r == Err::<(), EngineError>(
            EngineError::BadRecord { offset: 0, reason: "record exceeds 4 GiB limit" },
        ),
{
    let total: u128 = HEADER_LEN as u128 + key.len() as u128 + value.len() as u128
        + metadata.len() as u128;
    if total > u32::MAX as u128 {
        return Err(EngineError::BadRecord { offset: 0, reason: "record exceeds 4 GiB limit" });
    }
    let mut tail: Vec<u8> = Vec::new();
    codec::put_u64(&mut tail, tstamp_ms);
    tail.push(flags);
    codec::put_u64(&mut tail, expires_at_ms);
    codec::put_u32(&mut tail, key.len() as u32);
    codec::put_u32(&mut tail, value.len() as u32);
    codec::put_u32(&mut tail, metadata.len() as u32);
    assert(tail@ =~= header_tail(
        tstamp_ms,
        flags,
        expires_at_ms,
        key@.len() as u32,
        value@.len() as u32,
        metadata@.len() as u32,
    ));
    bytes::extend(&mut tail, key);
    bytes::extend(&mut tail, value);
    bytes::extend(&mut tail, metadata);
    assert(tail@ =~= covered(tstamp_ms, flags, expires_at_ms, key@, value@, metadata@));
    let crc: u64 = checksum(tail.as_slice());
    codec::put_u64(buf, crc);
    bytes::extend(buf, tail.as_slice());
    assert(buf@ =~= old(buf)@ + record_bytes(
        tstamp_ms,
        flags,
        expires_at_ms,
        key@,
        value@,
        metadata@,
    ));
    Ok(())
}

/// Makes a record in a buffer of its own.
pub fn encode(
    tstamp_ms: u64,
    flags: u8,
    expires_at_ms: u64,
    key: &[u8],
    value: &[u8],
    metadata: &[u8],
) -> (r: Result<Vec<u8>>)
    ensures
        match r {
            Ok(b) => fits(key@, value@, metadata@) && b@ == record_bytes(
                tstamp_ms,
                flags,
                expires_at_ms,
                key@,
                value@,
                metadata@,
            ),
            Err(e) => !fits(key@, value@, metadata@) && e == (EngineError::BadRecord {
                offset: 0,
                reason: "record exceeds 4 GiB limit",
            }),
        },
{
    let mut buf: Vec<u8> = Vec::new();
    match encode_into(&mut buf, tstamp_ms, flags, expires_at_ms, key, value, metadata) {
        Ok(()) => {
            assert(buf@ =~= record_bytes(tstamp_ms, flags, expires_at_ms, key@, value@, metadata@));
            Ok(buf)
        },
        Err(e) => Err(e),
    }
}

/// A record is read back as it was written: its header gives the fields, the checksum holds, and
/// key, value and metadata follow each other behind the header.
pub proof fn lemma_record_round_trip(
    tstamp_ms: u64,
    flags: u8,
    expires_at_ms: u64,
    key: Seq<u8>,
    value: Seq<u8>,
    metadata: Seq<u8>,
)
    requires
        fits(key, value, metadata),
    ensures
        ({
            let b = record_bytes(tstamp_ms, flags, expires_at_ms, key, value, metadata);
            let h = header_at(b);
            &&& b.len() == HEADER_LEN + body_size(h)
            &&& h.tstamp_ms == tstamp_ms
            &&& h.flags == flags
            &&& h.expires_at_ms == expires_at_ms
            &&& h.key_size == key.len()
            &&& h.val_size == value.len()
            &&& h.meta_size == metadata.len()
            &&& h.crc == crc64(b.skip(8))
            &&& b.skip(HEADER_LEN as int) == key + value + metadata
        }),
{
    let ks = key.len() as u32;
    let vs = value.len() as u32;
    let ms = metadata.len() as u32;
    let c = crc64(covered(tstamp_ms, flags, expires_at_ms, key, value, metadata));
    let b = record_bytes(tstamp_ms, flags, expires_at_ms, key, value, metadata);
    lemma_le64(c);
    lemma_le64(tstamp_ms);
    lemma_le64(expires_at_ms);
    lemma_le32(ks);
    lemma_le32(vs);
    lemma_le32(ms);
    assert(b.subrange(0, 8) =~= le64(c));
    assert(b.subrange(8, 16) =~= le64(tstamp_ms));
    assert(b.subrange(17, 25) =~= le64(expires_at_ms));
    assert(b.subrange(25, 29) =~= le32(ks));
    assert(b.subrange(29, 33) =~= le32(vs));
    assert(b.subrange(33, 37) =~= le32(ms));
    assert(b.skip(8) =~= covered(tstamp_ms, flags, expires_at_ms, key, value, metadata));
    assert(b.skip(37) =~= key + value + metadata);
}

} // verus!
