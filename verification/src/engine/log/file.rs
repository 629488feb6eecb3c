//! Log files: their names, the space in them, and the footer of a sealed one.
use vstd::prelude::*;
use vstd::string::StringExecFns;
use vstd::utf8::{encode_utf8, is_ascii_chars};

use crate::bytes;
use crate::bytes::{before, lemma_before_irreflexive, lemma_before_transitive};
use crate::codec::{le32, le64, lemma_le32, lemma_le64, u32_at, u64_at};
use crate::codec;
use crate::decimal;
use crate::engine::error::{EngineError, Result};
use crate::engine::log::record::{checksum, crc64};
use crate::text::{digit_char, fixed, lemma_fixed_len, pow10, push_fixed};

verus! {

/// Magic at the very end of every sealed file. Lets recovery distinguish
/// "sealed cleanly" from "active or crashed mid-seal" without scanning.
pub const FOOTER_MAGIC: u64 = 0x4259_4F4E_445F_4B58;

/// Footer trailer size: footer_body_len (8) + footer_crc (8) + magic (8).
pub const FOOTER_TRAILER_LEN: u64 = 24;

/// One footer entry per live key when the file was sealed.
///
/// Wire layout (little-endian):
///   [key_size: u32][record_offset: u64][record_size: u32]
///   [expires_at_ms: u64 (0 if absent)][has_expiry: u8][tstamp_ms: u64]
///   [has_valsep: u8][value_hash: 16 bytes (only if has_valsep)]
///   [key bytes]
#[derive(Debug)]
pub struct FooterEntry {
    pub key: Vec<u8>,
    pub record_offset: u64,
    pub record_size: u32,
    pub expires_at_ms: Option<u64>,
    pub tstamp_ms: u64,
    /// Content hash if this key's value is value-separated (lives in the blob
    /// store). Carried in the footer so recovery rebuilds the value-sep sidecar
    /// and blob refcounts without reading record bodies.
    pub value_hash: Option<[u8; 16]>,
}

/// What a `FooterEntry` says.
#[verifier::ext_equal]
pub struct FooterEntryView {
    pub key: Seq<u8>,
    pub record_offset: u64,
    pub record_size: u32,
    pub expires_at_ms: Option<u64>,
    pub tstamp_ms: u64,
    pub value_hash: Option<Seq<u8>>,
}

/// The bytes of an optional content hash.
pub open spec fn hash_view(h: Option<[u8; 16]>) -> Option<Seq<u8>> {
    match h {
        Some(h) => Some(h@),
        None => None,
    }
}

impl View for FooterEntry {
    type V = FooterEntryView;

    open spec fn view(&self) -> FooterEntryView {
        FooterEntryView {
            key: self.key@,
            record_offset: self.record_offset,
            record_size: self.record_size,
            expires_at_ms: self.expires_at_ms,
            tstamp_ms: self.tstamp_ms,
            value_hash: hash_view(self.value_hash),
        }
    }
}

/// The entries of a footer, each by what it says.
pub open spec fn entry_views(v: Seq<FooterEntry>) -> Seq<FooterEntryView> {
    v.map_values(|e: FooterEntry| e@)
}

/// The fields before the content hash.
pub open spec fn entry_prefix(e: FooterEntryView) -> Seq<u8> {
    le32(e.key.len() as u32) + le64(e.record_offset) + le32(e.record_size) + le64(
        match e.expires_at_ms {
            Some(ms) => ms,
            None => 0,
        },
    ) + seq![
        if e.expires_at_ms is Some {
            1u8
        } else {
            0u8
        },
    ] + le64(e.tstamp_ms) + seq![
        if e.value_hash is Some {
            1u8
        } else {
            0u8
        },
    ]
}

/// The bytes of a footer entry.
pub open spec fn entry_bytes(e: FooterEntryView) -> Seq<u8> {
    entry_prefix(e) + match e.value_hash {
        Some(h) => h,
        None => seq![],
    } + e.key
}

/// The entry that `buf` begins with and how many bytes it takes; `None` where `buf` is too short
/// for the entry that its first bytes announce.
pub open spec fn entry_at(buf: Seq<u8>) -> Option<(FooterEntryView, int)> {
    if buf.len() < 34 {
        None
    } else {
        let hash_len: int = if buf[33] != 0 {
            16
        } else {
            0
        };
        let total = 34 + hash_len + u32_at(buf, 0);
        if buf.len() < total {
            None
        } else {
            Some(
                (
                    FooterEntryView {
                        key: buf.subrange(34 + hash_len, total),
                        record_offset: u64_at(buf, 4),
                        record_size: u32_at(buf, 12),
                        expires_at_ms: if buf[24] != 0 {
                            Some(u64_at(buf, 16))
                        } else {
                            None
                        },
                        tstamp_ms: u64_at(buf, 25),
                        value_hash: if buf[33] != 0 {
                            Some(buf.subrange(34, 50))
                        } else {
                            None
                        },
                    },
                    total,
                ),
            )
        }
    }
}

/// An entry that its bytes can carry: the key's length fits in 32 bits, a hash has 16 bytes.
pub open spec fn entry_fits(e: FooterEntryView) -> bool {
    e.key.len() <= u32::MAX && (e.value_hash matches Some(h) ==> h.len() == 16)
}

/// An entry is read back as it was written, whatever follows it.
pub proof fn lemma_entry_round_trip(e: FooterEntryView, rest: Seq<u8>)
    requires
        entry_fits(e),
    ensures
        entry_at(entry_bytes(e) + rest) == Some((e, entry_bytes(e).len() as int)),
{
    let b = entry_bytes(e) + rest;
    let ms: u64 = match e.expires_at_ms {
        Some(ms) => ms,
        None => 0,
    };
    lemma_le32(e.key.len() as u32);
    lemma_le64(e.record_offset);
    lemma_le32(e.record_size);
    lemma_le64(ms);
    lemma_le64(e.tstamp_ms);
    assert(entry_prefix(e).len() == 34);
    assert(b.subrange(0, 4) =~= le32(e.key.len() as u32));
    assert(b.subrange(4, 12) =~= le64(e.record_offset));
    assert(b.subrange(12, 16) =~= le32(e.record_size));
    assert(b.subrange(16, 24) =~= le64(ms));
    assert(b.subrange(25, 33) =~= le64(e.tstamp_ms));
    let hash_len: int = if e.value_hash is Some {
        16
    } else {
        0
    };
    if let Some(h) = e.value_hash {
        assert(b.subrange(34, 50) =~= h);
    }
    assert(b.subrange(34 + hash_len, 34 + hash_len + e.key.len()) =~= e.key);
}

/// A 16-byte array with the bytes `buf[from..from + 16]`.
pub(crate) fn hash_at(buf: &[u8], from: usize) -> (h: [u8; 16])
    requires
        from + 16 <= buf@.len(),
    ensures
        h@ == buf@.subrange(from as int, from + 16),
{
    let mut h: [u8; 16] = [0u8; 16];
    let mut i: usize = 0;
    while i < 16
        invariant
            i <= 16,
            from + 16 <= buf@.len(),
            h@.len() == 16,
            forall|j: int| 0 <= j < i ==> h@[j] == buf@[from + j],
        decreases 16 - i,
    {
        let k: usize = buf.len();
        assert(from + i < k);
        h[i] = buf[from + i];
        i = i + 1;
    }
    assert(h@ =~= buf@.subrange(from as int, from + 16));
    h
}

impl FooterEntry {
    pub fn encode_into(&self, buf: &mut Vec<u8>)
        ensures
            final(buf)@ == old(buf)@ + entry_bytes(self@),
    {
        codec::put_u32(buf, self.key.len() as u32);
        codec::put_u64(buf, self.record_offset);
        codec::put_u32(buf, self.record_size);
        match self.expires_at_ms {
            Some(ms) => {
                codec::put_u64(buf, ms);
                buf.push(1);
            },
            None => {
                codec::put_u64(buf, 0);
                buf.push(0);
            },
        }
        codec::put_u64(buf, self.tstamp_ms);
        match self.value_hash {
            Some(h) => {
                buf.push(1);
                assert(buf@ =~= old(buf)@ + entry_prefix(self@));
                bytes::extend(buf, h.as_slice());
            },
            None => {
                buf.push(0);
                assert(buf@ =~= old(buf)@ + entry_prefix(self@));
            },
        }
        bytes::extend(buf, self.key.as_slice());
        assert(buf@ =~= old(buf)@ + entry_bytes(self@));
    }

    /// Reads the entry that `buf` begins with, and how many bytes it takes.
    pub fn parse(buf: &[u8]) -> (r: Option<(FooterEntry, usize)>)
        ensures
            match r {
                Some((e, n)) => entry_at(buf@) == Some((e@, n as int)),
                None => entry_at(buf@) is None,
            },
    {
        // Fixed prefix: key_size(4)+offset(8)+size(4)+expires(8)+has_expiry(1)
        //               +tstamp(8)+has_valsep(1) = 34 bytes.
        if buf.len() < 34 {
            return None;
        }
        let key_size: u32 = codec::read_u32(buf, 0);
        let record_offset: u64 = codec::read_u64(buf, 4);
        let record_size: u32 = codec::read_u32(buf, 12);
        let expires_ms: u64 = codec::read_u64(buf, 16);
        let tstamp_ms: u64 = codec::read_u64(buf, 25);
        let hash_len: u64 = if buf[33] != 0 {
            16
        } else {
            0
        };
        let total: u64 = 34 + hash_len + key_size as u64;
        if (buf.len() as u64) < total {
            return None;
        }
        let value_hash = if buf[33] != 0 {
            Some(hash_at(buf, 34))
        } else {
            None
        };
        let key = bytes::cut(buf, 34 + hash_len as usize, total as usize);
        let expires_at_ms = if buf[24] != 0 {
            Some(expires_ms)
        } else {
            None
        };
        Some(
            (
                FooterEntry {
                    key,
                    record_offset,
                    record_size,
                    expires_at_ms,
                    tstamp_ms,
                    value_hash,
                },
                total as usize,
            ),
        )
    }
}

/// The entries of a footer, one after the other.
pub open spec fn body_bytes(entries: Seq<FooterEntryView>) -> Seq<u8>
    decreases entries.len(),
{
    if entries.len() == 0 {
        seq![]
    } else {
        body_bytes(entries.drop_last()) + entry_bytes(entries.last())
    }
}

/// What follows the entries: their length, their checksum, the magic.
pub open spec fn trailer_bytes(body: Seq<u8>) -> Seq<u8> {
    le64(body.len() as u64) + le64(crc64(body)) + le64(FOOTER_MAGIC)
}

/// The bytes of a footer.
pub open spec fn footer_bytes(entries: Seq<FooterEntryView>) -> Seq<u8> {
    body_bytes(entries) + trailer_bytes(body_bytes(entries))
}

/// The entries that a footer body holds from `at` on, given those before; the error names the
/// place of the first that is malformed.
pub open spec fn entries_from(
    body: Seq<u8>,
    at: int,
    acc: Seq<FooterEntryView>,
) -> std::result::Result<Seq<FooterEntryView>, int>
    decreases body.len() - at,
{
    if at < 0 || at >= body.len() {
        Ok(acc)
    } else {
        match entry_at(body.skip(at)) {
            Some((e, n)) => if n <= 0 {
                Err(at)
            } else {
                entries_from(body, at + n, acc.push(e))
            },
            None => Err(at),
        }
    }
}

/// Where the footer body stands that a trailer announces.
pub enum Trailer {
    /// The file does not end in a footer.
    Absent,
    /// The announced body would begin before the file does.
    OutOfRange,
    /// The body stands at `body_offset` and has `body_len` bytes with checksum `crc`.
    Body { body_offset: u64, body_len: u64, crc: u64 },
}

/// What the last 24 bytes of a file of `total` bytes announce.
pub open spec fn trailer_of(total: u64, trailer: Seq<u8>) -> Trailer {
    if u64_at(trailer, 16) != FOOTER_MAGIC {
        Trailer::Absent
    } else if u64_at(trailer, 0) > total - FOOTER_TRAILER_LEN {
        Trailer::OutOfRange
    } else {
        Trailer::Body {
            body_offset: (total - FOOTER_TRAILER_LEN - u64_at(trailer, 0)) as u64,
            body_len: u64_at(trailer, 0),
            crc: u64_at(trailer, 8),
        }
    }
}

/// Reads the last 24 bytes of a file of `total` bytes.
pub fn parse_trailer(total: u64, trailer: &[u8]) -> (r: Trailer)
    requires
        total >= FOOTER_TRAILER_LEN,
        trailer@.len() == FOOTER_TRAILER_LEN,
    ensures
        r == trailer_of(total, trailer@),
{
    let body_len: u64 = codec::read_u64(trailer, 0);
    let crc: u64 = codec::read_u64(trailer, 8);
    let magic: u64 = codec::read_u64(trailer, 16);
    if magic != FOOTER_MAGIC {
        return Trailer::Absent;
    }
    if body_len > total - FOOTER_TRAILER_LEN {
        return Trailer::OutOfRange;
    }
    Trailer::Body { body_offset: total - FOOTER_TRAILER_LEN - body_len, body_len, crc }
}

/// What a footer body stands for: its entries, if its checksum holds and it is made of whole
/// entries.
pub open spec fn footer_body_result(body: Seq<u8>, body_offset: u64, crc: u64) -> std::result::Result<
    Seq<FooterEntryView>,
    EngineError,
> {
    if crc64(body) != crc {
        Err(EngineError::CrcMismatch { offset: body_offset })
    } else {
        match entries_from(body, 0, seq![]) {
            Ok(entries) => Ok(entries),
            Err(at) => Err(
                EngineError::BadRecord {
                    offset: (body_offset + at) as u64,
                    reason: "malformed footer entry",
                },
            ),
        }
    }
}

/// Reads a footer body.
pub fn parse_footer_body(body: &[u8], body_offset: u64, crc: u64) -> (r: Result<Vec<FooterEntry>>)
    requires
        body_offset + body@.len() <= u64::MAX,
    ensures
        match r {
            Ok(v) => footer_body_result(body@, body_offset, crc) == Ok::<
                Seq<FooterEntryView>,
                EngineError,
            >(entry_views(v@)),
            Err(e) => footer_body_result(body@, body_offset, crc) == Err::<
                Seq<FooterEntryView>,
                EngineError,
            >(e),
        },
{
    let actual: u64 = checksum(body);
    if actual != crc {
        return Err(EngineError::CrcMismatch { offset: body_offset });
    }
    let mut entries: Vec<FooterEntry> = Vec::new();
    let mut cursor: usize = 0;
    assert(entry_views(entries@) =~= seq![]);
    while cursor < body.len()
        invariant
            cursor <= body@.len(),
            body_offset + body@.len() <= u64::MAX,
            crc64(body@) == crc,
            entries_from(body@, cursor as int, entry_views(entries@)) == entries_from(
                body@,
                0,
                seq![],
            ),
        decreases body@.len() - cursor,
    {
        let rest = vstd::slice::slice_subrange(body, cursor, body.len());
        assert(rest@ =~= body@.skip(cursor as int));
        match FooterEntry::parse(rest) {
            Some((e, n)) => {
                let ghost before = entries@;
                entries.push(e);
                assert(entry_views(entries@) =~= entry_views(before).push(e@));
                cursor = cursor + n;
            },
            None => {
                return Err(
                    EngineError::BadRecord {
                        offset: body_offset + cursor as u64,
                        reason: "malformed footer entry",
                    },
                );
            },
        }
    }
    Ok(entries)
}

/// The footer of a file with these contents: `None` where it does not end in one.
pub open spec fn footer_result(image: Seq<u8>) -> std::result::Result<
    Option<Seq<FooterEntryView>>,
    EngineError,
> {
    if image.len() < FOOTER_TRAILER_LEN {
        Ok(None)
    } else {
        match trailer_of(image.len() as u64, image.skip(image.len() - FOOTER_TRAILER_LEN)) {
            Trailer::Absent => Ok(None),
            Trailer::OutOfRange => Err(
                EngineError::BadRecord {
                    offset: (image.len() - FOOTER_TRAILER_LEN) as u64,
                    reason: "footer body length out of range",
                },
            ),
            Trailer::Body { body_offset, body_len, crc } => match footer_body_result(
                image.subrange(body_offset as int, body_offset + body_len),
                body_offset,
                crc,
            ) {
                Ok(entries) => Ok(Some(entries)),
                Err(e) => Err(e),
            },
        }
    }
}

/// Reads the footer at the end of a file's contents.
pub fn read_footer(image: &[u8]) -> (r: Result<Option<Vec<FooterEntry>>>)
    ensures
        match r {
            Ok(Some(v)) => footer_result(image@) == Ok::<
                Option<Seq<FooterEntryView>>,
                EngineError,
            >(Some(entry_views(v@))),
            Ok(None) => footer_result(image@) == Ok::<Option<Seq<FooterEntryView>>, EngineError>(
                None,
            ),
            Err(e) => footer_result(image@) == Err::<Option<Seq<FooterEntryView>>, EngineError>(e),
        },
{
    let n: usize = image.len();
    if n < 24 {
        return Ok(None);
    }
    let tail = vstd::slice::slice_subrange(image, n - 24, n);
    assert(tail@ =~= image@.skip(image@.len() - FOOTER_TRAILER_LEN));
    match parse_trailer(n as u64, tail) {
        Trailer::Absent => Ok(None),
        Trailer::OutOfRange => Err(
            EngineError::BadRecord {
                offset: n as u64 - FOOTER_TRAILER_LEN,
                reason: "footer body length out of range",
            },
        ),
        Trailer::Body { body_offset, body_len, crc } => {
            let from: usize = body_offset as usize;
            let to: usize = from + body_len as usize;
            let body = vstd::slice::slice_subrange(image, from, to);
            match parse_footer_body(body, body_offset, crc) {
                Ok(v) => Ok(Some(v)),
                Err(e) => Err(e),
            }
        },
    }
}

/// Makes the footer of a file: its body, and its trailer.
pub fn encode_footer(entries: &Vec<FooterEntry>) -> (r: (Vec<u8>, Vec<u8>))
    ensures
        r.0@ == body_bytes(entry_views(entries@)),
        r.1@ == trailer_bytes(r.0@),
{
    let mut body: Vec<u8> = Vec::new();
    let mut i: usize = 0;
    assert(entry_views(entries@).take(0) =~= seq![]);
    while i < entries.len()
        invariant
            i <= entries@.len(),
            body@ == body_bytes(entry_views(entries@).take(i as int)),
        decreases entries@.len() - i,
    {
        entries[i].encode_into(&mut body);
        assert(entry_views(entries@).take(i + 1).drop_last() =~= entry_views(entries@).take(
            i as int,
        ));
        i = i + 1;
    }
    assert(entry_views(entries@).take(i as int) =~= entry_views(entries@));
    let crc: u64 = checksum(body.as_slice());
    let mut trailer: Vec<u8> = Vec::new();
    codec::put_u64(&mut trailer, body.len() as u64);
    codec::put_u64(&mut trailer, crc);
    codec::put_u64(&mut trailer, FOOTER_MAGIC);
    assert(trailer@ =~= trailer_bytes(body@));
    (body, trailer)
}


/// The entries before `i` are read first.
proof fn lemma_entries_upto(entries: Seq<FooterEntryView>, i: int)
    requires
        0 <= i <= entries.len(),
        forall|j: int| 0 <= j < entries.len() ==> entry_fits(#[trigger] entries[j]),
    ensures
        body_bytes(entries.take(i)).len() <= body_bytes(entries).len(),
        body_bytes(entries).take(body_bytes(entries.take(i)).len() as int) == body_bytes(
            entries.take(i),
        ),
        entries_from(body_bytes(entries), 0, seq![]) == entries_from(
            body_bytes(entries),
            body_bytes(entries.take(i)).len() as int,
            entries.take(i),
        ),
    decreases i,
{
    lemma_body_prefix(entries, i);
    if i > 0 {
        lemma_entries_upto(entries, i - 1);
        lemma_body_prefix(entries, i - 1);
        let body = body_bytes(entries);
        let head = body_bytes(entries.take(i - 1));
        let upto = body_bytes(entries.take(i));
        assert(entries.take(i).drop_last() =~= entries.take(i - 1));
        assert(entries.take(i).last() == entries[i - 1]);
        assert(upto == head + entry_bytes(entries[i - 1]));
        let rest = body.skip(upto.len() as int);
        assert(body.skip(head.len() as int) =~= entry_bytes(entries[i - 1]) + rest) by {
            assert(body =~= upto + rest);
        }
        lemma_entry_round_trip(entries[i - 1], rest);
        lemma_le32(entries[i - 1].key.len() as u32);
        assert(entry_bytes(entries[i - 1]).len() > 0);
        assert(entries.take(i - 1).push(entries[i - 1]) =~= entries.take(i));
    } else {
        assert(entries.take(0) =~= seq![]);
    }
}

proof fn lemma_body_prefix(entries: Seq<FooterEntryView>, i: int)
    requires
        0 <= i <= entries.len(),
    ensures
        body_bytes(entries.take(i)).len() <= body_bytes(entries).len(),
        body_bytes(entries).take(body_bytes(entries.take(i)).len() as int) == body_bytes(
            entries.take(i),
        ),
    decreases entries.len(),
{
    if i == entries.len() {
        assert(entries.take(i) =~= entries);
        assert(body_bytes(entries).take(body_bytes(entries).len() as int) =~= body_bytes(entries));
    } else {
        lemma_body_prefix(entries.drop_last(), i);
        assert(entries.drop_last().take(i) =~= entries.take(i));
        let n = body_bytes(entries.take(i)).len() as int;
        assert(body_bytes(entries).take(n) =~= body_bytes(entries.drop_last()).take(n));
    }
}

/// A sealed file's footer gives back the entries that it was sealed with, and its records end
/// where the footer begins.
pub proof fn lemma_footer_round_trip(records: Seq<u8>, entries: Seq<FooterEntryView>)
    requires
        forall|j: int| 0 <= j < entries.len() ==> entry_fits(#[trigger] entries[j]),
        records.len() + footer_bytes(entries).len() <= u64::MAX,
    ensures
        footer_result(records + footer_bytes(entries)) == Ok::<
            Option<Seq<FooterEntryView>>,
            EngineError,
        >(Some(entries)),
        data_end(records + footer_bytes(entries)) == records.len(),
{
    let body = body_bytes(entries);
    let image = records + footer_bytes(entries);
    lemma_le64(body.len() as u64);
    lemma_le64(crc64(body));
    lemma_le64(FOOTER_MAGIC);
    assert(trailer_bytes(body).len() == 24);
    let trailer = image.skip(image.len() - FOOTER_TRAILER_LEN);
    assert(trailer =~= trailer_bytes(body));
    assert(trailer.subrange(0, 8) =~= le64(body.len() as u64));
    assert(trailer.subrange(8, 16) =~= le64(crc64(body)));
    assert(trailer.subrange(16, 24) =~= le64(FOOTER_MAGIC));
    assert(image.subrange(records.len() as int, records.len() as int + body.len()) =~= body);
    lemma_entries_upto(entries, entries.len() as int);
    assert(entries.take(entries.len() as int) =~= entries);
}

/// Where the records of a file with these contents end: before the footer, if it ends in one.
pub open spec fn data_end(image: Seq<u8>) -> int {
    if image.len() < FOOTER_TRAILER_LEN {
        image.len() as int
    } else {
        data_end_of(image.len() as u64, image.skip(image.len() - FOOTER_TRAILER_LEN))
    }
}

/// Where the records of a file of `total` bytes end whose last 24 bytes are `trailer`.
pub open spec fn data_end_of(total: u64, trailer: Seq<u8>) -> int {
    match trailer_of(total, trailer) {
        Trailer::Absent => total as int,
        Trailer::OutOfRange => 0,
        Trailer::Body { body_offset, .. } => body_offset as int,
    }
}

/// Finds where the records of a file end. `trailer` holds its last 24 bytes, or is absent where
/// they could not be read.
pub fn data_end_offset(total: u64, trailer: Option<&[u8]>) -> (r: u64)
    ensures
        r == (match trailer {
            Some(t) => if total >= FOOTER_TRAILER_LEN && t@.len() == FOOTER_TRAILER_LEN {
                data_end_of(total, t@)
            } else {
                total as int
            },
            None => total as int,
        }),
{
    match trailer {
        Some(t) => {
            if total < FOOTER_TRAILER_LEN || t.len() != 24 {
                return total;
            }
            match parse_trailer(total, t) {
                Trailer::Absent => total,
                Trailer::OutOfRange => 0,
                Trailer::Body { body_offset, .. } => body_offset,
            }
        },
        None => total,
    }
}

/// The name of the data file with this id.
pub open spec fn data_name(file_id: u32) -> Seq<char> {
    "data-"@ + fixed(file_id as nat, 10, 10) + ".log"@
}

/// The name under which a merged data file is written before it is complete.
pub open spec fn tmp_name(file_id: u32) -> Seq<char> {
    data_name(file_id) + ".tmp"@
}

pub fn data_filename(file_id: u32) -> (r: String)
    ensures
        r@ == data_name(file_id),
{
    let mut s = String::from_str("data-");
    push_fixed(&mut s, file_id as u64, 10, 10);
    s.append(".log");
    s
}

pub fn reclaim_tmp_filename(file_id: u32) -> (r: String)
    ensures
        r@ == tmp_name(file_id),
{
    let mut s = data_filename(file_id);
    s.append(".tmp");
    s
}

/// The id of the data file with this name; `None` where it is not the name of a data file.
pub open spec fn data_id(name: Seq<u8>) -> Option<u32> {
    let n = name.len() as int;
    if n >= 9 && name.take(5) == encode_utf8("data-"@) && name.skip(n - 4) == encode_utf8(".log"@) {
        match decimal::decimal_u64(name.subrange(5, n - 4)) {
            Some(id) => if id <= u32::MAX {
                Some(id as u32)
            } else {
                None
            },
            None => None,
        }
    } else {
        None
    }
}

/// Reads the id in the name of a data file.
pub fn parse_data_filename(name: &[u8]) -> (r: Option<u32>)
    ensures
        r == data_id(name@),
{
    let n: usize = name.len();
    if n < 9 {
        return None;
    }
    let head = vstd::slice::slice_subrange(name, 0, 5);
    let tail = vstd::slice::slice_subrange(name, n - 4, n);
    assert(head@ =~= name@.take(5));
    assert(tail@ =~= name@.skip(n - 4));
    if !bytes::same(head, "data-".as_bytes()) || !bytes::same(tail, ".log".as_bytes()) {
        return None;
    }
    match decimal::read_u64(vstd::slice::slice_subrange(name, 5, n - 4)) {
        Some(id) => if id <= u32::MAX as u64 {
            Some(id as u32)
        } else {
            None
        },
        None => None,
    }
}

/// `out` names the data files among `names`, each by its id and its place, in ascending order.
pub open spec fn lists_data_files(names: Seq<Vec<u8>>, out: Seq<(u32, usize)>) -> bool {
    &&& forall|i: int, j: int|
        0 <= i < j < out.len() ==> (#[trigger] out[i]).0 < (#[trigger] out[j]).0 || (out[i].0
            == out[j].0 && out[i].1 < out[j].1)
    &&& forall|i: int|
        0 <= i < out.len() ==> (#[trigger] out[i]).1 < names.len() && data_id(
            names[out[i].1 as int]@,
        ) == Some(out[i].0)
    &&& forall|k: int|
        0 <= k < names.len() && data_id((#[trigger] names[k])@) is Some ==> exists|i: int|
            0 <= i < out.len() && (#[trigger] out[i]).1 == k
}

/// Picks the data files out of the names in a directory, ascending by id.
pub fn list_data_files(names: &Vec<Vec<u8>>) -> (out: Vec<(u32, usize)>)
    ensures
        lists_data_files(names@, out@),
{
    let mut out: Vec<(u32, usize)> = Vec::new();
    let mut k: usize = 0;
    assert(names@.take(0) =~= seq![]);
    while k < names.len()
        invariant
            k <= names@.len(),
            lists_data_files(names@.take(k as int), out@),
        decreases names@.len() - k,
    {
        let ghost before = out@;
        let ghost seen = names@.take(k as int);
        let ghost more = names@.take(k + 1);
        match parse_data_filename(names[k].as_slice()) {
            Some(id) => {
                let mut at: usize = out.len();
                while at > 0 && out[at - 1].0 > id
                    invariant
                        at <= out@.len(),
                        forall|i: int| at <= i < out@.len() ==> (#[trigger] out@[i]).0 > id,
                    decreases at,
                {
                    at = at - 1;
                }
                proof {
                    assert forall|i: int| 0 <= i < at implies (#[trigger] out@[i]).0 <= id by {
                        assert(out@[at - 1].0 <= id);
                    }
                }
                out.insert(at, (id, k));
                assert(lists_data_files(more, out@)) by {
                    assert forall|i: int| 0 <= i < out@.len() implies (#[trigger] out@[i]).1
                        < more.len() && data_id(more[out@[i].1 as int]@) == Some(out@[i].0) by {
                        if i < at {
                            assert(out@[i] == before[i]);
                            assert(seen[before[i].1 as int] == more[before[i].1 as int]);
                        } else if i > at {
                            assert(out@[i] == before[i - 1]);
                            assert(seen[before[i - 1].1 as int] == more[before[i - 1].1 as int]);
                        }
                    }
                    assert forall|q: int|
                        0 <= q < more.len() && data_id((#[trigger] more[q])@) is Some implies exists|
                        i: int,
                    |
                        0 <= i < out@.len() && (#[trigger] out@[i]).1 == q by {
                        if q < k {
                            assert(seen[q] == more[q]);
                            let i = choose|i: int|
                                0 <= i < before.len() && (#[trigger] before[i]).1 == q;
                            if i < at {
                                assert(out@[i] == before[i]);
                            } else {
                                assert(out@[i + 1] == before[i]);
                            }
                        } else {
                            assert(out@[at as int].1 == q);
                        }
                    }
                }
            },
            None => {
                assert(lists_data_files(more, out@)) by {
                    assert forall|i: int| 0 <= i < out@.len() implies (#[trigger] out@[i]).1
                        < more.len() && data_id(more[out@[i].1 as int]@) == Some(out@[i].0) by {
                        assert(seen[out@[i].1 as int] == more[out@[i].1 as int]);
                    }
                    assert forall|q: int|
                        0 <= q < more.len() && data_id((#[trigger] more[q])@) is Some implies exists|
                        i: int,
                    |
                        0 <= i < out@.len() && (#[trigger] out@[i]).1 == q by {
                        assert(q < k);
                        assert(seen[q] == more[q]);
                    }
                }
            },
        }
        k = k + 1;
    }
    assert(names@.take(k as int) =~= names@);
    out
}

/// The bytes of ASCII characters.
spec fn ascii_bytes(s: Seq<char>) -> Seq<u8> {
    Seq::new(s.len(), |i: int| s[i] as u8)
}

proof fn lemma_fixed_digits(n: nat, w: nat)
    requires
        n < pow10(w),
    ensures
        is_ascii_chars(fixed(n, 10, w)),
        decimal::all_digits(ascii_bytes(fixed(n, 10, w))),
        decimal::digits_value(ascii_bytes(fixed(n, 10, w))) == n,
    decreases w,
{
    let f = fixed(n, 10, w);
    if w == 0 {
        assert(ascii_bytes(f) =~= seq![]);
    } else {
        let m = fixed(n / 10, 10, (w - 1) as nat);
        lemma_fixed_digits(n / 10, (w - 1) as nat);
        lemma_fixed_len(n / 10, 10, (w - 1) as nat);
        assert(f == m.push(digit_char((n % 10) as int)));
        assert(digit_char((n % 10) as int) as u8 == 48 + n % 10);
        assert(ascii_bytes(f).drop_last() =~= ascii_bytes(m));
        assert(ascii_bytes(f).last() == 48 + n % 10);
        assert(is_ascii_chars(f)) by {
            assert forall|i: int| 0 <= i < f.len() implies '\0' <= #[trigger] f[i] <= '\u{7f}' by {
                if i < m.len() {
                    assert(f[i] == m[i]);
                }
            }
        }
        assert(decimal::all_digits(ascii_bytes(f))) by {
            assert forall|i: int| 0 <= i < f.len() implies 48 <= #[trigger] ascii_bytes(f)[i]
                <= 57 by {
                if i < m.len() {
                    assert(ascii_bytes(f)[i] == ascii_bytes(m)[i]);
                }
            }
        }
    }
}

/// A data file's id is read back from its name, and the temporary name is not taken for that of
/// a data file.
pub proof fn lemma_data_name(file_id: u32)
    ensures
        data_id(encode_utf8(data_name(file_id))) == Some(file_id),
        data_id(encode_utf8(tmp_name(file_id))) is None,
{
    let digits = fixed(file_id as nat, 10, 10);
    reveal_with_fuel(pow10, 11);
    assert(pow10(10) == 10_000_000_000);
    lemma_fixed_digits(file_id as nat, 10);
    lemma_fixed_len(file_id as nat, 10, 10);
    reveal_strlit("data-");
    reveal_strlit(".log");
    reveal_strlit(".tmp");
    let full = data_name(file_id);
    let tmp = tmp_name(file_id);
    assert(is_ascii_chars(full));
    assert(is_ascii_chars(tmp));
    vstd::utf8::is_ascii_chars_encode_utf8(full);
    vstd::utf8::is_ascii_chars_encode_utf8(tmp);
    vstd::utf8::is_ascii_chars_encode_utf8("data-"@);
    vstd::utf8::is_ascii_chars_encode_utf8(".log"@);
    let b = encode_utf8(full);
    assert(b.take(5) =~= encode_utf8("data-"@));
    assert(b.skip(15) =~= encode_utf8(".log"@));
    let mid = b.subrange(5, 15);
    assert(mid =~= ascii_bytes(digits));
    assert(decimal::all_digits(mid));
    assert(48 <= mid[0] <= 57);
    assert(decimal::unsigned_part(mid, 43) is None);
    let t = encode_utf8(tmp);
    assert(t.skip(19)[1] == 't' as u8);
    assert(encode_utf8(".log"@)[1] == 'l' as u8);
}

/// Of two different numbers of the same width, the first digit in which they differ decides.
proof fn lemma_fixed_order(m: nat, n: nat, w: nat) -> (i: int)
    requires
        m < n < pow10(w),
    ensures
        0 <= i < w,
        fixed(m, 10, w).take(i) == fixed(n, 10, w).take(i),
        fixed(m, 10, w)[i] < fixed(n, 10, w)[i],
    decreases w,
{
    let v = (w - 1) as nat;
    lemma_fixed_len(m / 10, 10, v);
    lemma_fixed_len(n / 10, 10, v);
    let x = fixed(m, 10, w);
    let y = fixed(n, 10, w);
    if m / 10 < n / 10 {
        let i = lemma_fixed_order(m / 10, n / 10, v);
        assert(x.take(i) =~= fixed(m / 10, 10, v).take(i));
        assert(y.take(i) =~= fixed(n / 10, 10, v).take(i));
        i
    } else {
        assert(m / 10 == n / 10);
        assert(m % 10 < n % 10);
        assert(x.take(v as int) =~= fixed(m / 10, 10, v));
        assert(y.take(v as int) =~= fixed(n / 10, 10, v));
        v as int
    }
}

proof fn lemma_before_at(a: Seq<u8>, b: Seq<u8>, i: int)
    requires
        0 <= i < a.len(),
        i < b.len(),
        a.take(i) == b.take(i),
        a[i] < b[i],
    ensures
        before(a, b),
    decreases i,
{
    if i > 0 {
        assert(a.take(i)[0] == a[0] && b.take(i)[0] == b[0]);
        assert(a.skip(1).take(i - 1) =~= a.take(i).skip(1));
        assert(b.skip(1).take(i - 1) =~= b.take(i).skip(1));
        lemma_before_at(a.skip(1), b.skip(1), i - 1);
    }
}

proof fn lemma_data_name_bytes(id: u32)
    ensures
        encode_utf8(data_name(id)) == ascii_bytes(data_name(id)),
        data_name(id).len() == 19,
        is_ascii_chars(data_name(id)),
{
    reveal_with_fuel(pow10, 11);
    lemma_fixed_digits(id as nat, 10);
    lemma_fixed_len(id as nat, 10, 10);
    reveal_strlit("data-");
    reveal_strlit(".log");
    let name = data_name(id);
    assert(is_ascii_chars(name));
    vstd::utf8::is_ascii_chars_encode_utf8(name);
    assert(encode_utf8(name) =~= ascii_bytes(name));
}

proof fn lemma_data_name_before(a: u32, b: u32)
    requires
        a < b,
    ensures
        before(encode_utf8(data_name(a)), encode_utf8(data_name(b))),
{
    reveal_with_fuel(pow10, 11);
    lemma_data_name_bytes(a);
    lemma_data_name_bytes(b);
    lemma_fixed_len(a as nat, 10, 10);
    lemma_fixed_len(b as nat, 10, 10);
    reveal_strlit("data-");
    reveal_strlit(".log");
    let x = data_name(a);
    let y = data_name(b);
    let i = lemma_fixed_order(a as nat, b as nat, 10);
    let dx = fixed(a as nat, 10, 10);
    let dy = fixed(b as nat, 10, 10);
    assert(x[5 + i] == dx[i] && y[5 + i] == dy[i]);
    assert forall|j: int| 0 <= j < 5 + i implies x[j] == y[j] by {
        if j >= 5 {
            assert(x[j] == dx[j - 5] && y[j] == dy[j - 5]);
            assert(dx.take(i)[j - 5] == dy.take(i)[j - 5]);
        }
    }
    let p = ascii_bytes(x);
    let q = ascii_bytes(y);
    assert(p.take(5 + i) =~= q.take(5 + i));
    assert('\0' <= x[5 + i] <= '\u{7f}' && '\0' <= y[5 + i] <= '\u{7f}');
    lemma_before_at(p, q, 5 + i);
}

/// The names of data files stand in byte order as their ids do: a directory that is listed by
/// name is listed by id. Every name is 19 bytes long.
pub proof fn lemma_data_names_in_order(a: u32, b: u32)
    ensures
        before(encode_utf8(data_name(a)), encode_utf8(data_name(b))) <==> a < b,
        encode_utf8(data_name(a)).len() == 19,
{
    lemma_data_name_bytes(a);
    lemma_before_irreflexive(encode_utf8(data_name(a)));
    if a < b {
        lemma_data_name_before(a, b);
    } else if b < a {
        lemma_data_name_before(b, a);
        if before(encode_utf8(data_name(a)), encode_utf8(data_name(b))) {
            lemma_before_transitive(
                encode_utf8(data_name(a)),
                encode_utf8(data_name(b)),
                encode_utf8(data_name(a)),
            );
        }
    }
}

/// The space in a log file. Used for both active (writable) and sealed (read-only) files; the
/// only difference is whether anything is appended.
#[derive(Debug, Clone, Copy)]
pub struct LogFile {
    pub file_id: u32,
    /// Where the next append goes.
    pub write_offset: u64,
    /// An append failed: the bytes at its place are unknown, and no later append may follow them.
    pub poisoned: bool,
}

impl LogFile {
    /// The file behind the reservation of `len` bytes, and what the reservation gives: the place
    /// that is next, unless the file is poisoned.
    pub open spec fn reserving(self, len: usize) -> (LogFile, Result<u64>) {
        if self.poisoned {
            (self, Err(EngineError::Io { reason: "log file poisoned after prior write error" }))
        } else {
            (
                LogFile { write_offset: (self.write_offset + len) as u64, ..self },
                Ok(self.write_offset),
            )
        }
    }

    /// The file behind a write that failed.
    pub open spec fn failing(self) -> LogFile {
        LogFile { poisoned: true, ..self }
    }

    /// The file behind the reservations of these lengths, one after the other.
    pub open spec fn after_reserving(self, lens: Seq<usize>) -> LogFile
        decreases lens.len(),
    {
        if lens.len() == 0 {
            self
        } else {
            self.after_reserving(lens.drop_last()).reserving(lens.last()).0
        }
    }

    /// A file that was opened with `len` bytes in it.
    pub fn open(file_id: u32, len: u64) -> (r: LogFile)
        ensures
            r == (LogFile { file_id, write_offset: len, poisoned: false }),
    {
        LogFile { file_id, write_offset: len, poisoned: false }
    }

    pub fn write_offset(&self) -> (r: u64)
        ensures
            r == self.write_offset,
    {
        self.write_offset
    }

    /// Reserves the place of an append of `len` bytes, before they are written: concurrent
    /// appends get distinct places. A poisoned file has no more places to give.
    pub fn reserve(&mut self, len: usize) -> (r: Result<u64>)
        requires
            old(self).poisoned || old(self).write_offset + len <= u64::MAX,
        ensures
            (*final(self), r) == old(self).reserving(len),
    {
        if self.poisoned {
            return Err(EngineError::Io { reason: "log file poisoned after prior write error" });
        }
        let offset: u64 = self.write_offset;
        self.write_offset = offset + len as u64;
        Ok(offset)
    }

    /// Takes note that the bytes of a reserved place could not be written.
    pub fn poison(&mut self)
        ensures
            *final(self) == old(self).failing(),
    {
        self.poisoned = true;
    }

    /// Takes note that the file was cut to `size` bytes.
    pub fn truncate_to(&mut self, size: u64)
        ensures
            *final(self) == (LogFile { write_offset: size, ..*old(self) }),
    {
        self.write_offset = size;
    }
}

/// Behind a write that failed, no later write lands: whatever was asked for since, every further
/// reservation fails, and the write offset stays where the failed write left it.
pub proof fn lemma_failed_write_shuts_the_file(f: LogFile, lens: Seq<usize>, len: usize)
    ensures
        f.failing().after_reserving(lens) == f.failing(),
        f.failing().after_reserving(lens).reserving(len).1 == Err::<u64, EngineError>(
            EngineError::Io { reason: "log file poisoned after prior write error" },
        ),
        f.failing().after_reserving(lens).reserving(len).0 == f.failing(),
        f.failing().write_offset == f.write_offset,
    decreases lens.len(),
{
    if lens.len() > 0 {
        lemma_failed_write_shuts_the_file(f, lens.drop_last(), lens.last());
    }
}

} // verus!
