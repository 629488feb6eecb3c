//! Where each field of a record and of a footer stands.
use vstd::bytes::{
    spec_u32_from_le_bytes, spec_u32_to_le_bytes, spec_u64_from_le_bytes, spec_u64_to_le_bytes,
};
use vstd::prelude::*;

use crate::codec::{lemma_le32, lemma_le64};
use crate::engine::log::file::{
    data_end_of, data_name, entry_bytes, footer_bytes, tmp_name, trailer_of, body_bytes,
    FooterEntryView, LogFile, Trailer,
};
use crate::engine::log::index::IndexView;
use crate::engine::log::pool::{pooled_after, serves, Use};
use crate::engine::log::record::{crc64, fits, header_at, record_bytes, RecordHeader};
use crate::engine::log::recover::{applied, hash_of, marked};
use crate::text::{fixed, lemma_fixed_len};

verus! {

/// A record, byte by byte: the checksum of what follows it; the revision; the flags; the expiry; the
/// lengths of key, value and metadata; then key, value and metadata. Numbers stand least significant
/// byte first.
pub proof fn lemma_record_layout(
    tstamp_ms: u64,
    flags: u8,
    expires_at_ms: u64,
    key: Seq<u8>,
    value: Seq<u8>,
    metadata: Seq<u8>,
)
    requires
        fits(key, value, metadata),
    ensures
        ({
            let b = record_bytes(tstamp_ms, flags, expires_at_ms, key, value, metadata);
            &&& b.len() == 37 + key.len() + value.len() + metadata.len()
            &&& b.take(8) == spec_u64_to_le_bytes(crc64(b.skip(8)))
            &&& b.subrange(8, 16) == spec_u64_to_le_bytes(tstamp_ms)
            &&& b[16] == flags
            &&& b.subrange(17, 25) == spec_u64_to_le_bytes(expires_at_ms)
            &&& b.subrange(25, 29) == spec_u32_to_le_bytes(key.len() as u32)
            &&& b.subrange(29, 33) == spec_u32_to_le_bytes(value.len() as u32)
            &&& b.subrange(33, 37) == spec_u32_to_le_bytes(metadata.len() as u32)
            &&& b.subrange(37, (37 + key.len()) as int) == key
            &&& b.subrange((37 + key.len()) as int, (37 + key.len() + value.len()) as int) == value
            &&& b.skip((37 + key.len() + value.len()) as int) == metadata
        }),
        fits(key, value, metadata) <==> 37 + key.len() + value.len() + metadata.len()
            <= 0xffff_ffff,
{
    let b = record_bytes(tstamp_ms, flags, expires_at_ms, key, value, metadata);
    let ks = key.len() as u32;
    let vs = value.len() as u32;
    let ms = metadata.len() as u32;
    lemma_le64(tstamp_ms);
    lemma_le64(expires_at_ms);
    lemma_le32(ks);
    lemma_le32(vs);
    lemma_le32(ms);
    let covered = crate::engine::log::record::covered(
        tstamp_ms,
        flags,
        expires_at_ms,
        key,
        value,
        metadata,
    );
    lemma_le64(crc64(covered));
    assert(b.skip(8) =~= covered);
    assert(b.take(8) =~= spec_u64_to_le_bytes(crc64(covered)));
    assert(b.subrange(8, 16) =~= spec_u64_to_le_bytes(tstamp_ms));
    assert(b.subrange(17, 25) =~= spec_u64_to_le_bytes(expires_at_ms));
    assert(b.subrange(25, 29) =~= spec_u32_to_le_bytes(ks));
    assert(b.subrange(29, 33) =~= spec_u32_to_le_bytes(vs));
    assert(b.subrange(33, 37) =~= spec_u32_to_le_bytes(ms));
    assert(b.subrange(37, (37 + key.len()) as int) =~= key);
    assert(b.subrange((37 + key.len()) as int, (37 + key.len() + value.len()) as int) =~= value);
    assert(b.skip((37 + key.len() + value.len()) as int) =~= metadata);
}

/// The header that is read from bytes has its fields from the same places.
pub proof fn lemma_header_layout(b: Seq<u8>)
    requires
        b.len() >= 37,
    ensures
        header_at(b).crc == spec_u64_from_le_bytes(b.subrange(0, 8)),
        header_at(b).tstamp_ms == spec_u64_from_le_bytes(b.subrange(8, 16)),
        header_at(b).flags == b[16],
        header_at(b).expires_at_ms == spec_u64_from_le_bytes(b.subrange(17, 25)),
        header_at(b).key_size == spec_u32_from_le_bytes(b.subrange(25, 29)),
        header_at(b).val_size == spec_u32_from_le_bytes(b.subrange(29, 33)),
        header_at(b).meta_size == spec_u32_from_le_bytes(b.subrange(33, 37)),
{
}

/// A footer entry, byte by byte: the length of the key; where the record stands and how long it is; the
/// expiry and whether there is one; the revision; whether there is a content hash, and the hash; then
/// the key.
pub proof fn lemma_entry_layout(e: FooterEntryView)
    requires
        e.key.len() <= u32::MAX,
        e.value_hash matches Some(h) ==> h.len() == 16,
    ensures
        ({
            let b = entry_bytes(e);
            &&& b.take(4) == spec_u32_to_le_bytes(e.key.len() as u32)
            &&& b.subrange(4, 12) == spec_u64_to_le_bytes(e.record_offset)
            &&& b.subrange(12, 16) == spec_u32_to_le_bytes(e.record_size)
            &&& e.expires_at_ms matches Some(ms) ==> b[24] == 1 && b.subrange(16, 24)
                == spec_u64_to_le_bytes(ms)
            &&& e.expires_at_ms is None ==> b[24] == 0 && b.subrange(16, 24)
                == spec_u64_to_le_bytes(0)
            &&& b.subrange(25, 33) == spec_u64_to_le_bytes(e.tstamp_ms)
            &&& e.value_hash matches Some(h) ==> b[33] == 1 && b.subrange(34, 50) == h && b.skip(50)
                == e.key
            &&& e.value_hash is None ==> b[33] == 0 && b.skip(34) == e.key
        }),
{
    let ms: u64 = match e.expires_at_ms {
        Some(ms) => ms,
        None => 0,
    };
    let b = entry_bytes(e);
    lemma_le32(e.key.len() as u32);
    lemma_le64(e.record_offset);
    lemma_le32(e.record_size);
    lemma_le64(ms);
    lemma_le64(e.tstamp_ms);
    assert(b.take(4) =~= spec_u32_to_le_bytes(e.key.len() as u32));
    assert(b.subrange(4, 12) =~= spec_u64_to_le_bytes(e.record_offset));
    assert(b.subrange(12, 16) =~= spec_u32_to_le_bytes(e.record_size));
    assert(b.subrange(16, 24) =~= spec_u64_to_le_bytes(ms));
    assert(b.subrange(25, 33) =~= spec_u64_to_le_bytes(e.tstamp_ms));
    match e.value_hash {
        Some(h) => {
            assert(b.subrange(34, 50) =~= h);
            assert(b.skip(50) =~= e.key);
        },
        None => {
            assert(b.skip(34) =~= e.key);
        },
    }
}

/// A footer is its entries one behind the other, and twenty-four bytes: how long they are, their
/// checksum, and the letters by which a sealed file is told.
pub proof fn lemma_footer_layout(entries: Seq<FooterEntryView>, e: FooterEntryView)
    ensures
        ({
            let b = footer_bytes(entries);
            let n = b.len() - 24;
            let body = b.take(n);
            &&& b.len() >= 24
            &&& body == body_bytes(entries)
            &&& b.subrange(n, n + 8) == spec_u64_to_le_bytes(n as u64)
            &&& b.subrange(n + 8, n + 16) == spec_u64_to_le_bytes(crc64(body))
            &&& b.skip(n + 16) == spec_u64_to_le_bytes(0x4259_4F4E_445F_4B58)
        }),
        body_bytes(seq![]) == Seq::<u8>::empty(),
        body_bytes(entries.push(e)) == body_bytes(entries) + entry_bytes(e),
{
    let body = body_bytes(entries);
    let b = footer_bytes(entries);
    let n = b.len() - 24;
    lemma_le64(body.len() as u64);
    lemma_le64(crc64(body));
    lemma_le64(0x4259_4F4E_445F_4B58);
    assert(b.take(n) =~= body);
    assert(b.subrange(n, n + 8) =~= spec_u64_to_le_bytes(n as u64));
    assert(b.subrange(n + 8, n + 16) =~= spec_u64_to_le_bytes(crc64(body)));
    assert(b.skip(n + 16) =~= spec_u64_to_le_bytes(0x4259_4F4E_445F_4B58));
    assert(entries.push(e).drop_last() =~= entries);
}

/// What the last twenty-four bytes of a file say: no footer without the letters, a broken one where it
/// would begin before the file, else where it begins and what its checksum is. The records end where
/// the footer begins.
pub proof fn lemma_trailer_read(total: u64, trailer: Seq<u8>)
    requires
        trailer.len() == 24,
        total >= 24,
    ensures
        ({
            let len = spec_u64_from_le_bytes(trailer.subrange(0, 8));
            let crc = spec_u64_from_le_bytes(trailer.subrange(8, 16));
            let magic = spec_u64_from_le_bytes(trailer.subrange(16, 24));
            let t = trailer_of(total, trailer);
            &&& t is Absent <==> magic != 0x4259_4F4E_445F_4B58
            &&& t is OutOfRange <==> magic == 0x4259_4F4E_445F_4B58 && len + 24 > total
            &&& t matches Trailer::Body { body_offset, body_len, crc: c } ==> body_len == len && c
                == crc && body_offset + len + 24 == total && data_end_of(total, trailer)
                == body_offset
            &&& t is Absent ==> data_end_of(total, trailer) == total
            &&& t is OutOfRange ==> data_end_of(total, trailer) == 0
        }),
{
}

/// The name of a data file: `data-`, its id in ten digits, `.log`; `.tmp` follows while it is being
/// made.
pub proof fn lemma_file_names(file_id: u32)
    ensures
        data_name(file_id).len() == 19,
        data_name(file_id).take(5) == "data-"@,
        data_name(file_id).subrange(5, 15) == fixed(file_id as nat, 10, 10),
        data_name(file_id).skip(15) == ".log"@,
        tmp_name(file_id) == data_name(file_id) + ".tmp"@,
{
    reveal_strlit("data-");
    reveal_strlit(".log");
    lemma_fixed_len(file_id as nat, 10, 10);
    assert(data_name(file_id).take(5) =~= "data-"@);
    assert(data_name(file_id).subrange(5, 15) =~= fixed(file_id as nat, 10, 10));
    assert(data_name(file_id).skip(15) =~= ".log"@);
}

/// What a record does to the index: a deletion takes its key out; a change of expiry changes the expiry
/// of a key that is there; a put puts its key in place, with the record's length and revision, its
/// expiry, and the hash of its blob where it has one. No other key is touched.
pub proof fn lemma_record_applied(
    idx: IndexView,
    file_id: u32,
    offset: u64,
    h: RecordHeader,
    body: Seq<u8>,
    q: Seq<u8>,
)
    requires
        body.len() == h.key_size + h.val_size + h.meta_size,
    ensures
        ({
            let key = body.take(h.key_size as int);
            let after = applied(idx, file_id, offset, h, body);
            let size = 37 + h.key_size + h.val_size + h.meta_size;
            let there = idx.map.dom().contains(key);
            &&& h.flags & 1 != 0 ==> !after.map.dom().contains(key) && !after.ttl.dom().contains(
                key,
            ) && !after.valsep.dom().contains(key)
            &&& h.flags & 1 == 0 && h.flags & 4 != 0 ==> after.map == idx.map && after.valsep
                == idx.valsep && (!there ==> after == idx) && (there ==> (
            after.ttl.dom().contains(key) <==> h.flags & 2 == 0) && (h.flags & 2 == 0
                ==> after.ttl[key] == h.expires_at_ms))
            &&& h.flags & 1 == 0 && h.flags & 4 == 0 && size > 0xffff_ffff ==> after == idx
            &&& h.flags & 1 == 0 && h.flags & 4 == 0 && size <= 0xffff_ffff ==> {
                &&& after.map.dom().contains(key)
                &&& after.map[key].file_id == file_id && after.map[key].record_offset == offset
                &&& after.map[key].record_size == size && after.map[key].tstamp_ms == h.tstamp_ms
                &&& after.ttl.dom().contains(key) <==> h.flags & 2 == 0
                &&& h.flags & 2 == 0 ==> after.ttl[key] == h.expires_at_ms
                &&& after.valsep.dom().contains(key) <==> h.flags & 8 != 0 && h.val_size == 16
                &&& h.flags & 8 != 0 && h.val_size == 16 ==> after.valsep[key] == hash_of(
                    body.subrange(h.key_size as int, h.key_size + 16),
                )
            }
            &&& q != key ==> {
                &&& after.map.dom().contains(q) <==> idx.map.dom().contains(q)
                &&& after.ttl.dom().contains(q) <==> idx.ttl.dom().contains(q)
                &&& after.valsep.dom().contains(q) <==> idx.valsep.dom().contains(q)
                &&& after.map[q] == idx.map[q] && after.ttl[q] == idx.ttl[q] && after.valsep[q]
                    == idx.valsep[q]
            }
        }),
        ({
            let key = body.take(h.key_size as int);
            let after = marked(idx, h, body);
            &&& h.flags & 1 != 0 || h.flags & 4 != 0 ==> after == applied(
                idx,
                file_id,
                offset,
                h,
                body,
            )
            &&& h.flags & 1 == 0 && h.flags & 4 == 0 ==> after == idx
        }),
{
}

/// Which buffers serve: for a read one of exactly the size, for a write any that is large enough. A
/// pool takes one back where it is not larger than 64 KiB and the pool holds fewer than 32.
pub proof fn lemma_pool_rules(capacity: usize, size: usize, pooled: nat)
    ensures
        serves(Use::Read, capacity, size) <==> capacity == size,
        serves(Use::Write, capacity, size) <==> capacity >= size,
        capacity <= 65536 && pooled < 32 ==> pooled_after(pooled, capacity) == pooled + 1,
        capacity > 65536 || pooled >= 32 ==> pooled_after(pooled, capacity) == pooled,
{
}

/// A place in a file is reserved behind what is there, unless the file failed before.
pub proof fn lemma_file_places(f: LogFile, len: usize)
    requires
        f.write_offset + len <= u64::MAX,
    ensures
        f.poisoned ==> f.reserving(len).1 is Err && f.reserving(len).0 == f,
        !f.poisoned ==> (f.reserving(len).1 matches Ok(at) && at == f.write_offset) && f.reserving(
            len,
        ).0.write_offset == f.write_offset + len && f.reserving(len).0.file_id == f.file_id
            && !f.reserving(len).0.poisoned,
        f.failing().poisoned && f.failing().file_id == f.file_id && f.failing().write_offset
            == f.write_offset,
{
}

} // verus!
