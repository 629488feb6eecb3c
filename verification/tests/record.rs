//! Log records.
use beyond_kv::engine::error::EngineError;
use beyond_kv::engine::log::record::{
    encode, encode_into, flags, parse_header, verify_crc, HEADER_LEN,
};

#[test]
fn round_trip() {
    let buf = encode(123, 0, 999, b"key", b"value", b"meta").unwrap();
    let hdr = parse_header(&buf, 0).unwrap();
    assert_eq!(hdr.tstamp_ms, 123);
    assert_eq!(hdr.flags, 0);
    assert_eq!(hdr.expires_at_ms, 999);
    assert_eq!(hdr.key_size, 3);
    assert_eq!(hdr.val_size, 5);
    assert_eq!(hdr.meta_size, 4);
    assert_eq!(hdr.record_len(), buf.len());
    let body = &buf[HEADER_LEN..];
    verify_crc(&hdr, &buf[..HEADER_LEN], body, 0).unwrap();
    assert_eq!(&body[..3], b"key");
    assert_eq!(&body[3..8], b"value");
    assert_eq!(&body[8..12], b"meta");
}

#[test]
fn crc_mismatch_detected() {
    let mut buf = encode(1, 0, 0, b"k", b"v", b"").unwrap();
    // Flip a bit in the value.
    let val_offset = HEADER_LEN + 1;
    buf[val_offset] ^= 1;
    let hdr = parse_header(&buf, 0).unwrap();
    let body = &buf[HEADER_LEN..];
    let err = verify_crc(&hdr, &buf[..HEADER_LEN], body, 0).unwrap_err();
    assert!(matches!(err, EngineError::CrcMismatch { offset: 0 }));
}

#[test]
fn tombstone_is_zero_body() {
    let buf = encode(1, flags::TOMBSTONE, 0, b"k", b"", b"").unwrap();
    let hdr = parse_header(&buf, 0).unwrap();
    assert_eq!(hdr.flags & flags::TOMBSTONE, flags::TOMBSTONE);
    assert_eq!(hdr.val_size, 0);
    assert_eq!(hdr.meta_size, 0);
}

#[test]
fn ttl_update_carries_no_value() {
    let buf = encode(1, flags::TTL_UPDATE, 5000, b"k", b"", b"").unwrap();
    let hdr = parse_header(&buf, 0).unwrap();
    assert_eq!(hdr.flags & flags::TTL_UPDATE, flags::TTL_UPDATE);
    assert_eq!(hdr.expires_at_ms, 5000);
    assert_eq!(hdr.val_size, 0);
}

#[test]
fn header_that_is_cut_off_is_no_record() {
    let buf = encode(1, 0, 0, b"k", b"v", b"").unwrap();
    let err = parse_header(&buf[..HEADER_LEN - 1], 77).unwrap_err();
    assert!(matches!(err, EngineError::BadRecord { offset: 77, .. }));
}

#[test]
fn header_has_a_fixed_layout() {
    let buf = encode(0x0102_0304_0506_0708, 3, 9, b"key", b"value", b"m").unwrap();
    assert_eq!(buf.len(), HEADER_LEN + 3 + 5 + 1);
    assert_eq!(&buf[8..16], &[8, 7, 6, 5, 4, 3, 2, 1]);
    assert_eq!(buf[16], 3);
    assert_eq!(&buf[17..25], &9u64.to_le_bytes());
    assert_eq!(&buf[25..29], &3u32.to_le_bytes());
    assert_eq!(&buf[29..33], &5u32.to_le_bytes());
    assert_eq!(&buf[33..37], &1u32.to_le_bytes());
}

#[test]
fn checksum_is_crc64_nvme_over_the_rest() {
    let buf = encode(1, 0, 0, b"k", b"v", b"").unwrap();
    let want = crc_fast::checksum(crc_fast::CrcAlgorithm::Crc64Nvme, &buf[8..]);
    assert_eq!(&buf[..8], &want.to_le_bytes());
}

#[test]
fn records_are_appended_behind_each_other() {
    let mut buf = vec![1u8, 2, 3];
    encode_into(&mut buf, 5, 0, 0, b"a", b"b", b"").unwrap();
    let one = encode(5, 0, 0, b"a", b"b", b"").unwrap();
    assert_eq!(&buf[..3], &[1, 2, 3]);
    assert_eq!(&buf[3..], &one[..]);
}
