//! Log files and their footers.
use beyond_kv::engine::error::EngineError;
use beyond_kv::engine::log::file::{
    data_end_offset, data_filename, encode_footer, list_data_files, parse_data_filename,
    read_footer, reclaim_tmp_filename, FooterEntry, LogFile, FOOTER_TRAILER_LEN,
};

/// A file on disk beside what is known of it. A write may be made to fail.
struct OnDisk {
    file: LogFile,
    bytes: Vec<u8>,
    fail_next: bool,
}

impl OnDisk {
    fn append(&mut self, buf: &[u8]) -> Result<u64, EngineError> {
        let offset = self.file.reserve(buf.len())?;
        if self.fail_next {
            self.fail_next = false;
            self.file.poison();
            return Err(EngineError::Io { reason: "disk full" });
        }
        self.bytes.resize(offset as usize, 0);
        self.bytes.extend_from_slice(buf);
        Ok(offset)
    }
}

#[test]
fn failed_append_poisons_file_and_blocks_later_writes() {
    let mut f = OnDisk { file: LogFile::open(0, 0), bytes: Vec::new(), fail_next: false };

    let off_a = f.append(b"AAAA").unwrap();
    assert_eq!(off_a, 0);
    assert_eq!(f.bytes.len(), 4, "first record on disk");

    // Disk fills: this append reserves offset 4 and fails.
    f.fail_next = true;
    assert!(f.append(b"BBBB").is_err(), "disk-full write must error");

    // The file is now poisoned. A later write must NOT succeed at the
    // advanced offset (which would leave a gap at [4,8) shadowing it).
    let after = f.append(b"CCCC");
    assert!(
        after.is_err(),
        "poisoned file must reject writes — otherwise a later write shadows the torn slot on recovery"
    );
    // Nothing after the first record ever reached disk.
    assert_eq!(f.bytes.len(), 4, "no bytes written past the good prefix");
}

#[test]
fn truncation_sets_the_write_offset() {
    let mut f = LogFile::open(3, 10);
    assert_eq!(f.reserve(6).unwrap(), 10);
    assert_eq!(f.write_offset(), 16);
    f.truncate_to(10);
    assert_eq!(f.write_offset(), 10);
    assert_eq!(f.reserve(1).unwrap(), 10);
}

fn entry(key: &[u8], n: u64, hash: Option<[u8; 16]>) -> FooterEntry {
    FooterEntry {
        key: key.to_vec(),
        record_offset: n,
        record_size: 40,
        tstamp_ms: n + 1,
        expires_at_ms: if n % 2 == 0 { None } else { Some(n + 100) },
        value_hash: hash,
    }
}

fn sealed(data: &[u8], entries: &Vec<FooterEntry>) -> Vec<u8> {
    let (body, trailer) = encode_footer(entries);
    let mut image = data.to_vec();
    image.extend_from_slice(&body);
    image.extend_from_slice(&trailer);
    image
}

#[test]
fn footer_reads_back() {
    let entries = vec![entry(b"a", 0, None), entry(b"bc", 37, Some([5; 16]))];
    let image = sealed(&[1, 2, 3], &entries);
    let got = read_footer(&image).unwrap().unwrap();
    assert_eq!(got.len(), 2);
    assert_eq!(got[0].key, b"a");
    assert_eq!(got[0].value_hash, None);
    assert_eq!(got[1].key, b"bc");
    assert_eq!(got[1].record_offset, 37);
    assert_eq!(got[1].expires_at_ms, Some(137));
    assert_eq!(got[1].value_hash, Some([5; 16]));
}

#[test]
fn file_without_footer_has_none() {
    assert!(read_footer(b"").unwrap().is_none());
    assert!(read_footer(&[7u8; 100]).unwrap().is_none());
}

#[test]
fn corrupt_footer_is_found_out() {
    let image = sealed(&[1, 2, 3], &vec![entry(b"a", 0, None)]);
    let mut bad = image.clone();
    bad[3] ^= 1;
    assert!(matches!(read_footer(&bad), Err(EngineError::CrcMismatch { .. })));
    let mut long = image.clone();
    let n = long.len();
    // The stored body length reaches beyond the start of the file.
    for i in 0..8 {
        long[n - 16 + i] = 0xff;
    }
    assert!(!matches!(read_footer(&long), Ok(Some(_))));
}

#[test]
fn data_ends_where_the_footer_begins() {
    let image = sealed(&[1, 2, 3, 4, 5], &vec![entry(b"a", 0, None)]);
    let n = image.len();
    let trailer = &image[n - FOOTER_TRAILER_LEN as usize..];
    assert_eq!(data_end_offset(n as u64, Some(trailer)), 5);
    assert_eq!(data_end_offset(7, None), 7);
}

#[test]
fn data_files_are_named_by_number() {
    assert_eq!(data_filename(42), "data-0000000042.log");
    assert_eq!(data_filename(u32::MAX), "data-4294967295.log");
    assert_eq!(reclaim_tmp_filename(42), "data-0000000042.log.tmp");
    assert_eq!(parse_data_filename(b"data-0000000042.log"), Some(42));
    assert_eq!(parse_data_filename(b"data-.log"), None);
    assert_eq!(parse_data_filename(b"data-4294967296.log"), None);
    assert_eq!(parse_data_filename(b"blob-0000000042.log"), None);
}

#[test]
fn data_files_are_listed_in_order() {
    let names: Vec<Vec<u8>> = vec![
        b"data-0000000010.log".to_vec(),
        b"values".to_vec(),
        b"data-0000000002.log".to_vec(),
        reclaim_tmp_filename(3).into_bytes(),
    ];
    assert_eq!(list_data_files(&names), vec![(2, 2), (10, 0)]);
}

#[test]
fn data_files_sort_by_name_as_by_id() {
    let ids = [0u32, 1, 9, 10, 11, 99, 100, 4_294_967, 999_999_999, 1_000_000_000, u32::MAX];
    for a in ids {
        let x = data_filename(a);
        assert_eq!(x.len(), 19);
        for b in ids {
            assert_eq!(x.as_bytes() < data_filename(b).as_bytes(), a < b, "{a} and {b}");
        }
    }
}

#[test]
fn a_failed_write_shuts_the_file_for_good() {
    let mut f = LogFile::open(7, u64::MAX - 4);
    assert_eq!(f.reserve(4).unwrap(), u64::MAX - 4);
    f.poison();
    for len in [0usize, 1, 4096, usize::MAX] {
        assert!(matches!(
            f.reserve(len),
            Err(EngineError::Io { reason: "log file poisoned after prior write error" })
        ));
        assert_eq!(f.write_offset(), u64::MAX);
    }
}
