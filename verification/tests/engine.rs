//! Logs and stores over an in-memory disk: each operation runs the library's steps and does on the
//! disk what they ask for.
use std::collections::{BTreeMap, BTreeSet};

use beyond_kv::engine::error::EngineError;
use beyond_kv::engine::glob::glob_match;
use beyond_kv::engine::log::clock::now_ms;
use beyond_kv::engine::log::config::LogConfig;
use beyond_kv::engine::log::file::{
    data_end_offset, read_footer, FOOTER_TRAILER_LEN,
};
use beyond_kv::engine::log::index::IndexEntry;
use beyond_kv::engine::log::read::{
    blob_wanted, bulk_read, current_events, deref, finish_scan, read_value, scan_since, Fetched,
    Miss,
};
use beyond_kv::engine::log::reclaim::{reclaim_namespace, Live, Merge, ReclaimReport};
use beyond_kv::engine::log::record::{encode, encode_into, flags};
use beyond_kv::engine::log::write::{
    put_many_stripes, stripe_idx, stripe_set, Batch, PendingPut, PendingTombstone, Place,
    WriteCondition,
};
use beyond_kv::engine::log::NamespaceLog;
use beyond_kv::engine::store::{
    cache_key, expiry_at, is_valid_ns_name, ns_name, GetStep, ShardStore, DEFAULT_NS,
};
use beyond_kv::engine::types::{Entry, SetOptions, TtlResult};
use beyond_kv::engine::value_store::{blob_filename, content_hash, ContentHash};
use beyond_kv::engine::watch::{KeyFilter, WatchEvent};

type Res<T> = Result<T, EngineError>;

/// The directory of a namespace.
#[derive(Clone, Default)]
struct Disk {
    files: BTreeMap<u32, Vec<u8>>,
    blobs: BTreeMap<Vec<u8>, Vec<u8>>,
    /// How often a data file was created.
    created: usize,
    /// The next write of a record fails.
    fail_next: bool,
}

impl Disk {
    fn create(&mut self, id: u32) {
        self.files.insert(id, Vec::new());
        self.created += 1;
    }

    fn write(&mut self, place: &Place, bytes: &[u8]) -> bool {
        if self.fail_next {
            self.fail_next = false;
            return false;
        }
        let file = self.files.get_mut(&place.file_id).unwrap();
        file.resize(place.offset as usize, 0);
        file.extend_from_slice(bytes);
        true
    }

    fn blob(&self, h: &ContentHash) -> Res<Vec<u8>> {
        let b = self.blobs.get(blob_filename(h).as_bytes());
        b.cloned().ok_or(EngineError::Io { reason: "no such file" })
    }

    fn end_of_data(&self, id: u32) -> u64 {
        let image = &self.files[&id];
        let n = image.len();
        let t = FOOTER_TRAILER_LEN as usize;
        data_end_offset(n as u64, if n >= t { Some(&image[n - t..]) } else { None })
    }
}

fn open_log(disk: &mut Disk, cfg: LogConfig) -> Res<NamespaceLog> {
    let files: Vec<(u32, Vec<u8>)> = disk.files.iter().map(|(id, b)| (*id, b.clone())).collect();
    let (log, opening) = NamespaceLog::open(&files, cfg)?;
    if opening.fresh {
        disk.create(log.active.file_id);
    }
    if let Some(cut) = opening.cut {
        disk.files.get_mut(&log.active.file_id).unwrap().truncate(cut as usize);
    }
    let names: Vec<Vec<u8>> = disk.blobs.keys().cloned().collect();
    for i in log.values.sweep_orphans(&names) {
        disk.blobs.remove(&names[i]);
    }
    Ok(log)
}

fn write_blob(disk: &mut Disk, p: &PendingPut, value: &[u8]) {
    if p.write_blob {
        disk.blobs.insert(blob_filename(&p.hash.unwrap()).into_bytes(), value.to_vec());
    }
}

fn finish_put(log: &mut NamespaceLog, disk: &mut Disk, p: PendingPut, value: &[u8], meta: &[u8]) -> Res<u64> {
    write_blob(disk, &p, value);
    let (place, bytes) = log.put_record(&p, value, meta)?;
    if !disk.write(&place, &bytes) {
        log.put_failed(&p, &place);
        return Err(EngineError::Io { reason: "disk full" });
    }
    let (rev, rotate) = log.put_done(&p, &place);
    if rotate {
        rotate_active(log, disk)?;
    }
    Ok(rev)
}

fn put(log: &mut NamespaceLog, disk: &mut Disk, key: &[u8], value: &[u8], meta: &[u8], exp: Option<u64>) -> Res<u64> {
    log.begin_write()?;
    let p = log.put_full(key.to_vec(), value, exp, now_ms());
    let r = finish_put(log, disk, p, value, meta);
    log.end_write();
    r
}

fn put_cond(log: &mut NamespaceLog, disk: &mut Disk, key: &[u8], value: &[u8], cond: WriteCondition) -> Res<Option<u64>> {
    log.begin_write()?;
    let now = now_ms();
    let r = match log.put_full_cond(key.to_vec(), value, None, cond, now, now) {
        Some(p) => finish_put(log, disk, p, value, &[]).map(Some),
        None => Ok(None),
    };
    log.end_write();
    r
}

fn put_many(log: &mut NamespaceLog, disk: &mut Disk, pairs: &[(Vec<u8>, Vec<u8>)]) -> Res<Vec<u64>> {
    log.begin_write()?;
    let mut batch = Batch::new();
    for (k, v) in pairs {
        let p = log.put_full(k.clone(), v, None, now_ms());
        write_blob(disk, &p, v);
        batch.add(p, v)?;
    }
    let place = log.put_many(&batch)?;
    if !disk.write(&place, &batch.buf) {
        log.put_many_failed(&batch, &place);
        log.end_write();
        return Err(EngineError::Io { reason: "disk full" });
    }
    let (revs, rotate) = log.put_many_done(&batch, &place);
    if rotate {
        rotate_active(log, disk)?;
    }
    log.end_write();
    Ok(revs)
}

fn finish_tombstone(log: &mut NamespaceLog, disk: &mut Disk, p: &PendingTombstone) -> Res<()> {
    let (place, bytes) = log.tombstone_record(p)?;
    if !disk.write(&place, &bytes) {
        log.append_failed(&place);
        return Err(EngineError::Io { reason: "disk full" });
    }
    log.tombstone_done(p, &place);
    Ok(())
}

fn tombstone(log: &mut NamespaceLog, disk: &mut Disk, key: &[u8]) -> Res<bool> {
    match log.tombstone(key, now_ms()) {
        Some(p) => finish_tombstone(log, disk, &p).map(|()| true),
        None => Ok(false),
    }
}

fn ttl_update(log: &mut NamespaceLog, disk: &mut Disk, key: &[u8], exp: Option<u64>) -> Res<u64> {
    let p = log.ttl_update(key, exp, now_ms());
    let (place, bytes) = log.ttl_record(&p)?;
    if !disk.write(&place, &bytes) {
        log.append_failed(&place);
        return Err(EngineError::Io { reason: "disk full" });
    }
    Ok(log.ttl_done(&p, &place))
}

fn rotate_active(log: &mut NamespaceLog, disk: &mut Disk) -> Res<()> {
    if let Some((place, bytes)) = log.rotate_active()? {
        assert!(disk.write(&place, &bytes));
        let id = log.reopen_active_after_seal()?;
        disk.create(id);
        log.active_opened(id, 0);
    }
    Ok(())
}

fn record_at(log: &NamespaceLog, disk: &Disk, e: &IndexEntry) -> Res<Vec<u8>> {
    let id = log.read_record(e)?;
    let (a, b) = (e.record_offset as usize, e.record_offset as usize + e.record_size as usize);
    let bytes = disk.files[&id].get(a..b);
    bytes.map(|s| s.to_vec()).ok_or(EngineError::Io { reason: "short read" })
}

fn read(log: &NamespaceLog, disk: &Disk, e: &IndexEntry) -> Res<(Vec<u8>, Vec<u8>)> {
    match read_value(&record_at(log, disk, e)?)? {
        Fetched::Inline { value, metadata } => Ok((value, metadata)),
        Fetched::Blob { hash, metadata } => Ok((deref(&hash, disk.blob(&hash)?)?, metadata)),
    }
}

fn miss(log: &NamespaceLog, disk: &Disk, slot: usize, e: &IndexEntry) -> Miss {
    let record = record_at(log, disk, e);
    let blob = match &record {
        Ok(b) => blob_wanted(b).map(|h| disk.blob(&h)),
        Err(_) => None,
    };
    Miss { slot, record, blob }
}

fn sync(log: &mut NamespaceLog, disk: &mut Disk) {
    for h in log.sync() {
        if log.values.is_garbage(&h) {
            disk.blobs.remove(blob_filename(&h).as_bytes());
        }
    }
}

/// Seals the active file and merges what is due, once the namespace is taken.
fn reclaim_inner(log: &mut NamespaceLog, disk: &mut Disk) -> Res<ReclaimReport> {
    let (place, bytes) = log.seal_active_for_shutdown()?;
    assert!(disk.write(&place, &bytes));
    log.reclaim_sealed();
    let mut report = ReclaimReport::new();
    while let Some(merge) = log.reclaim()? {
        let mut records = Vec::new();
        for l in &merge.live {
            records.push(record_at(log, disk, &l.entry)?);
        }
        let images: Vec<Vec<u8>> = merge.ids.iter().map(|id| disk.files[id].clone()).collect();
        let carried = log.carry(&merge, &images);
        let merged = reclaim_namespace(merge.next_id, &merge.live, &records, &carried);
        disk.files.insert(merge.next_id, merged.image.clone());
        for id in &merge.ids {
            disk.files.remove(id);
        }
        report.add_merge(&merge, &merged, &vec![true; merge.ids.len()]);
        log.reclaim_done(&merge, &merged, merged.image.len() as u64);
    }
    let id = log.next_file_id()?;
    disk.create(id);
    log.active_opened(id, 0);
    report.new_file_id = id;
    Ok(report)
}

fn reclaim(log: &mut NamespaceLog, disk: &mut Disk) -> Res<ReclaimReport> {
    log.begin_exclusive()?;
    assert!(log.drained());
    let r = reclaim_inner(log, disk);
    log.end_exclusive();
    r
}

fn flush(log: &mut NamespaceLog, disk: &mut Disk) -> Res<u64> {
    log.begin_exclusive()?;
    assert!(log.drained());
    let rev = log.flush(now_ms());
    disk.files.clear();
    disk.blobs.clear();
    disk.create(0);
    log.active_opened(0, 0);
    log.end_exclusive();
    Ok(rev)
}

fn catch_up(log: &NamespaceLog, disk: &Disk, filter: &KeyFilter<'_>, since: u64) -> Vec<WatchEvent> {
    let files: Vec<(Vec<u8>, u64)> = log
        .scan_order()
        .iter()
        .map(|f| (disk.files[&f.file_id].clone(), disk.end_of_data(f.file_id)))
        .collect();
    let changes = scan_since(&files, filter, since);
    let blobs: Vec<Option<Vec<u8>>> =
        changes.iter().map(|c| c.blob.and_then(|h| disk.blob(&h).ok())).collect();
    finish_scan(changes, &blobs)
}

fn live_state(log: &NamespaceLog, disk: &Disk) -> BTreeMap<Vec<u8>, Vec<u8>> {
    log.index.iter().iter().map(|(k, e)| (k.clone(), read(log, disk, e).unwrap().0)).collect()
}

fn entry_of(log: &NamespaceLog, key: &[u8]) -> IndexEntry {
    *log.index.get(key).unwrap()
}

fn key(i: usize) -> Vec<u8> {
    format!("k{i:05}").into_bytes()
}

fn cfg(rotate_threshold: u64, fanout: usize, value_sep_threshold: usize) -> LogConfig {
    LogConfig { rotate_threshold, fanout, value_sep_threshold }
}

// --- size-tiered reclaim ---

fn write_batch(log: &mut NamespaceLog, disk: &mut Disk, lo: usize, hi: usize) {
    let val = vec![b'a'; 1000];
    for i in lo..hi {
        put(log, disk, &key(i), &val, &[], None).unwrap();
    }
}

fn sealed_ids(log: &NamespaceLog) -> BTreeSet<u32> {
    log.sealed.iter().map(|r| r.file.file_id).collect()
}

#[test]
fn reclaim_does_not_rewrite_base_each_reclaim() {
    let mut disk = Disk::default();
    let mut log = open_log(&mut disk, cfg(4096, 4, 128 * 1024)).unwrap();

    write_batch(&mut log, &mut disk, 0, 30);
    assert!(log.sealed_file_count() >= 4, "batch should seal >= fanout level-0 runs");
    reclaim(&mut log, &mut disk).unwrap();
    let base = sealed_ids(&log);
    assert_eq!(base.len(), 1, "level-0 runs merge into one level-1 base run");

    write_batch(&mut log, &mut disk, 30, 60);
    reclaim(&mut log, &mut disk).unwrap();
    let after = sealed_ids(&log);

    assert!(
        base.is_subset(&after),
        "tiered must leave the base run untouched (not re-upload it): base={base:?} after={after:?}"
    );
    assert_eq!(after.len(), 2, "two level-1 runs (< fanout) — no base re-merge");
    assert_eq!(log.len(), 60, "all keys live through tiered merges");
}

#[test]
fn reclaim_write_amp_beats_full_merge() {
    let mut disk = Disk::default();
    let mut log = open_log(&mut disk, cfg(4096, 4, 128 * 1024)).unwrap();
    write_batch(&mut log, &mut disk, 0, 200); // base live set
    reclaim(&mut log, &mut disk).unwrap(); // fold base into a level-1 run
    let live_set_bytes = log.compaction_bytes; // ~one full live-set rewrite
    log.compaction_bytes = 0; // measure the churn phase only

    let reclaims = 12usize;
    for r in 0..reclaims {
        let lo = (r * 16) % 200;
        write_batch(&mut log, &mut disk, lo, lo + 16); // overwrite 16 existing keys
        reclaim(&mut log, &mut disk).unwrap();
    }
    let tiered = log.compaction_bytes;
    // Full-merge would rewrite the entire live set on every reclaim.
    let full_merge = live_set_bytes * reclaims as u64;
    assert!(
        tiered * 2 < full_merge,
        "tiered must rewrite far less: tiered={tiered} full-merge={full_merge}"
    );
}

// --- value separation ---

#[test]
fn large_value_is_separated_and_reads_back() {
    let mut disk = Disk::default();
    let mut log = open_log(&mut disk, cfg(1 << 30, 8, 4096)).unwrap();

    let big = vec![0xABu8; 64 * 1024]; // 64 KiB > 4 KiB threshold
    put(&mut log, &mut disk, &key(0), &big, &[], None).unwrap();

    assert_eq!(log.values.blob_count(), 1, "value went to the blob store");
    let entry = entry_of(&log, b"k00000");
    assert!(
        (entry.record_size as usize) < 4096,
        "log record is a tiny pointer, not the 64 KiB value: {} bytes",
        entry.record_size
    );
    let (v, _m) = read(&log, &disk, &entry).unwrap();
    assert_eq!(v, big, "GET derefs the blob and returns the value");

    // A small value stays inline (no new blob).
    put(&mut log, &mut disk, &key(1), b"small", &[], None).unwrap();
    assert_eq!(log.values.blob_count(), 1, "small value stays inline");
}

fn churn(threshold: usize) -> (u64, usize) {
    let mut disk = Disk::default();
    let mut log = open_log(&mut disk, cfg(64 * 1024, 4, threshold)).unwrap();
    let n = 60usize;
    let v0 = vec![0xCDu8; 32 * 1024];
    for i in 0..n {
        put(&mut log, &mut disk, &key(i), &v0, &[], None).unwrap();
    }
    reclaim(&mut log, &mut disk).unwrap();
    log.compaction_bytes = 0; // measure the churn phase only
    for r in 0..10u8 {
        let vr = vec![r; 32 * 1024]; // new content each round
        for i in 0..n {
            put(&mut log, &mut disk, &key(i), &vr, &[], None).unwrap();
        }
        reclaim(&mut log, &mut disk).unwrap();
    }
    // all n keys still readable through the blob deref
    for i in 0..n {
        let e = entry_of(&log, &key(i));
        assert_eq!(read(&log, &disk, &e).unwrap().0.len(), 32 * 1024);
    }
    (log.compaction_bytes, log.values.blob_count())
}

#[test]
fn compaction_moves_only_pointers_not_values() {
    let (vs_bytes, vs_blobs) = churn(4096); // value-separated
    let (inline_bytes, _) = churn(usize::MAX); // everything inline
    assert!(
        vs_bytes * 5 < inline_bytes,
        "value-sep must move far fewer compaction bytes: vs={vs_bytes} inline={inline_bytes}"
    );
    assert!(vs_blobs <= 2, "identical per-round values dedup to ~1 blob, got {vs_blobs}");
}

/// Churns `n` 32 KiB values across `rounds` reclaims; returns the cumulative compaction bytes after
/// each round.
fn sweep(threshold: usize, rounds: usize) -> Vec<u64> {
    let mut disk = Disk::default();
    let mut log = open_log(&mut disk, cfg(64 * 1024, 4, threshold)).unwrap();
    let n = 60usize;
    let v0 = vec![0xCDu8; 32 * 1024];
    for i in 0..n {
        put(&mut log, &mut disk, &key(i), &v0, &[], None).unwrap();
    }
    reclaim(&mut log, &mut disk).unwrap();
    log.compaction_bytes = 0; // measure only the churn phase
    let mut series = Vec::with_capacity(rounds);
    for r in 0..rounds {
        let vr = vec![r as u8; 32 * 1024]; // new content each round
        for i in 0..n {
            put(&mut log, &mut disk, &key(i), &vr, &[], None).unwrap();
        }
        reclaim(&mut log, &mut disk).unwrap();
        series.push(log.compaction_bytes);
    }
    series
}

#[test]
fn writeamp_sweep_csv() {
    let rounds = 15usize;
    let inline = sweep(usize::MAX, rounds); // baseline: values inline
    let vsep = sweep(4096, rounds); // value separation on
    println!("WRITEAMP_CSV_START");
    println!("round,inline_mib,valuesep_mib");
    for r in 0..rounds {
        println!(
            "{},{:.4},{:.4}",
            r + 1,
            inline[r] as f64 / 1048576.0,
            vsep[r] as f64 / 1048576.0
        );
    }
    println!("WRITEAMP_CSV_END");
    let (ti, tv) = (inline[rounds - 1], vsep[rounds - 1]);
    println!(
        "TOTAL inline={:.2} MiB  valuesep={:.4} MiB  ratio={:.0}x",
        ti as f64 / 1048576.0,
        tv as f64 / 1048576.0,
        ti as f64 / tv.max(1) as f64
    );
    assert!(inline.windows(2).all(|w| w[0] <= w[1]));
    assert!(tv < ti);
}

#[test]
fn overwrite_and_delete_gc_the_blob() {
    let mut disk = Disk::default();
    let mut log = open_log(&mut disk, cfg(1 << 30, 8, 4096)).unwrap();

    put(&mut log, &mut disk, &key(0), &vec![1u8; 8192], &[], None).unwrap();
    assert_eq!(log.values.blob_count(), 1);
    // overwrite with different content -> old blob GC'd, one blob remains
    put(&mut log, &mut disk, &key(0), &vec![2u8; 8192], &[], None).unwrap();
    assert_eq!(log.values.blob_count(), 1, "old blob reclaimed on overwrite");
    // delete -> blob GC'd
    tombstone(&mut log, &mut disk, b"k00000").unwrap();
    assert_eq!(log.values.blob_count(), 0, "blob reclaimed on delete");
}

#[test]
fn separated_values_survive_reopen() {
    let mut disk = Disk::default();
    let c = cfg(1 << 30, 8, 4096);
    let big = vec![0x5Au8; 100 * 1024];
    {
        let mut log = open_log(&mut disk, c).unwrap();
        put(&mut log, &mut disk, &key(0), &big, &[], None).unwrap();
        reclaim(&mut log, &mut disk).unwrap(); // seal -> footer carries the value hash
    }
    // Reopen from disk.
    let mut log = open_log(&mut disk, c).unwrap();
    let e = entry_of(&log, b"k00000");
    assert_eq!(read(&log, &disk, &e).unwrap().0, big, "value reads back after reopen");
    assert_eq!(log.values.refcount(&content_hash(&big)), 1, "refcount rebuilt from footer");
    // Overwrite -> the rebuilt refcount lets the inherited blob GC.
    put(&mut log, &mut disk, &key(0), &vec![9u8; 100 * 1024], &[], None).unwrap();
    assert_eq!(
        log.values.refcount(&content_hash(&big)),
        0,
        "old blob unref'd after reopen+overwrite"
    );
}

#[test]
fn separated_values_survive_crash_recovery() {
    let mut disk = Disk::default();
    let c = cfg(1 << 30, 8, 4096);
    let big = vec![0x33u8; 100 * 1024];
    {
        let mut log = open_log(&mut disk, c).unwrap();
        put(&mut log, &mut disk, &key(0), &big, &[], None).unwrap();
        // Drop WITHOUT sealing -> active file has no footer (a crash).
    }
    let mut log = open_log(&mut disk, c).unwrap();
    let e = entry_of(&log, b"k00000");
    assert_eq!(read(&log, &disk, &e).unwrap().0, big, "reads back after crash recovery");
    assert_eq!(
        log.values.refcount(&content_hash(&big)),
        1,
        "refcount rebuilt from the record scan, not a footer"
    );
    put(&mut log, &mut disk, &key(0), &vec![0x44u8; 100 * 1024], &[], None).unwrap();
    assert_eq!(
        log.values.refcount(&content_hash(&big)),
        0,
        "sidecar from scan let the old blob GC on overwrite"
    );
}

#[test]
fn mset_separates_large_values() {
    let mut disk = Disk::default();
    let mut log = open_log(&mut disk, cfg(1 << 30, 8, 4096)).unwrap();
    let big1 = vec![1u8; 8192];
    let big2 = vec![2u8; 8192];
    let small = b"inline".to_vec();
    put_many(
        &mut log,
        &mut disk,
        &[(key(0), big1.clone()), (key(1), big2.clone()), (key(2), small.clone())],
    )
    .unwrap();
    assert_eq!(
        log.values.blob_count(),
        2,
        "two distinct large values separated; small stays inline"
    );
    for (k, want) in [(0usize, &big1), (1, &big2), (2, &small)] {
        let e = entry_of(&log, &key(k));
        assert_eq!(read(&log, &disk, &e).unwrap().0, *want, "MSET value {k} reads back");
    }
    // Rewrite key0 in a later MSET with new content -> old blob GC'd.
    let big1b = vec![9u8; 8192];
    put_many(&mut log, &mut disk, &[(key(0), big1b)]).unwrap();
    assert_eq!(log.values.refcount(&content_hash(&big1)), 0, "old MSET blob reclaimed");
    assert_eq!(log.values.blob_count(), 2, "key0's new blob + key1's blob");
}

#[test]
fn shared_blob_not_deleted_while_referenced() {
    let mut disk = Disk::default();
    let mut log = open_log(&mut disk, cfg(1 << 30, 8, 4096)).unwrap();
    let v = vec![7u8; 8192];
    put(&mut log, &mut disk, &key(0), &v, &[], None).unwrap();
    put(&mut log, &mut disk, &key(1), &v, &[], None).unwrap(); // identical content
    assert_eq!(log.values.blob_count(), 1, "identical content dedups to one blob");
    assert_eq!(log.values.refcount(&content_hash(&v)), 2);

    tombstone(&mut log, &mut disk, b"k00000").unwrap(); // delete ONE referencing key
    sync(&mut log, &mut disk);
    assert_eq!(log.values.blob_count(), 1, "blob survives — k1 still references it");
    let e = entry_of(&log, b"k00001");
    assert_eq!(read(&log, &disk, &e).unwrap().0, v, "surviving key still reads");

    tombstone(&mut log, &mut disk, b"k00001").unwrap(); // delete the last reference
    assert_eq!(log.values.blob_count(), 0, "blob reclaimed only after last reference drops");
    sync(&mut log, &mut disk);
    assert!(disk.blobs.is_empty());
}

#[test]
fn cas_large_value_gc_and_abort_unref() {
    let mut disk = Disk::default();
    let mut log = open_log(&mut disk, cfg(1 << 30, 8, 4096)).unwrap();
    let v1 = vec![1u8; 8192];
    // SETNX-style on an absent key: writes + separates.
    assert!(put_cond(&mut log, &mut disk, &key(0), &v1, WriteCondition::KeyAbsent)
        .unwrap()
        .is_some());
    assert_eq!(log.values.blob_count(), 1);
    let rev = entry_of(&log, b"k00000").tstamp_ms;

    // CAS with matching revision: overwrites, old blob GC'd.
    let v2 = vec![2u8; 8192];
    assert!(put_cond(&mut log, &mut disk, &key(0), &v2, WriteCondition::Revision(rev))
        .unwrap()
        .is_some());
    assert_eq!(log.values.refcount(&content_hash(&v1)), 0, "old blob GC'd on successful CAS");
    assert_eq!(log.values.refcount(&content_hash(&v2)), 1);

    // CAS with a stale revision: aborts. The blob it wrote must be unref'd.
    let v3 = vec![3u8; 8192];
    assert!(put_cond(&mut log, &mut disk, &key(0), &v3, WriteCondition::Revision(rev))
        .unwrap()
        .is_none());
    assert_eq!(
        log.values.refcount(&content_hash(&v3)),
        0,
        "aborted CAS unref'd its blob — no leak"
    );
    assert_eq!(log.values.blob_count(), 1, "only v2's blob remains");
}

// --- crash consistency ---

#[derive(Clone)]
enum Op {
    Put { k: u8, val: Vec<u8>, large: bool },
    Del { k: u8 },
}

fn kb(k: u8) -> Vec<u8> {
    format!("k{k}").into_bytes()
}

fn big(b: u8) -> Vec<u8> {
    vec![b; 512] // >= threshold -> value-separated
}

/// The state after the operations whose record ends at or before `t`.
fn prefix_state(ops: &[Op], ends: &[u64], t: u64) -> BTreeMap<u8, (Vec<u8>, bool)> {
    let mut state: BTreeMap<u8, (Vec<u8>, bool)> = BTreeMap::new();
    for (op, end) in ops.iter().zip(ends.iter()) {
        if *end > t {
            break;
        }
        match op {
            Op::Put { k, val, large } => {
                state.insert(*k, (val.clone(), *large));
            }
            Op::Del { k } => {
                state.remove(k);
            }
        }
    }
    state
}

/// Recovers from a crashed disk and compares with the expected state.
fn check_recovery(mut crash: Disk, c: LogConfig, state: &BTreeMap<u8, (Vec<u8>, bool)>, what: &str) {
    let log = open_log(&mut crash, c).unwrap();

    // (1) recovered key set == expected prefix key set
    let recovered: BTreeSet<Vec<u8>> = log.index.iter().iter().map(|(k, _)| k.clone()).collect();
    let expected: BTreeSet<Vec<u8>> = state.keys().map(|k| kb(*k)).collect();
    assert_eq!(recovered, expected, "key set mismatch at {what}");

    // (2) every surviving key reads its correct value (deref => blob
    //     present => no dangling pointer)
    for (k, (val, _large)) in state {
        let e = entry_of(&log, &kb(*k));
        let got = read(&log, &crash, &e)
            .unwrap_or_else(|err| panic!("DANGLING/corrupt read for k{k} at {what}: {err:?}"));
        assert_eq!(&got.0, val, "value mismatch k{k} at {what}");
    }

    // (3) blob count == distinct live large values (orphans swept => no leak)
    let want: BTreeSet<ContentHash> =
        state.values().filter(|(_, large)| *large).map(|(v, _)| content_hash(v)).collect();
    assert_eq!(log.values.blob_count(), want.len(), "blob leak/missing at {what}");
    assert_eq!(crash.blobs.len(), want.len(), "orphans left at {what}");
}

#[test]
fn exhaustive_tail_truncation_is_consistent() {
    let mut disk = Disk::default();
    let c = cfg(1 << 40, 8, 256);
    let ops = [
        Op::Put { k: 0, val: big(0xA1), large: true },
        Op::Put { k: 1, val: b"s1".to_vec(), large: false },
        // ---- fsync here: everything above is durable ----
        Op::Put { k: 0, val: big(0xB2), large: true }, // overwrite k0 (old A blob deferred)
        Op::Put { k: 2, val: big(0xC3), large: true },
        Op::Del { k: 1 },
        Op::Put { k: 3, val: b"s3".to_vec(), large: false },
    ];
    let fsync_after = 2usize;

    let mut ends: Vec<u64> = Vec::new();
    let mut fsync_offset = 0u64;
    {
        let mut log = open_log(&mut disk, c).unwrap();
        for (i, op) in ops.iter().enumerate() {
            match op {
                Op::Put { k, val, .. } => {
                    put(&mut log, &mut disk, &kb(*k), val, &[], None).unwrap();
                }
                Op::Del { k } => {
                    tombstone(&mut log, &mut disk, &kb(*k)).unwrap();
                }
            }
            ends.push(log.active.write_offset());
            if i + 1 == fsync_after {
                sync(&mut log, &mut disk);
                fsync_offset = log.active.write_offset();
            }
        }
        // Deliberately NO final sync: ops after `fsync_after` are the
        // crash-vulnerable un-fsynced tail.
    }

    let data = disk.files[&0].clone();
    for t in (fsync_offset as usize)..=data.len() {
        let mut crash = disk.clone();
        crash.files.insert(0, data[..t].to_vec());
        let state = prefix_state(&ops, &ends, t as u64);
        check_recovery(crash, c, &state, &format!("truncation t={t}"));
    }
}

#[test]
fn corruption_truncates_at_bad_record_keeping_prefix() {
    let mut disk = Disk::default();
    let c = cfg(1 << 40, 8, 256);
    let ops = [
        Op::Put { k: 0, val: big(0xA1), large: true },
        Op::Put { k: 1, val: big(0xB2), large: true },
        Op::Put { k: 2, val: b"s2".to_vec(), large: false },
        Op::Put { k: 3, val: big(0xC3), large: true },
    ];
    let mut ends: Vec<u64> = Vec::new();
    {
        let mut log = open_log(&mut disk, c).unwrap();
        for op in &ops {
            if let Op::Put { k, val, .. } = op {
                put(&mut log, &mut disk, &kb(*k), val, &[], None).unwrap();
            }
            ends.push(log.active.write_offset());
        }
        sync(&mut log, &mut disk); // everything durable
    }
    let data = disk.files[&0].clone();

    for i in 0..ops.len() {
        let start = if i == 0 { 0 } else { ends[i - 1] as usize };
        let pos = (start + ends[i] as usize) / 2; // a byte inside record i
        let mut corrupt = data.clone();
        corrupt[pos] ^= 0xFF;
        let mut crash = disk.clone();
        crash.files.insert(0, corrupt);
        // Expected: only records strictly before the corrupted one survive.
        let state = prefix_state(&ops[..i], &ends, u64::MAX);
        check_recovery(crash, c, &state, &format!("corrupted record {i}"));
    }
}

#[test]
fn torn_footer_falls_back_to_scan_across_files() {
    let mut disk = Disk::default();
    let c = cfg(1 << 40, 8, 256);
    let ops = [
        Op::Put { k: 0, val: big(0xD1), large: true },
        Op::Put { k: 1, val: b"s1".to_vec(), large: false },
        Op::Put { k: 2, val: big(0xE2), large: true },
        Op::Put { k: 3, val: big(0xF3), large: true },
    ];
    let mut ends: Vec<u64> = Vec::new();
    let records_end;
    {
        let mut log = open_log(&mut disk, c).unwrap();
        for op in &ops {
            if let Op::Put { k, val, .. } = op {
                put(&mut log, &mut disk, &kb(*k), val, &[], None).unwrap();
            }
            ends.push(log.active.write_offset());
        }
        records_end = log.active.write_offset();
        reclaim(&mut log, &mut disk).unwrap(); // seal file 0 (records + footer), open active file 1
    }
    // The reclaim footered file 0 and created an empty active file 1.
    let sealed = disk.files[&0].clone();
    assert!(sealed.len() as u64 > records_end, "footer was appended past the records");
    assert!(
        disk.files.contains_key(&1),
        "reclaim opened a new active file (multi-file layout)"
    );

    // Cut from late in the last record through the entire footer region.
    let lo = (records_end as usize).saturating_sub(40);
    for t in lo..=sealed.len() {
        let mut crash = disk.clone();
        crash.files.insert(0, sealed[..t].to_vec());
        crash.files.insert(1, Vec::new()); // empty active (highest id)
        // Records fully below the cut survive the scan; a cut in the footer
        // region (t >= records_end) keeps all records.
        let state = prefix_state(&ops, &ends, t as u64);
        check_recovery(crash, c, &state, &format!("footer cut t={t}"));
    }
}

// --- concurrency ---

/// What a task has under way.
enum Work {
    Idle,
    Staged { stripe: usize, p: PendingPut, val: Vec<u8> },
    Placed { stripe: usize, p: PendingPut, place: Place, bytes: Vec<u8> },
    Dying { stripe: usize, p: PendingTombstone },
}

fn stripe_held(w: &Work) -> Option<usize> {
    match w {
        Work::Idle => None,
        Work::Staged { stripe, .. } => Some(*stripe),
        Work::Placed { stripe, .. } => Some(*stripe),
        Work::Dying { stripe, .. } => Some(*stripe),
    }
}

#[test]
fn concurrent_mixed_writes_recover_to_runtime_state() {
    let mut disk = Disk::default();
    let c = cfg(1 << 40, 8, 4096);
    let mut log = open_log(&mut disk, c).unwrap();

    let mut tasks: Vec<(u64, Work)> = (0..6u64).map(|_| (0, Work::Idle)).collect();
    let mut turn = 0usize;
    while tasks.iter().any(|(i, w)| *i < 120 || stripe_held(w).is_some()) {
        turn += 1;
        // An order in which every task comes to run at changing points of the others.
        let t = (turn * turn + turn / 7) % 6;
        let held: Vec<usize> = tasks.iter().filter_map(|(_, w)| stripe_held(w)).collect();
        let (i, work) = std::mem::replace(&mut tasks[t], (0, Work::Idle));
        let n = t as u64;
        tasks[t] = match work {
            Work::Idle if i >= 120 => (i, Work::Idle),
            Work::Idle => {
                let k = format!("k{}", (n + i) % 5).into_bytes(); // 5 hot keys, heavy contention
                let stripe = stripe_idx(&k);
                if held.contains(&stripe) {
                    (i, Work::Idle) // waits for the stripe
                } else {
                    let big = i % 7 == 0; // mix in value-separated (>4 KiB) writes
                    let val = if big {
                        vec![(n as u8).wrapping_add(i as u8); 8192]
                    } else {
                        vec![n as u8; 24]
                    };
                    let started = match (n + i) % 3 {
                        0 => Some(log.put_full(k, &val, None, now_ms())),
                        1 => {
                            let cond = match log.index.get(&k) {
                                Some(e) => WriteCondition::Revision(e.tstamp_ms),
                                None => WriteCondition::KeyAbsent,
                            };
                            let now = now_ms();
                            log.put_full_cond(k, &val, None, cond, now, now)
                        }
                        _ => None,
                    };
                    match started {
                        Some(p) => {
                            log.begin_write().unwrap();
                            (i + 1, Work::Staged { stripe, p, val })
                        }
                        None if (n + i) % 3 == 2 => {
                            let k = format!("k{}", (n + i) % 5).into_bytes();
                            match log.tombstone(&k, now_ms()) {
                                Some(p) => {
                                    log.begin_write().unwrap();
                                    (i + 1, Work::Dying { stripe, p })
                                }
                                None => (i + 1, Work::Idle),
                            }
                        }
                        None => (i + 1, Work::Idle),
                    }
                }
            }
            Work::Staged { stripe, p, val } => {
                write_blob(&mut disk, &p, &val);
                let (place, bytes) = log.put_record(&p, &val, &[]).unwrap();
                (i, Work::Placed { stripe, p, place, bytes })
            }
            Work::Placed { p, place, bytes, .. } => {
                // Places are reserved in order, but the writes may complete in any order.
                let file = disk.files.get_mut(&place.file_id).unwrap();
                let end = place.offset as usize + bytes.len();
                if file.len() < end {
                    file.resize(end, 0);
                }
                file[place.offset as usize..end].copy_from_slice(&bytes);
                log.put_done(&p, &place);
                log.end_write();
                (i, Work::Idle)
            }
            Work::Dying { p, .. } => {
                let (place, bytes) = log.tombstone_record(&p).unwrap();
                let file = disk.files.get_mut(&place.file_id).unwrap();
                let end = place.offset as usize + bytes.len();
                if file.len() < end {
                    file.resize(end, 0);
                }
                file[place.offset as usize..end].copy_from_slice(&bytes);
                log.tombstone_done(&p, &place);
                log.end_write();
                (i, Work::Idle)
            }
        };
    }
    assert!(log.drained());

    // Full durability, then snapshot the live runtime state.
    sync(&mut log, &mut disk);
    let runtime = live_state(&log, &disk);
    drop(log);

    // Recover from disk; it must reproduce the exact runtime state — no
    // resurrected "failed" CAS, no lost update, no dangling value-sep blob.
    let log2 = open_log(&mut disk, c).unwrap();
    let recovered = live_state(&log2, &disk);
    assert_eq!(recovered, runtime, "recovery diverged from the concurrent runtime state");
}

// --- integrity ---

#[test]
fn corrupted_blob_is_detected_on_read() {
    let mut disk = Disk::default();
    let mut log = open_log(&mut disk, cfg(1 << 30, 8, 4096)).unwrap();
    let big = vec![0x11u8; 8192];
    put(&mut log, &mut disk, b"k", &big, &[], None).unwrap();
    let e = entry_of(&log, b"k");
    assert_eq!(read(&log, &disk, &e).unwrap().0, big, "sanity: reads back");

    // Flip a byte in the blob file on disk.
    for bytes in disk.blobs.values_mut() {
        bytes[0] ^= 0xFF;
    }
    assert!(
        read(&log, &disk, &e).is_err(),
        "corrupted blob must be detected, not returned as data"
    );
}

#[test]
fn revisions_monotonic_across_restart() {
    let mut disk = Disk::default();
    let c = cfg(1 << 30, 8, 1 << 20);
    {
        let mut log = open_log(&mut disk, c).unwrap();
        put(&mut log, &mut disk, b"k0", b"v0", &[], None).unwrap();
    }
    // Append a record with a far-future tstamp directly to the active file.
    let future = now_ms() + 10_000_000;
    let rec = encode(future, flags::NO_EXPIRY, 0, b"k1", b"v1", &[]).unwrap();
    disk.files.get_mut(&0).unwrap().extend_from_slice(&rec);
    // Reopen → recovery sees `future`; the revision clock must seed from it.
    let mut log2 = open_log(&mut disk, c).unwrap();
    let rev = put(&mut log2, &mut disk, b"k2", b"v2", &[], None).unwrap();
    assert!(rev > future, "post-restart revision {rev} must exceed recovered max {future}");
}

#[test]
fn scan_since_emits_real_value_for_separated_record() {
    let mut disk = Disk::default();
    let mut log = open_log(&mut disk, cfg(1 << 30, 8, 4096)).unwrap();
    let big = vec![0x7Cu8; 8192]; // > threshold → separated
    put(&mut log, &mut disk, b"wk", &big, &[], None).unwrap();

    let events = catch_up(&log, &disk, &KeyFilter::Exact(b"wk"), 0);
    assert_eq!(events.len(), 1, "exactly one Set event");
    match &events[0] {
        WatchEvent::SetKey { value, .. } => {
            assert_eq!(value, &big, "watch replay must emit the real value, not the hash");
        }
        other => panic!("expected Set, got {other:?}"),
    }
}

// --- reclaim beside writes ---

#[test]
fn writes_wait_for_reclaim_then_succeed() {
    let mut disk = Disk::default();
    let mut log = open_log(&mut disk, cfg(256, 4, 1 << 20)).unwrap();

    // Fill enough that many runs seal → reclaim has a multi-level merge to do.
    let val = vec![0xACu8; 80];
    for i in 0..80u32 {
        put(&mut log, &mut disk, format!("k{i:04}").as_bytes(), &val, &[], None).unwrap();
    }

    // A reclaim is under way; the write must wait, not error.
    log.begin_exclusive().unwrap();
    assert!(log.await_reclaim(), "a write has to wait");
    assert!(
        matches!(log.begin_exclusive(), Err(EngineError::ReclamationBusy)),
        "one reclaim at a time"
    );
    assert!(log.drained());
    let rr = reclaim_inner(&mut log, &mut disk);
    log.end_exclusive();
    assert!(rr.is_ok(), "reclaim failed: {rr:?}");
    assert!(!log.await_reclaim());
    let wr = put(&mut log, &mut disk, b"during-reclaim", &[1u8; 80], &[], None);
    assert!(wr.is_ok(), "write during reclaim must wait+succeed, not error: {wr:?}");

    // The waited write is durable and reads back.
    let e = entry_of(&log, b"during-reclaim");
    assert_eq!(read(&log, &disk, &e).unwrap().0.len(), 80);
    assert_eq!(log.len(), 81, "all keys present");
}

#[test]
fn reclaim_does_not_seal_while_a_write_is_in_flight() {
    let mut disk = Disk::default();
    let mut log = open_log(&mut disk, cfg(512, 4, 1 << 20)).unwrap();
    for i in 0..5u32 {
        put(&mut log, &mut disk, format!("seed{i}").as_bytes(), b"v", &[], None).unwrap();
    }
    let active_before = log.active.file_id;

    // A write occupies the window between reserving its offset and inserting its index entry.
    log.begin_write().unwrap();
    assert_eq!(log.in_flight_writes, 1);

    log.begin_exclusive().unwrap();
    assert!(!log.drained(), "reclaim must wait while a write is in flight");
    assert!(log.reclaim_in_progress, "reclaim should be mid-drain, holding the namespace");
    assert_eq!(log.active.file_id, active_before);

    // Release the in-flight write → drain observes 0 → reclaim seals.
    log.end_write();
    assert!(log.drained());
    reclaim_inner(&mut log, &mut disk).unwrap();
    log.end_exclusive();
    assert_ne!(
        log.active.file_id, active_before,
        "reclaim should have sealed and opened a new active after draining"
    );
}

#[test]
fn acked_writes_during_reclaim_survive_footer_recovery() {
    for round in 0..10u32 {
        let mut disk = Disk::default();
        let c = cfg(512, 4, 1 << 20);
        let val = vec![0xBEu8; 64];
        let mut acked: Vec<String> = Vec::new();
        {
            let mut log = open_log(&mut disk, c).unwrap();
            for i in 0..60u32 {
                put(&mut log, &mut disk, format!("base{i:04}").as_bytes(), &val, &[], None).unwrap();
            }
            for j in 0..40u32 {
                if j == round * 4 {
                    reclaim(&mut log, &mut disk).unwrap();
                }
                let k = format!("hot{j:04}");
                if put(&mut log, &mut disk, k.as_bytes(), &val, &[], None).is_ok() {
                    acked.push(k);
                }
            }
            let (place, bytes) = log.seal_active_for_shutdown().unwrap();
            assert!(disk.write(&place, &bytes));
        }
        let log2 = open_log(&mut disk, c).unwrap();
        for k in &acked {
            assert!(
                log2.index.get(k.as_bytes()).is_some(),
                "acked write {k} lost after footer recovery (reclaim seal didn't drain it)"
            );
        }
        assert_eq!(acked.len(), 40);
    }
}

#[test]
fn disk_full_write_preserves_committed_prefix_across_recovery() {
    let mut disk = Disk::default();
    let c = cfg(1 << 30, 8, 1 << 20);
    {
        let mut log = open_log(&mut disk, c).unwrap();
        put(&mut log, &mut disk, b"k1", b"v1", &[], None).unwrap();
        put(&mut log, &mut disk, b"k2", b"v2", &[], None).unwrap();

        // Disk fills on the next record's append.
        disk.fail_next = true;
        let r = put(&mut log, &mut disk, b"k3", b"v3", &[], None);
        assert!(r.is_err(), "disk-full write must surface an error to the caller");

        assert!(log.index.get(b"k3").is_none(), "failed write must not be indexed");
        assert!(log.index.get(b"k1").is_some());
        assert!(log.index.get(b"k2").is_some());
        assert!(
            put(&mut log, &mut disk, b"k4", b"v4", &[], None).is_err(),
            "writes after a disk-full poison must fail, not silently land past the gap"
        );
    }

    // Reopen: committed prefix survives, failed/blocked writes absent, clean replay.
    let log = open_log(&mut disk, c).unwrap();
    let e1 = entry_of(&log, b"k1");
    let e2 = entry_of(&log, b"k2");
    assert_eq!(read(&log, &disk, &e1).unwrap().0, b"v1");
    assert_eq!(read(&log, &disk, &e2).unwrap().0, b"v2");
    assert!(log.index.get(b"k3").is_none(), "failed write absent after recovery");
    assert!(log.index.get(b"k4").is_none(), "blocked write absent after recovery");
}

// --- merging ---

/// Writes a full record to a file's image, returning the entry that points at it.
fn write_record(image: &mut Vec<u8>, file_id: u32, k: &[u8], value: &[u8], tstamp_ms: u64, ttl: Option<u64>) -> IndexEntry {
    let f = if ttl.is_some() { 0 } else { flags::NO_EXPIRY };
    let offset = image.len() as u64;
    encode_into(image, tstamp_ms, f, ttl.unwrap_or(0), k, value, &[]).unwrap();
    IndexEntry::new(file_id, offset, (image.len() as u64 - offset) as u32, tstamp_ms)
}

fn live(k: &[u8], entry: IndexEntry, expires_at_ms: Option<u64>) -> Live {
    Live { key: k.to_vec(), entry, expires_at_ms, value_hash: None }
}

fn slice_of(image: &[u8], e: &IndexEntry) -> Vec<u8> {
    image[e.record_offset as usize..(e.record_offset + e.record_size as u64) as usize].to_vec()
}

#[test]
fn reclaim_compacts_sealed_files_into_one() {
    let mut file0 = Vec::new();
    let e_a = write_record(&mut file0, 0, b"alpha", b"1", 100, None);
    let e_b = write_record(&mut file0, 0, b"beta", b"2", 200, None);
    let keys = vec![live(b"alpha", e_a, None), live(b"beta", e_b, None)];
    let records = vec![slice_of(&file0, &e_a), slice_of(&file0, &e_b)];
    let merged = reclaim_namespace(1, &keys, &records, &Vec::new());

    let mut report = ReclaimReport::new();
    let merge = Merge { level: 0, ids: vec![0], next_id: 1, live: keys };
    report.add_merge(&merge, &merged, &vec![true]);
    assert_eq!(report.live_keys, 2);
    assert_eq!(report.dead_files_dropped, 1);
    assert_eq!(merged.entries.len(), 2);
    assert!(merged.entries.iter().all(|e| e.file_id == 1));
    assert_eq!(slice_of(&merged.image, &merged.entries[0]), records[0]);
    assert_eq!(slice_of(&merged.image, &merged.entries[1]), records[1]);

    // In a log, the merged file takes the place of the old ones.
    let mut disk = Disk::default();
    let mut log = open_log(&mut disk, cfg(1 << 30, 1, 1 << 20)).unwrap();
    put(&mut log, &mut disk, b"alpha", b"1", &[], None).unwrap();
    put(&mut log, &mut disk, b"beta", b"2", &[], None).unwrap();
    let sealed = log.active.file_id;
    log.config.fanout = 2;
    rotate_active(&mut log, &mut disk).unwrap();
    let report = reclaim(&mut log, &mut disk).unwrap();
    assert_eq!(report.live_keys, 2);
    assert_eq!(report.dead_files_dropped, 2);
    assert!(!disk.files.contains_key(&sealed), "old file must be unlinked");
    assert_eq!(read(&log, &disk, &entry_of(&log, b"alpha")).unwrap().0, b"1");
}

#[test]
fn every_merged_file_is_dropped_or_leaked() {
    let merged = reclaim_namespace(9, &Vec::new(), &Vec::new(), &Vec::new());
    let merge = Merge { level: 0, ids: vec![1, 2, 3], next_id: 9, live: Vec::new() };
    let mut report = ReclaimReport::new();
    report.add_merge(&merge, &merged, &vec![true, false, true]);
    assert_eq!((report.dead_files_dropped, report.dead_files_leaked), (2, 1));
    report.add_merge(&merge, &merged, &vec![false, false, true]);
    assert_eq!((report.dead_files_dropped, report.dead_files_leaked), (3, 3));
}

#[test]
fn catch_up_goes_on_behind_an_empty_key() {
    let mut disk = Disk::default();
    let mut log = open_log(&mut disk, cfg(1 << 30, 8, 1 << 20)).unwrap();
    put(&mut log, &mut disk, b"", b"0", &[], None).unwrap();
    put(&mut log, &mut disk, b"a", b"1", &[], None).unwrap();
    let events = catch_up(&log, &disk, &KeyFilter::Prefix(b""), 0);
    assert_eq!(events.len(), 2);
    let events = catch_up(&log, &disk, &KeyFilter::Exact(b"a"), 0);
    assert_eq!(events.len(), 1);
}

#[test]
fn reclaim_on_empty_live_set_produces_empty_sealed_file() {
    let merged = reclaim_namespace(1, &Vec::new(), &Vec::new(), &Vec::new());
    assert_eq!(merged.live_bytes, 0);
    assert_eq!(merged.entries.len(), 0);
    assert_eq!(read_footer(&merged.image).unwrap().unwrap().len(), 0);
}

#[test]
fn reclaim_preserves_ttl_in_new_entries() {
    let mut file0 = Vec::new();
    let expires_at = 9_999_999u64;
    let entry = write_record(&mut file0, 0, b"ttlkey", b"v", 1, Some(expires_at));
    let keys = vec![live(b"ttlkey", entry, Some(expires_at))];
    let merged = reclaim_namespace(1, &keys, &vec![slice_of(&file0, &entry)], &Vec::new());

    let footer = read_footer(&merged.image).unwrap().unwrap();
    assert_eq!(footer.len(), 1);
    assert_eq!(footer[0].expires_at_ms, Some(expires_at), "TTL must be preserved");

    let mut disk = Disk::default();
    let mut log = open_log(&mut disk, cfg(1 << 30, 1, 1 << 20)).unwrap();
    put(&mut log, &mut disk, b"ttlkey", b"v", &[], Some(expires_at)).unwrap();
    log.config.fanout = 2;
    rotate_active(&mut log, &mut disk).unwrap();
    reclaim(&mut log, &mut disk).unwrap();
    assert_eq!(log.index.ttl(b"ttlkey"), Some(expires_at), "TTL must be preserved");
}

#[test]
fn reclaim_excludes_keys_absent_from_live_set() {
    let mut file0 = Vec::new();
    write_record(&mut file0, 0, b"expired", b"old", 1, Some(1));
    let live_entry = write_record(&mut file0, 0, b"live", b"keep", 2, None);
    let keys = vec![live(b"live", live_entry, None)];
    let merged = reclaim_namespace(1, &keys, &vec![slice_of(&file0, &live_entry)], &Vec::new());

    let footer = read_footer(&merged.image).unwrap().unwrap();
    assert_eq!(footer.len(), 1, "only the live key must survive");
    assert_eq!(merged.entries.len(), 1);
    assert_eq!(footer[0].key, b"live");
}

// --- laws on concrete values ---

#[test]
fn deleted_keys_stay_deleted_after_replay() {
    let mut disk = Disk::default();
    let c = cfg(1 << 30, 8, 1 << 20);
    let mut log = open_log(&mut disk, c).unwrap();
    put(&mut log, &mut disk, b"a", b"1", &[], None).unwrap();
    put(&mut log, &mut disk, b"b", b"2", b"{}", Some(77)).unwrap();
    assert!(tombstone(&mut log, &mut disk, b"a").unwrap());
    assert!(!tombstone(&mut log, &mut disk, b"a").unwrap());
    ttl_update(&mut log, &mut disk, b"b", Some(99)).unwrap();
    let again = open_log(&mut disk, c).unwrap();
    assert!(again.index.get(b"a").is_none());
    assert_eq!(again.index.ttl(b"b"), Some(99));
    assert_eq!(read(&again, &disk, &entry_of(&again, b"b")).unwrap().1, b"{}");
    assert!(again.last_revision() <= log.last_revision());
}

#[test]
fn conditional_delete_goes_by_the_revision() {
    let mut disk = Disk::default();
    let mut log = open_log(&mut disk, cfg(1 << 30, 8, 1 << 20)).unwrap();
    let rev = put(&mut log, &mut disk, b"a", b"1", &[], None).unwrap();
    let now = now_ms();
    assert_eq!(log.live_rev(b"a", now), Some(rev));
    assert!(log.tombstone_cond(b"a", rev + 1, now, now).is_none());
    let p = log.tombstone_cond(b"a", rev, now, now).unwrap();
    finish_tombstone(&mut log, &mut disk, &p).unwrap();
    assert!(log.is_empty());
}

#[test]
fn conditions_are_met_or_not() {
    assert!(WriteCondition::KeyAbsent.check(None));
    assert!(!WriteCondition::KeyAbsent.check(Some(1)));
    assert!(WriteCondition::KeyPresent.check(Some(1)));
    assert!(!WriteCondition::KeyPresent.check(None));
    assert!(WriteCondition::Revision(5).check(Some(5)));
    assert!(!WriteCondition::Revision(5).check(Some(6)));
    assert!(!WriteCondition::Revision(5).check(None));
}

#[test]
fn frozen_log_refuses_writes() {
    let mut disk = Disk::default();
    let mut log = open_log(&mut disk, cfg(1 << 30, 8, 1 << 20)).unwrap();
    log.freeze();
    assert!(matches!(
        put(&mut log, &mut disk, b"a", b"1", &[], None),
        Err(EngineError::Frozen)
    ));
    log.unfreeze();
    assert!(put(&mut log, &mut disk, b"a", b"1", &[], None).is_ok());
}

#[test]
fn file_ids_run_out() {
    let mut disk = Disk::default();
    disk.files.insert(u32::MAX, Vec::new());
    let mut log = open_log(&mut disk, cfg(1 << 30, 8, 1 << 20)).unwrap();
    assert!(matches!(log.next_file_id(), Err(EngineError::CapacityExceeded { .. })));
    assert!(matches!(log.reopen_active_after_seal(), Err(EngineError::CapacityExceeded { .. })));
}

#[test]
fn missing_file_and_short_record_are_errors() {
    let mut disk = Disk::default();
    let log = open_log(&mut disk, cfg(1 << 30, 8, 1 << 20)).unwrap();
    assert!(matches!(
        log.read_record(&IndexEntry::new(9, 4, 40, 1)),
        Err(EngineError::BadRecord { offset: 4, .. })
    ));
    assert!(matches!(read_value(b"short"), Err(EngineError::BadRecord { .. })));
    // A pointer record whose field is no content hash.
    let rec = encode(1, flags::VALUE_SEP | flags::NO_EXPIRY, 0, b"k", b"xyz", &[]).unwrap();
    assert!(matches!(read_value(&rec), Err(EngineError::BadRecord { .. })));
}

#[test]
fn stripes_are_taken_in_order_and_once() {
    assert_eq!(stripe_set(&vec![5, 1, 5, 3, 1]), vec![1, 3, 5]);
    let keys: Vec<Vec<u8>> = (0..200).map(key).collect();
    let stripes = put_many_stripes(&keys);
    assert!(stripes.windows(2).all(|w| w[0] < w[1]));
    assert!(keys.iter().all(|k| stripes.contains(&stripe_idx(k))));
}

#[test]
fn catch_up_is_chronological_and_filtered() {
    let mut disk = Disk::default();
    let mut log = open_log(&mut disk, cfg(128, 100, 1 << 20)).unwrap();
    let r1 = put(&mut log, &mut disk, b"cfg/a", b"1", b"{\"x\":1}", None).unwrap();
    put(&mut log, &mut disk, b"other", b"2", &[], None).unwrap();
    let r3 = put(&mut log, &mut disk, b"cfg/b", b"3", b"not json", None).unwrap();
    tombstone(&mut log, &mut disk, b"cfg/a").unwrap();
    let events = catch_up(&log, &disk, &KeyFilter::Prefix(b"cfg/"), 0);
    assert_eq!(events.len(), 3);
    assert!(events.windows(2).all(|w| w[0].revision() < w[1].revision()));
    match &events[0] {
        WatchEvent::SetKey { key, metadata, revision, .. } => {
            assert_eq!(key, b"cfg/a");
            assert_eq!(metadata.as_deref(), Some(b"{\"x\":1}".as_slice()));
            assert_eq!(*revision, r1);
        }
        other => panic!("{other:?}"),
    }
    match &events[1] {
        WatchEvent::SetKey { metadata, .. } => assert!(metadata.is_none(), "corrupt field dropped"),
        other => panic!("{other:?}"),
    }
    assert!(matches!(&events[2], WatchEvent::Del { key, .. } if key == b"cfg/a"));
    let later = catch_up(&log, &disk, &KeyFilter::Prefix(b"cfg/"), r3);
    assert_eq!(later.len(), 1);
}

#[test]
fn new_subscriber_hears_of_the_current_keys() {
    let mut disk = Disk::default();
    let mut log = open_log(&mut disk, cfg(1 << 30, 8, 16)).unwrap();
    put(&mut log, &mut disk, b"p/b", &[7u8; 100], b"[1]", None).unwrap();
    put(&mut log, &mut disk, b"p/a", b"small", &[], Some(u64::MAX)).unwrap();
    put(&mut log, &mut disk, b"p/c", b"gone", &[], Some(1)).unwrap();
    put(&mut log, &mut disk, b"q", b"no", &[], None).unwrap();
    let current = log.current_entries(&KeyFilter::Prefix(b"p/"), now_ms());
    let misses: Vec<Miss> =
        current.iter().enumerate().map(|(i, c)| miss(&log, &disk, i, &c.entry)).collect();
    let events = current_events(&current, bulk_read(misses).unwrap());
    assert_eq!(events.len(), 2);
    match &events[1] {
        WatchEvent::SetKey { key, value, metadata, expires_at_ms, revision } => {
            assert_eq!(key, b"p/b");
            assert_eq!(value, &vec![7u8; 100]);
            assert_eq!(metadata.as_deref(), Some(b"[1]".as_slice()));
            assert_eq!(*expires_at_ms, None);
            assert_eq!(*revision, 0);
        }
        other => panic!("{other:?}"),
    }
    match &events[0] {
        WatchEvent::SetKey { key, expires_at_ms, .. } => {
            assert_eq!(key, b"p/a");
            assert_eq!(*expires_at_ms, Some(u64::MAX));
        }
        other => panic!("{other:?}"),
    }
}

#[test]
fn failed_batch_takes_its_blob_references_back() {
    let mut disk = Disk::default();
    let mut log = open_log(&mut disk, cfg(1 << 30, 8, 16)).unwrap();
    disk.fail_next = true;
    let r = put_many(&mut log, &mut disk, &[(key(0), vec![1; 64]), (key(1), vec![1; 64])]);
    assert!(r.is_err());
    assert_eq!(log.values.blob_count(), 0);
    assert!(log.is_empty());
}

#[test]
fn flush_drops_everything_and_outdates_all_revisions() {
    let mut disk = Disk::default();
    let c = cfg(256, 8, 16);
    let mut log = open_log(&mut disk, c).unwrap();
    let mut last = 0;
    for i in 0..20 {
        last = put(&mut log, &mut disk, &key(i), &[i as u8; 100], &[], None).unwrap();
    }
    let rev = flush(&mut log, &mut disk).unwrap();
    assert!(rev > last);
    assert!(log.is_empty());
    assert_eq!(log.values.blob_count(), 0);
    assert_eq!(log.sealed_file_count(), 0);
    let again = open_log(&mut disk, c).unwrap();
    assert!(again.is_empty());
}

// --- stores ---

struct Shard {
    store: ShardStore,
    disks: BTreeMap<String, Disk>,
}

impl Shard {
    fn open(mut disks: BTreeMap<String, Disk>) -> Shard {
        let mut store = ShardStore::new(4 << 20);
        let dirs: Vec<String> = disks.keys().cloned().collect();
        for i in ShardStore::open(&dirs) {
            let log = open_log(disks.get_mut(&dirs[i]).unwrap(), store.config).unwrap();
            store.add_ns(&dirs[i], log);
        }
        let mut s = Shard { store, disks };
        s.ensure(DEFAULT_NS).unwrap();
        s
    }

    fn ensure(&mut self, ns: &str) -> Res<()> {
        if !self.store.ensure_ns(ns)? {
            let disk = self.disks.entry(ns.to_string()).or_default();
            let log = open_log(disk, self.store.config)?;
            self.store.add_ns(ns, log);
        }
        Ok(())
    }

    fn parts(&mut self, ns: &str) -> (&mut NamespaceLog, &mut Disk) {
        (self.store.log_mut(ns).unwrap(), self.disks.get_mut(ns).unwrap())
    }

    fn set(&mut self, ns: &str, k: &[u8], value: &[u8], opts: SetOptions) -> Res<u64> {
        self.ensure(ns)?;
        let p = self.store.set(ns, k, value, &opts, now_ms()).unwrap();
        self.finish_set(ns, k, value, opts, p)
    }

    fn finish_set(&mut self, ns: &str, k: &[u8], value: &[u8], opts: SetOptions, p: PendingPut) -> Res<u64> {
        let exp = p.expires_at_ms;
        let meta = opts.metadata.clone().unwrap_or_default();
        let (log, disk) = self.parts(ns);
        let rev = finish_put(log, disk, p, value, &meta)?;
        self.store.set_done(ns, k, value.to_vec(), exp, opts.metadata, rev);
        Ok(rev)
    }

    fn mset(&mut self, ns: &str, pairs: &Vec<(Vec<u8>, Vec<u8>)>) -> Res<()> {
        self.ensure(ns)?;
        let (log, disk) = self.parts(ns);
        let revs = put_many(log, disk, pairs)?;
        self.store.mset_done(ns, pairs, &revs);
        Ok(())
    }

    fn get(&mut self, ns: &str, k: &[u8]) -> Res<Option<Entry>> {
        self.ensure(ns)?;
        let now = now_ms();
        match self.store.get(ns, k, now) {
            GetStep::Hit(e) => Ok(Some(e)),
            GetStep::Absent => Ok(None),
            GetStep::Expired => {
                let (log, disk) = self.parts(ns);
                tombstone(log, disk, k)?;
                Ok(None)
            }
            GetStep::Read { entry, expires_at_ms } => {
                let (log, disk) = self.parts(ns);
                let (value, meta) = read(log, disk, &entry)?;
                let rev = entry.tstamp_ms;
                Ok(Some(self.store.get_done(ns, k, value, &meta, expires_at_ms, rev, now)))
            }
        }
    }

    fn mget(&mut self, ns: &str, keys: &[&[u8]]) -> Res<Vec<Option<Entry>>> {
        self.ensure(ns)?;
        let now = now_ms();
        let keys: Vec<Vec<u8>> = keys.iter().map(|k| k.to_vec()).collect();
        let steps = self.store.mget(ns, &keys, now);
        let mut misses = Vec::new();
        for (i, step) in steps.iter().enumerate() {
            if let GetStep::Read { entry, .. } = step {
                let (log, disk) = self.parts(ns);
                misses.push(miss(log, disk, i, entry));
            }
            if let GetStep::Expired = step {
                let (log, disk) = self.parts(ns);
                tombstone(log, disk, &keys[i])?;
            }
        }
        let reads = bulk_read(misses)?;
        Ok(self.store.mget_done(ns, &keys, steps, &reads, now))
    }

    fn del(&mut self, ns: &str, keys: &[&[u8]]) -> Res<u64> {
        self.ensure(ns)?;
        let now = now_ms();
        let mut count = 0;
        for k in keys {
            let (p, counts) = self.store.del(ns, k, now);
            if let Some(p) = p {
                let (log, disk) = self.parts(ns);
                finish_tombstone(log, disk, &p)?;
            }
            self.store.forget(ns, k);
            if counts {
                count += 1;
            }
        }
        Ok(count)
    }

    fn count_live(&mut self, ns: &str, keys: &[&[u8]]) -> Res<u64> {
        self.ensure(ns)?;
        let keys: Vec<Vec<u8>> = keys.iter().map(|k| k.to_vec()).collect();
        Ok(self.store.count_existing(ns, &keys, now_ms()))
    }

    fn setnx(&mut self, ns: &str, k: &[u8], value: &[u8]) -> Res<bool> {
        self.ensure(ns)?;
        match self.store.setnx(ns, k, value, &SetOptions::default(), now_ms()) {
            Some(p) => self.finish_set(ns, k, value, SetOptions::default(), p).map(|_| true),
            None => Ok(false),
        }
    }

    fn expire(&mut self, ns: &str, k: &[u8], ttl_ms: u128) -> Res<bool> {
        self.ensure(ns)?;
        match self.store.expire(ns, k, ttl_ms, now_ms()) {
            Some(exp) => {
                let (log, disk) = self.parts(ns);
                ttl_update(log, disk, k, Some(exp))?;
                self.store.forget(ns, k);
                Ok(true)
            }
            None => Ok(false),
        }
    }

    fn persist(&mut self, ns: &str, k: &[u8]) -> Res<bool> {
        self.ensure(ns)?;
        if !self.store.persist(ns, k) {
            return Ok(false);
        }
        let (log, disk) = self.parts(ns);
        ttl_update(log, disk, k, None)?;
        self.store.forget(ns, k);
        Ok(true)
    }

    fn flush_db(&mut self, ns: &str) -> Res<()> {
        self.ensure(ns)?;
        self.store.flush_db(ns);
        let (log, disk) = self.parts(ns);
        flush(log, disk)?;
        Ok(())
    }
}

fn open_store() -> Shard {
    Shard::open(BTreeMap::new())
}

fn set(s: &mut Shard, k: &[u8], value: &[u8]) {
    s.set("default", k, value, SetOptions::default()).unwrap();
}

fn set_ttl(s: &mut Shard, k: &[u8], value: &[u8], ttl_ms: u128) {
    let opts = SetOptions { ttl_ms: Some(ttl_ms), metadata: None };
    s.set("default", k, value, opts).unwrap();
}

fn get_value(s: &mut Shard, k: &[u8]) -> Option<Vec<u8>> {
    s.get("default", k).unwrap().map(|e| e.value)
}

#[test]
fn set_get_roundtrip() {
    let mut s = open_store();
    set(&mut s, b"k", b"hello");
    assert_eq!(get_value(&mut s, b"k").unwrap(), b"hello");
}

#[test]
fn store_get_missing_returns_none() {
    let mut s = open_store();
    assert!(get_value(&mut s, b"nope").is_none());
}

#[test]
fn set_overwrites_value() {
    let mut s = open_store();
    set(&mut s, b"k", b"first");
    set(&mut s, b"k", b"second");
    assert_eq!(get_value(&mut s, b"k").unwrap(), b"second");
}

#[test]
fn del_existing_returns_count_1() {
    let mut s = open_store();
    set(&mut s, b"del-me", b"v");
    assert_eq!(s.del("default", &[b"del-me".as_ref()]).unwrap(), 1);
    assert!(get_value(&mut s, b"del-me").is_none());
}

#[test]
fn del_missing_returns_count_0() {
    let mut s = open_store();
    assert_eq!(s.del("default", &[b"ghost".as_ref()]).unwrap(), 0);
}

#[test]
fn exists_live_key() {
    let mut s = open_store();
    set(&mut s, b"ex-k", b"v");
    assert_eq!(s.count_live("default", &[b"ex-k".as_ref()]).unwrap(), 1);
}

#[test]
fn exists_missing_key() {
    let mut s = open_store();
    assert_eq!(s.count_live("default", &[b"no-such".as_ref()]).unwrap(), 0);
}

#[test]
fn expired_key_is_invisible() {
    let mut s = open_store();
    set_ttl(&mut s, b"exp", b"v", 50);
    let start = now_ms();
    while now_ms() < start + 100 {}
    assert!(get_value(&mut s, b"exp").is_none());
}

#[test]
fn setnx_on_missing_inserts() {
    let mut s = open_store();
    assert!(s.setnx("default", b"snx", b"v").unwrap());
    assert_eq!(get_value(&mut s, b"snx").unwrap(), b"v");
}

#[test]
fn setnx_on_live_key_is_no_op() {
    let mut s = open_store();
    set(&mut s, b"snx-dup", b"original");
    assert!(!s.setnx("default", b"snx-dup", b"clobber").unwrap());
    assert_eq!(get_value(&mut s, b"snx-dup").unwrap(), b"original");
}

#[test]
fn setxx_writes_only_live_keys() {
    let mut s = open_store();
    let opts = SetOptions { ttl_ms: Some(5_000), metadata: None };
    let now = now_ms();
    assert!(s.store.setxx("default", b"k", b"v", &opts, now).is_none());
    set(&mut s, b"k", b"v");
    let p = s.store.setxx("default", b"k", b"w", &opts, now).unwrap();
    assert_eq!(p.expires_at_ms, Some(now + 5_000));
    s.finish_set("default", b"k", b"w", opts, p).unwrap();
    assert_eq!(get_value(&mut s, b"k").unwrap(), b"w");
    assert!(s.store.set("nowhere", b"k", b"v", &SetOptions::default(), now).is_none());
}

#[test]
fn expire_on_live_key_returns_true() {
    let mut s = open_store();
    set(&mut s, b"k", b"v");
    assert!(s.expire("default", b"k", 60_000).unwrap());
}

#[test]
fn expire_on_missing_key_returns_false() {
    let mut s = open_store();
    assert!(!s.expire("default", b"miss", 60_000).unwrap());
}

#[test]
fn ttl_on_persistent_returns_no_expiry() {
    let mut s = open_store();
    set(&mut s, b"k", b"v");
    assert_eq!(s.store.ttl("default", b"k", now_ms()), TtlResult::NoExpiry);
}

#[test]
fn persist_removes_ttl() {
    let mut s = open_store();
    set_ttl(&mut s, b"k", b"v", 60_000);
    assert!(s.persist("default", b"k").unwrap());
    assert_eq!(s.store.ttl("default", b"k", now_ms()), TtlResult::NoExpiry);
}

#[test]
fn mget_returns_values_in_order() {
    let mut s = open_store();
    set(&mut s, b"a", b"va");
    set(&mut s, b"b", b"vb");
    let res = s
        .mget("default", &[b"a".as_ref(), b"missing".as_ref(), b"b".as_ref()])
        .unwrap();
    assert_eq!(res.len(), 3);
    assert_eq!(res[0].as_ref().unwrap().value, b"va");
    assert!(res[1].is_none());
    assert_eq!(res[2].as_ref().unwrap().value, b"vb");
}

#[test]
fn mset_then_mget() {
    let mut s = open_store();
    s.mset(
        "default",
        &vec![
            (b"k1".to_vec(), b"v1".to_vec()),
            (b"k2".to_vec(), b"v2".to_vec()),
        ],
    )
    .unwrap();
    let res = s.mget("default", &[b"k1".as_ref(), b"k2".as_ref()]).unwrap();
    assert_eq!(res[0].as_ref().unwrap().value, b"v1");
    assert_eq!(res[1].as_ref().unwrap().value, b"v2");
}

#[test]
fn flush_db_clears_keys() {
    let mut s = open_store();
    set(&mut s, b"f1", b"v");
    set(&mut s, b"f2", b"v");
    s.flush_db("default").unwrap();
    let page = s.store.scan("default", b"0", None, 100, now_ms());
    assert!(page.keys.is_empty());
    assert!(get_value(&mut s, b"f1").is_none());
}

#[test]
fn namespace_isolation() {
    let mut s = open_store();
    set(&mut s, b"k", b"in-default");
    s.set("db3", b"k", b"in-db3", SetOptions::default()).unwrap();
    assert_eq!(get_value(&mut s, b"k").unwrap(), b"in-default");
    assert_eq!(s.get("db3", b"k").unwrap().unwrap().value, b"in-db3");
}

#[test]
fn flush_is_scoped_to_its_namespace() {
    let mut s = open_store();
    set(&mut s, b"k", b"in-default");
    s.set("db3", b"k", b"in-db3", SetOptions::default()).unwrap();
    s.flush_db("default").unwrap();
    assert!(get_value(&mut s, b"k").is_none());
    assert!(matches!(s.store.get("db3", b"k", now_ms()), GetStep::Hit(e) if e.value == b"in-db3"));
    assert_eq!(s.store.db_size("db3"), 1);
    assert_eq!(s.store.db_size("default"), 0);
}

#[test]
fn clean_restart_finds_sealed_and_active_files() {
    let mut s = open_store();
    set_ttl(&mut s, b"a", b"1", 60_000);
    let (log, disk) = s.parts("default");
    rotate_active(log, disk).unwrap();
    set(&mut s, b"b", b"2");
    set(&mut s, b"a", b"3");
    let (log, disk) = s.parts("default");
    let (place, bytes) = log.seal_active_for_shutdown().unwrap();
    assert!(disk.write(&place, &bytes));
    let mut s = Shard::open(s.disks);
    assert_eq!(s.store.get_ns("default").unwrap().sealed_file_count(), 2);
    assert_eq!(get_value(&mut s, b"a").unwrap(), b"3");
    assert_eq!(get_value(&mut s, b"b").unwrap(), b"2");
    assert_eq!(s.store.ttl("default", b"a", now_ms()), TtlResult::NoExpiry);
}

fn scan_all(s: &Shard, pattern: Option<&[u8]>, count: u64) -> Vec<Vec<u8>> {
    let mut all: Vec<Vec<u8>> = Vec::new();
    let mut cursor = b"0".to_vec();
    loop {
        let page = s.store.scan("default", &cursor, pattern, count, now_ms());
        all.extend(page.keys);
        cursor = page.next_cursor;
        if cursor == b"0" {
            return all;
        }
    }
}

#[test]
fn scan_returns_all_keys() {
    let mut s = open_store();
    for k in [b"sa".as_ref(), b"sb", b"sc"] {
        set(&mut s, k, b"v");
    }
    let all = scan_all(&s, None, 4);
    assert!(all.contains(&b"sa".to_vec()));
    assert!(all.contains(&b"sb".to_vec()));
    assert!(all.contains(&b"sc".to_vec()));
}

#[test]
fn scan_pattern_filters() {
    let mut s = open_store();
    set(&mut s, b"user:1", b"v");
    set(&mut s, b"user:2", b"v");
    set(&mut s, b"session:1", b"v");
    let all = scan_all(&s, Some(b"user:*".as_ref()), 100);
    assert_eq!(all.len(), 2);
}

#[test]
fn recovery_loads_persistent_keys() {
    let mut s = open_store();
    set(&mut s, b"k", b"v");
    let mut s = Shard::open(s.disks);
    let got = s.get("default", b"k").unwrap();
    assert_eq!(got.unwrap().value, b"v");
}

#[test]
fn recovery_drops_tombstoned_keys() {
    let mut s = open_store();
    set(&mut s, b"k", b"v");
    s.del("default", &[b"k".as_ref()]).unwrap();
    let mut s = Shard::open(s.disks);
    assert!(s.get("default", b"k").unwrap().is_none());
}

#[test]
fn recovery_preserves_ttl() {
    let mut s = open_store();
    set_ttl(&mut s, b"k", b"v", 3_600_000);
    let s = Shard::open(s.disks);
    let res = s.store.ttl("default", b"k", now_ms());
    assert!(matches!(res, TtlResult::Remaining(secs) if secs > 0));
}

fn active_size(s: &Shard, ns: &str) -> u64 {
    let id = s.store.get_ns(ns).unwrap().active.file_id;
    s.disks[ns].files[&id].len() as u64
}

#[test]
fn ttl_update_does_not_rewrite_value() {
    // EXPIRE on a 1 MiB value should append a tiny TTL-update record, not a full rewrite.
    let mut s = open_store();
    let big = vec![b'x'; 1_000_000];
    s.set("default", b"big", &big, SetOptions::default()).unwrap();
    let pre = active_size(&s, "default");
    s.expire("default", b"big", 60_000).unwrap();
    let post = active_size(&s, "default");
    let delta = post - pre;
    assert!(
        delta < 100,
        "EXPIRE on a 1 MiB value should append <100 bytes (TTL-update record), got {delta}"
    );
    assert_eq!(get_value(&mut s, b"big").unwrap(), big);
}

#[test]
fn flushdb_unlinks_data_files() {
    let mut s = open_store();
    set(&mut s, b"k", b"v");
    let pre = s.disks["default"].created;
    s.flush_db("default").unwrap();
    assert_eq!(s.disks["default"].files.len(), 1);
    assert_ne!(
        pre, s.disks["default"].created,
        "FLUSHDB must unlink + recreate, not truncate in place"
    );
}

#[test]
fn glob_basics() {
    assert!(glob_match(b"", b""));
    assert!(!glob_match(b"", b"a"));
    assert!(glob_match(b"*", b""));
    assert!(glob_match(b"*", b"abc"));
    assert!(glob_match(b"a*b", b"axxb"));
    assert!(glob_match(b"a?c", b"abc"));
    assert!(!glob_match(b"a?c", b"ac"));
}

#[test]
fn glob_star_matches_a_literal_star_too() {
    assert!(glob_match(b"*", b"*abc"));
    assert!(glob_match(b"a*", b"a*b*c"));
    assert!(glob_match(b"*b*d", b"abcbcd"));
    assert!(!glob_match(b"*b*d", b"abcbcdx"));
    assert!(glob_match(b"plain", b"plain"));
}

#[test]
fn namespaces_are_named_by_database() {
    assert_eq!(ns_name(0), "default");
    assert_eq!(ns_name(7), "db7");
    assert_eq!(ns_name(u64::MAX), "db18446744073709551615");
    assert!(is_valid_ns_name("a-b_C9"));
    assert!(!is_valid_ns_name(""));
    assert!(!is_valid_ns_name("a/b"));
    assert!(!is_valid_ns_name(&"x".repeat(65)));
    assert!(is_valid_ns_name(&"x".repeat(64)));
    let mut s = open_store();
    assert!(matches!(
        s.set("../x", b"k", b"v", SetOptions::default()),
        Err(EngineError::InvalidNamespace { name }) if name == "../x"
    ));
}

#[test]
fn cached_and_cold_reads_agree() {
    let mut s = open_store();
    let opts = SetOptions { ttl_ms: Some(60_000), metadata: Some(b"{\"a\":1}".to_vec()) };
    let rev = s.set("default", b"k", b"v", opts).unwrap();
    let warm = s.get("default", b"k").unwrap().unwrap();
    let mut s = Shard::open(s.disks);
    let cold = s.get("default", b"k").unwrap().unwrap();
    assert_eq!(warm.value, cold.value);
    assert_eq!(warm.metadata, cold.metadata);
    assert_eq!(warm.metadata.as_deref(), Some(b"{\"a\":1}".as_slice()));
    assert_eq!((warm.revision, cold.revision), (rev, rev));
    assert!(cold.expires_in_ms.unwrap() <= 60_000);
}

#[test]
fn expired_keys_do_not_count() {
    let mut s = open_store();
    set_ttl(&mut s, b"k", b"v", 0);
    assert_eq!(s.count_live("default", &[b"k".as_ref()]).unwrap(), 0);
    assert_eq!(s.store.pttl("default", b"k", now_ms()), TtlResult::NotFound);
    assert_eq!(s.del("default", &[b"k".as_ref()]).unwrap(), 0);
    assert_eq!(s.store.db_size("default"), 0);
    assert!(!s.persist("default", b"k").unwrap());
}

#[test]
fn remaining_time_is_in_seconds_or_milliseconds() {
    let mut s = open_store();
    set(&mut s, b"k", b"v");
    let now = now_ms();
    let exp = s.store.expire("default", b"k", 2_500, now).unwrap();
    assert_eq!(exp, now + 2_500);
    let (log, disk) = s.parts("default");
    ttl_update(log, disk, b"k", Some(exp)).unwrap();
    assert_eq!(s.store.ttl("default", b"k", now), TtlResult::Remaining(2));
    assert_eq!(s.store.pttl("default", b"k", now), TtlResult::Remaining(2_500));
    assert_eq!(s.store.ttl("default", b"nope", now), TtlResult::NotFound);
}

#[test]
fn scan_cursors_are_positions() {
    let mut s = open_store();
    for k in [b"a".as_ref(), b"b", b"c"] {
        set(&mut s, k, b"v");
    }
    let now = now_ms();
    let page = s.store.scan("default", b"0", None, 2, now);
    assert_eq!(page.keys, vec![b"a".to_vec(), b"b".to_vec()]);
    assert_eq!(page.next_cursor, 2u64.to_le_bytes().to_vec());
    let page = s.store.scan("default", &page.next_cursor, None, 2, now);
    assert_eq!(page.keys, vec![b"c".to_vec()]);
    assert_eq!(page.next_cursor, b"0");
    let page = s.store.scan("default", &99u64.to_le_bytes(), None, 2, now);
    assert!(page.keys.is_empty());
    assert_eq!(page.next_cursor, b"0");
    let page = s.store.scan("default", b"\x01old", None, 1, now);
    assert_eq!(page.keys, vec![b"a".to_vec()], "an unknown cursor restarts");
}

#[test]
fn namespaces_with_many_files_are_reclaimed() {
    let mut s = open_store();
    s.set("db1", b"k", b"v", SetOptions::default()).unwrap();
    for _ in 0..3 {
        let (log, disk) = s.parts("db1");
        rotate_active(log, disk).unwrap();
    }
    assert_eq!(s.store.reclaim_if_needed(2), vec![b"db1".to_vec()]);
    assert!(s.store.reclaim_if_needed(3).is_empty());
    assert!(s.store.reclaim_if_needed(0).is_empty());
    let mut names = s.store.sync_logs();
    names.sort();
    assert_eq!(names, vec![b"db1".to_vec(), b"default".to_vec()]);
}

#[test]
fn cache_keys_of_namespaces_are_apart() {
    assert_eq!(cache_key("ns", b"k"), b"ns\x00k");
    assert_ne!(cache_key("a", b"b\x00c"), cache_key("a-b", b"c"));
    assert_eq!(expiry_at(None, 5), None);
    assert_eq!(expiry_at(Some(10), 5), Some(15));
}

#[test]
fn a_new_store_has_the_default_limits() {
    let s = ShardStore::new(640 * 100);
    assert_eq!(s.config.rotate_threshold, 1 << 30);
    assert_eq!(s.config.fanout, 8);
    assert_eq!(s.config.value_sep_threshold, 128 * 1024);
    assert_eq!(s.cache.max_bytes(), 64_000);
    assert_eq!(s.cache.ghost_max(), 100);
    assert_eq!((s.cache.len(), s.cache.bytes_used(), s.cache.ghost_len()), (0, 0, 0));
}

#[test]
fn databases_have_names_of_their_own() {
    let dbs = [0u64, 1, 9, 10, 11, 101, 110, 65_535, u64::MAX];
    for a in dbs {
        assert!(is_valid_ns_name(&ns_name(a)));
        for b in dbs {
            assert_eq!(ns_name(a) == ns_name(b), a == b);
        }
    }
}

#[test]
fn a_bulk_read_gives_what_single_reads_give() {
    let mut s = open_store();
    set(&mut s, b"hit", b"1");
    set(&mut s, b"cold", b"2");
    set_ttl(&mut s, b"old", b"3", 1);
    s.store.forget("default", b"cold");
    let later = now_ms() + 10_000;
    let keys: Vec<Vec<u8>> =
        [&b"hit"[..], b"old", b"hit", b"cold", b"none", b"old"].iter().map(|k| k.to_vec()).collect();
    let bulk = s.store.mget("default", &keys, later);
    for (k, step) in keys.iter().zip(&bulk) {
        let alone = s.store.get("default", k, later);
        let same = match (step, &alone) {
            (GetStep::Hit(a), GetStep::Hit(b)) => a.value == b.value && a.revision == b.revision,
            (GetStep::Absent, GetStep::Absent) => true,
            (GetStep::Expired, GetStep::Expired) => true,
            (GetStep::Read { entry: a, .. }, GetStep::Read { entry: b, .. }) => {
                a.record_offset == b.record_offset && a.file_id == b.file_id
            }
            _ => false,
        };
        assert!(same);
    }
    assert!(matches!(bulk[1], GetStep::Expired));
    assert!(matches!(bulk[5], GetStep::Expired));
    assert!(matches!(bulk[3], GetStep::Read { .. }));
}

#[test]
fn files_sealed_in_turn_open_as_they_were_left() {
    let mut disk = Disk::default();
    let c = cfg(256, 100, 1 << 20);
    let mut log = open_log(&mut disk, c).unwrap();
    put(&mut log, &mut disk, b"early", b"0", &[], None).unwrap();
    put(&mut log, &mut disk, b"gone", b"0", &[], None).unwrap();
    put(&mut log, &mut disk, b"timed", b"0", &[], None).unwrap();
    for i in 0..40 {
        put(&mut log, &mut disk, &key(i % 7), format!("value {i}").as_bytes(), &[], None).unwrap();
    }
    assert!(log.sealed_file_count() >= 3);
    // Keys of an earlier file: one is deleted in the last one, one is re-timed there, and one is
    // deleted and put again. One more key is put and re-timed there.
    log.config.rotate_threshold = 1 << 30;
    assert!(entry_of(&log, b"early").file_id != log.active.file_id);
    assert!(entry_of(&log, b"gone").file_id != log.active.file_id);
    assert!(entry_of(&log, b"timed").file_id != log.active.file_id);
    assert!(tombstone(&mut log, &mut disk, b"gone").unwrap());
    ttl_update(&mut log, &mut disk, b"timed", Some(u64::MAX - 1)).unwrap();
    assert!(tombstone(&mut log, &mut disk, b"early").unwrap());
    put(&mut log, &mut disk, b"early", b"again", &[], None).unwrap();
    put(&mut log, &mut disk, b"z", b"1", &[], None).unwrap();
    ttl_update(&mut log, &mut disk, b"z", Some(u64::MAX)).unwrap();
    let running: Vec<(Vec<u8>, IndexEntry)> = log.index.iter().clone();
    let state = live_state(&log, &disk);

    // As a crash leaves it: the last file is not sealed.
    let again = open_log(&mut disk.clone(), c).unwrap();
    assert_eq!(live_state(&again, &disk), state);
    assert_eq!(again.index.ttl(b"z"), Some(u64::MAX));
    assert_eq!(again.index.ttl(b"timed"), Some(u64::MAX - 1));
    assert!(again.index.get(b"gone").is_none());
    for ((k, a), (l, b)) in running.iter().zip(again.index.iter()) {
        assert!(k == l && a.file_id == b.file_id && a.record_offset == b.record_offset);
    }

    // As a clean shutdown leaves it.
    let (place, bytes) = log.seal_active_for_shutdown().unwrap();
    assert!(disk.write(&place, &bytes));
    let again = open_log(&mut disk, c).unwrap();
    assert_eq!(live_state(&again, &disk), state);
    assert_eq!(again.index.ttl(b"z"), Some(u64::MAX));
    assert_eq!(again.index.ttl(b"timed"), Some(u64::MAX - 1));
    assert!(again.index.get(b"gone").is_none());
    assert_eq!(again.index.len(), running.len());
}

#[test]
fn two_files_with_one_id_open_as_one() {
    let mut disk = Disk::default();
    let c = cfg(1 << 30, 8, 1 << 20);
    let mut log = open_log(&mut disk, c).unwrap();
    put(&mut log, &mut disk, b"a", b"1", &[], None).unwrap();
    let (place, bytes) = log.seal_active_for_shutdown().unwrap();
    assert!(disk.write(&place, &bytes));
    let image = disk.files[&0].clone();
    let files = vec![(0u32, image.clone()), (0, image.clone()), (3, Vec::new())];
    let (log, opening) = NamespaceLog::open(&files, c).unwrap();
    assert_eq!(log.sealed_file_count(), 1);
    assert_eq!(log.sealed[0].file.file_id, 0);
    assert_eq!(log.active.file_id, 3);
    assert!(!opening.fresh);
    assert!(log.index.get(b"a").is_some());
}

/// Shuts a log down cleanly and opens it again.
fn restart(mut log: NamespaceLog, disk: &mut Disk) -> NamespaceLog {
    let (place, bytes) = log.seal_active_for_shutdown().unwrap();
    assert!(disk.write(&place, &bytes));
    open_log(disk, log.config).unwrap()
}

#[test]
fn a_key_deleted_after_a_restart_stays_deleted() {
    let mut disk = Disk::default();
    let mut log = open_log(&mut disk, cfg(1 << 30, 8, 1 << 20)).unwrap();
    put(&mut log, &mut disk, b"k", b"v", &[], None).unwrap();
    put(&mut log, &mut disk, b"other", b"v", &[], None).unwrap();
    let mut log = restart(log, &mut disk);
    assert!(tombstone(&mut log, &mut disk, b"k").unwrap());
    let log = restart(log, &mut disk);
    assert!(log.index.get(b"k").is_none());
    assert!(log.index.get(b"other").is_some());
    let log = restart(log, &mut disk);
    assert!(log.index.get(b"k").is_none());
    assert_eq!(log.len(), 1);
}

#[test]
fn an_expiry_changed_after_a_restart_stays_changed() {
    let mut disk = Disk::default();
    let mut log = open_log(&mut disk, cfg(1 << 30, 8, 1 << 20)).unwrap();
    put(&mut log, &mut disk, b"set", b"v", &[], None).unwrap();
    put(&mut log, &mut disk, b"cleared", b"v", &[], Some(u64::MAX)).unwrap();
    let mut log = restart(log, &mut disk);
    ttl_update(&mut log, &mut disk, b"set", Some(u64::MAX - 7)).unwrap();
    ttl_update(&mut log, &mut disk, b"cleared", None).unwrap();
    let log = restart(log, &mut disk);
    assert_eq!(log.index.ttl(b"set"), Some(u64::MAX - 7));
    assert_eq!(log.index.ttl(b"cleared"), None);
    assert_eq!(log.len(), 2);
}

#[test]
fn a_merge_keeps_the_deletions_that_other_files_need() {
    let mut disk = Disk::default();
    let c = cfg(1 << 30, 3, 1 << 20);
    let mut log = open_log(&mut disk, c).unwrap();
    for k in [&b"a"[..], b"b", b"c"] {
        put(&mut log, &mut disk, k, b"base", &[], None).unwrap();
    }
    rotate_active(&mut log, &mut disk).unwrap();
    put(&mut log, &mut disk, b"d", b"base", &[], None).unwrap();
    rotate_active(&mut log, &mut disk).unwrap();
    reclaim(&mut log, &mut disk).unwrap(); // the base: one run of the next level
    assert_eq!(log.sealed_file_count(), 1);
    let base = log.sealed[0].file.file_id;

    let deleted = put(&mut log, &mut disk, b"x", b"1", &[], None).unwrap();
    assert!(tombstone(&mut log, &mut disk, b"a").unwrap());
    rotate_active(&mut log, &mut disk).unwrap();
    ttl_update(&mut log, &mut disk, b"b", Some(u64::MAX - 1)).unwrap();
    rotate_active(&mut log, &mut disk).unwrap();
    ttl_update(&mut log, &mut disk, b"b", Some(u64::MAX - 2)).unwrap();
    assert!(tombstone(&mut log, &mut disk, b"x").unwrap());
    let sealed: Vec<(u32, Vec<u8>)> =
        log.sealed.iter().map(|r| (r.file.file_id, disk.files[&r.file.file_id].clone())).collect();
    reclaim(&mut log, &mut disk).unwrap();
    assert!(log.sealed.iter().any(|r| r.file.file_id == base), "the base is not merged");
    assert_eq!(log.sealed_file_count(), 2);

    let state = live_state(&log, &disk);
    // As a crash leaves it before the merged files are unlinked.
    for n in 0..sealed.len() {
        let mut crash = disk.clone();
        for (id, image) in &sealed[n..] {
            crash.files.insert(*id, image.clone());
        }
        let again = open_log(&mut crash, c).unwrap();
        assert_eq!(live_state(&again, &crash), state);
        assert_eq!(again.index.ttl(b"b"), Some(u64::MAX - 2));
    }
    let log = restart(log, &mut disk);
    assert_eq!(live_state(&log, &disk), state);
    assert!(log.index.get(b"a").is_none() && log.index.get(b"x").is_none());
    assert_eq!(log.index.ttl(b"b"), Some(u64::MAX - 2));
    // A watcher still hears of the deletion.
    let events = catch_up(&log, &disk, &KeyFilter::Exact(b"a"), deleted);
    assert!(matches!(events.as_slice(), [WatchEvent::Del { .. }]));
}

#[test]
fn a_merge_of_all_files_drops_the_deletions() {
    let mut disk = Disk::default();
    let mut log = open_log(&mut disk, cfg(1 << 30, 2, 1 << 20)).unwrap();
    put(&mut log, &mut disk, b"a", b"1", &[], None).unwrap();
    rotate_active(&mut log, &mut disk).unwrap();
    assert!(tombstone(&mut log, &mut disk, b"a").unwrap());
    put(&mut log, &mut disk, b"b", b"1", &[], None).unwrap();
    reclaim(&mut log, &mut disk).unwrap();
    assert_eq!(log.sealed_file_count(), 1);
    assert!(catch_up(&log, &disk, &KeyFilter::Exact(b"a"), 0).is_empty());
    let log = restart(log, &mut disk);
    assert!(log.index.get(b"a").is_none());
    assert_eq!(log.len(), 1);
}
