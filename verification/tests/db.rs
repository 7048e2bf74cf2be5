//! The database as its callers use it.
//!
//! A [`Host`] stands for the machine: it keeps what a database leaves behind
//! when it stops, and runs compaction whenever there is some to do.

use std::cell::RefCell;
use std::collections::BTreeMap;
use std::rc::Rc;
use std::sync::atomic::{AtomicU64, Ordering};
use std::sync::{Arc, Mutex};

use regolith::column_family::{next_id_key, prefix_key, DEFAULT_CF_ID, META_CF_ID};
use regolith::db::strip_cf_prefix_page;
use regolith::engine::wal::WAL_STAMP_LEN;
use regolith::{
    BackgroundErrorReason, CfIter, ColumnFamilyHandle, CompactionDecision, CompactionFilter, CompactionJobInfo,
    CompactionOutcome, CompactionStyle, CompressionType, Db as Core, DurabilityMode, Error, ErrorKind,
    EventListener, ExternalFile, ExternalFileIngestionInfo, FifoCompactionOptions, FixedLengthPrefix, FlushJobInfo,
    MemTableStats, MergeOperator, Options, OwnedSnapshotIter, Range, ScanPage,
    Snapshot as CoreSnapshot, Stored, TableFileCreationInfo, TableFileDeletionInfo,
    TailingIter as CoreTailing, WriteBatch, WriteBatchOp, WriteOptions, DEFAULT_CF_NAME,
};

type Shared = Rc<RefCell<Option<Core>>>;

/// The machine a database lives on.
struct Host {
    left: Rc<RefCell<Option<Stored>>>,
}

impl Host {
    fn new() -> Self {
        Host { left: Rc::new(RefCell::new(Some(Stored::empty()))) }
    }
}

/// A database on a host. Letting go of it leaves on the host what would
/// survive a crash.
struct Db {
    core: Shared,
    left: Rc<RefCell<Option<Stored>>>,
}

impl Drop for Db {
    fn drop(&mut self) {
        if let Some(core) = self.core.borrow_mut().take() {
            *self.left.borrow_mut() = Some(core.into_stored());
        }
    }
}

impl std::fmt::Debug for Db {
    fn fmt(&self, f: &mut std::fmt::Formatter<'_>) -> std::fmt::Result {
        f.write_str(&self.with(|c| c.to_text()))
    }
}

impl Db {
    fn open(host: &Host, opts: Options) -> Result<Db, Error> {
        let stored = host.left.borrow_mut().take().expect("the database is open elsewhere");
        let mut core = Core::open("wal_000001.log", stored, opts)?;
        core.report_time(1_700_000_000);
        Ok(Db { core: Rc::new(RefCell::new(Some(core))), left: Rc::clone(&host.left) })
    }

    fn open_read_only(host: &Host, opts: Options) -> Result<Db, Error> {
        let stored = host.left.borrow_mut().take().expect("the database is open elsewhere");
        let core = Core::open_read_only("wal_000001.log", stored, opts)?;
        Ok(Db { core: Rc::new(RefCell::new(Some(core))), left: Rc::clone(&host.left) })
    }

    fn with<T>(&self, f: impl FnOnce(&Core) -> T) -> T {
        f(self.core.borrow().as_ref().unwrap())
    }

    fn change<T>(&self, f: impl FnOnce(&mut Core) -> T) -> T {
        let mut guard = self.core.borrow_mut();
        let core = guard.as_mut().unwrap();
        let out = f(core);
        while let Ok(CompactionOutcome::DidWork) = core.compact_step() {}
        out
    }

    fn put(&self, key: &[u8], value: &[u8]) -> Result<(), Error> {
        self.change(|c| c.put(key, value))
    }

    fn put_opt(&self, opts: &WriteOptions, key: &[u8], value: &[u8]) -> Result<(), Error> {
        self.change(|c| c.put_opt(opts, key, value))
    }

    fn put_cf(&self, cf: &ColumnFamilyHandle, key: &[u8], value: &[u8]) -> Result<(), Error> {
        self.change(|c| c.put_cf(cf, key, value))
    }

    fn delete(&self, key: &[u8]) -> Result<(), Error> {
        self.change(|c| c.delete(key))
    }

    fn delete_opt(&self, opts: &WriteOptions, key: &[u8]) -> Result<(), Error> {
        self.change(|c| c.delete_opt(opts, key))
    }

    fn delete_cf(&self, cf: &ColumnFamilyHandle, key: &[u8]) -> Result<(), Error> {
        self.change(|c| c.delete_cf(cf, key))
    }

    fn merge(&self, key: &[u8], operand: &[u8]) -> Result<(), Error> {
        self.change(|c| c.merge(key, operand))
    }

    fn merge_cf(&self, cf: &ColumnFamilyHandle, key: &[u8], operand: &[u8]) -> Result<(), Error> {
        self.change(|c| c.merge_cf(cf, key, operand))
    }

    fn delete_range(&self, start: &[u8], end: &[u8]) -> Result<(), Error> {
        self.change(|c| c.delete_range(start, end))
    }

    fn delete_range_opt(&self, opts: &WriteOptions, start: &[u8], end: &[u8]) -> Result<(), Error> {
        self.change(|c| c.delete_range_opt(opts, start, end))
    }

    fn delete_range_cf(
        &self,
        cf: &ColumnFamilyHandle,
        start: &[u8],
        end: &[u8],
    ) -> Result<(), Error> {
        self.change(|c| c.delete_range_cf(cf, start, end))
    }

    fn write(&self, batch: WriteBatch) -> Result<(), Error> {
        self.change(|c| c.write(batch))
    }

    fn write_opt(&self, opts: &WriteOptions, batch: WriteBatch) -> Result<(), Error> {
        self.change(|c| c.write_opt(opts, batch))
    }

    fn get(&self, key: &[u8]) -> Result<Option<Vec<u8>>, Error> {
        self.with(|c| c.get(key))
    }

    fn get_cf(&self, cf: &ColumnFamilyHandle, key: &[u8]) -> Result<Option<Vec<u8>>, Error> {
        self.with(|c| c.get_cf(cf, key))
    }

    fn multi_get(&self, keys: &[&[u8]]) -> Result<Vec<Option<Vec<u8>>>, Error> {
        self.with(|c| c.multi_get(keys))
    }

    fn multi_get_cf(
        &self,
        cf: &ColumnFamilyHandle,
        keys: &[&[u8]],
    ) -> Result<Vec<Option<Vec<u8>>>, Error> {
        self.with(|c| c.multi_get_cf(cf, keys))
    }

    fn scan(
        &self,
        start: Option<&[u8]>,
        end: Option<&[u8]>,
    ) -> Result<Vec<(Vec<u8>, Vec<u8>)>, Error> {
        self.with(|c| c.scan(start, end))
    }

    fn scan_cf(
        &self,
        cf: &ColumnFamilyHandle,
        start: Option<&[u8]>,
        end: Option<&[u8]>,
    ) -> Result<Vec<(Vec<u8>, Vec<u8>)>, Error> {
        self.with(|c| c.scan_cf(cf, start, end))
    }

    fn scan_page(
        &self,
        start: Option<&[u8]>,
        end: Option<&[u8]>,
        limit: usize,
    ) -> Result<ScanPage, Error> {
        self.with(|c| c.scan_page(start, end, limit))
    }

    fn scan_page_cf(
        &self,
        cf: &ColumnFamilyHandle,
        start: Option<&[u8]>,
        end: Option<&[u8]>,
        limit: usize,
    ) -> Result<ScanPage, Error> {
        self.with(|c| c.scan_page_cf(cf, start, end, limit))
    }

    fn iter(&self) -> CfIter {
        self.with(|c| c.iter())
    }

    fn iter_cf(&self, cf: &ColumnFamilyHandle) -> CfIter {
        self.with(|c| c.iter_cf(cf))
    }

    fn iter_tailing(&self) -> Tailing {
        Tailing { core: Rc::clone(&self.core), at: self.with(|c| c.iter_tailing()) }
    }

    fn iter_tailing_cf(&self, cf: &ColumnFamilyHandle) -> Tailing {
        Tailing { core: Rc::clone(&self.core), at: self.with(|c| c.iter_tailing_cf(cf)) }
    }

    fn snapshot(&self) -> Snapshot {
        let held = self.core.borrow_mut().as_mut().unwrap().snapshot();
        Snapshot { core: Rc::clone(&self.core), held: Some(held) }
    }

    fn default_cf(&self) -> ColumnFamilyHandle {
        self.with(|c| c.default_cf())
    }

    fn column_family(&self, name: &str) -> Option<ColumnFamilyHandle> {
        self.with(|c| c.column_family(name))
    }

    fn list_column_families(&self) -> Vec<String> {
        self.with(|c| c.list_column_families())
    }

    fn create_column_family(&self, name: &str) -> Result<ColumnFamilyHandle, Error> {
        self.change(|c| c.create_column_family(name))
    }

    fn drop_column_family(&self, cf: ColumnFamilyHandle) -> Result<(), Error> {
        self.change(|c| c.drop_column_family(cf))
    }

    fn drop_all(&self) -> Result<(), Error> {
        self.change(|c| c.drop_all())
    }

    fn close(&self) -> Result<(), Error> {
        self.change(|c| c.close())
    }

    fn compact_range(&self, start: Option<&[u8]>, end: Option<&[u8]>) -> Result<(), Error> {
        self.change(|c| c.compact_range(start, end))
    }

    fn ingest_external_files(&self, files: Vec<ExternalFile>) -> Result<(), Error> {
        self.change(|c| c.ingest_external_files(files))
    }

    fn get_approximate_sizes(&self, ranges: &[Range<'_>]) -> Vec<u64> {
        self.with(|c| c.get_approximate_sizes(ranges))
    }

    fn get_approximate_sizes_cf(&self, cf: &ColumnFamilyHandle, ranges: &[Range<'_>]) -> Vec<u64> {
        self.with(|c| c.get_approximate_sizes_cf(cf, ranges))
    }

    fn get_approximate_memtable_stats(&self, range: Range<'_>) -> MemTableStats {
        self.with(|c| c.get_approximate_memtable_stats(range))
    }

    fn get_approximate_memtable_stats_cf(
        &self,
        cf: &ColumnFamilyHandle,
        range: Range<'_>,
    ) -> MemTableStats {
        self.with(|c| c.get_approximate_memtable_stats_cf(cf, range))
    }

    fn get_int_property(&self, name: &str) -> Option<u64> {
        self.with(|c| c.get_int_property(name))
    }

    fn get_property(&self, name: &str) -> Option<String> {
        self.with(|c| c.get_property(name))
    }
}

/// A snapshot that gives itself back.
struct Snapshot {
    core: Shared,
    held: Option<CoreSnapshot>,
}

impl Drop for Snapshot {
    fn drop(&mut self) {
        if let Some(core) = self.core.borrow_mut().as_mut() {
            core.release(self.held.take().unwrap());
        }
    }
}

impl Snapshot {
    fn with<T>(&self, f: impl FnOnce(&CoreSnapshot, &Core) -> T) -> T {
        f(self.held.as_ref().unwrap(), self.core.borrow().as_ref().unwrap())
    }

    fn get(&self, key: &[u8]) -> Result<Option<Vec<u8>>, Error> {
        self.with(|s, c| s.get(c, key))
    }

    fn get_cf(&self, cf: &ColumnFamilyHandle, key: &[u8]) -> Result<Option<Vec<u8>>, Error> {
        self.with(|s, c| s.get_cf(c, cf, key))
    }

    fn multi_get(&self, keys: &[&[u8]]) -> Result<Vec<Option<Vec<u8>>>, Error> {
        self.with(|s, c| s.multi_get(c, keys))
    }

    fn multi_get_cf(
        &self,
        cf: &ColumnFamilyHandle,
        keys: &[&[u8]],
    ) -> Result<Vec<Option<Vec<u8>>>, Error> {
        self.with(|s, c| s.multi_get_cf(c, cf, keys))
    }

    fn scan_cf(
        &self,
        cf: &ColumnFamilyHandle,
        start: Option<&[u8]>,
        end: Option<&[u8]>,
    ) -> Result<Vec<(Vec<u8>, Vec<u8>)>, Error> {
        self.with(|s, c| s.scan_cf(c, cf, start, end))
    }

    fn scan_page(
        &self,
        start: Option<&[u8]>,
        end: Option<&[u8]>,
        limit: usize,
    ) -> Result<ScanPage, Error> {
        self.with(|s, c| s.scan_page(c, start, end, limit))
    }

    fn iter(&self) -> CfIter {
        self.with(|s, c| s.iter(c))
    }

    fn iter_cf(&self, cf: &ColumnFamilyHandle) -> CfIter {
        self.with(|s, c| s.iter_cf(c, cf))
    }

    fn owned_iter(&self) -> OwnedSnapshotIter {
        let mut guard = self.core.borrow_mut();
        self.held.as_ref().unwrap().owned_iter(guard.as_mut().unwrap())
    }
}

/// A tailing iterator that finds its database by itself.
struct Tailing {
    core: Shared,
    at: CoreTailing,
}

impl Tailing {
    fn seek_to_first(&mut self) {
        self.at.seek_to_first(self.core.borrow().as_ref().unwrap());
    }

    fn seek(&mut self, target: &[u8]) {
        self.at.seek(self.core.borrow().as_ref().unwrap(), target);
    }

    fn refresh(&mut self) {
        self.at.refresh(self.core.borrow().as_ref().unwrap());
    }

    fn next(&mut self) {
        self.at.next(self.core.borrow().as_ref().unwrap());
    }

    fn valid(&self) -> bool {
        self.at.valid()
    }

    fn key(&self) -> Option<&[u8]> {
        self.at.key()
    }

    fn value(&self) -> Option<&[u8]> {
        self.at.value()
    }
}

fn heard<L: EventListener>(listener: &Arc<L>) -> Arc<dyn EventListener> {
    Arc::clone(listener) as Arc<dyn EventListener>
}

fn bump(counter: &AtomicU64) {
    counter.fetch_add(1, Ordering::Relaxed);
}

fn note(counter: &AtomicU64, value: u64) {
    counter.store(value, Ordering::Relaxed);
}

fn seen(counter: &AtomicU64) -> u64 {
    counter.load(Ordering::Relaxed)
}

fn memtable_is_empty(db: &Db) -> bool {
    db.get_approximate_memtable_stats(Range::new(b"", &[0xff; 16])).count == 0
}

/// The id the next column family gets, as the metadata holds it.
fn next_id_held(db: &Db) -> Option<Vec<u8>> {
    db.with(|c| c.engine().get(&next_id_key(), c.latest_sequence()).unwrap())
}

fn open_tmp() -> (Db, Host) {
    let dir = Host::new();
    let db = Db::open(&dir, Options::default()).unwrap();
    (db, dir)
}

/// Options that force flushes early so tests can exercise the SSTable path.
fn tiny_flush_opts() -> Options {
    Options {
        write_buffer_size: 4 * 1024,
        ..Options::default()
    }
}

/// Write enough filler bytes to push the active memtable past
/// `write_buffer_size`, forcing a flush to L0.
fn force_flush(db: &Db, tag: &str) {
    let payload = vec![0u8; 512];
    for i in 0..32 {
        let key = format!("__flush_{}_{:04}", tag, i);
        db.put(key.as_bytes(), &payload).unwrap();
    }
}

fn force_flush_with_prefix(db: &Db, prefix: &str) {
    let payload = vec![0u8; 512];
    for i in 0..32 {
        let key = format!("{prefix}_{i:04}");
        db.put(key.as_bytes(), &payload).unwrap();
    }
}

// ─── Streaming iterator tests ────────────────────────────────────────

fn collect_iter(db: &Db) -> Vec<(Vec<u8>, Vec<u8>)> {
    let mut it = db.iter();
    it.seek_to_first();
    let mut out = Vec::new();
    while it.valid() {
        out.push((it.key().unwrap().to_vec(), it.value().unwrap().to_vec()));
        it.next();
    }
    it.status().unwrap();
    out
}

// ─── Snapshot-pinning GC tests ──────────────────────────────────────

/// Thin wrapper around the engine's test-only persisted-versions
/// accessor. Returns `(seq, value_type)` for every copy of
/// `user_key` currently sitting in an SSTable at any level.
fn all_versions_of(db: &Db, user_key: &[u8]) -> Vec<(u64, u8)> {
    // The helper walks raw engine keys, so re-apply the
    // default-CF prefix before querying.
    let prefixed = prefix_key(DEFAULT_CF_ID, user_key);
    db.with(|c| c.engine().all_persisted_versions_of(&prefixed))
}

// ─── compact_range tests ────────────────────────────────────────────

fn level_file_count(db: &Db, level: usize) -> usize {
    db.get_int_property(&format!("regolith.num-files-at-level{level}")).unwrap() as usize
}

fn total_file_count(db: &Db) -> usize {
    db.with(|c| c.engine().total_file_count())
}

// ─── Reverse iteration tests ─────────────────────────────────────────

fn collect_reverse(db: &Db) -> Vec<(Vec<u8>, Vec<u8>)> {
    let mut it = db.iter();
    it.seek_to_last();
    let mut out = Vec::new();
    while it.valid() {
        out.push((it.key().unwrap().to_vec(), it.value().unwrap().to_vec()));
        it.prev();
    }
    it.status().unwrap();
    out
}

// ── compression codecs ──────────────────────────────────────────────────

fn compression_opts(codec: CompressionType) -> Options {
    Options {
        write_buffer_size: 4 * 1024,
        compression: codec,
        ..Options::default()
    }
}

fn write_and_read_back(opts: Options) {
    let dir = Host::new();
    let payload: Vec<u8> = (0..256).map(|i| (i % 31) as u8).collect();
    {
        let db = Db::open(&dir, opts.clone()).unwrap();
        for i in 0..200 {
            let key = format!("key_{:04}", i);
            db.put(key.as_bytes(), &payload).unwrap();
        }
        // Force a flush so reads must go through the SSTable codec path.
        force_flush(&db, "comp");
        for i in 0..200 {
            let key = format!("key_{:04}", i);
            assert_eq!(
                db.get(key.as_bytes()).unwrap().as_deref(),
                Some(payload.as_slice()),
                "round-trip failed for {key}"
            );
        }
        db.close().unwrap();
    }
    // Reopen to verify the on-disk codec is decoded correctly by a
    // fresh reader.
    let db = Db::open(&dir, opts).unwrap();
    for i in 0..200 {
        let key = format!("key_{:04}", i);
        assert_eq!(
            db.get(key.as_bytes()).unwrap().as_deref(),
            Some(payload.as_slice())
        );
    }
}

// ── compaction filter ───────────────────────────────────────────────────



/// Test filter that drops every entry whose user key ends in an
/// odd ASCII digit. Also counts invocations so tests can verify
/// the filter actually ran.
struct DropOddKeysFilter {
    calls: AtomicU64,
}

impl CompactionFilter for DropOddKeysFilter {
    fn filter(&self, _level: usize, key: &[u8], _value: &[u8]) -> CompactionDecision {
        bump(&self.calls);
        match key.last() {
            Some(b) if b.is_ascii_digit() && (b - b'0') % 2 == 1 => CompactionDecision::Remove,
            _ => CompactionDecision::Keep,
        }
    }
    fn name(&self) -> &'static str {
        "drop_odd_keys"
    }
}

/// Test filter that uppercases every ASCII-lowercase byte in the
/// value. Exercises `Change`.
struct UppercaseValuesFilter;

impl CompactionFilter for UppercaseValuesFilter {
    fn filter(&self, _level: usize, _key: &[u8], value: &[u8]) -> CompactionDecision {
        let up: Vec<u8> = value.iter().map(|b| b.to_ascii_uppercase()).collect();
        if up == value {
            CompactionDecision::Keep
        } else {
            CompactionDecision::Change(up)
        }
    }
    fn name(&self) -> &'static str {
        "uppercase_values"
    }
}

/// Filter that drops every range tombstone it sees.
struct DropRangeTombstonesFilter;

impl CompactionFilter for DropRangeTombstonesFilter {
    fn filter(&self, _level: usize, _key: &[u8], _value: &[u8]) -> CompactionDecision {
        CompactionDecision::Keep
    }
    fn filter_range_delete(
        &self,
        _level: usize,
        _start: &[u8],
        _end: &[u8],
    ) -> CompactionDecision {
        CompactionDecision::Remove
    }
    fn name(&self) -> &'static str {
        "drop_range_tombstones"
    }
}

fn prefix_opts() -> Options {
    Options {
        write_buffer_size: 4 * 1024,
        prefix_extractor: Some(Arc::new(FixedLengthPrefix(10))),
        ..Options::default()
    }
}

// ── merge operator ──────────────────────────────────────────────────────

/// Integer-counter merge operator: every operand is the 8-byte
/// big-endian i64 delta to add. `full_merge` sums them (starting
/// from `base` if present) and emits the new counter value.
/// `partial_merge` folds two deltas by adding them.
struct CounterMerge;

impl MergeOperator for CounterMerge {
    fn full_merge(
        &self,
        _key: &[u8],
        base: Option<&[u8]>,
        operands: &[&[u8]],
    ) -> Option<Vec<u8>> {
        let mut total: i64 = match base {
            Some(b) if b.len() == 8 => i64::from_be_bytes(b.try_into().unwrap()),
            Some(_) => return None,
            None => 0,
        };
        for op in operands {
            if op.len() != 8 {
                return None;
            }
            total = total.wrapping_add(i64::from_be_bytes((*op).try_into().unwrap()));
        }
        Some(total.to_be_bytes().to_vec())
    }

    fn partial_merge(&self, _key: &[u8], left: &[u8], right: &[u8]) -> Option<Vec<u8>> {
        if left.len() != 8 || right.len() != 8 {
            return None;
        }
        let l = i64::from_be_bytes(left.try_into().unwrap());
        let r = i64::from_be_bytes(right.try_into().unwrap());
        Some(l.wrapping_add(r).to_be_bytes().to_vec())
    }

    fn name(&self) -> &'static str {
        "CounterMerge"
    }
}

/// String-append merge operator: every operand is raw bytes;
/// `full_merge` concatenates the base (if any) with every
/// operand in oldest-first order.
struct AppendMerge;

impl MergeOperator for AppendMerge {
    fn full_merge(
        &self,
        _key: &[u8],
        base: Option<&[u8]>,
        operands: &[&[u8]],
    ) -> Option<Vec<u8>> {
        let mut out: Vec<u8> = base.map(|b| b.to_vec()).unwrap_or_default();
        for op in operands {
            out.extend_from_slice(op);
        }
        Some(out)
    }

    fn name(&self) -> &'static str {
        "AppendMerge"
    }
}

fn counter_opts() -> Options {
    Options {
        write_buffer_size: 4 * 1024,
        merge_operator: Some(Arc::new(CounterMerge)),
        ..Options::default()
    }
}

fn encode_i64(n: i64) -> Vec<u8> {
    n.to_be_bytes().to_vec()
}

// ── event listeners ─────────────────────────────────────────────────

/// Test listener that counts every callback it receives and
/// records enough detail for assertions.
#[derive(Default)]
struct CountingListener {
    flush_completed: AtomicU64,
    compaction_begin: AtomicU64,
    compaction_completed: AtomicU64,
    table_file_created: AtomicU64,
    table_file_deleted: AtomicU64,
    external_file_ingested: AtomicU64,
    background_error: AtomicU64,
    last_flush_file_id: AtomicU64,
    last_compaction_output_count: AtomicU64,
}

impl EventListener for CountingListener {
    fn on_flush_completed(&self, info: &FlushJobInfo) {
        bump(&self.flush_completed);
        note(&self.last_flush_file_id, info.file_id);
    }
    fn on_compaction_begin(&self, _info: &CompactionJobInfo) {
        bump(&self.compaction_begin);
    }
    fn on_compaction_completed(&self, info: &CompactionJobInfo) {
        bump(&self.compaction_completed);
        note(&self.last_compaction_output_count, info.output_files.len() as u64);
    }
    fn on_table_file_created(&self, _info: &TableFileCreationInfo) {
        bump(&self.table_file_created);
    }
    fn on_table_file_deleted(&self, _info: &TableFileDeletionInfo) {
        bump(&self.table_file_deleted);
    }
    fn on_external_file_ingested(&self, _info: &ExternalFileIngestionInfo) {
        bump(&self.external_file_ingested);
    }
    fn on_background_error(&self, _reason: BackgroundErrorReason, _err: &Error) {
        bump(&self.background_error);
    }
}

#[test]
fn test_db_open_rejects_invalid_options() {
    let dir = Host::new();
    let err = Db::open(
        &dir,
        Options {
            write_buffer_size: 0,
            ..Options::default()
        },
    )
    .unwrap_err();
    match err {
        Error::InvalidArgument(message) => assert!(message.contains("write_buffer_size")),
        other => panic!("expected invalid argument, got {other:?}"),
    }
}

#[test]
fn test_open_read_only_missing_db_errors() {
    let dir = Host::new();
    let err = Db::open_read_only(&dir, Options::default()).unwrap_err();
    match err {
        Error::Io(io) => assert_eq!(io.kind, ErrorKind::NotFound),
        other => panic!("expected missing DB error, got {other:?}"),
    }
}

#[test]
fn test_close_transitions_handle_to_closed_state() {
    let (db, _dir) = open_tmp();
    db.put(b"k", b"v").unwrap();
    let snap = db.snapshot();

    db.close().unwrap();
    db.close().unwrap();

    match db.get(b"k").unwrap_err() {
        Error::Closed => {}
        other => panic!("expected closed error from get, got {other:?}"),
    }
    match db.put(b"after", b"close").unwrap_err() {
        Error::Closed => {}
        other => panic!("expected closed error from put, got {other:?}"),
    }
    match db.write(WriteBatch::new()).unwrap_err() {
        Error::Closed => {}
        other => panic!("expected closed error from empty write, got {other:?}"),
    }
    match db.delete_range(b"z", b"a").unwrap_err() {
        Error::Closed => {}
        other => panic!("expected closed error from no-op range delete, got {other:?}"),
    }
    let default_cf = db.default_cf();
    match db.delete_range_cf(&default_cf, b"z", b"a").unwrap_err() {
        Error::Closed => {}
        other => panic!("expected closed error from no-op cf range delete, got {other:?}"),
    }
    match snap.get(b"k").unwrap_err() {
        Error::Closed => {}
        other => panic!("expected closed error from snapshot get, got {other:?}"),
    }

    let mut iter = db.iter();
    iter.seek_to_first();
    match iter.status().unwrap_err() {
        Error::Closed => {}
        other => panic!("expected closed error from iterator, got {other:?}"),
    }
}

#[test]
fn test_configured_key_value_size_limits_are_enforced() {
    let dir = Host::new();
    let opts = Options {
        max_key_size: 8,
        max_value_size: 4,
        ..Options::default()
    };
    let db = Db::open(&dir, opts).unwrap();

    db.put(b"abc", b"1234").unwrap();
    assert!(db.put(b"toolongky", b"1").is_err());
    assert!(db.put(b"a", b"12345").is_err());
    assert!(db.delete(b"toolongky").is_err());
    assert!(db.merge(b"toolongky", b"1").is_err());
    assert!(db.merge(b"a", b"12345").is_err());

    let mut batch = WriteBatch::new();
    batch.put(b"ok", b"1");
    batch.put(b"toolong", b"2");
    db.write(batch).unwrap();
    assert_eq!(db.get(b"ok").unwrap(), Some(b"1".to_vec()));

    let mut batch = WriteBatch::new();
    batch.put(b"ok2", b"1");
    batch.put(b"toolongky", b"2");
    assert!(db.write(batch).is_err());
    assert_eq!(db.get(b"ok2").unwrap(), None);

    let cf = db.create_column_family("cf").unwrap();
    assert!(db.put_cf(&cf, b"toolongky", b"1").is_err());
}

#[test]
fn test_basic_crud() {
    let (db, _dir) = open_tmp();

    db.put(b"key1", b"value1").unwrap();
    assert_eq!(db.get(b"key1").unwrap(), Some(b"value1".to_vec()));

    db.put(b"key1", b"value2").unwrap();
    assert_eq!(db.get(b"key1").unwrap(), Some(b"value2".to_vec()));

    db.delete(b"key1").unwrap();
    assert_eq!(db.get(b"key1").unwrap(), None);

    assert_eq!(db.get(b"nonexistent").unwrap(), None);
}

#[test]
fn test_write_batch() {
    let (db, _dir) = open_tmp();

    let mut batch = WriteBatch::new();
    batch.put(b"a", b"1");
    batch.put(b"b", b"2");
    batch.put(b"c", b"3");
    db.write(batch).unwrap();

    assert_eq!(db.get(b"a").unwrap(), Some(b"1".to_vec()));
    assert_eq!(db.get(b"b").unwrap(), Some(b"2".to_vec()));
    assert_eq!(db.get(b"c").unwrap(), Some(b"3".to_vec()));
}

#[test]
fn test_write_batch_uses_single_wal_batch_record() {
    let (db, _dir) = open_tmp();

    let mut batch = WriteBatch::new();
    batch.put(b"a", b"1");
    batch.put(b"b", b"2");
    db.write(batch).unwrap();

    // Records begin after the file stamp; the type byte is the fifth
    // byte of the first record.
    let stamp = WAL_STAMP_LEN;
    let wal = db.with(|c| c.log_bytes().to_vec());
    assert!(wal.len() >= stamp + 5);
    assert_eq!(&wal[0..4], b"REGO", "the log must carry its stamp");
    assert_eq!(
        wal[stamp + 4],
        0x05,
        "multi-op WriteBatch must use RECORD_BATCH"
    );
}

#[test]
fn test_snapshot_isolation() {
    let (db, _dir) = open_tmp();

    db.put(b"key", b"v1").unwrap();
    let snap = db.snapshot();

    db.put(b"key", b"v2").unwrap();

    assert_eq!(snap.get(b"key").unwrap(), Some(b"v1".to_vec()));
    assert_eq!(db.get(b"key").unwrap(), Some(b"v2".to_vec()));
}

#[test]
fn test_scan() {
    let (db, _dir) = open_tmp();

    db.put(b"a", b"1").unwrap();
    db.put(b"b", b"2").unwrap();
    db.put(b"c", b"3").unwrap();
    db.put(b"d", b"4").unwrap();

    let results = db.scan(Some(b"b"), Some(b"d")).unwrap();
    assert_eq!(results.len(), 2);
    assert_eq!(results[0], (b"b".to_vec(), b"2".to_vec()));
    assert_eq!(results[1], (b"c".to_vec(), b"3".to_vec()));
}

#[test]
fn test_scan_page_limits_and_resumes() {
    let (db, _dir) = open_tmp();

    for c in b'a'..=b'e' {
        db.put(&[c], &[c]).unwrap();
    }

    let page = db.scan_page(Some(b"b"), Some(b"e"), 2).unwrap();
    assert_eq!(
        page,
        ScanPage {
            entries: vec![
                (b"b".to_vec(), b"b".to_vec()),
                (b"c".to_vec(), b"c".to_vec()),
            ],
            next_start: Some(b"d".to_vec()),
        }
    );

    let next = db
        .scan_page(page.next_start.as_deref(), Some(b"e"), 2)
        .unwrap();
    assert_eq!(
        next,
        ScanPage {
            entries: vec![(b"d".to_vec(), b"d".to_vec())],
            next_start: None,
        }
    );

    let exact_end = db.scan_page(Some(b"b"), Some(b"d"), 2).unwrap();
    assert_eq!(
        exact_end,
        ScanPage {
            entries: vec![
                (b"b".to_vec(), b"b".to_vec()),
                (b"c".to_vec(), b"c".to_vec()),
            ],
            next_start: None,
        }
    );
}

#[test]
fn test_scan_page_rejects_zero_limit() {
    let (db, _dir) = open_tmp();

    let err = db.scan_page(None, None, 0).unwrap_err();
    match err {
        Error::InvalidArgument(message) => assert!(message.contains("greater than zero")),
        other => panic!("expected invalid argument error, got {other:?}"),
    }
}

#[test]
fn test_strip_cf_prefix_page_rejects_short_internal_key() {
    let page = ScanPage {
        entries: vec![(vec![0, 1, 2], b"value".to_vec())],
        next_start: None,
    };

    match strip_cf_prefix_page(page).unwrap_err() {
        Error::Corruption(source) => assert_eq!(source.kind, ErrorKind::InvalidData),
        other => panic!("expected corruption error, got {other:?}"),
    }
}

#[test]
fn test_snapshot_scan_page_is_stable() {
    let (db, _dir) = open_tmp();

    db.put(b"a", b"1").unwrap();
    db.put(b"b", b"2").unwrap();
    let snap = db.snapshot();

    db.put(b"a", b"new").unwrap();
    db.delete(b"b").unwrap();
    db.put(b"c", b"3").unwrap();

    let first = snap.scan_page(None, None, 1).unwrap();
    assert_eq!(
        first,
        ScanPage {
            entries: vec![(b"a".to_vec(), b"1".to_vec())],
            next_start: Some(b"b".to_vec()),
        }
    );

    let second = snap
        .scan_page(first.next_start.as_deref(), None, 2)
        .unwrap();
    assert_eq!(
        second,
        ScanPage {
            entries: vec![(b"b".to_vec(), b"2".to_vec())],
            next_start: None,
        }
    );
}

#[test]
fn test_drop_all() {
    let (db, _dir) = open_tmp();

    db.put(b"key1", b"val1").unwrap();
    db.put(b"key2", b"val2").unwrap();
    db.drop_all().unwrap();

    assert_eq!(db.get(b"key1").unwrap(), None);
    assert_eq!(db.get(b"key2").unwrap(), None);

    db.put(b"key3", b"val3").unwrap();
    assert_eq!(db.get(b"key3").unwrap(), Some(b"val3".to_vec()));
}

#[test]
fn test_snapshot_isolation_across_flush() {
    let dir = Host::new();
    let db = Db::open(&dir, tiny_flush_opts()).unwrap();

    db.put(b"key", b"v1").unwrap();
    let snap = db.snapshot();

    db.put(b"key", b"v2").unwrap();
    force_flush(&db, "snap");

    assert_eq!(snap.get(b"key").unwrap(), Some(b"v1".to_vec()));
    assert_eq!(db.get(b"key").unwrap(), Some(b"v2".to_vec()));
}

#[test]
fn test_delete_persists_across_flush() {
    let dir = Host::new();
    let db = Db::open(&dir, tiny_flush_opts()).unwrap();

    db.put(b"key", b"v1").unwrap();
    force_flush(&db, "a");

    db.delete(b"key").unwrap();
    force_flush(&db, "b");

    assert_eq!(db.get(b"key").unwrap(), None);
}

#[test]
fn test_crash_recovery_without_close() {
    let dir = Host::new();

    {
        let db = Db::open(&dir, Options::default()).unwrap();
        db.put(b"a", b"1").unwrap();
        db.put(b"b", b"2").unwrap();
        db.delete(b"a").unwrap();
        db.put(b"c", b"3").unwrap();
        // Drop without close() - simulates a crash; the WAL must be replayed.
    }

    let db = Db::open(&dir, Options::default()).unwrap();
    assert_eq!(db.get(b"a").unwrap(), None);
    assert_eq!(db.get(b"b").unwrap(), Some(b"2".to_vec()));
    assert_eq!(db.get(b"c").unwrap(), Some(b"3".to_vec()));
}

#[test]
fn test_recovered_wal_survives_second_crash_before_flush() {
    let dir = Host::new();

    {
        let db = Db::open(&dir, Options::default()).unwrap();
        db.put(b"a", b"1").unwrap();
        db.put(b"b", b"2").unwrap();
        db.put(b"d", b"4").unwrap();
        db.delete(b"a").unwrap();
        db.delete_range(b"d", b"f").unwrap();
        // Drop without close so the first reopen must recover from WAL.
    }

    {
        let db = Db::open(&dir, Options::default()).unwrap();
        assert_eq!(db.get(b"a").unwrap(), None);
        assert_eq!(db.get(b"b").unwrap(), Some(b"2".to_vec()));
        assert_eq!(db.get(b"d").unwrap(), None);
        // Drop again before the recovered memtable can flush. The
        // recovered state must have been rewritten to the active WAL.
    }

    let db = Db::open(&dir, Options::default()).unwrap();
    assert_eq!(db.get(b"a").unwrap(), None);
    assert_eq!(db.get(b"b").unwrap(), Some(b"2".to_vec()));
    assert_eq!(db.get(b"d").unwrap(), None);
}

#[test]
fn test_iter_empty_db() {
    let (db, _dir) = open_tmp();
    let mut it = db.iter();
    it.seek_to_first();
    assert!(!it.valid());
    it.seek(b"anything");
    assert!(!it.valid());
    assert!(it.status().is_ok());
}

#[test]
fn test_iter_basic_forward() {
    let (db, _dir) = open_tmp();
    for i in 0..10 {
        let k = format!("k{:02}", i);
        let v = format!("v{}", i);
        db.put(k.as_bytes(), v.as_bytes()).unwrap();
    }
    let items = collect_iter(&db);
    assert_eq!(items.len(), 10);
    for (i, (k, v)) in items.iter().enumerate() {
        assert_eq!(k, format!("k{:02}", i).as_bytes());
        assert_eq!(v, format!("v{}", i).as_bytes());
    }
}

#[test]
fn test_owned_snapshot_iter_streams_from_snapshot() {
    let (db, _dir) = open_tmp();
    db.put(b"a", b"1").unwrap();
    db.put(b"b", b"2").unwrap();
    let snapshot = db.snapshot();
    db.put(b"c", b"3").unwrap();

    let mut it = snapshot.owned_iter();
    assert_eq!(snapshot.get(b"b").unwrap(), Some(b"2".to_vec()));

    it.seek_to_first();
    assert!(it.valid());
    assert_eq!(it.key(), Some(b"a".as_ref()));
    assert_eq!(it.value(), Some(b"1".as_ref()));
    it.next();
    assert_eq!(it.key(), Some(b"b".as_ref()));
    it.next();
    assert!(!it.valid());

    it.seek_to_last();
    assert_eq!(it.key(), Some(b"b".as_ref()));
    it.prev();
    assert_eq!(it.key(), Some(b"a".as_ref()));
    it.status().unwrap();
}

#[test]
fn test_iter_seek_exact_and_between() {
    let (db, _dir) = open_tmp();
    db.put(b"a", b"1").unwrap();
    db.put(b"c", b"3").unwrap();
    db.put(b"e", b"5").unwrap();

    let mut it = db.iter();

    it.seek(b"a");
    assert!(it.valid());
    assert_eq!(it.key(), Some(b"a".as_ref()));

    it.seek(b"b");
    assert_eq!(it.key(), Some(b"c".as_ref()));

    it.seek(b"c");
    assert_eq!(it.key(), Some(b"c".as_ref()));

    it.seek(b"f");
    assert!(!it.valid());
}

#[test]
fn test_iter_seek_for_prev() {
    let (db, _dir) = open_tmp();
    db.put(b"a", b"1").unwrap();
    db.put(b"c", b"3").unwrap();
    db.put(b"e", b"5").unwrap();

    let mut it = db.iter();

    it.seek_for_prev(b"e");
    assert_eq!(it.key(), Some(b"e".as_ref()));

    it.seek_for_prev(b"d");
    assert_eq!(it.key(), Some(b"c".as_ref()));

    it.seek_for_prev(b"a");
    assert_eq!(it.key(), Some(b"a".as_ref()));

    it.seek_for_prev(b"0");
    assert!(!it.valid());
}

#[test]
fn test_iter_continues_after_seek() {
    let (db, _dir) = open_tmp();
    for c in b'a'..=b'j' {
        db.put(&[c], &[c]).unwrap();
    }

    let mut it = db.iter();
    it.seek(b"d");
    let mut keys = Vec::new();
    while it.valid() {
        keys.push(it.key().unwrap().to_vec());
        it.next();
    }
    assert_eq!(
        keys,
        vec![
            b"d".to_vec(),
            b"e".to_vec(),
            b"f".to_vec(),
            b"g".to_vec(),
            b"h".to_vec(),
            b"i".to_vec(),
            b"j".to_vec(),
        ]
    );
}

#[test]
fn test_iter_across_memtable_and_l0() {
    let dir = Host::new();
    let db = Db::open(&dir, tiny_flush_opts()).unwrap();

    for i in 0..10 {
        let k = format!("old{:02}", i);
        db.put(k.as_bytes(), b"old").unwrap();
    }
    force_flush(&db, "to-l0");

    for i in 0..5 {
        let k = format!("new{:02}", i);
        db.put(k.as_bytes(), b"new").unwrap();
    }

    let items = collect_iter(&db);
    let olds = items.iter().filter(|(k, _)| k.starts_with(b"old")).count();
    let news = items.iter().filter(|(k, _)| k.starts_with(b"new")).count();
    assert_eq!(olds, 10);
    assert_eq!(news, 5);

    let sorted: Vec<_> = items.iter().map(|(k, _)| k.clone()).collect();
    let mut expected = sorted.clone();
    expected.sort();
    assert_eq!(sorted, expected);
}

#[test]
fn test_iter_tombstone_hides_older_level_entry() {
    let dir = Host::new();
    let db = Db::open(&dir, tiny_flush_opts()).unwrap();

    db.put(b"kept", b"v1").unwrap();
    db.put(b"gone", b"v1").unwrap();
    force_flush(&db, "a");

    db.delete(b"gone").unwrap();

    let items = collect_iter(&db);
    let keys: Vec<_> = items.iter().map(|(k, _)| k.clone()).collect();
    assert!(keys.contains(&b"kept".to_vec()));
    assert!(!keys.contains(&b"gone".to_vec()));
}

#[test]
fn test_iter_latest_version_wins_across_levels() {
    let dir = Host::new();
    let db = Db::open(&dir, tiny_flush_opts()).unwrap();

    db.put(b"k", b"v1").unwrap();
    force_flush(&db, "a");
    db.put(b"k", b"v2").unwrap();

    let mut it = db.iter();
    it.seek(b"k");
    assert_eq!(it.key(), Some(b"k".as_ref()));
    assert_eq!(it.value(), Some(b"v2".as_ref()));
}

#[test]
fn test_iter_honors_snapshot_isolation() {
    let (db, _dir) = open_tmp();
    db.put(b"k", b"v1").unwrap();
    let snap = db.snapshot();
    db.put(b"k", b"v2").unwrap();

    let mut it = snap.iter();
    it.seek(b"k");
    assert_eq!(it.value(), Some(b"v1".as_ref()));
}

#[test]
fn test_iter_snapshot_ignores_tombstone_newer_than_snap() {
    let (db, _dir) = open_tmp();
    db.put(b"k", b"v1").unwrap();
    let snap = db.snapshot();
    db.delete(b"k").unwrap();

    let mut it = snap.iter();
    it.seek(b"k");
    assert_eq!(it.value(), Some(b"v1".as_ref()));
}

#[test]
fn test_iter_consistency_with_scan() {
    let (db, _dir) = open_tmp();
    for i in 0..100 {
        let k = format!("k{:03}", i);
        let v = format!("v{}", i);
        db.put(k.as_bytes(), v.as_bytes()).unwrap();
    }

    let scan = db.scan(Some(b"k020"), Some(b"k050")).unwrap();

    let mut it = db.iter();
    it.seek(b"k020");
    let mut from_iter = Vec::new();
    while it.valid() {
        let k = it.key().unwrap();
        if k >= b"k050".as_ref() {
            break;
        }
        from_iter.push((k.to_vec(), it.value().unwrap().to_vec()));
        it.next();
    }

    assert_eq!(scan, from_iter);
}

#[test]
fn test_iter_large_scan_10k_keys_after_flush() {
    let dir = Host::new();
    let db = Db::open(&dir, tiny_flush_opts()).unwrap();

    const N: usize = 10_000;
    for i in 0..N {
        let k = format!("key_{:06}", i);
        db.put(k.as_bytes(), b"v").unwrap();
    }

    let mut it = db.iter();
    it.seek(b"key_");
    let mut count = 0;
    while it.valid() {
        let k = it.key().unwrap();
        if !k.starts_with(b"key_") {
            it.next();
            continue;
        }
        count += 1;
        it.next();
    }
    assert_eq!(count, N);
}

#[test]
fn test_gc_drops_old_versions_without_snapshot() {
    // With no live snapshot, compact_range(None, None) should
    // leave only the newest version of each user key on disk.
    let dir = Host::new();
    let db = Db::open(&dir, tiny_flush_opts()).unwrap();

    for v in 0..10 {
        db.put(b"k", format!("v{}", v).as_bytes()).unwrap();
    }

    db.compact_range(None, None).unwrap();

    let versions = all_versions_of(&db, b"k");
    assert_eq!(
        versions.len(),
        1,
        "expected a single surviving version, found {:?}",
        versions
    );
    assert_eq!(db.get(b"k").unwrap(), Some(b"v9".to_vec()));
}

#[test]
fn test_gc_preserves_versions_pinned_by_snapshot() {
    // Take a snapshot at seq 5, then write more versions. After
    // compaction the snapshot must still read its view, which
    // requires preserving the version it pinned.
    let dir = Host::new();
    let db = Db::open(&dir, tiny_flush_opts()).unwrap();

    db.put(b"k", b"v1").unwrap();
    db.put(b"k", b"v2").unwrap();
    db.put(b"k", b"v3").unwrap();
    let snap = db.snapshot();
    // `snap` now pins seq=3 - the snapshot sees v3.

    for v in 4..10 {
        db.put(b"k", format!("v{}", v).as_bytes()).unwrap();
    }

    db.compact_range(None, None).unwrap();

    assert_eq!(snap.get(b"k").unwrap(), Some(b"v3".to_vec()));
    assert_eq!(db.get(b"k").unwrap(), Some(b"v9".to_vec()));
}

#[test]
fn test_gc_releases_pin_when_snapshot_drops() {
    // Pinning a snapshot and then dropping it should fully
    // release the horizon so the next compaction can collapse
    // the key to a single surviving version.
    let dir = Host::new();
    let db = Db::open(&dir, tiny_flush_opts()).unwrap();

    for v in 0..5 {
        db.put(b"k", format!("v{}", v).as_bytes()).unwrap();
    }

    {
        let _snap = db.snapshot();
        assert_eq!(db.with(|c| c.engine().oldest_live_seq()), 5);
    }
    // Pin released.
    assert_eq!(db.with(|c| c.engine().oldest_live_seq()), u64::MAX);

    for v in 5..10 {
        db.put(b"k", format!("v{}", v).as_bytes()).unwrap();
    }

    db.compact_range(None, None).unwrap();

    let versions = all_versions_of(&db, b"k");
    assert_eq!(versions.len(), 1);
    assert_eq!(db.get(b"k").unwrap(), Some(b"v9".to_vec()));
}

#[test]
fn test_gc_with_multiple_live_snapshots_uses_oldest() {
    // When two snapshots are live, the older one's seq is the
    // GC horizon. Every version newer than (or at) the older
    // snapshot's seq must be preserved so the newer snapshot
    // can still read its own view too.
    let dir = Host::new();
    let db = Db::open(&dir, tiny_flush_opts()).unwrap();

    db.put(b"k", b"v1").unwrap();
    db.put(b"k", b"v2").unwrap();
    let old_snap = db.snapshot(); // pins seq 2
    db.put(b"k", b"v3").unwrap();
    db.put(b"k", b"v4").unwrap();
    let new_snap = db.snapshot(); // pins seq 4
    db.put(b"k", b"v5").unwrap();
    db.put(b"k", b"v6").unwrap();

    db.compact_range(None, None).unwrap();

    // Both snapshots must still return their respective versions.
    assert_eq!(old_snap.get(b"k").unwrap(), Some(b"v2".to_vec()));
    assert_eq!(new_snap.get(b"k").unwrap(), Some(b"v4".to_vec()));
    assert_eq!(db.get(b"k").unwrap(), Some(b"v6".to_vec()));
}

#[test]
fn test_gc_preserves_tombstone_hiding_older_entries() {
    // A tombstone newer than any live snapshot still needs to
    // survive compaction - it's the newest version and reads
    // must resolve to "deleted".
    let dir = Host::new();
    let db = Db::open(&dir, tiny_flush_opts()).unwrap();

    for v in 0..5 {
        db.put(b"k", format!("v{}", v).as_bytes()).unwrap();
    }
    db.delete(b"k").unwrap();

    db.compact_range(None, None).unwrap();

    assert_eq!(db.get(b"k").unwrap(), None);

    // The newest surviving version is a tombstone - look for it
    // on disk.
    let versions = all_versions_of(&db, b"k");
    assert!(!versions.is_empty());
    // Highest seq is the tombstone.
    let (_, vt) = *versions.iter().max_by_key(|(seq, _)| *seq).unwrap();
    const VALUE_TYPE_DELETION: u8 = 0;
    assert_eq!(vt, VALUE_TYPE_DELETION);
}

#[test]
fn test_range_tombstone_pruning_preserves_snapshot_visible_value() {
    let dir = Host::new();
    let db = Db::open(&dir, tiny_flush_opts()).unwrap();

    db.put(b"k", b"old").unwrap();
    let snap = db.snapshot();
    db.delete_range(b"a", b"z").unwrap();

    db.compact_range(None, None).unwrap();

    assert_eq!(snap.get(b"k").unwrap(), Some(b"old".to_vec()));
    assert_eq!(db.get(b"k").unwrap(), None);
}

#[test]
fn test_gc_across_many_user_keys() {
    // Stress the multi-group path: many distinct user keys each
    // with several versions. No snapshot is live so each key
    // should collapse to exactly one surviving version.
    let dir = Host::new();
    let db = Db::open(&dir, tiny_flush_opts()).unwrap();

    for i in 0..200 {
        for v in 0..3 {
            db.put(
                format!("k{:03}", i).as_bytes(),
                format!("v{}_{}", i, v).as_bytes(),
            )
            .unwrap();
        }
    }

    db.compact_range(None, None).unwrap();

    for i in 0..200 {
        let k = format!("k{:03}", i);
        let versions = all_versions_of(&db, k.as_bytes());
        assert_eq!(versions.len(), 1, "key {} survived with {:?}", k, versions);
        assert_eq!(
            db.get(k.as_bytes()).unwrap(),
            Some(format!("v{}_2", i).into_bytes())
        );
    }
}

#[test]
fn test_compact_range_empty_db() {
    let (db, _dir) = open_tmp();
    // No data, no files. compact_range is a no-op and must succeed.
    db.compact_range(None, None).unwrap();
    assert_eq!(total_file_count(&db), 0);
}

#[test]
fn test_compact_range_full_preserves_reads() {
    let dir = Host::new();
    let db = Db::open(&dir, tiny_flush_opts()).unwrap();

    for i in 0..500 {
        let k = format!("k{:04}", i);
        db.put(k.as_bytes(), format!("v{}", i).as_bytes()).unwrap();
    }

    db.compact_range(None, None).unwrap();

    // Every key is still readable after the compaction.
    for i in 0..500 {
        let k = format!("k{:04}", i);
        assert_eq!(
            db.get(k.as_bytes()).unwrap(),
            Some(format!("v{}", i).into_bytes())
        );
    }
}

#[test]
fn test_compact_range_flushes_active_memtable() {
    // Writes that are still in the memtable when compact_range is
    // called must be flushed to L0 before the walk, so the active
    // memtable is empty afterwards.
    let (db, _dir) = open_tmp();
    for i in 0..10 {
        let k = format!("m{:02}", i);
        db.put(k.as_bytes(), b"v").unwrap();
    }
    assert!(!memtable_is_empty(&db));

    db.compact_range(None, None).unwrap();

    assert!(memtable_is_empty(&db));
    // And data is still readable through the SSTable path.
    for i in 0..10 {
        let k = format!("m{:02}", i);
        assert_eq!(db.get(k.as_bytes()).unwrap(), Some(b"v".to_vec()));
    }
}

#[test]
fn test_compact_range_drains_l0() {
    // After a full compact_range, nothing should remain at L0 -
    // every file must have been pushed down to L1+.
    let dir = Host::new();
    let db = Db::open(&dir, tiny_flush_opts()).unwrap();

    for i in 0..200 {
        let k = format!("k{:04}", i);
        db.put(k.as_bytes(), b"v").unwrap();
    }

    db.compact_range(None, None).unwrap();

    assert_eq!(level_file_count(&db, 0), 0);
    // Some higher level must hold the data.
    assert!(total_file_count(&db) > 0);
}

#[test]
fn test_compact_range_bounded_preserves_all_data() {
    let dir = Host::new();
    let db = Db::open(&dir, tiny_flush_opts()).unwrap();

    // Three disjoint ranges: low (a*), mid (m*), high (z*).
    for i in 0..100 {
        db.put(format!("a{:03}", i).as_bytes(), b"a").unwrap();
    }
    for i in 0..100 {
        db.put(format!("m{:03}", i).as_bytes(), b"m").unwrap();
    }
    for i in 0..100 {
        db.put(format!("z{:03}", i).as_bytes(), b"z").unwrap();
    }

    // Only compact the mid range.
    db.compact_range(Some(b"m"), Some(b"n")).unwrap();

    // Every key must still be readable regardless of the range.
    for i in 0..100 {
        assert_eq!(
            db.get(format!("a{:03}", i).as_bytes()).unwrap(),
            Some(b"a".to_vec())
        );
        assert_eq!(
            db.get(format!("m{:03}", i).as_bytes()).unwrap(),
            Some(b"m".to_vec())
        );
        assert_eq!(
            db.get(format!("z{:03}", i).as_bytes()).unwrap(),
            Some(b"z".to_vec())
        );
    }
}

#[test]
fn test_compact_range_bounded_compacts_default_cf_files() {
    let dir = Host::new();
    let opts = Options {
        write_buffer_size: 4 * 1024,
        l0_compaction_trigger: 1_000,
        ..Options::default()
    };
    let db = Db::open(&dir, opts).unwrap();
    let payload = vec![0u8; 512];

    for i in 0..32 {
        db.put(format!("m{i:04}").as_bytes(), &payload).unwrap();
    }
    force_flush_with_prefix(&db, "m_flush");

    let l0_before = level_file_count(&db, 0);
    assert!(l0_before > 0);

    db.compact_range(Some(b"m"), Some(b"n")).unwrap();

    assert_eq!(level_file_count(&db, 0), 0);
    assert!(total_file_count(&db) > 0);
    assert_eq!(db.get(b"m0000").unwrap(), Some(payload));
}

#[test]
fn test_compact_range_reclaims_space_after_overwrite() {
    // Write N keys, overwrite them, force flush, then compact_range.
    // The number of distinct entries after compaction should be N
    // (one per user key) - the old overwritten versions got merged
    // away by deduplication during compaction.
    let dir = Host::new();
    let db = Db::open(&dir, tiny_flush_opts()).unwrap();

    for i in 0..200 {
        let k = format!("k{:03}", i);
        db.put(k.as_bytes(), b"v1").unwrap();
    }
    for i in 0..200 {
        let k = format!("k{:03}", i);
        db.put(k.as_bytes(), b"v2").unwrap();
    }

    db.compact_range(None, None).unwrap();

    for i in 0..200 {
        let k = format!("k{:03}", i);
        assert_eq!(db.get(k.as_bytes()).unwrap(), Some(b"v2".to_vec()));
    }
}

#[test]
fn test_compact_range_runs_alongside_background_compaction() {
    // Write enough to trigger background compactions, then while
    // the engine is still churning, fire a foreground compact_range.
    // Both must complete without corruption.
    let dir = Host::new();
    let db = Db::open(&dir, tiny_flush_opts()).unwrap();

    const N: usize = 2_000;
    for i in 0..N {
        let k = format!("key_{:05}", i);
        db.put(k.as_bytes(), b"v").unwrap();
    }

    db.compact_range(None, None).unwrap();

    // After the foreground compaction, every key is still there.
    for i in 0..N {
        let k = format!("key_{:05}", i);
        assert_eq!(db.get(k.as_bytes()).unwrap(), Some(b"v".to_vec()));
    }
}

#[test]
fn test_compact_range_iterator_still_correct() {
    // compact_range shouldn't perturb an iterator built after it.
    let dir = Host::new();
    let db = Db::open(&dir, tiny_flush_opts()).unwrap();

    for i in 0..300 {
        let k = format!("k{:04}", i);
        db.put(k.as_bytes(), b"v").unwrap();
    }

    db.compact_range(None, None).unwrap();

    let mut it = db.iter();
    it.seek_to_first();
    let mut count = 0;
    while it.valid() {
        if it.key().unwrap().starts_with(b"k") {
            count += 1;
        }
        it.next();
    }
    assert_eq!(count, 300);
}

#[test]
fn test_compact_range_tombstones_are_preserved() {
    // Tombstones must survive compaction until the bottommost level
    // drops them - for now compaction preserves all versions, so a
    // deleted key is still absent to reads.
    let dir = Host::new();
    let db = Db::open(&dir, tiny_flush_opts()).unwrap();

    for i in 0..50 {
        let k = format!("k{:02}", i);
        db.put(k.as_bytes(), b"v").unwrap();
    }
    // Delete half of them.
    for i in (0..50).step_by(2) {
        let k = format!("k{:02}", i);
        db.delete(k.as_bytes()).unwrap();
    }

    db.compact_range(None, None).unwrap();

    for i in 0..50 {
        let k = format!("k{:02}", i);
        let expected = if i % 2 == 0 {
            None
        } else {
            Some(b"v".to_vec())
        };
        assert_eq!(db.get(k.as_bytes()).unwrap(), expected);
    }
}

#[test]
fn test_compaction_range_tombstone_bounds_cover_point_keys_in_other_files() {
    let dir = Host::new();
    let db = Db::open(&dir, tiny_flush_opts()).unwrap();

    db.put(b"b", b"old").unwrap();
    force_flush_with_prefix(&db, "__old_flush");
    db.compact_range(None, None).unwrap();

    db.delete_range(b"a", b"z").unwrap();
    db.put(b"m", b"new").unwrap();
    force_flush_with_prefix(&db, "zz_new_flush");
    db.compact_range(None, None).unwrap();

    assert_eq!(db.get(b"b").unwrap(), None);
    assert_eq!(db.get(b"m").unwrap(), Some(b"new".to_vec()));
}

// ─── MultiGet tests ─────────────────────────────────────────────────

#[test]
fn test_multi_get_empty_batch() {
    let (db, _dir) = open_tmp();
    db.put(b"x", b"y").unwrap();
    let results = db.multi_get(&[]).unwrap();
    assert!(results.is_empty());
}

#[test]
fn test_multi_get_all_hit() {
    let (db, _dir) = open_tmp();
    db.put(b"a", b"1").unwrap();
    db.put(b"b", b"2").unwrap();
    db.put(b"c", b"3").unwrap();

    let keys: &[&[u8]] = &[b"a", b"b", b"c"];
    let results = db.multi_get(keys).unwrap();
    assert_eq!(
        results,
        vec![
            Some(b"1".to_vec()),
            Some(b"2".to_vec()),
            Some(b"3".to_vec())
        ]
    );
}

#[test]
fn test_multi_get_all_miss() {
    let (db, _dir) = open_tmp();
    db.put(b"a", b"1").unwrap();

    let keys: &[&[u8]] = &[b"x", b"y", b"z"];
    let results = db.multi_get(keys).unwrap();
    assert_eq!(results, vec![None, None, None]);
}

#[test]
fn test_multi_get_mixed_hit_miss() {
    let (db, _dir) = open_tmp();
    db.put(b"a", b"1").unwrap();
    db.put(b"c", b"3").unwrap();

    let keys: &[&[u8]] = &[b"a", b"b", b"c", b"d"];
    let results = db.multi_get(keys).unwrap();
    assert_eq!(
        results,
        vec![Some(b"1".to_vec()), None, Some(b"3".to_vec()), None]
    );
}

#[test]
fn test_multi_get_preserves_input_order() {
    let (db, _dir) = open_tmp();
    db.put(b"a", b"1").unwrap();
    db.put(b"b", b"2").unwrap();
    db.put(b"c", b"3").unwrap();

    // Reverse order input.
    let keys: &[&[u8]] = &[b"c", b"a", b"b"];
    let results = db.multi_get(keys).unwrap();
    assert_eq!(
        results,
        vec![
            Some(b"3".to_vec()),
            Some(b"1".to_vec()),
            Some(b"2".to_vec())
        ]
    );
}

#[test]
fn test_multi_get_duplicates_in_input() {
    let (db, _dir) = open_tmp();
    db.put(b"a", b"1").unwrap();
    db.put(b"b", b"2").unwrap();

    let keys: &[&[u8]] = &[b"a", b"b", b"a", b"missing", b"a"];
    let results = db.multi_get(keys).unwrap();
    assert_eq!(
        results,
        vec![
            Some(b"1".to_vec()),
            Some(b"2".to_vec()),
            Some(b"1".to_vec()),
            None,
            Some(b"1".to_vec()),
        ]
    );
}

#[test]
fn test_multi_get_honors_tombstones() {
    let (db, _dir) = open_tmp();
    db.put(b"a", b"1").unwrap();
    db.put(b"b", b"2").unwrap();
    db.put(b"c", b"3").unwrap();
    db.delete(b"b").unwrap();

    let keys: &[&[u8]] = &[b"a", b"b", b"c"];
    let results = db.multi_get(keys).unwrap();
    assert_eq!(
        results,
        vec![Some(b"1".to_vec()), None, Some(b"3".to_vec())]
    );
}

#[test]
fn test_multi_get_tombstone_hides_older_level_entry() {
    let dir = Host::new();
    let db = Db::open(&dir, tiny_flush_opts()).unwrap();

    db.put(b"keep", b"v").unwrap();
    db.put(b"gone", b"v").unwrap();
    force_flush(&db, "x");
    db.delete(b"gone").unwrap();

    let keys: &[&[u8]] = &[b"keep", b"gone"];
    let results = db.multi_get(keys).unwrap();
    assert_eq!(results, vec![Some(b"v".to_vec()), None]);
}

#[test]
fn test_multi_get_spans_memtable_and_l0() {
    let dir = Host::new();
    let db = Db::open(&dir, tiny_flush_opts()).unwrap();

    db.put(b"from_l0_1", b"v1").unwrap();
    db.put(b"from_l0_2", b"v2").unwrap();
    force_flush(&db, "x");

    db.put(b"from_mem_1", b"v3").unwrap();
    db.put(b"from_mem_2", b"v4").unwrap();

    let keys: &[&[u8]] = &[b"from_mem_1", b"from_l0_1", b"from_mem_2", b"from_l0_2"];
    let results = db.multi_get(keys).unwrap();
    assert_eq!(
        results,
        vec![
            Some(b"v3".to_vec()),
            Some(b"v1".to_vec()),
            Some(b"v4".to_vec()),
            Some(b"v2".to_vec())
        ]
    );
}

#[test]
fn test_multi_get_snapshot_isolation() {
    let (db, _dir) = open_tmp();
    db.put(b"a", b"a1").unwrap();
    db.put(b"b", b"b1").unwrap();

    let snap = db.snapshot();

    db.put(b"a", b"a2").unwrap();
    db.put(b"c", b"c1").unwrap();
    db.delete(b"b").unwrap();

    let keys: &[&[u8]] = &[b"a", b"b", b"c"];
    let results = snap.multi_get(keys).unwrap();
    assert_eq!(
        results,
        vec![Some(b"a1".to_vec()), Some(b"b1".to_vec()), None],
    );
}

#[test]
fn test_multi_get_consistency_with_get() {
    // For any batch, multi_get must return the same results as a
    // loop of individual get calls at the same snapshot.
    let dir = Host::new();
    let db = Db::open(&dir, tiny_flush_opts()).unwrap();

    for i in 0..500 {
        let k = format!("k{:04}", i);
        db.put(k.as_bytes(), format!("v{}", i).as_bytes()).unwrap();
    }
    // Delete some.
    for i in (0..500).step_by(7) {
        let k = format!("k{:04}", i);
        db.delete(k.as_bytes()).unwrap();
    }

    // Snapshot so individual gets and multi_get see the same thing.
    let snap = db.snapshot();

    let keys_owned: Vec<String> = (0..500)
        .step_by(3)
        .map(|i| format!("k{:04}", i))
        .chain(std::iter::once("missing_key".to_string()))
        .collect();
    let keys: Vec<&[u8]> = keys_owned.iter().map(|s| s.as_bytes()).collect();

    let individual: Vec<_> = keys.iter().map(|k| snap.get(k).unwrap()).collect();
    let batched = snap.multi_get(&keys).unwrap();

    assert_eq!(individual, batched);
    assert_eq!(individual.len(), keys.len());
}

#[test]
fn test_multi_get_large_batch_after_flush() {
    let dir = Host::new();
    let db = Db::open(&dir, tiny_flush_opts()).unwrap();

    const N: usize = 2_000;
    for i in 0..N {
        let k = format!("key_{:05}", i);
        db.put(k.as_bytes(), b"v").unwrap();
    }

    let keys_owned: Vec<String> = (0..N).map(|i| format!("key_{:05}", i)).collect();
    let keys: Vec<&[u8]> = keys_owned.iter().map(|s| s.as_bytes()).collect();
    let results = db.multi_get(&keys).unwrap();
    assert_eq!(results.len(), N);
    for r in &results {
        assert_eq!(r.as_deref(), Some(b"v".as_ref()));
    }
}

#[test]
fn test_multi_get_compacted_level_range_tombstones() {
    let dir = Host::new();
    let db = Db::open(&dir, tiny_flush_opts()).unwrap();

    for i in 0..30 {
        let key = format!("k{:02}", i);
        let value = format!("v{:02}", i);
        db.put(key.as_bytes(), value.as_bytes()).unwrap();
    }
    force_flush(&db, "base");
    db.delete_range(b"k10", b"k20").unwrap();
    db.compact_range(None, None).unwrap();

    assert!(
        (1..7).any(|level| level_file_count(&db, level) > 0),
        "test must exercise L1+ files"
    );

    let keys_owned = ["k09", "k10", "k15", "k20", "k15", "k09", "missing", "k29"];
    let keys: Vec<&[u8]> = keys_owned.iter().map(|key| key.as_bytes()).collect();
    let individual: Vec<_> = keys.iter().map(|key| db.get(key).unwrap()).collect();
    let batched = db.multi_get(&keys).unwrap();

    assert_eq!(batched, individual);
    assert_eq!(batched[0], Some(b"v09".to_vec()));
    assert_eq!(batched[1], None);
    assert_eq!(batched[2], None);
    assert_eq!(batched[3], Some(b"v20".to_vec()));
    assert_eq!(batched[4], None);
    assert_eq!(batched[5], Some(b"v09".to_vec()));
    assert_eq!(batched[6], None);
    assert_eq!(batched[7], Some(b"v29".to_vec()));
}

#[test]
fn test_iter_seek_to_last_empty() {
    let (db, _dir) = open_tmp();
    let mut it = db.iter();
    it.seek_to_last();
    assert!(!it.valid());
}

#[test]
fn test_iter_reverse_walk_basic() {
    let (db, _dir) = open_tmp();
    for i in 0..10 {
        let k = format!("k{:02}", i);
        db.put(k.as_bytes(), b"v").unwrap();
    }
    let items = collect_reverse(&db);
    assert_eq!(items.len(), 10);
    for (i, (k, _)) in items.iter().enumerate() {
        assert_eq!(k, format!("k{:02}", 9 - i).as_bytes());
    }
}

#[test]
fn test_iter_prev_latest_version() {
    let (db, _dir) = open_tmp();
    db.put(b"a", b"a1").unwrap();
    db.put(b"b", b"b1").unwrap();
    db.put(b"b", b"b2").unwrap();
    db.put(b"c", b"c1").unwrap();

    let mut it = db.iter();
    it.seek_to_last();
    assert_eq!(it.key(), Some(b"c".as_ref()));
    it.prev();
    assert_eq!(it.key(), Some(b"b".as_ref()));
    assert_eq!(it.value(), Some(b"b2".as_ref()));
    it.prev();
    assert_eq!(it.key(), Some(b"a".as_ref()));
    it.prev();
    assert!(!it.valid());
}

#[test]
fn test_iter_seek_for_prev_then_prev() {
    let (db, _dir) = open_tmp();
    db.put(b"a", b"1").unwrap();
    db.put(b"c", b"3").unwrap();
    db.put(b"e", b"5").unwrap();
    db.put(b"g", b"7").unwrap();

    let mut it = db.iter();
    it.seek_for_prev(b"f");
    assert_eq!(it.key(), Some(b"e".as_ref()));
    it.prev();
    assert_eq!(it.key(), Some(b"c".as_ref()));
    it.prev();
    assert_eq!(it.key(), Some(b"a".as_ref()));
    it.prev();
    assert!(!it.valid());
}

#[test]
fn test_iter_reverse_across_flush_levels() {
    let dir = Host::new();
    let db = Db::open(&dir, tiny_flush_opts()).unwrap();

    for i in 0..20 {
        let k = format!("k{:02}", i);
        db.put(k.as_bytes(), b"v").unwrap();
    }
    force_flush(&db, "a");
    for i in 20..30 {
        let k = format!("k{:02}", i);
        db.put(k.as_bytes(), b"v").unwrap();
    }

    let items = collect_reverse(&db);
    let k_count = items.iter().filter(|(k, _)| k.starts_with(b"k")).count();
    assert_eq!(k_count, 30);
    let mut prev_k: Option<Vec<u8>> = None;
    for (k, _) in items.iter().filter(|(k, _)| k.starts_with(b"k")) {
        if let Some(p) = &prev_k {
            assert!(k < p, "not descending: {:?} after {:?}", k, p);
        }
        prev_k = Some(k.clone());
    }
}

#[test]
fn test_iter_reverse_hides_tombstoned_user_key() {
    let dir = Host::new();
    let db = Db::open(&dir, tiny_flush_opts()).unwrap();

    db.put(b"keep", b"v").unwrap();
    db.put(b"gone", b"v").unwrap();
    force_flush(&db, "a");
    db.delete(b"gone").unwrap();

    let items = collect_reverse(&db);
    let keys: Vec<_> = items.iter().map(|(k, _)| k.clone()).collect();
    assert!(keys.contains(&b"keep".to_vec()));
    assert!(!keys.contains(&b"gone".to_vec()));
}

#[test]
fn test_iter_reverse_honors_snapshot_isolation() {
    let (db, _dir) = open_tmp();
    db.put(b"k", b"v1").unwrap();
    let snap = db.snapshot();
    db.put(b"k", b"v2").unwrap();

    let mut it = snap.iter();
    it.seek_to_last();
    assert_eq!(it.key(), Some(b"k".as_ref()));
    assert_eq!(it.value(), Some(b"v1".as_ref()));
}

#[test]
fn test_iter_direction_flip_forward_to_reverse() {
    let (db, _dir) = open_tmp();
    for c in b'a'..=b'e' {
        db.put(&[c], &[c]).unwrap();
    }

    let mut it = db.iter();
    it.seek_to_first();
    assert_eq!(it.key(), Some(b"a".as_ref()));
    it.next();
    assert_eq!(it.key(), Some(b"b".as_ref()));
    it.next();
    assert_eq!(it.key(), Some(b"c".as_ref()));

    it.prev();
    assert_eq!(it.key(), Some(b"b".as_ref()));
    it.prev();
    assert_eq!(it.key(), Some(b"a".as_ref()));
    it.prev();
    assert!(!it.valid());
}

#[test]
fn test_iter_direction_flip_reverse_to_forward() {
    let (db, _dir) = open_tmp();
    for c in b'a'..=b'e' {
        db.put(&[c], &[c]).unwrap();
    }

    let mut it = db.iter();
    it.seek_to_last();
    assert_eq!(it.key(), Some(b"e".as_ref()));
    it.prev();
    assert_eq!(it.key(), Some(b"d".as_ref()));
    it.prev();
    assert_eq!(it.key(), Some(b"c".as_ref()));

    it.next();
    assert_eq!(it.key(), Some(b"d".as_ref()));
    it.next();
    assert_eq!(it.key(), Some(b"e".as_ref()));
    it.next();
    assert!(!it.valid());
}

#[test]
fn test_iter_reverse_scan_10k_keys_after_flush() {
    let dir = Host::new();
    let db = Db::open(&dir, tiny_flush_opts()).unwrap();

    const N: usize = 10_000;
    for i in 0..N {
        let k = format!("key_{:06}", i);
        db.put(k.as_bytes(), b"v").unwrap();
    }

    let mut it = db.iter();
    it.seek_for_prev(b"key_~"); // '~' sorts after digits
    let mut count = 0;
    let mut prev: Option<Vec<u8>> = None;
    while it.valid() {
        let k = it.key().unwrap().to_vec();
        if !k.starts_with(b"key_") {
            it.prev();
            continue;
        }
        if let Some(p) = &prev {
            assert!(k < *p, "not descending: {:?} after {:?}", k, p);
        }
        prev = Some(k);
        count += 1;
        it.prev();
    }
    assert_eq!(count, N);
    assert!(it.status().is_ok());
}

#[test]
fn test_iter_reverse_seek_past_end_of_multi_block_sst() {
    // Regression: SsTableLevelIter::seek_for_prev used to fall back
    // to block 0 when the target exceeded every entry in the SST.
    // The correct fallback is the *last* block, so reverse walks
    // that start past the end actually visit every user key.
    //
    // Forces a multi-block SSTable with a small `block_size`, flushes
    // to L0 via `close()` so the data is guaranteed to be on disk,
    // then reopens and runs `seek_for_prev` with a target larger
    // than every key.
    let dir = Host::new();
    let opts = Options {
        block_size: 128,
        write_buffer_size: 64 * 1024,
        ..Options::default()
    };
    {
        let db = Db::open(&dir, opts.clone()).unwrap();
        for i in 0..60u32 {
            let k = format!("k{:03}", i);
            db.put(k.as_bytes(), b"v").unwrap();
        }
        db.close().unwrap();
    }

    let db = Db::open(&dir, opts).unwrap();
    let mut it = db.iter();
    it.seek_for_prev(b"~"); // '~' sorts after 'k'

    let mut seen = Vec::new();
    while it.valid() {
        seen.push(it.key().unwrap().to_vec());
        it.prev();
    }
    assert_eq!(seen.len(), 60);
    assert_eq!(seen.first().map(|k| k.as_slice()), Some(&b"k059"[..]));
    assert_eq!(seen.last().map(|k| k.as_slice()), Some(&b"k000"[..]));
}

#[test]
fn test_iter_seek_for_prev_on_tombstoned_key() {
    let dir = Host::new();
    let db = Db::open(&dir, tiny_flush_opts()).unwrap();

    db.put(b"a", b"a1").unwrap();
    db.put(b"b", b"b1").unwrap();
    db.put(b"c", b"c1").unwrap();
    force_flush(&db, "x");
    db.delete(b"b").unwrap();

    let mut it = db.iter();
    it.seek_for_prev(b"b");
    // `b` is tombstoned, so reverse-seek to `b` should skip past it
    // and land on `a`.
    assert_eq!(it.key(), Some(b"a".as_ref()));
}

#[test]
fn test_iter_survives_drop_all() {
    // drop_all unlinks every SSTable file. An iterator captured before
    // drop_all holds its own Arc<SsTableReader>s (each with an open
    // File), so OS fd refcounting keeps the bytes alive and the
    // iterator continues to produce its original view.
    let dir = Host::new();
    let db = Db::open(&dir, tiny_flush_opts()).unwrap();

    for i in 0..20 {
        let k = format!("pin{:03}", i);
        db.put(k.as_bytes(), b"v").unwrap();
    }
    force_flush(&db, "pinned");

    let mut it = db.iter();
    it.seek_to_first();

    db.drop_all().unwrap();

    let mut seen_pinned = 0;
    while it.valid() {
        if it.key().unwrap().starts_with(b"pin") {
            seen_pinned += 1;
        }
        it.next();
    }
    assert_eq!(seen_pinned, 20);
    assert!(it.status().is_ok());
}

#[test]
fn test_persistence() {
    let dir = Host::new();

    {
        let db = Db::open(&dir, Options::default()).unwrap();
        db.put(b"persist", b"data").unwrap();
        db.close().unwrap();
    }

    {
        let db = Db::open(&dir, Options::default()).unwrap();
        assert_eq!(db.get(b"persist").unwrap(), Some(b"data".to_vec()));
    }
}

// ── delete_range ────────────────────────────────────────────────────────

#[test]
fn test_delete_range_basic() {
    let (db, _dir) = open_tmp();
    for c in b'a'..=b'j' {
        db.put(&[c], &[c]).unwrap();
    }
    db.delete_range(b"c", b"g").unwrap();

    assert_eq!(db.get(b"a").unwrap(), Some(b"a".to_vec()));
    assert_eq!(db.get(b"b").unwrap(), Some(b"b".to_vec()));
    assert_eq!(db.get(b"c").unwrap(), None);
    assert_eq!(db.get(b"d").unwrap(), None);
    assert_eq!(db.get(b"e").unwrap(), None);
    assert_eq!(db.get(b"f").unwrap(), None);
    assert_eq!(db.get(b"g").unwrap(), Some(b"g".to_vec())); // end exclusive
    assert_eq!(db.get(b"j").unwrap(), Some(b"j".to_vec()));
}

#[test]
fn test_delete_range_no_op_for_empty_or_inverted() {
    let (db, _dir) = open_tmp();
    db.put(b"a", b"1").unwrap();
    // Inverted range should be a silent no-op.
    db.delete_range(b"z", b"a").unwrap();
    // Equal bounds should also be a no-op (half-open empty range).
    db.delete_range(b"a", b"a").unwrap();
    assert_eq!(db.get(b"a").unwrap(), Some(b"1".to_vec()));
}

#[test]
fn test_delete_range_then_put_inside_range() {
    let (db, _dir) = open_tmp();
    db.put(b"k", b"old").unwrap();
    db.delete_range(b"a", b"z").unwrap();
    // A put after the range delete must win - it has a higher seq.
    db.put(b"k", b"new").unwrap();
    assert_eq!(db.get(b"k").unwrap(), Some(b"new".to_vec()));
}

#[test]
fn test_delete_range_put_then_range_delete_then_overwrite() {
    let (db, _dir) = open_tmp();
    db.put(b"k", b"v1").unwrap();
    db.delete_range(b"a", b"z").unwrap();
    assert_eq!(db.get(b"k").unwrap(), None);
    db.put(b"k", b"v2").unwrap();
    assert_eq!(db.get(b"k").unwrap(), Some(b"v2".to_vec()));
}

#[test]
fn test_delete_range_snapshot_isolation() {
    let (db, _dir) = open_tmp();
    db.put(b"k", b"v1").unwrap();
    let snap = db.snapshot();
    db.delete_range(b"a", b"z").unwrap();
    assert_eq!(db.get(b"k").unwrap(), None);
    // Snapshot is anchored before the range delete.
    assert_eq!(snap.get(b"k").unwrap(), Some(b"v1".to_vec()));
}

#[test]
fn test_delete_range_survives_flush() {
    let dir = Host::new();
    let db = Db::open(&dir, tiny_flush_opts()).unwrap();
    for i in 0..20 {
        db.put(format!("key_{:02}", i).as_bytes(), b"v").unwrap();
    }
    db.delete_range(b"key_05", b"key_15").unwrap();
    force_flush(&db, "rt");
    for i in 0..20 {
        let key = format!("key_{:02}", i);
        let got = db.get(key.as_bytes()).unwrap();
        if (5..15).contains(&i) {
            assert_eq!(got, None, "key {} should be deleted", key);
        } else {
            assert_eq!(got, Some(b"v".to_vec()), "key {} should survive", key);
        }
    }
}

#[test]
fn test_delete_range_survives_compaction() {
    let dir = Host::new();
    let db = Db::open(&dir, tiny_flush_opts()).unwrap();
    for i in 0..30 {
        db.put(format!("key_{:02}", i).as_bytes(), b"v").unwrap();
    }
    db.delete_range(b"key_10", b"key_20").unwrap();
    // Force several flushes + a manual compaction down to L1+.
    for tag in 0..6 {
        force_flush(&db, &format!("c{}", tag));
    }
    db.compact_range(None, None).unwrap();

    for i in 0..30 {
        let key = format!("key_{:02}", i);
        let got = db.get(key.as_bytes()).unwrap();
        if (10..20).contains(&i) {
            assert_eq!(got, None, "key {} should be deleted post-compact", key);
        } else {
            assert_eq!(
                got,
                Some(b"v".to_vec()),
                "key {} should survive compact",
                key
            );
        }
    }
}

#[test]
fn test_delete_range_iterator_skips_deleted() {
    let (db, _dir) = open_tmp();
    for c in b'a'..=b'h' {
        db.put(&[c], &[c]).unwrap();
    }
    db.delete_range(b"c", b"f").unwrap();

    let results = db.scan(None, None).unwrap();
    let keys: Vec<u8> = results.iter().map(|(k, _)| k[0]).collect();
    assert_eq!(keys, vec![b'a', b'b', b'f', b'g', b'h']);
}

#[test]
fn test_delete_range_reverse_iterator_skips_deleted() {
    let (db, _dir) = open_tmp();
    for c in b'a'..=b'h' {
        db.put(&[c], &[c]).unwrap();
    }
    db.delete_range(b"c", b"f").unwrap();

    let mut iter = db.iter();
    iter.seek_to_last();
    let mut keys = Vec::new();
    while iter.valid() {
        keys.push(iter.key().unwrap()[0]);
        iter.prev();
    }
    assert_eq!(keys, vec![b'h', b'g', b'f', b'b', b'a']);
}

#[test]
fn test_delete_range_multi_get_honors_rt() {
    let (db, _dir) = open_tmp();
    for c in b'a'..=b'f' {
        db.put(&[c], &[c]).unwrap();
    }
    db.delete_range(b"b", b"e").unwrap();

    let keys: Vec<&[u8]> = vec![b"a", b"b", b"c", b"d", b"e", b"f"];
    let got = db.multi_get(&keys).unwrap();
    assert_eq!(got[0], Some(b"a".to_vec()));
    assert_eq!(got[1], None);
    assert_eq!(got[2], None);
    assert_eq!(got[3], None);
    assert_eq!(got[4], Some(b"e".to_vec()));
    assert_eq!(got[5], Some(b"f".to_vec()));
}

#[test]
fn test_delete_range_crash_recovery() {
    let dir = Host::new();
    {
        let db = Db::open(&dir, Options::default()).unwrap();
        for c in b'a'..=b'e' {
            db.put(&[c], &[c]).unwrap();
        }
        db.delete_range(b"b", b"d").unwrap();
        // Drop without close - only the WAL has the range delete.
    }
    let db = Db::open(&dir, Options::default()).unwrap();
    assert_eq!(db.get(b"a").unwrap(), Some(b"a".to_vec()));
    assert_eq!(db.get(b"b").unwrap(), None);
    assert_eq!(db.get(b"c").unwrap(), None);
    assert_eq!(db.get(b"d").unwrap(), Some(b"d".to_vec()));
    assert_eq!(db.get(b"e").unwrap(), Some(b"e".to_vec()));
}

#[test]
fn test_delete_range_in_write_batch() {
    let (db, _dir) = open_tmp();
    for c in b'a'..=b'f' {
        db.put(&[c], &[c]).unwrap();
    }
    let mut batch = WriteBatch::new();
    batch.put(b"x", b"x");
    batch.delete_range(b"b", b"e");
    batch.put(b"y", b"y");
    db.write(batch).unwrap();

    assert_eq!(db.get(b"a").unwrap(), Some(b"a".to_vec()));
    assert_eq!(db.get(b"b").unwrap(), None);
    assert_eq!(db.get(b"c").unwrap(), None);
    assert_eq!(db.get(b"d").unwrap(), None);
    assert_eq!(db.get(b"e").unwrap(), Some(b"e".to_vec()));
    assert_eq!(db.get(b"x").unwrap(), Some(b"x".to_vec()));
    assert_eq!(db.get(b"y").unwrap(), Some(b"y".to_vec()));
}

#[test]
fn test_write_batch_delete_range_then_put_inside_range_keeps_put() {
    let (db, _dir) = open_tmp();
    db.put(b"k", b"old").unwrap();

    let mut batch = WriteBatch::new();
    batch.delete_range(b"a", b"z");
    batch.put(b"k", b"new");
    db.write(batch).unwrap();

    assert_eq!(db.get(b"k").unwrap(), Some(b"new".to_vec()));
}

#[test]
fn test_write_batch_put_then_delete_range_inside_range_deletes_put() {
    let (db, _dir) = open_tmp();

    let mut batch = WriteBatch::new();
    batch.put(b"k", b"new");
    batch.delete_range(b"a", b"z");
    db.write(batch).unwrap();

    assert_eq!(db.get(b"k").unwrap(), None);
}

#[test]
fn test_write_batch_order_survives_wal_replay() {
    let dir = Host::new();
    {
        let db = Db::open(&dir, Options::default()).unwrap();
        db.put(b"k", b"old").unwrap();

        let mut batch = WriteBatch::new();
        batch.delete_range(b"a", b"z");
        batch.put(b"k", b"new");
        db.write(batch).unwrap();
        // Drop without an explicit close so reopen must recover
        // the ordered batch from the WAL.
    }

    let db = Db::open(&dir, Options::default()).unwrap();
    assert_eq!(db.get(b"k").unwrap(), Some(b"new".to_vec()));
}

#[test]
fn test_delete_range_overlapping_ranges() {
    let (db, _dir) = open_tmp();
    for c in b'a'..=b'j' {
        db.put(&[c], &[c]).unwrap();
    }
    db.delete_range(b"b", b"e").unwrap();
    db.delete_range(b"d", b"h").unwrap();

    assert_eq!(db.get(b"a").unwrap(), Some(b"a".to_vec()));
    for c in b'b'..=b'g' {
        assert_eq!(db.get(&[c]).unwrap(), None, "key {} deleted", c as char);
    }
    assert_eq!(db.get(b"h").unwrap(), Some(b"h".to_vec()));
}

#[test]
fn test_compression_none_roundtrip() {
    write_and_read_back(compression_opts(CompressionType::Uncompressed));
}

#[test]
fn test_compression_lz4_roundtrip() {
    write_and_read_back(compression_opts(CompressionType::Lz4));
}

#[test]
fn test_compression_snappy_roundtrip() {
    write_and_read_back(compression_opts(CompressionType::Snappy));
}

#[test]
fn test_compression_per_level_mixed_codecs() {
    // L0 = Snappy, L1+ = Lz4. After a flush + manual compaction the
    // database must hold blocks compressed with both codecs and
    // still read back correctly.
    let dir = Host::new();
    let opts = Options {
        write_buffer_size: 4 * 1024,
        compression: CompressionType::Lz4,
        compression_per_level: Some(vec![
            CompressionType::Snappy, // L0
            CompressionType::Lz4,    // L1
            CompressionType::Uncompressed,   // L2 (unused here, just to exercise the slot)
        ]),
        ..Options::default()
    };
    let payload: Vec<u8> = (0..256).map(|i| (i % 17) as u8).collect();
    {
        let db = Db::open(&dir, opts.clone()).unwrap();
        for i in 0..300 {
            let key = format!("k_{:04}", i);
            db.put(key.as_bytes(), &payload).unwrap();
        }
        force_flush(&db, "mix");
        // Push everything down to L1 with the manual compaction path.
        db.compact_range(None, None).unwrap();
        for i in 0..300 {
            let key = format!("k_{:04}", i);
            assert_eq!(
                db.get(key.as_bytes()).unwrap().as_deref(),
                Some(payload.as_slice())
            );
        }
        db.close().unwrap();
    }
    // Reopen and re-read so the test exercises a fresh reader
    // hitting both codecs through the level layout we just built.
    let db = Db::open(&dir, opts).unwrap();
    for i in 0..300 {
        let key = format!("k_{:04}", i);
        assert_eq!(
            db.get(key.as_bytes()).unwrap().as_deref(),
            Some(payload.as_slice())
        );
    }
}

#[test]
fn test_compression_per_level_falls_back_to_default() {
    // Override only L0; L1+ should fall back to `compression`.
    let dir = Host::new();
    let opts = Options {
        write_buffer_size: 4 * 1024,
        compression: CompressionType::Snappy,
        compression_per_level: Some(vec![CompressionType::Uncompressed]),
        ..Options::default()
    };
    let db = Db::open(&dir, opts).unwrap();
    for i in 0..50 {
        db.put(format!("k_{i:03}").as_bytes(), b"v").unwrap();
    }
    force_flush(&db, "fb");
    db.compact_range(None, None).unwrap();
    for i in 0..50 {
        assert_eq!(
            db.get(format!("k_{i:03}").as_bytes()).unwrap(),
            Some(b"v".to_vec())
        );
    }
}

#[test]
fn test_compaction_filter_removes_matching_entries() {
    let dir = Host::new();
    let filter = Arc::new(DropOddKeysFilter {
        calls: AtomicU64::new(0),
    });
    let opts = Options {
        write_buffer_size: 4 * 1024,
        compaction_filter: Some(filter.clone()),
        ..Options::default()
    };
    let db = Db::open(&dir, opts).unwrap();
    // 20 keys: k0..k9 written twice so compaction has work. Use
    // longer payloads so the tiny write buffer triggers flushes.
    let payload = vec![b'v'; 512];
    for _round in 0..4 {
        for i in 0..10 {
            db.put(format!("k{i}").as_bytes(), &payload).unwrap();
        }
    }
    db.compact_range(None, None).unwrap();

    // After compaction, odd-suffix keys are gone.
    for i in 0..10 {
        let got = db.get(format!("k{i}").as_bytes()).unwrap();
        if i % 2 == 1 {
            assert_eq!(got, None, "k{i} should be filtered");
        } else {
            assert_eq!(got, Some(payload.clone()), "k{i} should survive");
        }
    }
    assert!(
        seen(&filter.calls) > 0,
        "filter should have been invoked"
    );
}

#[test]
fn test_compaction_filter_rewrites_values() {
    let dir = Host::new();
    let opts = Options {
        write_buffer_size: 4 * 1024,
        compaction_filter: Some(Arc::new(UppercaseValuesFilter)),
        ..Options::default()
    };
    let db = Db::open(&dir, opts).unwrap();
    for i in 0..20 {
        db.put(format!("k{i:02}").as_bytes(), b"hello world")
            .unwrap();
    }
    // Force enough flushes + manual compaction to run the filter.
    force_flush(&db, "filter");
    db.compact_range(None, None).unwrap();

    for i in 0..20 {
        assert_eq!(
            db.get(format!("k{i:02}").as_bytes()).unwrap(),
            Some(b"HELLO WORLD".to_vec())
        );
    }
}

#[test]
fn test_compaction_filter_skipped_while_snapshot_alive() {
    let dir = Host::new();
    let opts = Options {
        write_buffer_size: 4 * 1024,
        compaction_filter: Some(Arc::new(UppercaseValuesFilter)),
        ..Options::default()
    };
    let db = Db::open(&dir, opts).unwrap();
    for i in 0..20 {
        db.put(format!("k{i:02}").as_bytes(), b"hello").unwrap();
    }
    // Hold a snapshot so the compaction filter is skipped entirely.
    let snap = db.snapshot();
    force_flush(&db, "snap_filter");
    db.compact_range(None, None).unwrap();

    // The snapshot still observes the pre-filter value because
    // the filter was suppressed while it was alive. The live db
    // reads also see the unmodified value since compaction left
    // it intact.
    for i in 0..20 {
        assert_eq!(
            snap.get(format!("k{i:02}").as_bytes()).unwrap(),
            Some(b"hello".to_vec())
        );
        assert_eq!(
            db.get(format!("k{i:02}").as_bytes()).unwrap(),
            Some(b"hello".to_vec())
        );
    }
}

#[test]
fn test_compaction_filter_drops_range_tombstones() {
    let dir = Host::new();
    let opts = Options {
        write_buffer_size: 4 * 1024,
        compaction_filter: Some(Arc::new(DropRangeTombstonesFilter)),
        ..Options::default()
    };
    let db = Db::open(&dir, opts).unwrap();
    for c in b'a'..=b'f' {
        db.put(&[c], &[c]).unwrap();
    }
    db.delete_range(b"b", b"e").unwrap();
    // Before compaction, the range-delete is honored - no snapshot
    // pinning, so the read path sees the memtable RT directly.
    for c in b'b'..=b'd' {
        assert_eq!(db.get(&[c]).unwrap(), None);
    }
    force_flush(&db, "drop_rt");
    db.compact_range(None, None).unwrap();

    // After compaction the filter dropped the RT, so the original
    // values come back (they were never actually overwritten).
    for c in b'a'..=b'f' {
        assert_eq!(
            db.get(&[c]).unwrap(),
            Some(vec![c]),
            "key {} restored",
            c as char
        );
    }
}

#[test]
fn test_seek_prefix_basic() {
    let (db, _dir) = open_tmp();
    db.put(b"tenant_001:k1", b"1").unwrap();
    db.put(b"tenant_001:k2", b"2").unwrap();
    db.put(b"tenant_002:k1", b"3").unwrap();
    db.put(b"tenant_010:k1", b"4").unwrap();

    let mut it = db.iter();
    it.seek_prefix(b"tenant_001");
    let mut got: Vec<(Vec<u8>, Vec<u8>)> = Vec::new();
    while it.valid() {
        got.push((it.key().unwrap().to_vec(), it.value().unwrap().to_vec()));
        it.next();
    }
    assert_eq!(
        got,
        vec![
            (b"tenant_001:k1".to_vec(), b"1".to_vec()),
            (b"tenant_001:k2".to_vec(), b"2".to_vec()),
        ]
    );
}

#[test]
fn test_seek_prefix_absent_returns_empty() {
    let dir = Host::new();
    let db = Db::open(&dir, prefix_opts()).unwrap();
    for i in 0..200 {
        let key = format!("tenant_001:k{:04}", i);
        db.put(key.as_bytes(), b"v").unwrap();
    }
    force_flush(&db, "p");

    let mut it = db.iter();
    it.seek_prefix(b"tenant_999");
    assert!(!it.valid(), "expected no keys under an absent prefix");
}

#[test]
fn test_seek_prefix_across_flush_boundary() {
    let dir = Host::new();
    let db = Db::open(&dir, prefix_opts()).unwrap();

    // First generation → flushed to L0.
    db.put(b"tenant_001:a", b"1a").unwrap();
    db.put(b"tenant_002:a", b"2a").unwrap();
    force_flush(&db, "p1");

    // Second generation → stays in memtable at iteration time.
    db.put(b"tenant_001:b", b"1b").unwrap();
    db.put(b"tenant_002:b", b"2b").unwrap();

    let mut it = db.iter();
    it.seek_prefix(b"tenant_001");
    let mut keys: Vec<Vec<u8>> = Vec::new();
    while it.valid() {
        keys.push(it.key().unwrap().to_vec());
        it.next();
    }
    assert_eq!(
        keys,
        vec![b"tenant_001:a".to_vec(), b"tenant_001:b".to_vec()]
    );
}

#[test]
fn test_seek_prefix_after_compact_range() {
    let dir = Host::new();
    let db = Db::open(&dir, prefix_opts()).unwrap();

    for i in 0..50 {
        db.put(format!("tenant_001:{:04}", i).as_bytes(), b"v")
            .unwrap();
        db.put(format!("tenant_002:{:04}", i).as_bytes(), b"v")
            .unwrap();
    }
    force_flush(&db, "c1");
    db.compact_range(None, None).unwrap();

    let mut it = db.iter();
    it.seek_prefix(b"tenant_002");
    let mut count = 0;
    while it.valid() {
        let k = it.key().unwrap();
        assert!(
            k.starts_with(b"tenant_002"),
            "got unexpected key {:?}",
            std::str::from_utf8(k).unwrap_or("<non-utf8>")
        );
        count += 1;
        it.next();
    }
    assert_eq!(count, 50);
}

#[test]
fn test_seek_prefix_mixed_with_without_extractor() {
    // Open with no extractor, flush some data (file A has no prefix
    // bloom), then reopen with an extractor and write new data
    // (file B has a prefix bloom). Reads through the extractor-
    // configured DB must still return correct results across both
    // files.
    let dir = Host::new();
    {
        let db = Db::open(
            &dir,
            Options {
                write_buffer_size: 4 * 1024,
                ..Options::default()
            },
        )
        .unwrap();
        db.put(b"tenant_001:old", b"old").unwrap();
        force_flush(&db, "a");
    }

    let db = Db::open(&dir, prefix_opts()).unwrap();
    db.put(b"tenant_001:new", b"new").unwrap();
    db.put(b"tenant_002:new", b"new").unwrap();
    force_flush(&db, "b");

    let mut it = db.iter();
    it.seek_prefix(b"tenant_001");
    let mut keys: Vec<Vec<u8>> = Vec::new();
    while it.valid() {
        keys.push(it.key().unwrap().to_vec());
        it.next();
    }
    assert_eq!(
        keys,
        vec![b"tenant_001:new".to_vec(), b"tenant_001:old".to_vec()]
    );
}

#[test]
fn test_compaction_filter_none_is_noop() {
    let (db, _dir) = open_tmp();
    for i in 0..10 {
        db.put(format!("k{i}").as_bytes(), b"v").unwrap();
    }
    db.compact_range(None, None).unwrap();
    for i in 0..10 {
        assert_eq!(
            db.get(format!("k{i}").as_bytes()).unwrap(),
            Some(b"v".to_vec())
        );
    }
}

// ── per-write WriteOptions ──────────────────────────────────────────────

#[test]
fn test_write_options_defaults_unchanged() {
    // `put_opt` with a default-constructed WriteOptions must
    // behave identically to `put`.
    let (db, _dir) = open_tmp();
    db.put_opt(&WriteOptions::default(), b"a", b"1").unwrap();
    assert_eq!(db.get(b"a").unwrap(), Some(b"1".to_vec()));
}

#[test]
fn test_write_options_sync_override_persists_across_reopen() {
    // With Eventual default, a sync write should still land on
    // disk such that a reopen recovers it. (Eventual alone
    // already survives a clean close - this test's real content
    // is that the sync flag doesn't break the normal code path.)
    let dir = Host::new();
    let opts = Options {
        durability: DurabilityMode::Eventual,
        ..Options::default()
    };
    {
        let db = Db::open(&dir, opts.clone()).unwrap();
        db.put_opt(&WriteOptions::sync(), b"critical", b"payload")
            .unwrap();
        // Deliberately skip close() - sync must have forced the
        // WAL to durable storage already.
    }
    let db = Db::open(&dir, opts).unwrap();
    assert_eq!(db.get(b"critical").unwrap(), Some(b"payload".to_vec()));
}

#[test]
fn test_write_options_disable_wal_loses_data_on_drop_without_flush() {
    // disable_wal skips the WAL append entirely. Without a clean
    // close(), a reopen cannot recover the write because neither
    // the WAL nor an SSTable has it.
    let dir = Host::new();
    let opts = Options::default();
    {
        let db = Db::open(&dir, opts.clone()).unwrap();
        db.put_opt(&WriteOptions::disable_wal(), b"ephemeral", b"ghost")
            .unwrap();
        // No close() - simulate a crash. The memtable holds the
        // write but nothing on disk does.
    }
    let db = Db::open(&dir, opts).unwrap();
    assert_eq!(db.get(b"ephemeral").unwrap(), None);
}

#[test]
fn test_write_options_disable_wal_visible_within_session() {
    // Within the same process, a disable_wal write is visible
    // to subsequent reads via the memtable - only a crash
    // erases it.
    let (db, _dir) = open_tmp();
    db.put_opt(&WriteOptions::disable_wal(), b"k", b"v")
        .unwrap();
    assert_eq!(db.get(b"k").unwrap(), Some(b"v".to_vec()));
}

#[test]
fn test_write_options_disable_wal_survives_clean_close() {
    // A clean close() flushes the memtable to an SSTable before
    // shutting down. A disable_wal write still made it into the
    // memtable, so close() + reopen recovers it via the SSTable
    // (not the WAL).
    let dir = Host::new();
    let opts = Options::default();
    {
        let db = Db::open(&dir, opts.clone()).unwrap();
        db.put_opt(&WriteOptions::disable_wal(), b"bulk", b"loaded")
            .unwrap();
        db.close().unwrap();
    }
    let db = Db::open(&dir, opts).unwrap();
    assert_eq!(db.get(b"bulk").unwrap(), Some(b"loaded".to_vec()));
}

#[test]
fn test_close_flushes_range_tombstone_only_memtable() {
    // A disable_wal range delete lives only in the active memtable
    // until close. Clean close must flush it even though there are
    // no point entries in that memtable.
    let dir = Host::new();
    let opts = Options::default();

    {
        let db = Db::open(&dir, opts.clone()).unwrap();
        db.put(b"k", b"v").unwrap();
        db.close().unwrap();
    }

    {
        let db = Db::open(&dir, opts.clone()).unwrap();
        assert_eq!(db.get(b"k").unwrap(), Some(b"v".to_vec()));
        db.delete_range_opt(&WriteOptions::disable_wal(), b"a", b"z")
            .unwrap();
        assert_eq!(db.get(b"k").unwrap(), None);
        db.close().unwrap();
    }

    let db = Db::open(&dir, opts).unwrap();
    assert_eq!(db.get(b"k").unwrap(), None);
}

#[test]
fn test_write_options_batch_overrides() {
    let (db, _dir) = open_tmp();
    let mut batch = WriteBatch::new();
    batch.put(b"a", b"1");
    batch.put(b"b", b"2");
    batch.delete(b"ghost");
    db.write_opt(&WriteOptions::sync(), batch).unwrap();
    assert_eq!(db.get(b"a").unwrap(), Some(b"1".to_vec()));
    assert_eq!(db.get(b"b").unwrap(), Some(b"2".to_vec()));
}

#[test]
fn test_write_options_delete_and_delete_range_opts() {
    let (db, _dir) = open_tmp();
    for c in b'a'..=b'f' {
        db.put(&[c], &[c]).unwrap();
    }
    db.delete_opt(&WriteOptions::sync(), b"c").unwrap();
    db.delete_range_opt(&WriteOptions::sync(), b"d", b"f")
        .unwrap();
    assert_eq!(db.get(b"a").unwrap(), Some(b"a".to_vec()));
    assert_eq!(db.get(b"c").unwrap(), None);
    assert_eq!(db.get(b"d").unwrap(), None);
    assert_eq!(db.get(b"e").unwrap(), None);
    assert_eq!(db.get(b"f").unwrap(), Some(b"f".to_vec()));
}

#[test]
fn test_write_options_low_pri_and_no_slowdown_pass_through_when_not_stalling() {
    // `low_pri` is accepted and ignored. `no_slowdown` only bites
    // while the engine is stalling, and an idle engine is not.
    let (db, _dir) = open_tmp();
    let opts = WriteOptions {
        low_pri: true,
        no_slowdown: true,
        ..WriteOptions::default()
    };
    db.put_opt(&opts, b"k", b"v").unwrap();
    assert_eq!(db.get(b"k").unwrap(), Some(b"v".to_vec()));
}

#[test]
fn test_merge_counter_basic_chain_of_one() {
    let dir = Host::new();
    let db = Db::open(&dir, counter_opts()).unwrap();
    db.merge(b"counter", &encode_i64(5)).unwrap();
    assert_eq!(db.get(b"counter").unwrap(), Some(encode_i64(5)));
}

#[test]
fn test_merge_counter_chain_of_two() {
    let dir = Host::new();
    let db = Db::open(&dir, counter_opts()).unwrap();
    db.put(b"counter", &encode_i64(10)).unwrap();
    db.merge(b"counter", &encode_i64(3)).unwrap();
    assert_eq!(db.get(b"counter").unwrap(), Some(encode_i64(13)));
}

#[test]
fn test_merge_counter_chain_of_ten() {
    let dir = Host::new();
    let db = Db::open(&dir, counter_opts()).unwrap();
    db.put(b"counter", &encode_i64(100)).unwrap();
    for i in 1..=10 {
        db.merge(b"counter", &encode_i64(i)).unwrap();
    }
    // 100 + (1+2+...+10) = 155
    assert_eq!(db.get(b"counter").unwrap(), Some(encode_i64(155)));
}

#[test]
fn test_merge_counter_chain_of_1000() {
    let dir = Host::new();
    let db = Db::open(&dir, counter_opts()).unwrap();
    for _ in 0..1000 {
        db.merge(b"counter", &encode_i64(1)).unwrap();
    }
    assert_eq!(db.get(b"counter").unwrap(), Some(encode_i64(1000)));
}

#[test]
fn test_merge_without_base_defaults_to_none() {
    let dir = Host::new();
    let db = Db::open(&dir, counter_opts()).unwrap();
    // No put - counter starts at 0 (base=None).
    db.merge(b"counter", &encode_i64(7)).unwrap();
    db.merge(b"counter", &encode_i64(5)).unwrap();
    assert_eq!(db.get(b"counter").unwrap(), Some(encode_i64(12)));
}

#[test]
fn test_merge_failure_surfaces_key() {
    let dir = Host::new();
    let db = Db::open(&dir, counter_opts()).unwrap();
    db.merge(b"counter", b"not an i64").unwrap();

    let err = db.get(b"counter").unwrap_err();
    match err {
        Error::MergeFailed(key) => assert_eq!(key, b"counter".to_vec()),
        other => panic!("expected merge failure, got {other:?}"),
    }
}

#[test]
fn test_merge_snapshot_isolation() {
    let dir = Host::new();
    let db = Db::open(&dir, counter_opts()).unwrap();
    db.put(b"counter", &encode_i64(10)).unwrap();
    let snap = db.snapshot();
    db.merge(b"counter", &encode_i64(5)).unwrap();
    // Live read sees 15; snapshot still sees 10.
    assert_eq!(db.get(b"counter").unwrap(), Some(encode_i64(15)));
    assert_eq!(snap.get(b"counter").unwrap(), Some(encode_i64(10)));
}

#[test]
fn test_merge_survives_flush() {
    let dir = Host::new();
    let db = Db::open(&dir, counter_opts()).unwrap();
    db.put(b"counter", &encode_i64(0)).unwrap();
    for i in 1..=20 {
        db.merge(b"counter", &encode_i64(i)).unwrap();
    }
    // Push past the tiny write buffer so the chain crosses a
    // flush boundary (memtable → L0).
    force_flush(&db, "merge");
    // Sum = 1+2+...+20 = 210
    assert_eq!(db.get(b"counter").unwrap(), Some(encode_i64(210)));
}

#[test]
fn test_merge_survives_compaction_and_collapses() {
    let dir = Host::new();
    let db = Db::open(&dir, counter_opts()).unwrap();
    db.put(b"counter", &encode_i64(0)).unwrap();
    for i in 1..=50 {
        db.merge(b"counter", &encode_i64(i)).unwrap();
    }
    for tag in 0..4 {
        force_flush(&db, &format!("c{tag}"));
    }
    db.compact_range(None, None).unwrap();
    // Sum 1..=50 = 1275
    assert_eq!(db.get(b"counter").unwrap(), Some(encode_i64(1275)));
}

#[test]
fn test_merge_tombstone_interaction() {
    let dir = Host::new();
    let db = Db::open(&dir, counter_opts()).unwrap();
    // Value=10, then two merges, then delete, then two more merges.
    db.put(b"k", &encode_i64(10)).unwrap();
    db.merge(b"k", &encode_i64(5)).unwrap();
    db.merge(b"k", &encode_i64(3)).unwrap();
    db.delete(b"k").unwrap();
    db.merge(b"k", &encode_i64(7)).unwrap();
    db.merge(b"k", &encode_i64(1)).unwrap();
    // Reads layer the two latest merges on top of the deletion
    // (which resets the base to None → 0): 0 + 7 + 1 = 8.
    assert_eq!(db.get(b"k").unwrap(), Some(encode_i64(8)));
}

#[test]
fn test_merge_range_tombstone_interaction() {
    let dir = Host::new();
    let db = Db::open(&dir, counter_opts()).unwrap();
    db.put(b"k", &encode_i64(10)).unwrap();
    db.merge(b"k", &encode_i64(5)).unwrap();
    db.delete_range(b"j", b"l").unwrap(); // hides the base
    db.merge(b"k", &encode_i64(7)).unwrap();
    // After the RT, only the latest merge (7) applies to a None base.
    assert_eq!(db.get(b"k").unwrap(), Some(encode_i64(7)));
}

#[test]
fn test_merge_write_batch() {
    let dir = Host::new();
    let db = Db::open(&dir, counter_opts()).unwrap();
    let mut batch = WriteBatch::new();
    batch.put(b"a", &encode_i64(1));
    batch.merge(b"a", &encode_i64(2));
    batch.merge(b"a", &encode_i64(3));
    batch.put(b"b", &encode_i64(100));
    db.write(batch).unwrap();
    assert_eq!(db.get(b"a").unwrap(), Some(encode_i64(6)));
    assert_eq!(db.get(b"b").unwrap(), Some(encode_i64(100)));
}

#[test]
fn test_merge_append_operator() {
    let dir = Host::new();
    let opts = Options {
        merge_operator: Some(Arc::new(AppendMerge)),
        ..Options::default()
    };
    let db = Db::open(&dir, opts).unwrap();
    db.put(b"s", b"hello").unwrap();
    db.merge(b"s", b" ").unwrap();
    db.merge(b"s", b"world").unwrap();
    assert_eq!(db.get(b"s").unwrap(), Some(b"hello world".to_vec()));
}

#[test]
fn test_merge_iterator_sees_collapsed_value() {
    let dir = Host::new();
    let db = Db::open(&dir, counter_opts()).unwrap();
    db.put(b"a", &encode_i64(0)).unwrap();
    db.merge(b"a", &encode_i64(5)).unwrap();
    db.put(b"b", &encode_i64(100)).unwrap();
    db.merge(b"b", &encode_i64(10)).unwrap();
    db.merge(b"b", &encode_i64(2)).unwrap();

    let pairs = db.scan(None, None).unwrap();
    assert_eq!(
        pairs,
        vec![
            (b"a".to_vec(), encode_i64(5)),
            (b"b".to_vec(), encode_i64(112)),
        ]
    );
}

#[test]
fn test_merge_iterator_reverse() {
    let dir = Host::new();
    let db = Db::open(&dir, counter_opts()).unwrap();
    db.put(b"a", &encode_i64(0)).unwrap();
    db.merge(b"a", &encode_i64(1)).unwrap();
    db.put(b"b", &encode_i64(0)).unwrap();
    db.merge(b"b", &encode_i64(2)).unwrap();
    db.merge(b"b", &encode_i64(3)).unwrap();

    let mut iter = db.iter();
    iter.seek_to_last();
    let mut collected = Vec::new();
    while iter.valid() {
        collected.push((iter.key().unwrap().to_vec(), iter.value().unwrap().to_vec()));
        iter.prev();
    }
    assert_eq!(
        collected,
        vec![
            (b"b".to_vec(), encode_i64(5)),
            (b"a".to_vec(), encode_i64(1)),
        ]
    );
}

#[test]
fn test_merge_crash_recovery() {
    let dir = Host::new();
    {
        let db = Db::open(&dir, counter_opts()).unwrap();
        db.put(b"counter", &encode_i64(0)).unwrap();
        db.merge(b"counter", &encode_i64(7)).unwrap();
        db.merge(b"counter", &encode_i64(3)).unwrap();
        // No close - memtable flush didn't happen; WAL must
        // survive the chain.
    }
    let db = Db::open(&dir, counter_opts()).unwrap();
    assert_eq!(db.get(b"counter").unwrap(), Some(encode_i64(10)));
}

#[test]
fn test_merge_operator_name_plumbs_through() {
    // Surface-area smoke test: the configured operator's `name`
    // is reachable through the text of the options.
    let opts = counter_opts();
    let dbg = opts.to_text();
    assert!(dbg.contains("CounterMerge"));
}

// ── column families ─────────────────────────────────────────────────

#[test]
fn test_cf_default_exists_on_open() {
    let (db, _dir) = open_tmp();
    let default = db.default_cf();
    assert_eq!(default.name(), DEFAULT_CF_NAME);
    assert!(db.column_family(DEFAULT_CF_NAME).is_some());
    assert_eq!(db.list_column_families(), vec![DEFAULT_CF_NAME.to_string()]);
}

#[test]
fn test_cf_create_and_lookup() {
    let (db, _dir) = open_tmp();
    let users = db.create_column_family("users").unwrap();
    let orders = db.create_column_family("orders").unwrap();
    assert_ne!(users, orders);
    assert_eq!(db.column_family("users"), Some(users.clone()));
    assert_eq!(db.column_family("orders"), Some(orders.clone()));
    assert!(db.column_family("missing").is_none());

    let mut names = db.list_column_families();
    names.sort();
    assert_eq!(names, vec!["default", "orders", "users"]);
}

#[test]
fn test_cf_create_is_idempotent() {
    let (db, _dir) = open_tmp();
    let a = db.create_column_family("x").unwrap();
    let b = db.create_column_family("x").unwrap();
    assert_eq!(a, b);
}

#[test]
fn test_cf_put_get_isolated_from_default() {
    let (db, _dir) = open_tmp();
    let users = db.create_column_family("users").unwrap();
    db.put(b"k", b"default_val").unwrap();
    db.put_cf(&users, b"k", b"users_val").unwrap();
    assert_eq!(db.get(b"k").unwrap(), Some(b"default_val".to_vec()));
    assert_eq!(
        db.get_cf(&users, b"k").unwrap(),
        Some(b"users_val".to_vec())
    );
}

#[test]
fn test_cf_writes_to_a_invisible_from_b() {
    let (db, _dir) = open_tmp();
    let a = db.create_column_family("a").unwrap();
    let b = db.create_column_family("b").unwrap();
    db.put_cf(&a, b"shared_key", b"alpha").unwrap();
    assert_eq!(
        db.get_cf(&a, b"shared_key").unwrap(),
        Some(b"alpha".to_vec())
    );
    assert_eq!(db.get_cf(&b, b"shared_key").unwrap(), None);
}

#[test]
fn test_cf_delete_cf() {
    let (db, _dir) = open_tmp();
    let cf = db.create_column_family("c").unwrap();
    db.put_cf(&cf, b"k", b"v").unwrap();
    db.delete_cf(&cf, b"k").unwrap();
    assert_eq!(db.get_cf(&cf, b"k").unwrap(), None);
}

#[test]
fn test_cf_scan_strips_prefix() {
    let (db, _dir) = open_tmp();
    let cf = db.create_column_family("s").unwrap();
    db.put_cf(&cf, b"a", b"1").unwrap();
    db.put_cf(&cf, b"b", b"2").unwrap();
    db.put_cf(&cf, b"c", b"3").unwrap();
    let pairs = db.scan_cf(&cf, None, None).unwrap();
    assert_eq!(
        pairs,
        vec![
            (b"a".to_vec(), b"1".to_vec()),
            (b"b".to_vec(), b"2".to_vec()),
            (b"c".to_vec(), b"3".to_vec()),
        ]
    );
    // Bounded scan.
    let pairs = db.scan_cf(&cf, Some(b"b"), Some(b"c")).unwrap();
    assert_eq!(pairs, vec![(b"b".to_vec(), b"2".to_vec())]);
}

#[test]
fn test_cf_iter_bounded_to_cf() {
    let (db, _dir) = open_tmp();
    let a = db.create_column_family("a").unwrap();
    let b = db.create_column_family("b").unwrap();
    db.put_cf(&a, b"a1", b"A1").unwrap();
    db.put_cf(&a, b"a2", b"A2").unwrap();
    db.put_cf(&b, b"b1", b"B1").unwrap();
    db.put(b"d1", b"D1").unwrap();

    let mut iter = db.iter_cf(&a);
    iter.seek_to_first();
    let mut keys = Vec::new();
    while iter.valid() {
        keys.push(iter.key().unwrap().to_vec());
        iter.next();
    }
    assert_eq!(keys, vec![b"a1".to_vec(), b"a2".to_vec()]);
}

#[test]
fn test_cf_iter_reverse() {
    let (db, _dir) = open_tmp();
    let cf = db.create_column_family("rev").unwrap();
    db.put_cf(&cf, b"a", b"1").unwrap();
    db.put_cf(&cf, b"b", b"2").unwrap();
    db.put_cf(&cf, b"c", b"3").unwrap();

    let mut iter = db.iter_cf(&cf);
    iter.seek_to_last();
    let mut keys = Vec::new();
    while iter.valid() {
        keys.push(iter.key().unwrap().to_vec());
        iter.prev();
    }
    assert_eq!(keys, vec![b"c".to_vec(), b"b".to_vec(), b"a".to_vec()]);
}

#[test]
fn test_cf_drop_removes_all_keys_in_cf() {
    let (db, _dir) = open_tmp();
    let cf = db.create_column_family("tmp").unwrap();
    db.put_cf(&cf, b"a", b"1").unwrap();
    db.put_cf(&cf, b"b", b"2").unwrap();
    db.put_cf(&cf, b"c", b"3").unwrap();
    db.put(b"default_key", b"default_val").unwrap();

    db.drop_column_family(cf.clone()).unwrap();

    // The CF name is unregistered.
    assert!(db.column_family("tmp").is_none());
    // Default CF survives.
    assert_eq!(
        db.get(b"default_key").unwrap(),
        Some(b"default_val".to_vec())
    );
    // Re-creating with the same name yields a fresh, empty CF.
    let cf2 = db.create_column_family("tmp").unwrap();
    assert_eq!(db.get_cf(&cf2, b"a").unwrap(), None);
}

#[test]
fn test_cf_stale_handle_is_rejected_after_drop() {
    let (db, _dir) = open_tmp();
    let cf = db.create_column_family("tmp").unwrap();
    db.put_cf(&cf, b"k", b"v").unwrap();
    db.drop_column_family(cf.clone()).unwrap();

    let err = db.get_cf(&cf, b"k").unwrap_err();
    match err {
        Error::InvalidColumnFamily(message) => assert!(message.contains("tmp")),
        other => panic!("expected invalid column family error, got {other:?}"),
    }
    assert!(db.multi_get_cf(&cf, &[b"k"]).is_err());
    assert!(db.put_cf(&cf, b"k", b"ghost").is_err());
    assert!(db.delete_cf(&cf, b"k").is_err());
    assert!(db.delete_range_cf(&cf, b"a", b"z").is_err());
    assert!(db.merge_cf(&cf, b"k", b"operand").is_err());
    assert!(db.scan_cf(&cf, None, None).is_err());
    assert_eq!(
        db.get_approximate_sizes_cf(&cf, &[Range::new(b"a", b"z")]),
        vec![0]
    );
    assert_eq!(
        db.get_approximate_memtable_stats_cf(&cf, Range::new(b"a", b"z")),
        MemTableStats::default()
    );

    let mut iter = db.iter_cf(&cf);
    iter.seek_to_first();
    assert!(!iter.valid());

    let mut tail = db.iter_tailing_cf(&cf);
    tail.seek_to_first();
    assert!(!tail.valid());
}

#[test]
fn test_cf_stale_handle_cannot_write_into_recreated_cf_name() {
    let (db, _dir) = open_tmp();
    let stale = db.create_column_family("tmp").unwrap();
    db.put_cf(&stale, b"k", b"old").unwrap();
    db.drop_column_family(stale.clone()).unwrap();

    let live = db.create_column_family("tmp").unwrap();
    assert_ne!(stale, live);
    assert!(db.put_cf(&stale, b"k", b"ghost").is_err());
    db.put_cf(&live, b"k", b"new").unwrap();

    assert!(db.get_cf(&stale, b"k").is_err());
    assert_eq!(db.get_cf(&live, b"k").unwrap(), Some(b"new".to_vec()));
}

#[test]
fn test_cf_write_batch_rejects_stale_handle_ops() {
    let (db, _dir) = open_tmp();
    let stale = db.create_column_family("tmp").unwrap();
    db.drop_column_family(stale.clone()).unwrap();

    let mut batch = WriteBatch::new();
    batch.put_cf(&stale, b"k", b"ghost");
    let err = db.write(batch).unwrap_err();
    match err {
        Error::InvalidColumnFamily(message) => assert!(message.contains("column family id")),
        other => panic!("expected invalid column family error, got {other:?}"),
    }

    let live = db.create_column_family("tmp").unwrap();
    assert_eq!(db.get_cf(&live, b"k").unwrap(), None);
}

#[test]
fn test_cf_write_batch_rejects_dropped_cf_in_first_op() {
    let (db, _dir) = open_tmp();
    let keep = db.create_column_family("keep").unwrap();
    let gone = db.create_column_family("gone").unwrap();
    db.drop_column_family(gone.clone()).unwrap();

    let mut batch = WriteBatch::new();
    batch.put_cf(&gone, b"g", b"ghost");
    batch.put(b"d", b"dv");
    batch.put_cf(&keep, b"k1", b"v1");
    batch.put_cf(&keep, b"k2", b"v2");
    let err = db.write(batch).unwrap_err();
    match err {
        Error::InvalidColumnFamily(message) => assert!(message.contains("column family id")),
        other => panic!("expected invalid column family error, got {other:?}"),
    }

    assert_eq!(db.get(b"d").unwrap(), None);
    assert_eq!(db.get_cf(&keep, b"k1").unwrap(), None);
}

#[test]
fn test_cf_write_batch_rejects_dropped_cf_in_last_op() {
    let (db, _dir) = open_tmp();
    let keep = db.create_column_family("keep").unwrap();
    let gone = db.create_column_family("gone").unwrap();
    db.drop_column_family(gone.clone()).unwrap();

    let mut batch = WriteBatch::new();
    batch.put(b"d1", b"v1");
    batch.put(b"d2", b"v2");
    batch.put_cf(&keep, b"k", b"kv");
    batch.delete_cf(&gone, b"g");
    let err = db.write(batch).unwrap_err();
    match err {
        Error::InvalidColumnFamily(message) => assert!(message.contains("column family id")),
        other => panic!("expected invalid column family error, got {other:?}"),
    }

    assert_eq!(db.get(b"d1").unwrap(), None);
    assert_eq!(db.get_cf(&keep, b"k").unwrap(), None);
}

#[test]
fn test_cf_write_batch_rejects_dropped_cf_between_live_runs() {
    let (db, _dir) = open_tmp();
    let keep = db.create_column_family("keep").unwrap();
    let gone = db.create_column_family("gone").unwrap();
    db.drop_column_family(gone.clone()).unwrap();

    let mut batch_a = WriteBatch::new();
    batch_a.put_cf(&keep, b"k1", b"v1");
    batch_a.put_cf(&keep, b"k2", b"v2");
    batch_a.put_cf(&gone, b"g", b"ghost");
    batch_a.put_cf(&keep, b"k3", b"v3");
    batch_a.put(b"d", b"dv");
    let err = db.write(batch_a).unwrap_err();
    match err {
        Error::InvalidColumnFamily(message) => assert!(message.contains("column family id")),
        other => panic!("expected invalid column family error, got {other:?}"),
    }
    assert_eq!(db.get_cf(&keep, b"k1").unwrap(), None);
    assert_eq!(db.get_cf(&keep, b"k2").unwrap(), None);
    assert_eq!(db.get_cf(&keep, b"k3").unwrap(), None);
    assert_eq!(db.get(b"d").unwrap(), None);

    let mut batch_b = WriteBatch::new();
    batch_b.put_cf(&keep, b"k1", b"v1");
    batch_b.insert_raw_range_delete(prefix_key(keep.id(), b"a"), prefix_key(gone.id(), b"z"));
    let err = db.write(batch_b).unwrap_err();
    match err {
        Error::InvalidColumnFamily(message) => assert!(message.contains("column family id")),
        other => panic!("expected invalid column family error, got {other:?}"),
    }
    assert_eq!(db.get_cf(&keep, b"k1").unwrap(), None);

    let mut batch_c = WriteBatch::new();
    batch_c.put_cf(&keep, b"k1", b"v1");
    batch_c.insert_raw_range_delete(prefix_key(gone.id(), b"a"), prefix_key(keep.id(), b"z"));
    let err = db.write(batch_c).unwrap_err();
    match err {
        Error::InvalidColumnFamily(message) => assert!(message.contains("column family id")),
        other => panic!("expected invalid column family error, got {other:?}"),
    }
    assert_eq!(db.get_cf(&keep, b"k1").unwrap(), None);
}

#[test]
fn test_cf_write_batch_with_alternating_live_cfs_lands() {
    let (db, _dir) = open_tmp();
    let a = db.create_column_family("a").unwrap();
    let b = db.create_column_family("b").unwrap();

    let mut batch = WriteBatch::new();
    batch.put_cf(&a, b"1", b"a1");
    batch.put_cf(&b, b"1", b"b1");
    batch.put_cf(&a, b"2", b"a2");
    batch.put(b"d", b"dv");
    batch.put_cf(&b, b"2", b"b2");
    batch.delete_range_cf(&a, b"x", b"y");
    db.write(batch).unwrap();

    assert_eq!(db.get_cf(&a, b"1").unwrap(), Some(b"a1".to_vec()));
    assert_eq!(db.get_cf(&b, b"1").unwrap(), Some(b"b1".to_vec()));
    assert_eq!(db.get_cf(&a, b"2").unwrap(), Some(b"a2".to_vec()));
    assert_eq!(db.get(b"d").unwrap(), Some(b"dv".to_vec()));
    assert_eq!(db.get_cf(&b, b"2").unwrap(), Some(b"b2".to_vec()));
}

#[test]
fn test_cf_write_batch_rejects_reserved_meta_cf_id() {
    let (db, _dir) = open_tmp();
    let before = next_id_held(&db);

    let mut batch = WriteBatch::new();
    batch.insert_raw_put(prefix_key(META_CF_ID, b"next_id"), vec![9, 9, 9, 9]);
    let err = db.write(batch).unwrap_err();
    match err {
        Error::InvalidColumnFamily(message) => assert!(message.contains("column family id")),
        other => panic!("expected invalid column family error, got {other:?}"),
    }

    assert_eq!(next_id_held(&db), before);
    assert_eq!(db.list_column_families(), vec![DEFAULT_CF_NAME.to_string()]);
    let after = db.create_column_family("after").unwrap();
    assert!(db.list_column_families().contains(&"after".to_string()));
    assert_eq!(db.get_cf(&after, b"k").unwrap(), None);
}

#[test]
fn test_cf_ingest_rejects_stale_handle_entries() {
    let (db, _dir) = open_tmp();
    let stale = db.create_column_family("tmp").unwrap();
    db.drop_column_family(stale.clone()).unwrap();

    let file = ExternalFile {
        path: "stale-cf.sst".to_string(),
        ops: vec![WriteBatchOp::Put {
            key: prefix_key(stale.id(), b"k"),
            value: b"ghost".to_vec(),
        }],
    };

    assert!(db.ingest_external_files(vec![file]).is_err());
    let live = db.create_column_family("tmp").unwrap();
    assert_eq!(db.get_cf(&live, b"k").unwrap(), None);
}

#[test]
fn test_cf_snapshot_rejects_stale_handle_after_drop() {
    let (db, _dir) = open_tmp();
    let cf = db.create_column_family("tmp").unwrap();
    db.put_cf(&cf, b"k", b"v").unwrap();
    let snap = db.snapshot();
    db.drop_column_family(cf.clone()).unwrap();

    assert!(snap.get_cf(&cf, b"k").is_err());
    assert!(snap.multi_get_cf(&cf, &[b"k"]).is_err());
    assert!(snap.scan_cf(&cf, None, None).is_err());
    let mut iter = snap.iter_cf(&cf);
    iter.seek_to_first();
    assert!(!iter.valid());
}

#[test]
fn test_cf_cannot_drop_default() {
    let (db, _dir) = open_tmp();
    let default = db.default_cf();
    assert!(db.drop_column_family(default).is_err());
}

#[test]
fn test_cf_survives_reopen() {
    let dir = Host::new();
    {
        let db = Db::open(&dir, Options::default()).unwrap();
        let cf = db.create_column_family("persistent").unwrap();
        db.put_cf(&cf, b"k", b"v").unwrap();
        db.close().unwrap();
    }
    let db = Db::open(&dir, Options::default()).unwrap();
    let cf = db
        .column_family("persistent")
        .expect("CF must survive reopen");
    assert_eq!(db.get_cf(&cf, b"k").unwrap(), Some(b"v".to_vec()));
}

#[test]
fn test_cf_dropped_cf_does_not_survive_reopen() {
    let dir = Host::new();
    {
        let db = Db::open(&dir, Options::default()).unwrap();
        let cf = db.create_column_family("doomed").unwrap();
        db.put_cf(&cf, b"k", b"v").unwrap();
        db.drop_column_family(cf).unwrap();
        db.close().unwrap();
    }
    let db = Db::open(&dir, Options::default()).unwrap();
    assert!(db.column_family("doomed").is_none());
}

#[test]
fn test_cf_write_batch_cross_cf_atomic() {
    let (db, _dir) = open_tmp();
    let a = db.create_column_family("a").unwrap();
    let b = db.create_column_family("b").unwrap();
    let mut batch = WriteBatch::new();
    batch.put_cf(&a, b"k1", b"v_a1");
    batch.put_cf(&b, b"k1", b"v_b1");
    batch.put(b"k1", b"v_default");
    batch.delete_cf(&a, b"ghost");
    db.write(batch).unwrap();

    assert_eq!(db.get_cf(&a, b"k1").unwrap(), Some(b"v_a1".to_vec()));
    assert_eq!(db.get_cf(&b, b"k1").unwrap(), Some(b"v_b1".to_vec()));
    assert_eq!(db.get(b"k1").unwrap(), Some(b"v_default".to_vec()));
}

#[test]
fn test_cf_write_batch_survives_crash_recovery() {
    let dir = Host::new();
    {
        let db = Db::open(&dir, Options::default()).unwrap();
        let cf = db.create_column_family("txn").unwrap();
        let mut batch = WriteBatch::new();
        batch.put_cf(&cf, b"a", b"1");
        batch.put_cf(&cf, b"b", b"2");
        batch.put(b"default_k", b"default_v");
        db.write(batch).unwrap();
        // No close - simulate a crash. WAL must survive.
    }
    let db = Db::open(&dir, Options::default()).unwrap();
    let cf = db.column_family("txn").expect("CF must survive");
    assert_eq!(db.get_cf(&cf, b"a").unwrap(), Some(b"1".to_vec()));
    assert_eq!(db.get_cf(&cf, b"b").unwrap(), Some(b"2".to_vec()));
    assert_eq!(db.get(b"default_k").unwrap(), Some(b"default_v".to_vec()));
}

#[test]
fn test_cf_snapshot_isolation_per_cf() {
    let (db, _dir) = open_tmp();
    let a = db.create_column_family("a").unwrap();
    db.put_cf(&a, b"k", b"v0").unwrap();
    let snap = db.snapshot();
    db.put_cf(&a, b"k", b"v1").unwrap();
    assert_eq!(snap.get_cf(&a, b"k").unwrap(), Some(b"v0".to_vec()));
    assert_eq!(db.get_cf(&a, b"k").unwrap(), Some(b"v1".to_vec()));
}

#[test]
fn test_cf_scan_across_cfs_is_isolated() {
    let (db, _dir) = open_tmp();
    let a = db.create_column_family("a").unwrap();
    let b = db.create_column_family("b").unwrap();
    db.put_cf(&a, b"apple", b"A").unwrap();
    db.put_cf(&b, b"apple", b"B").unwrap();
    db.put(b"apple", b"D").unwrap();

    assert_eq!(
        db.scan_cf(&a, None, None).unwrap(),
        vec![(b"apple".to_vec(), b"A".to_vec())]
    );
    assert_eq!(
        db.scan_cf(&b, None, None).unwrap(),
        vec![(b"apple".to_vec(), b"B".to_vec())]
    );
    assert_eq!(
        db.scan(None, None).unwrap(),
        vec![(b"apple".to_vec(), b"D".to_vec())]
    );
}

#[test]
fn test_cf_scan_page_is_scoped_and_resumable() {
    let (db, _dir) = open_tmp();
    let cf = db.create_column_family("paged").unwrap();

    db.put(b"a", b"default").unwrap();
    db.put_cf(&cf, b"a", b"1").unwrap();
    db.put_cf(&cf, b"b", b"2").unwrap();
    db.put_cf(&cf, b"c", b"3").unwrap();

    let first = db.scan_page_cf(&cf, None, None, 2).unwrap();
    assert_eq!(
        first,
        ScanPage {
            entries: vec![
                (b"a".to_vec(), b"1".to_vec()),
                (b"b".to_vec(), b"2".to_vec()),
            ],
            next_start: Some(b"c".to_vec()),
        }
    );

    let second = db
        .scan_page_cf(&cf, first.next_start.as_deref(), None, 2)
        .unwrap();
    assert_eq!(
        second,
        ScanPage {
            entries: vec![(b"c".to_vec(), b"3".to_vec())],
            next_start: None,
        }
    );
}

#[test]
fn test_cf_multi_get_cf() {
    let (db, _dir) = open_tmp();
    let cf = db.create_column_family("mg").unwrap();
    db.put_cf(&cf, b"a", b"1").unwrap();
    db.put_cf(&cf, b"b", b"2").unwrap();
    let keys: Vec<&[u8]> = vec![b"a", b"missing", b"b"];
    let got = db.multi_get_cf(&cf, &keys).unwrap();
    assert_eq!(got, vec![Some(b"1".to_vec()), None, Some(b"2".to_vec())]);
}

#[test]
fn test_cf_delete_range_cf() {
    let (db, _dir) = open_tmp();
    let cf = db.create_column_family("r").unwrap();
    for c in b'a'..=b'f' {
        db.put_cf(&cf, &[c], &[c]).unwrap();
    }
    db.delete_range_cf(&cf, b"b", b"e").unwrap();
    assert_eq!(db.get_cf(&cf, b"a").unwrap(), Some(b"a".to_vec()));
    assert_eq!(db.get_cf(&cf, b"b").unwrap(), None);
    assert_eq!(db.get_cf(&cf, b"c").unwrap(), None);
    assert_eq!(db.get_cf(&cf, b"d").unwrap(), None);
    assert_eq!(db.get_cf(&cf, b"e").unwrap(), Some(b"e".to_vec()));
    assert_eq!(db.get_cf(&cf, b"f").unwrap(), Some(b"f".to_vec()));
}

#[test]
fn test_cf_create_empty_name_errors() {
    let (db, _dir) = open_tmp();
    assert!(db.create_column_family("").is_err());
}

#[test]
fn test_cf_many_cfs_all_isolated() {
    let (db, _dir) = open_tmp();
    let mut handles = Vec::new();
    for i in 0..10 {
        handles.push(db.create_column_family(&format!("cf{i}")).unwrap());
    }
    for (i, h) in handles.iter().enumerate() {
        db.put_cf(h, b"k", format!("v{i}").as_bytes()).unwrap();
    }
    for (i, h) in handles.iter().enumerate() {
        assert_eq!(
            db.get_cf(h, b"k").unwrap(),
            Some(format!("v{i}").into_bytes())
        );
    }
}

// ── get_approximate_sizes / get_approximate_memtable_stats ──────────

#[test]
fn test_approximate_sizes_empty_db() {
    let (db, _dir) = open_tmp();
    let sizes = db.get_approximate_sizes(&[Range::new(b"a", b"z")]);
    assert_eq!(sizes, vec![0]);
}

#[test]
fn test_approximate_sizes_empty_range_returns_zero() {
    let (db, _dir) = open_tmp();
    db.put(b"k", b"v").unwrap();
    // Inverted / empty range must not panic and must be 0.
    assert_eq!(db.get_approximate_sizes(&[Range::new(b"z", b"a")]), vec![0]);
    assert_eq!(db.get_approximate_sizes(&[Range::new(b"k", b"k")]), vec![0]);
}

#[test]
fn test_approximate_memtable_stats_exact_for_memtable() {
    let (db, _dir) = open_tmp();
    for c in b'a'..=b'e' {
        db.put(&[c], b"v").unwrap();
    }
    let stats = db.get_approximate_memtable_stats(Range::new(b"b", b"e"));
    assert_eq!(stats.count, 3, "count must be exact");
    // Each entry is [4-byte cf prefix][1-byte key] as
    // internal-key + 9-byte seq/type suffix + 1-byte value.
    // The size must be strictly > 0 and < (5 full entries * 50).
    assert!(stats.size > 0);
    assert!(stats.size < 500);
}

#[test]
fn test_approximate_memtable_stats_empty_range() {
    let (db, _dir) = open_tmp();
    db.put(b"k", b"v").unwrap();
    let stats = db.get_approximate_memtable_stats(Range::new(b"m", b"n"));
    assert_eq!(stats, MemTableStats::default());
}

#[test]
fn test_approximate_memtable_stats_counts_every_version() {
    let (db, _dir) = open_tmp();
    db.put(b"k", b"v1").unwrap();
    db.put(b"k", b"v2").unwrap();
    db.put(b"k", b"v3").unwrap();
    let stats = db.get_approximate_memtable_stats(Range::new(b"k", b"l"));
    // Three versions of the same user key.
    assert_eq!(stats.count, 3);
}

#[test]
fn test_approximate_sizes_after_flush_within_factor_of_2() {
    // Write enough data to materialize into L0, then check the
    // approximate size against the on-disk file size. The
    // accuracy contract is "within a factor of 2".
    //
    // Use a high-entropy payload so LZ4 can't crush it - a
    // zero-filled payload compresses to near-nothing and would
    // undercut the accuracy window we're checking.
    let dir = Host::new();
    let opts = Options {
        write_buffer_size: 4 * 1024,
        compression: CompressionType::Uncompressed,
        ..Options::default()
    };
    let db = Db::open(&dir, opts).unwrap();
    let payload: Vec<u8> = (0..256).map(|i| (i % 251) as u8).collect();
    for i in 0..100 {
        db.put(format!("k_{i:04}").as_bytes(), &payload).unwrap();
    }
    force_flush(&db, "sizes");
    let sizes = db.get_approximate_sizes(&[Range::new(b"k_0000", b"k_9999")]);
    assert!(sizes[0] > 0, "whole-range size must be > 0 after flush");
    // Raw on-disk footprint of the point data: 100 entries,
    // each ≈ 256-byte value + ~20-byte key/overhead + a bit
    // of block framing, so ~28-30k. The approximation
    // includes whole covered blocks, so a 2x window covers
    // it comfortably.
    let approx = sizes[0];
    assert!(approx > 10_000, "approx={approx} too small; expected > 10k");
    assert!(
        approx < 1_000_000,
        "approx={approx} absurdly large; expected < 1M"
    );
}

#[test]
fn test_approximate_sizes_multi_range_preserves_order() {
    let dir = Host::new();
    let db = Db::open(&dir, tiny_flush_opts()).unwrap();
    let payload = vec![0u8; 256];
    for i in 0..200 {
        db.put(format!("k_{i:04}").as_bytes(), &payload).unwrap();
    }
    force_flush(&db, "multi");
    let ranges = vec![
        Range::new(b"k_0000", b"k_0050"),
        Range::new(b"k_0050", b"k_0100"),
        Range::new(b"k_0100", b"k_0200"),
    ];
    let sizes = db.get_approximate_sizes(&ranges);
    assert_eq!(sizes.len(), 3);
    // Every range should contain some bytes.
    for (i, &s) in sizes.iter().enumerate() {
        assert!(s > 0, "range {i} size was 0");
    }
}

#[test]
fn test_approximate_sizes_cf_scoped() {
    let (db, _dir) = open_tmp();
    let cf = db.create_column_family("scoped").unwrap();
    // Put into default CF but not into `scoped` - the
    // scoped CF's whole-range size must be 0.
    for i in 0..20 {
        db.put(format!("k{i}").as_bytes(), b"v").unwrap();
    }
    let default_sizes = db.get_approximate_sizes(&[Range::new(b"a", b"z")]);
    let cf_sizes = db.get_approximate_sizes_cf(&cf, &[Range::new(b"a", b"z")]);
    // Memtable contents aren't in approximate_sizes, but they
    // aren't on disk either - the default-CF whole-range
    // matches the scoped-CF whole-range (both 0) unless a
    // flush happened. With default write_buffer_size, 20 small
    // writes don't trigger a flush.
    assert_eq!(default_sizes[0], 0);
    assert_eq!(cf_sizes[0], 0);

    // Memtable-stats however sees the default CF entries but
    // not the scoped CF.
    let default_mt = db.get_approximate_memtable_stats(Range::new(b"a", b"z"));
    let cf_mt = db.get_approximate_memtable_stats_cf(&cf, Range::new(b"a", b"z"));
    assert_eq!(default_mt.count, 20);
    assert_eq!(cf_mt.count, 0);
}

// ── atomic flush across column families ────────────────────────────

#[test]
fn test_atomic_flush_multi_cf_batch_survives_crash() {
    // A WriteBatch that touches multiple CFs must be
    // all-or-nothing across a crash, even when the write
    // lands in the memtable without an explicit flush.
    let dir = Host::new();
    {
        let db = Db::open(&dir, Options::default()).unwrap();
        let cf_a = db.create_column_family("a").unwrap();
        let cf_b = db.create_column_family("b").unwrap();
        let mut batch = WriteBatch::new();
        batch.put_cf(&cf_a, b"k1", b"a1");
        batch.put_cf(&cf_a, b"k2", b"a2");
        batch.put_cf(&cf_b, b"k1", b"b1");
        batch.put_cf(&cf_b, b"k2", b"b2");
        batch.put(b"default_k", b"default_v");
        db.write(batch).unwrap();
        // Drop without close - simulate a crash. WAL is the
        // source of truth; recovery must restore every key.
    }
    let db = Db::open(&dir, Options::default()).unwrap();
    let cf_a = db.column_family("a").expect("cf a survives reopen");
    let cf_b = db.column_family("b").expect("cf b survives reopen");
    assert_eq!(db.get_cf(&cf_a, b"k1").unwrap(), Some(b"a1".to_vec()));
    assert_eq!(db.get_cf(&cf_a, b"k2").unwrap(), Some(b"a2".to_vec()));
    assert_eq!(db.get_cf(&cf_b, b"k1").unwrap(), Some(b"b1".to_vec()));
    assert_eq!(db.get_cf(&cf_b, b"k2").unwrap(), Some(b"b2".to_vec()));
    assert_eq!(db.get(b"default_k").unwrap(), Some(b"default_v".to_vec()));
}

#[test]
fn test_atomic_flush_cross_cf_survives_rotate_and_flush() {
    // Drive the memtable past its flush threshold while a
    // multi-CF batch is in flight. The rotated memtable
    // produces one L0 SSTable that contains every CF's half
    // of the batch atomically.
    let dir = Host::new();
    let db = Db::open(&dir, tiny_flush_opts()).unwrap();
    let cf_a = db.create_column_family("a").unwrap();
    let cf_b = db.create_column_family("b").unwrap();

    // Seed enough filler to push the tiny 4KB buffer over
    // on the next write.
    for i in 0..16 {
        db.put_cf(&cf_a, format!("fill_a_{i:02}").as_bytes(), &[0u8; 256])
            .unwrap();
        db.put_cf(&cf_b, format!("fill_b_{i:02}").as_bytes(), &[0u8; 256])
            .unwrap();
    }

    let mut batch = WriteBatch::new();
    batch.put_cf(&cf_a, b"pivot", b"A_PIVOT");
    batch.put_cf(&cf_b, b"pivot", b"B_PIVOT");
    db.write(batch).unwrap();
    force_flush(&db, "atomic");

    assert_eq!(
        db.get_cf(&cf_a, b"pivot").unwrap(),
        Some(b"A_PIVOT".to_vec())
    );
    assert_eq!(
        db.get_cf(&cf_b, b"pivot").unwrap(),
        Some(b"B_PIVOT".to_vec())
    );
}

#[test]
fn test_atomic_flush_empty_cf_mixed_with_populated() {
    // Creating a CF and leaving it empty while another CF
    // gets flushed must not corrupt the empty CF.
    let dir = Host::new();
    let db = Db::open(&dir, tiny_flush_opts()).unwrap();
    let cf_populated = db.create_column_family("populated").unwrap();
    let cf_empty = db.create_column_family("empty").unwrap();

    for i in 0..50 {
        db.put_cf(&cf_populated, format!("k{i:02}").as_bytes(), b"v")
            .unwrap();
    }
    force_flush(&db, "empty_mix");

    for i in 0..50 {
        assert_eq!(
            db.get_cf(&cf_populated, format!("k{i:02}").as_bytes())
                .unwrap(),
            Some(b"v".to_vec())
        );
    }
    assert_eq!(db.get_cf(&cf_empty, b"anything").unwrap(), None);

    // The empty CF still accepts new writes after the flush.
    db.put_cf(&cf_empty, b"new", b"fresh").unwrap();
    assert_eq!(
        db.get_cf(&cf_empty, b"new").unwrap(),
        Some(b"fresh".to_vec())
    );
}

#[test]
fn test_atomic_flush_option_accepted() {
    // The flag is a no-op for API parity - both values must
    // open cleanly and produce the same atomic behavior.
    let dir = Host::new();
    let opts = Options {
        atomic_flush: true,
        ..Options::default()
    };
    let db = Db::open(&dir, opts).unwrap();
    let cf = db.create_column_family("cf1").unwrap();
    db.put_cf(&cf, b"k", b"v").unwrap();
    assert_eq!(db.get_cf(&cf, b"k").unwrap(), Some(b"v".to_vec()));
}

#[test]
fn test_atomic_flush_close_with_pending_multi_cf_writes() {
    // A clean close with pending multi-CF writes must flush
    // the active memtable to L0 before returning, so every
    // CF's state is durable on reopen.
    let dir = Host::new();
    {
        let db = Db::open(&dir, Options::default()).unwrap();
        let cf_a = db.create_column_family("a").unwrap();
        let cf_b = db.create_column_family("b").unwrap();
        let mut batch = WriteBatch::new();
        batch.put_cf(&cf_a, b"k", b"a");
        batch.put_cf(&cf_b, b"k", b"b");
        db.write(batch).unwrap();
        db.close().unwrap();
    }
    let db = Db::open(&dir, Options::default()).unwrap();
    let cf_a = db.column_family("a").unwrap();
    let cf_b = db.column_family("b").unwrap();
    assert_eq!(db.get_cf(&cf_a, b"k").unwrap(), Some(b"a".to_vec()));
    assert_eq!(db.get_cf(&cf_b, b"k").unwrap(), Some(b"b".to_vec()));
}

#[test]
fn test_listener_fires_on_flush() {
    let listener = Arc::new(CountingListener::default());
    let dir = Host::new();
    let opts = Options {
        write_buffer_size: 4 * 1024,
        listeners: vec![heard(&listener)],
        ..Options::default()
    };
    let db = Db::open(&dir, opts).unwrap();
    force_flush(&db, "listener");

    assert!(
        seen(&listener.flush_completed) >= 1,
        "flush callback should fire at least once"
    );
    assert!(
        seen(&listener.table_file_created) >= 1,
        "table_file_created should fire for every flushed file"
    );
    assert_ne!(
        seen(&listener.last_flush_file_id),
        0,
        "file id recorded"
    );
}

#[test]
fn test_listener_fires_on_compaction() {
    let listener = Arc::new(CountingListener::default());
    let dir = Host::new();
    let opts = Options {
        write_buffer_size: 4 * 1024,
        listeners: vec![heard(&listener)],
        ..Options::default()
    };
    let db = Db::open(&dir, opts).unwrap();
    // Drive enough writes to generate L0 files, then manually
    // compact the range so the compaction callbacks fire on
    // the calling thread.
    for i in 0..400 {
        db.put(format!("k_{i:04}").as_bytes(), b"v").unwrap();
    }
    force_flush(&db, "listener");
    db.compact_range(None, None).unwrap();

    let begin = seen(&listener.compaction_begin);
    let complete = seen(&listener.compaction_completed);
    assert!(
        begin >= 1,
        "compaction_begin must fire at least once, got {begin}"
    );
    assert_eq!(
        begin, complete,
        "begin and completed must fire in matched pairs"
    );
    assert!(
        seen(&listener.table_file_created) >= 2,
        "flush + compaction both produce files"
    );
    assert!(
        seen(&listener.table_file_deleted) >= 1,
        "old L0 files must be unlinked after compaction"
    );
}

#[test]
fn test_listener_fires_on_ingest() {
    let listener = Arc::new(CountingListener::default());
    let dir = Host::new();
    let opts = Options {
        listeners: vec![heard(&listener)],
        ..Options::default()
    };
    let db = Db::open(&dir, opts).unwrap();

    let mut ops = Vec::new();
    for i in 0..10 {
        ops.push(WriteBatchOp::Put {
            key: prefix_key(DEFAULT_CF_ID, format!("ik_{i:02}").as_bytes()),
            value: b"iv".to_vec(),
        });
    }
    db.ingest_external_files(vec![ExternalFile { path: "ingest.sst".to_string(), ops }])
        .unwrap();

    assert_eq!(
        seen(&listener.external_file_ingested),
        1,
        "external_file_ingested fires once per ingested file"
    );
    assert!(
        seen(&listener.table_file_created) >= 1,
        "ingest re-emits the file and fires table_file_created"
    );
}

#[test]
fn test_listener_multiple_listeners_all_fire() {
    let a = Arc::new(CountingListener::default());
    let b = Arc::new(CountingListener::default());
    let dir = Host::new();
    let opts = Options {
        write_buffer_size: 4 * 1024,
        listeners: vec![
            heard(&a),
            heard(&b),
        ],
        ..Options::default()
    };
    let db = Db::open(&dir, opts).unwrap();
    force_flush(&db, "multi");

    assert!(seen(&a.flush_completed) >= 1);
    assert!(seen(&b.flush_completed) >= 1);
}

#[test]
fn test_listener_none_configured_is_noop() {
    // Sanity check: with no listeners, all paths still work
    // and nothing panics.
    let (db, _dir) = open_tmp();
    db.put(b"k", b"v").unwrap();
    force_flush(&db, "none");
    db.compact_range(None, None).unwrap();
}

#[test]
fn test_listener_compaction_job_info_contains_input_files() {
    // Capture the last CompactionJobInfo on `on_compaction_completed`
    // and assert it carries the expected input file ids.
    struct CaptureListener {
        captured: Mutex<Option<CompactionJobInfo>>,
    }
    impl EventListener for CaptureListener {
        fn on_compaction_completed(&self, info: &CompactionJobInfo) {
            *self.captured.lock().unwrap() = Some(info.clone());
        }
    }

    let listener = Arc::new(CaptureListener {
        captured: Mutex::new(None),
    });
    let dir = Host::new();
    let opts = Options {
        write_buffer_size: 4 * 1024,
        listeners: vec![heard(&listener)],
        ..Options::default()
    };
    let db = Db::open(&dir, opts).unwrap();
    for i in 0..400 {
        db.put(format!("k_{i:04}").as_bytes(), b"v").unwrap();
    }
    force_flush(&db, "capture");
    db.compact_range(None, None).unwrap();

    let captured = listener.captured.lock().unwrap().clone();
    let info = captured.expect("compaction_completed must have fired");
    assert!(
        !info.input_files_input_level.is_empty(),
        "at least one L0 input file was picked"
    );
    assert_eq!(info.output_level, info.input_level + 1);
    assert!(!info.output_files.is_empty(), "compaction produced outputs");
}

#[test]
fn test_stats_none_configured_is_noop() {
    // Sanity: with statistics disabled every hot path still
    // works and nothing panics.
    let (db, _dir) = open_tmp();
    db.put(b"k", b"v").unwrap();
    assert_eq!(db.get(b"k").unwrap(), Some(b"v".to_vec()));
}

// ── properties API ──────────────────────────────────────────────────

#[test]
fn test_property_unknown_name_returns_none() {
    let (db, _dir) = open_tmp();
    assert!(db.get_property("not.a.real.property").is_none());
    assert!(db.get_int_property("not.a.real.property").is_none());
}

#[test]
fn test_property_num_files_at_level() {
    let (db, _dir) = open_tmp();
    assert_eq!(db.get_int_property("regolith.num-files-at-level0"), Some(0));
    assert_eq!(db.get_int_property("regolith.num-files-at-level6"), Some(0));
    // Out-of-range level is a valid query that returns 0.
    assert_eq!(
        db.get_int_property("regolith.num-files-at-level99"),
        Some(0)
    );
}

#[test]
fn test_property_level_counts_after_flush_and_compact() {
    let dir = Host::new();
    let db = Db::open(&dir, tiny_flush_opts()).unwrap();
    for i in 0..200 {
        db.put(format!("k_{i:04}").as_bytes(), b"v").unwrap();
    }
    force_flush(&db, "props");
    // At this point we expect some L0 files.
    let l0_before = db.get_int_property("regolith.num-files-at-level0").unwrap();
    assert!(l0_before > 0 || db.get_int_property("regolith.num-files-at-level1").unwrap() > 0);

    // Drain everything to the deepest level.
    db.compact_range(None, None).unwrap();
    assert_eq!(
        db.get_int_property("regolith.num-files-at-level0"),
        Some(0),
        "L0 should be empty after compact_range"
    );
}

#[test]
fn test_property_total_sst_size_after_flush() {
    let dir = Host::new();
    let db = Db::open(&dir, tiny_flush_opts()).unwrap();
    assert_eq!(
        db.get_int_property("regolith.total-sst-files-size"),
        Some(0)
    );
    for i in 0..100 {
        db.put(format!("k_{i:04}").as_bytes(), b"v").unwrap();
    }
    force_flush(&db, "size");
    let size = db
        .get_int_property("regolith.total-sst-files-size")
        .unwrap();
    assert!(size > 0, "SST size should be > 0 after a flush");
}

#[test]
fn test_property_cur_size_active_mem_table() {
    let (db, _dir) = open_tmp();
    assert_eq!(
        db.get_int_property("regolith.cur-size-active-mem-table"),
        Some(0)
    );
    for i in 0..50 {
        db.put(format!("k_{i:03}").as_bytes(), b"value").unwrap();
    }
    let size = db
        .get_int_property("regolith.cur-size-active-mem-table")
        .unwrap();
    assert!(size > 0, "active memtable should have non-zero size");
}

#[test]
fn test_property_cur_size_all_mem_tables_aggregates() {
    let (db, _dir) = open_tmp();
    db.put(b"k", b"v").unwrap();
    let active = db
        .get_int_property("regolith.cur-size-active-mem-table")
        .unwrap();
    let all = db
        .get_int_property("regolith.cur-size-all-mem-tables")
        .unwrap();
    assert!(all >= active, "all mem tables must be >= active");
}

#[test]
fn test_property_estimate_num_keys() {
    let dir = Host::new();
    let db = Db::open(&dir, tiny_flush_opts()).unwrap();
    for i in 0..100 {
        db.put(format!("k_{i:04}").as_bytes(), b"v").unwrap();
    }
    force_flush(&db, "estimate");
    db.compact_range(None, None).unwrap();
    let estimate = db.get_int_property("regolith.estimate-num-keys").unwrap();
    // Exact count per SST includes the flush filler + the 100
    // writes; the property is a lower bound, so > 50 is a
    // safe floor.
    assert!(estimate > 50, "estimate-num-keys={estimate} too low");
}

#[test]
fn test_property_num_snapshots_and_oldest_snapshot_time() {
    let (db, _dir) = open_tmp();
    assert_eq!(db.get_int_property("regolith.num-snapshots"), Some(0));
    assert!(
        db.get_int_property("regolith.oldest-snapshot-time")
            .is_none(),
        "oldest-snapshot-time should be None when no snapshots are live"
    );
    let _snap_a = db.snapshot();
    let _snap_b = db.snapshot();
    assert_eq!(db.get_int_property("regolith.num-snapshots"), Some(2));
    assert!(
        db.get_int_property("regolith.oldest-snapshot-time")
            .is_some()
    );
}

#[test]
fn test_property_background_errors_returns_zero() {
    let (db, _dir) = open_tmp();
    // No background errors on a fresh db.
    assert_eq!(db.get_int_property("regolith.background-errors"), Some(0));
}

#[test]
fn test_property_stats_string_without_statistics_configured() {
    let (db, _dir) = open_tmp();
    let text = db.get_property("regolith.stats").unwrap();
    assert!(text.contains("== regolith engine stats =="));
    assert!(text.contains("(no Statistics object configured"));
}

#[test]
fn test_property_sstables_lists_files_after_flush() {
    let dir = Host::new();
    let db = Db::open(&dir, tiny_flush_opts()).unwrap();
    for i in 0..50 {
        db.put(format!("k_{i:03}").as_bytes(), b"v").unwrap();
    }
    force_flush(&db, "ssts");
    let text = db.get_property("regolith.sstables").unwrap();
    assert!(text.contains("Level    FileID"));
    // Should list at least one file with non-zero size.
    assert!(
        text.lines().any(|l| l.contains("\"k_")),
        "expected a file line to include a user key from the writes"
    );
}

#[test]
fn test_property_levelstats_format() {
    let dir = Host::new();
    let db = Db::open(&dir, tiny_flush_opts()).unwrap();
    for i in 0..20 {
        db.put(format!("k_{i:03}").as_bytes(), b"v").unwrap();
    }
    force_flush(&db, "lvl");
    let text = db.get_property("regolith.levelstats").unwrap();
    assert!(text.starts_with("Level  Files     Size(B)"));
    // Every level row is present, not just the populated ones.
    for lvl in 0..7 {
        assert!(
            text.contains(&format!("{lvl:5}")),
            "level {lvl} should appear in levelstats"
        );
    }
}

#[test]
fn test_property_options_debug_dump() {
    let (db, _dir) = open_tmp();
    let text = db.get_property("regolith.options").unwrap();
    assert!(text.contains("OptionsSnapshot"));
    assert!(text.contains("default"));
}

#[test]
fn test_property_integer_forms_available_via_get_property() {
    // Integer properties should also be reachable via
    // get_property, returning their decimal string form.
    let (db, _dir) = open_tmp();
    assert_eq!(
        db.get_property("regolith.num-files-at-level0").as_deref(),
        Some("0")
    );
    assert_eq!(
        db.get_property("regolith.num-snapshots").as_deref(),
        Some("0")
    );
}

#[test]
fn test_multi_worker_compaction_reads_are_correct() {
    // With 4 background workers, heavy writes produce many L0
    // files that trigger multiple concurrent L1+ compactions.
    // Every key must still read back its latest value after
    // the dust settles.
    let opts = Options {
        write_buffer_size: 4 * 1024,
        max_background_compactions: 4,
        l0_compaction_trigger: 2,
        target_file_size: 8 * 1024,
        ..Options::default()
    };
    let dir = Host::new();
    let db = Db::open(&dir, opts).unwrap();

    let mut expected = BTreeMap::new();
    for i in 0..2048 {
        let k = format!("k{i:06}");
        let v = format!("v{i}");
        db.put(k.as_bytes(), v.as_bytes()).unwrap();
        expected.insert(k, v);
    }
    // Overwrite a window to exercise dedup across workers.
    for i in 100..300 {
        let k = format!("k{i:06}");
        let v = format!("v{i}-new");
        db.put(k.as_bytes(), v.as_bytes()).unwrap();
        expected.insert(k, v);
    }

    // Give background workers time to process L0 files.
    // Use a generous sleep so slow CI runners don't flake.
    db.compact_range(None, None).unwrap();

    for (k, v) in &expected {
        assert_eq!(
            db.get(k.as_bytes()).unwrap(),
            Some(v.as_bytes().to_vec()),
            "key {k} must read back its latest value"
        );
    }
}

#[test]
fn test_multi_worker_single_thread_matches_default() {
    // max_background_compactions=1 must behave identically to
    // the default (which is also 1). Sanity check that the
    // RwLock path doesn't break the single-worker case.
    let opts = Options {
        write_buffer_size: 4 * 1024,
        max_background_compactions: 1,
        ..Options::default()
    };
    let dir = Host::new();
    let db = Db::open(&dir, opts).unwrap();
    for i in 0..500 {
        let k = format!("k{i:04}");
        db.put(k.as_bytes(), b"v").unwrap();
    }
    db.compact_range(None, None).unwrap();
    for i in 0..500 {
        let k = format!("k{i:04}");
        assert_eq!(db.get(k.as_bytes()).unwrap(), Some(b"v".to_vec()));
    }
}

#[test]
fn test_partitioned_index_reads_are_correct() {
    // Enable partitioned index with a tiny metadata_block_size
    // so the test actually exercises the two-level path.
    let opts = Options {
        write_buffer_size: 4 * 1024,
        partitioned_index: true,
        metadata_block_size: 128,
        ..Options::default()
    };
    let dir = Host::new();
    let db = Db::open(&dir, opts).unwrap();

    for i in 0..500 {
        let k = format!("k{i:04}");
        let v = format!("v{i}");
        db.put(k.as_bytes(), v.as_bytes()).unwrap();
    }
    db.compact_range(None, None).unwrap();

    for i in 0..500 {
        let k = format!("k{i:04}");
        let v = format!("v{i}");
        assert_eq!(
            db.get(k.as_bytes()).unwrap(),
            Some(v.into_bytes()),
            "key {k} must read back correctly with partitioned index"
        );
    }
}

#[test]
fn test_partitioned_index_scan_matches_flat() {
    // Write the same data with and without partitioned index.
    // Scans must produce identical results.
    let write_and_scan = |partitioned: bool| -> Vec<(Vec<u8>, Vec<u8>)> {
        let dir = Host::new();
        let opts = Options {
            write_buffer_size: 4 * 1024,
            partitioned_index: partitioned,
            metadata_block_size: 128,
            ..Options::default()
        };
        let db = Db::open(&dir, opts).unwrap();
        for i in 0..200 {
            let k = format!("k{i:04}");
            let v = format!("v{i}");
            db.put(k.as_bytes(), v.as_bytes()).unwrap();
        }
        db.compact_range(None, None).unwrap();
        db.scan(None, None).unwrap()
    };
    let flat = write_and_scan(false);
    let partitioned = write_and_scan(true);
    assert_eq!(flat, partitioned, "partitioned scan must match flat scan");
}

#[test]
fn test_partitioned_index_survives_reopen() {
    let dir = Host::new();
    let opts = Options {
        write_buffer_size: 4 * 1024,
        partitioned_index: true,
        metadata_block_size: 128,
        ..Options::default()
    };
    {
        let db = Db::open(&dir, opts.clone()).unwrap();
        for i in 0..200 {
            let k = format!("k{i:04}");
            db.put(k.as_bytes(), b"v").unwrap();
        }
        db.compact_range(None, None).unwrap();
    }
    // Reopen - the V2 SSTables must still be readable.
    let db = Db::open(&dir, opts).unwrap();
    for i in 0..200 {
        let k = format!("k{i:04}");
        assert_eq!(db.get(k.as_bytes()).unwrap(), Some(b"v".to_vec()));
    }
}

#[test]
fn test_mixed_v1_v2_sstables_read_correctly() {
    // Write some data with flat index (V1), then switch to
    // partitioned (V2) and write more. Reads that span both
    // file types must work correctly.
    let dir = Host::new();
    {
        let opts = Options {
            write_buffer_size: 4 * 1024,
            partitioned_index: false,
            ..Options::default()
        };
        let db = Db::open(&dir, opts).unwrap();
        for i in 0..100 {
            let k = format!("k{i:04}");
            db.put(k.as_bytes(), b"v1").unwrap();
        }
        db.compact_range(None, None).unwrap();
    }
    {
        let opts = Options {
            write_buffer_size: 4 * 1024,
            partitioned_index: true,
            metadata_block_size: 128,
            ..Options::default()
        };
        let db = Db::open(&dir, opts).unwrap();
        for i in 100..200 {
            let k = format!("k{i:04}");
            db.put(k.as_bytes(), b"v2").unwrap();
        }
        // Don't compact - leave V1 files at lower levels and
        // V2 files in L0/L1.
    }
    let opts = Options {
        partitioned_index: true,
        ..Options::default()
    };
    let db = Db::open(&dir, opts).unwrap();
    for i in 0..100 {
        let k = format!("k{i:04}");
        assert_eq!(db.get(k.as_bytes()).unwrap(), Some(b"v1".to_vec()));
    }
    for i in 100..200 {
        let k = format!("k{i:04}");
        assert_eq!(db.get(k.as_bytes()).unwrap(), Some(b"v2".to_vec()));
    }
}

#[test]
fn test_streaming_compaction_produces_correct_reads() {
    // A compaction large enough to span multiple output files;
    // read everything back and confirm the streaming path keeps
    // the latest version for every user key.
    let opts = Options {
        write_buffer_size: 4 * 1024,
        max_subcompactions: 4,
        target_file_size: 8 * 1024,
        ..Options::default()
    };
    let dir = Host::new();
    let db = Db::open(&dir, opts).unwrap();

    let expected: Vec<(String, String)> = (0..2048)
        .map(|i| (format!("k{i:06}"), format!("v{i}")))
        .collect();
    for (k, v) in &expected {
        db.put(k.as_bytes(), v.as_bytes()).unwrap();
    }
    // Overwrite a window to exercise dedup across input files.
    for i in 100..200 {
        let k = format!("k{i:06}");
        let v = format!("v{i}-new");
        db.put(k.as_bytes(), v.as_bytes()).unwrap();
    }

    db.compact_range(None, None).unwrap();

    for (k, v) in &expected {
        let i: usize = k[1..].parse().unwrap();
        let want = if (100..200).contains(&i) {
            format!("v{i}-new")
        } else {
            v.clone()
        };
        assert_eq!(
            db.get(k.as_bytes()).unwrap(),
            Some(want.into_bytes()),
            "key {k} must read back the latest value"
        );
    }
}

#[test]
fn test_streaming_compaction_handles_single_worker_option() {
    // max_subcompactions is accepted for API compatibility, but
    // the streaming compaction path writes from the compaction
    // worker thread.
    let opts = Options {
        write_buffer_size: 4 * 1024,
        max_subcompactions: 1,
        target_file_size: 8 * 1024,
        ..Options::default()
    };
    let dir = Host::new();
    let db = Db::open(&dir, opts).unwrap();
    for i in 0..256 {
        let k = format!("k{i:04}");
        db.put(k.as_bytes(), b"v").unwrap();
    }
    db.compact_range(None, None).unwrap();
    for i in 0..256 {
        let k = format!("k{i:04}");
        assert_eq!(db.get(k.as_bytes()).unwrap(), Some(b"v".to_vec()));
    }
}

#[test]
fn test_streaming_compaction_accepts_subcompaction_option() {
    // The compatibility knob should not change correctness even
    // though output writing is now part of the bounded-memory
    // streaming path.
    let opts = Options {
        write_buffer_size: 4 * 1024,
        max_subcompactions: 8,
        ..Options::default()
    };
    let dir = Host::new();
    let db = Db::open(&dir, opts).unwrap();
    for i in 0..32 {
        let k = format!("k{i:02}");
        db.put(k.as_bytes(), b"v").unwrap();
    }
    db.compact_range(None, None).unwrap();
    for i in 0..32 {
        let k = format!("k{i:02}");
        assert_eq!(db.get(k.as_bytes()).unwrap(), Some(b"v".to_vec()));
    }
}

#[test]
fn test_evict_compaction_data_from_page_cache_is_correctness_neutral() {
    // Enabling the page-cache hint must not change what a
    // compaction produces. On Linux the `posix_fadvise`
    // syscall runs but is a best-effort hint; on other
    // platforms it's a no-op. Either way, the output SSTs
    // contain the same data as the leveled baseline, so
    // readers must see identical values afterward.
    let opts = Options {
        write_buffer_size: 4 * 1024,
        evict_compaction_data_from_page_cache: true,
        ..Options::default()
    };
    let dir = Host::new();
    let db = Db::open(&dir, opts).unwrap();

    for i in 0..128 {
        let k = format!("k{i:04}");
        let v = format!("v{i}");
        db.put(k.as_bytes(), v.as_bytes()).unwrap();
    }
    // Overwrite a few so dedup runs through the hint path.
    for i in 0..32 {
        let k = format!("k{i:04}");
        let v = format!("v{i}-new");
        db.put(k.as_bytes(), v.as_bytes()).unwrap();
    }
    db.compact_range(None, None).unwrap();

    for i in 0..128 {
        let k = format!("k{i:04}");
        let expected = if i < 32 {
            format!("v{i}-new")
        } else {
            format!("v{i}")
        };
        assert_eq!(
            db.get(k.as_bytes()).unwrap(),
            Some(expected.into_bytes()),
            "key {k} must still read its latest value"
        );
    }
}

#[test]
fn test_universal_compaction_reads_are_correct_after_merge() {
    // Write a batch under Universal, force a full merge via
    // compact_range, and verify every key is still readable
    // with the most recent value.
    let opts = Options {
        write_buffer_size: 4 * 1024,
        compaction_style: CompactionStyle::Universal,
        ..Options::default()
    };
    let dir = Host::new();
    let db = Db::open(&dir, opts).unwrap();

    for i in 0..64 {
        let k = format!("k{i:04}");
        let v = format!("v{i}");
        db.put(k.as_bytes(), v.as_bytes()).unwrap();
    }
    // Overwrite the first 16 keys so dedup has to pick the
    // newest version during the merge.
    for i in 0..16 {
        let k = format!("k{i:04}");
        let v = format!("v{i}-updated");
        db.put(k.as_bytes(), v.as_bytes()).unwrap();
    }

    db.compact_range(None, None).unwrap();

    for i in 0..64 {
        let k = format!("k{i:04}");
        let expected = if i < 16 {
            format!("v{i}-updated")
        } else {
            format!("v{i}")
        };
        assert_eq!(
            db.get(k.as_bytes()).unwrap(),
            Some(expected.into_bytes()),
            "key {k} must read back its latest value"
        );
    }
}

#[test]
fn test_universal_compaction_never_creates_l1_files() {
    // Every Universal merge output should stay at L0 - the
    // level-size push-down rule must not fire for this style.
    let opts = Options {
        write_buffer_size: 4 * 1024,
        l0_compaction_trigger: 1,
        compaction_style: CompactionStyle::Universal,
        ..Options::default()
    };
    let dir = Host::new();
    let db = Db::open(&dir, opts).unwrap();
    for i in 0..64 {
        let k = format!("k{i:04}");
        db.put(k.as_bytes(), &vec![0xCC; 256]).unwrap();
    }
    db.compact_range(None, None).unwrap();

    let l1 = db.get_int_property("regolith.num-files-at-level1").unwrap();
    assert_eq!(l1, 0, "Universal must not produce L1 files, saw {l1}");
    let l0 = db.get_int_property("regolith.num-files-at-level0").unwrap();
    assert!(
        l0 >= 1,
        "Universal compaction should leave at least one L0 file"
    );
}

#[test]
fn test_universal_compaction_full_merge_drops_shadowed_versions() {
    // After a full universal compact_range, we expect the
    // output to be a single L0 file (min cardinality). This
    // exercises the compact_range full-merge path.
    let opts = Options {
        write_buffer_size: 4 * 1024,
        compaction_style: CompactionStyle::Universal,
        ..Options::default()
    };
    let dir = Host::new();
    let db = Db::open(&dir, opts).unwrap();
    for i in 0..32 {
        let k = format!("k{i:04}");
        db.put(k.as_bytes(), &vec![0xAA; 512]).unwrap();
    }
    // Give the background scheduler a moment to potentially
    // kick off work, then force-merge synchronously.
    db.compact_range(None, None).unwrap();

    let l0 = db.get_int_property("regolith.num-files-at-level0").unwrap();
    assert_eq!(
        l0, 1,
        "full universal compact_range should fold everything into one L0 file, saw {l0}"
    );
}

#[test]
fn test_fifo_compaction_bounds_total_size() {
    // Tiny memtable + tight FIFO cap: sustained writes should
    // produce many L0 files, and after each flush the oldest
    // ones should be unlinked so the total stays bounded.
    let opts = Options {
        write_buffer_size: 4 * 1024,
        compaction_style: CompactionStyle::Fifo,
        fifo_compaction_options: FifoCompactionOptions {
            max_table_files_size: 32 * 1024,
        },
        ..Options::default()
    };
    let dir = Host::new();
    let db = Db::open(&dir, opts).unwrap();

    // Write enough data to produce ~16 flushes of ~4 KB each,
    // well over the 32 KB cap. Each write has a distinct
    // monotonically increasing key so flushes don't overlap.
    let payload = vec![0xEEu8; 256];
    for i in 0..256 {
        let k = format!("k{i:06}");
        db.put(k.as_bytes(), &payload).unwrap();
    }

    // Give the background compaction thread a moment to
    // process the trailing flushes + FIFO drops.

    // Force any remaining flushes through and run one more
    // FIFO pass via compact_range (which acquires the
    // compaction lock and drains pending work).
    db.compact_range(None, None).unwrap();

    let total = db
        .get_int_property("regolith.total-sst-files-size")
        .unwrap_or(0);
    assert!(
        total <= 64 * 1024,
        "FIFO cap 32KB should keep total < 64KB slack, got {total}"
    );
    // Meanwhile the newest keys must still be readable (the
    // oldest ones may have been dropped by FIFO).
    assert_eq!(
        db.get(b"k000255").unwrap(),
        Some(payload.clone()),
        "newest key must survive FIFO compaction"
    );
}

#[test]
fn test_fifo_compaction_keeps_at_least_one_file() {
    // A single oversized file must not be deleted - FIFO
    // refuses to drop the last surviving SST because that
    // would wipe the database.
    let opts = Options {
        write_buffer_size: 4 * 1024,
        compaction_style: CompactionStyle::Fifo,
        fifo_compaction_options: FifoCompactionOptions {
            max_table_files_size: 1, // 1 byte cap: always over limit
        },
        ..Options::default()
    };
    let dir = Host::new();
    let db = Db::open(&dir, opts).unwrap();
    for i in 0..32 {
        let k = format!("k{i:04}");
        db.put(k.as_bytes(), &vec![0xAA; 512]).unwrap();
    }
    db.compact_range(None, None).unwrap();

    let l0 = db.get_int_property("regolith.num-files-at-level0").unwrap();
    assert!(
        l0 >= 1,
        "FIFO must keep at least one L0 file even when over the cap"
    );
}

#[test]
fn test_fifo_compaction_never_promotes_to_l1() {
    // Under FIFO, the background scheduler should never
    // promote files from L0 to L1. The `l0_compaction_trigger`
    // knob is a level-style knob and must have no effect.
    let opts = Options {
        write_buffer_size: 4 * 1024,
        l0_compaction_trigger: 2,
        compaction_style: CompactionStyle::Fifo,
        fifo_compaction_options: FifoCompactionOptions {
            max_table_files_size: 10 * 1024 * 1024,
        },
        ..Options::default()
    };
    let dir = Host::new();
    let db = Db::open(&dir, opts).unwrap();
    for i in 0..64 {
        let k = format!("k{i:04}");
        db.put(k.as_bytes(), &vec![0xBB; 256]).unwrap();
    }

    let l1 = db.get_int_property("regolith.num-files-at-level1").unwrap();
    assert_eq!(l1, 0, "FIFO must not produce L1 files, saw {l1}");
}

#[test]
fn test_tailing_iter_sees_writes_after_creation() {
    // Initial writes, then a tailing iterator, then more
    // writes - the tailing iterator must surface the later
    // writes once it advances past the initial set.
    let (db, _dir) = open_tmp();
    for i in 0..5 {
        let k = format!("log/{i:04}");
        db.put(k.as_bytes(), format!("v{i}").as_bytes()).unwrap();
    }

    let mut tail = db.iter_tailing();
    tail.seek_to_first();

    // Drain the initial 5 entries.
    let mut seen: Vec<String> = Vec::new();
    while tail.valid() {
        seen.push(String::from_utf8(tail.key().unwrap().to_vec()).unwrap());
        tail.next();
    }
    assert_eq!(seen.len(), 5, "first drain saw {seen:?}");

    // Now push more writes at strictly larger keys.
    for i in 5..10 {
        let k = format!("log/{i:04}");
        db.put(k.as_bytes(), format!("v{i}").as_bytes()).unwrap();
    }

    // Stepping again should refresh the view and surface
    // the new entries without re-emitting the first batch.
    tail.next();
    while tail.valid() {
        seen.push(String::from_utf8(tail.key().unwrap().to_vec()).unwrap());
        tail.next();
    }
    assert_eq!(seen.len(), 10, "tail saw {seen:?}");
    for (i, k) in seen.iter().enumerate() {
        assert_eq!(k, &format!("log/{i:04}"));
    }
}

#[test]
fn test_tailing_iter_survives_flush_and_compaction() {
    // Tiny write_buffer so writes between drains roll
    // memtables and produce L0 files. The tailing iter must
    // pick up those new SSTs on the next refresh.
    let opts = Options {
        write_buffer_size: 4 * 1024,
        ..Options::default()
    };
    let dir = Host::new();
    let db = Db::open(&dir, opts).unwrap();

    for i in 0..16 {
        let k = format!("log/{i:04}");
        db.put(k.as_bytes(), &vec![0xAA; 256]).unwrap();
    }

    let mut tail = db.iter_tailing();
    tail.seek_to_first();
    let mut seen: usize = 0;
    while tail.valid() {
        seen += 1;
        tail.next();
    }
    assert_eq!(seen, 16);

    // Force a flush and a compaction - the existing tail
    // iter is no longer pinned to anything visible, but a
    // refresh + new writes should still work.
    db.compact_range(None, None).unwrap();
    for i in 16..32 {
        let k = format!("log/{i:04}");
        db.put(k.as_bytes(), &vec![0xBB; 256]).unwrap();
    }

    tail.refresh();
    let mut seen_after = 0;
    while tail.valid() {
        seen_after += 1;
        tail.next();
    }
    assert_eq!(
        seen_after, 16,
        "tail should pick up the 16 new entries after refresh"
    );
}

#[test]
fn test_tailing_iter_no_re_emission_after_explicit_refresh() {
    let (db, _dir) = open_tmp();
    for i in 0..3 {
        db.put(format!("k{i}").as_bytes(), b"v").unwrap();
    }
    let mut tail = db.iter_tailing();
    tail.seek_to_first();
    assert!(tail.valid());
    let first_key = tail.key().unwrap().to_vec();
    assert_eq!(first_key, b"k0");
    tail.next();
    assert_eq!(tail.key().unwrap(), b"k1");

    // Explicit refresh in the middle of iteration must NOT
    // re-emit k0.
    tail.refresh();
    // After refresh we should be positioned strictly after
    // the last returned key (k1), so the next valid key is
    // k2.
    assert!(tail.valid());
    assert_eq!(tail.key().unwrap(), b"k2");
    tail.next();
    assert!(!tail.valid(), "no more keys after k2");
}

#[test]
fn test_tailing_iter_cf_scoping() {
    // Tailing iterator scoped to one CF must not surface
    // keys from other CFs.
    let (db, _dir) = open_tmp();
    let cf_logs = db.create_column_family("logs").unwrap();
    let cf_other = db.create_column_family("other").unwrap();

    db.put_cf(&cf_logs, b"a", b"1").unwrap();
    db.put_cf(&cf_other, b"a", b"x").unwrap();
    db.put_cf(&cf_logs, b"b", b"2").unwrap();

    let mut tail = db.iter_tailing_cf(&cf_logs);
    tail.seek_to_first();
    let mut seen = Vec::new();
    while tail.valid() {
        seen.push((tail.key().unwrap().to_vec(), tail.value().unwrap().to_vec()));
        tail.next();
    }
    assert_eq!(
        seen,
        vec![
            (b"a".to_vec(), b"1".to_vec()),
            (b"b".to_vec(), b"2".to_vec())
        ]
    );

    // A write to the other CF must not bleed in even after
    // refresh.
    db.put_cf(&cf_other, b"c", b"y").unwrap();
    tail.refresh();
    assert!(!tail.valid());
}

#[test]
fn test_write_stall_no_slowdown_returns_busy() {
    let opts = Options {
        write_buffer_size: 4 * 1024,
        l0_compaction_trigger: 1000,
        level0_slowdown_writes_trigger: 2,
        level0_stop_writes_trigger: 10_000,
        max_write_buffer_number: 0,
        ..Options::default()
    };
    let dir = Host::new();
    let db = Db::open(&dir, opts).unwrap();

    // Build up L0 past the slowdown trigger.
    let payload = vec![0xEFu8; 600];
    for i in 0..64 {
        let k = format!("k{i:04}");
        db.put(k.as_bytes(), &payload).unwrap();
    }

    // A write with `no_slowdown` must now return Busy rather
    // than sleep or block.
    let wo = WriteOptions {
        no_slowdown: true,
        ..WriteOptions::default()
    };
    let err = db.put_opt(&wo, b"extra", b"value").unwrap_err();
    assert!(
        matches!(err, Error::Busy(_)),
        "expected Error::Busy, got {err:?}"
    );
}

#[test]
fn test_block_cache_usage_property_reports_nonzero_after_reads() {
    // The `regolith.block-cache-usage` property must report a positive
    // number once at least one read has happened against a table that
    // isn't entirely in the memtable.
    let opts = Options {
        write_buffer_size: 4 * 1024,
        block_cache_size: 1024 * 1024,
        ..Options::default()
    };
    let dir = Host::new();
    let db = Db::open(&dir, opts).unwrap();

    let payload = vec![0xABu8; 256];
    for i in 0..200 {
        let k = format!("k{i:04}");
        db.put(k.as_bytes(), &payload).unwrap();
    }
    db.compact_range(None, None).unwrap();

    for i in 0..50 {
        let k = format!("k{i:04}");
        let _ = db.get(k.as_bytes()).unwrap();
    }

    let usage = db
        .get_int_property("regolith.block-cache-usage")
        .expect("property must exist");
    assert!(usage > 0, "expected block-cache-usage > 0 after reads, got {usage}");
    let cap = db
        .get_int_property("regolith.block-cache-capacity")
        .expect("property must exist");
    assert!(cap >= 512 * 1024, "expected at least 512KB capacity, got {cap}");
    assert!(usage <= cap, "usage {usage} must not exceed capacity {cap}");
}
