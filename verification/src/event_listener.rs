//! Lifecycle event callbacks for flush, compaction, and ingest.
//!
//! Callers register one or more [`EventListener`] implementations via
//! [`crate::options::Options::listeners`] to react to engine lifecycle
//! events.
//!
//! # Dispatch
//!
//! Events are dispatched synchronously on the thread that triggered them,
//! to the listeners in the order they were registered. Listeners must not
//! block or re-enter the database.
//!
//! # Non-guarantees
//!
//! - Per-column-family filtering is out of scope. A listener sees every
//!   event from every column family.
//! - `on_wal_full` is declared so listener implementations can target a
//!   common shape across storage backends; it is never fired here.

use std::sync::Arc;
use std::time::Duration;

use vstd::prelude::*;

use crate::error::Error;

verus! {

/// Why a table file was produced.
#[derive(Debug, Clone, Copy, PartialEq, Eq, Structural)]
pub enum TableFileCreationReason {
    /// A memtable was flushed to L0.
    Flush,
    /// A compaction merged files at one level into another.
    Compaction,
    /// A file was ingested.
    Recovery,
}

/// Information about a flush that just completed.
#[derive(Debug)]
pub struct FlushJobInfo {
    /// Numeric id of the table that now holds the flushed memtable's
    /// contents.
    pub file_id: u64,
    /// Path of the produced table.
    pub file_path: String,
    /// File size, in bytes.
    pub file_size: u64,
    /// Number of point entries in the flushed table.
    pub num_entries: u64,
    /// Smallest user key in the file.
    pub smallest_key: Vec<u8>,
    /// Largest user key in the file.
    pub largest_key: Vec<u8>,
    /// Duration of the flush. Zero where the host has no monotonic clock.
    pub duration: Duration,
}

impl Clone for FlushJobInfo {
    fn clone(&self) -> (r: Self)
        ensures
            r.file_id == self.file_id,
            r.file_path@ == self.file_path@,
            r.file_size == self.file_size,
            r.num_entries == self.num_entries,
            r.smallest_key@ == self.smallest_key@,
            r.largest_key@ == self.largest_key@,
            r.duration == self.duration,
    {
        FlushJobInfo {
            file_id: self.file_id,
            file_path: self.file_path.clone(),
            file_size: self.file_size,
            num_entries: self.num_entries,
            smallest_key: self.smallest_key.clone(),
            largest_key: self.largest_key.clone(),
            duration: self.duration,
        }
    }
}

/// Information about a compaction job.
#[derive(Debug)]
pub struct CompactionJobInfo {
    /// Source level (the level compaction is reading from).
    pub input_level: usize,
    /// Destination level (one deeper than `input_level`).
    pub output_level: usize,
    /// File ids of the inputs at `input_level`.
    pub input_files_input_level: Vec<u64>,
    /// File ids of the inputs at `output_level` that get merged in.
    pub input_files_output_level: Vec<u64>,
    /// File ids of the newly produced output files. Empty on begin.
    pub output_files: Vec<u64>,
    /// Duration of the compaction. Zero on begin, and where the host has no
    /// monotonic clock.
    pub duration: Duration,
}

impl Clone for CompactionJobInfo {
    fn clone(&self) -> (r: Self)
        ensures
            r.input_level == self.input_level,
            r.output_level == self.output_level,
            r.input_files_input_level@ == self.input_files_input_level@,
            r.input_files_output_level@ == self.input_files_output_level@,
            r.output_files@ == self.output_files@,
            r.duration == self.duration,
    {
        CompactionJobInfo {
            input_level: self.input_level,
            output_level: self.output_level,
            input_files_input_level: self.input_files_input_level.clone(),
            input_files_output_level: self.input_files_output_level.clone(),
            output_files: self.output_files.clone(),
            duration: self.duration,
        }
    }
}

/// Information about a freshly created table file.
#[derive(Debug)]
pub struct TableFileCreationInfo {
    /// Numeric id of the table.
    pub file_id: u64,
    /// Path of the created file.
    pub file_path: String,
    /// Level the file was placed at.
    pub level: usize,
    /// Reason the file was produced.
    pub reason: TableFileCreationReason,
    /// File size.
    pub file_size: u64,
    /// Number of point entries in the file.
    pub num_entries: u64,
}

impl Clone for TableFileCreationInfo {
    fn clone(&self) -> (r: Self)
        ensures
            r.file_id == self.file_id,
            r.file_path@ == self.file_path@,
            r.level == self.level,
            r.reason == self.reason,
            r.file_size == self.file_size,
            r.num_entries == self.num_entries,
    {
        TableFileCreationInfo {
            file_id: self.file_id,
            file_path: self.file_path.clone(),
            level: self.level,
            reason: self.reason,
            file_size: self.file_size,
            num_entries: self.num_entries,
        }
    }
}

/// Information about a table file that was just removed.
#[derive(Debug)]
pub struct TableFileDeletionInfo {
    /// Numeric id of the removed file.
    pub file_id: u64,
    /// Path of the removed file at the time of deletion.
    pub file_path: String,
}

impl Clone for TableFileDeletionInfo {
    fn clone(&self) -> (r: Self)
        ensures
            r.file_id == self.file_id,
            r.file_path@ == self.file_path@,
    {
        TableFileDeletionInfo {
            file_id: self.file_id,
            file_path: self.file_path.clone(),
        }
    }
}

/// Information about an ingested file.
#[derive(Debug)]
pub struct ExternalFileIngestionInfo {
    /// Path the caller supplied.
    pub external_file_path: String,
    /// Internal file id assigned by the engine.
    pub internal_file_id: u64,
    /// Level the ingested file was placed at.
    pub level: usize,
    /// Total entries in the ingested file (point + range deletes).
    pub num_entries: u64,
    /// Size of the re-emitted file.
    pub file_size: u64,
}

impl Clone for ExternalFileIngestionInfo {
    fn clone(&self) -> (r: Self)
        ensures
            r.external_file_path@ == self.external_file_path@,
            r.internal_file_id == self.internal_file_id,
            r.level == self.level,
            r.num_entries == self.num_entries,
            r.file_size == self.file_size,
    {
        ExternalFileIngestionInfo {
            external_file_path: self.external_file_path.clone(),
            internal_file_id: self.internal_file_id,
            level: self.level,
            num_entries: self.num_entries,
            file_size: self.file_size,
        }
    }
}

/// Information about a full log. Never fired here: the log is rotated
/// alongside every memtable.
#[derive(Debug)]
pub struct WalFullInfo {
    /// Numeric id of the full log.
    pub wal_id: u64,
    /// Size of the full log in bytes.
    pub size: u64,
}

impl Clone for WalFullInfo {
    fn clone(&self) -> (r: Self)
        ensures
            r.wal_id == self.wal_id,
            r.size == self.size,
    {
        WalFullInfo {
            wal_id: self.wal_id,
            size: self.size,
        }
    }
}

/// Reason passed to [`EventListener::on_background_error`].
#[derive(Debug, Clone, Copy, PartialEq, Eq, Structural)]
pub enum BackgroundErrorReason {
    /// A background flush failed.
    Flush,
    /// A background compaction failed.
    Compaction,
    /// A manifest write or manifest compaction failed.
    Manifest,
    /// A log append or log sync failed.
    WriteAheadLog,
}

/// Trait implemented by callers that want to react to engine lifecycle
/// events. Every method has a default empty body, so implementations only
/// override the callbacks they care about.
///
/// Listeners must not block or re-enter the database.
pub trait EventListener: Send + Sync + 'static {
    /// Called after a memtable has been flushed to a new L0 table.
    fn on_flush_completed(&self, info: &FlushJobInfo) {
    }

    /// Called right before a compaction job starts reading its input files.
    fn on_compaction_begin(&self, info: &CompactionJobInfo) {
    }

    /// Called after a compaction job has written its output files.
    fn on_compaction_completed(&self, info: &CompactionJobInfo) {
    }

    /// Called when a new table file is created.
    fn on_table_file_created(&self, info: &TableFileCreationInfo) {
    }

    /// Called after a table file has been removed.
    fn on_table_file_deleted(&self, info: &TableFileDeletionInfo) {
    }

    /// Called per ingested file, once it has been placed at a level.
    fn on_external_file_ingested(&self, info: &ExternalFileIngestionInfo) {
    }

    /// Called when a background operation returns an error. The engine
    /// keeps running; the listener is for observability.
    fn on_background_error(&self, reason: BackgroundErrorReason, err: &Error) {
    }

    /// Never fired here; see the module documentation.
    fn on_wal_full(&self, info: &WalFullInfo) {
    }
}

/// Call `f` on every listener, in order.
pub fn dispatch<F: Fn(&dyn EventListener)>(listeners: &[Arc<dyn EventListener>], f: F)
    requires
        forall|i: int|
            0 <= i < listeners@.len() ==> call_requires(f, (&*(#[trigger] listeners@[i]),)),
    ensures
        forall|i: int|
            0 <= i < listeners@.len() ==> call_ensures(f, (&*(#[trigger] listeners@[i]),), ()),
{
    let mut i: usize = 0;
    while i < listeners.len()
        invariant
            i <= listeners@.len(),
            forall|j: int|
                0 <= j < listeners@.len() ==> call_requires(f, (&*(#[trigger] listeners@[j]),)),
            forall|j: int|
                0 <= j < i ==> call_ensures(f, (&*(#[trigger] listeners@[j]),), ()),
        decreases listeners@.len() - i,
    {
        f(&*listeners[i]);
        i += 1;
    }
}

// ── who was told what ───────────────────────────────────────────────────

/// The listener was told of a flush that completed.
pub open spec fn heard_flushed<L: EventListener + ?Sized>(listener: &L, info: &FlushJobInfo) -> bool {
    call_ensures(L::on_flush_completed, (listener, info), ())
}

fn tell_flushed<L: EventListener + ?Sized>(listener: &L, info: &FlushJobInfo)
    ensures
        heard_flushed(listener, info),
{
    listener.on_flush_completed(info);
}

/// Every listener was told of a flush that completed.
pub open spec fn all_heard_flushed(
    listeners: Seq<Arc<dyn EventListener>>,
    info: &FlushJobInfo,
) -> bool {
    forall|i: int| 0 <= i < listeners.len() ==> heard_flushed(&*(#[trigger] listeners[i]), info)
}

/// Tell every listener, in order, of a flush that completed.
pub fn tell_all_flushed(listeners: &Vec<Arc<dyn EventListener>>, info: &FlushJobInfo)
    ensures
        all_heard_flushed(listeners@, info),
{
    let mut i: usize = 0;
    while i < listeners.len()
        invariant
            i <= listeners@.len(),
            forall|j: int|
                0 <= j < i ==> heard_flushed(&*(#[trigger] listeners@[j]), info),
        decreases listeners@.len() - i,
    {
        tell_flushed(&*listeners[i], info);
        i += 1;
    }
}

/// The listener was told of a compaction that begins.
pub open spec fn heard_compaction_begun<L: EventListener + ?Sized>(listener: &L, info: &CompactionJobInfo) -> bool {
    call_ensures(L::on_compaction_begin, (listener, info), ())
}

fn tell_compaction_begun<L: EventListener + ?Sized>(listener: &L, info: &CompactionJobInfo)
    ensures
        heard_compaction_begun(listener, info),
{
    listener.on_compaction_begin(info);
}

/// Every listener was told of a compaction that begins.
pub open spec fn all_heard_compaction_begun(
    listeners: Seq<Arc<dyn EventListener>>,
    info: &CompactionJobInfo,
) -> bool {
    forall|i: int| 0 <= i < listeners.len() ==> heard_compaction_begun(&*(#[trigger] listeners[i]), info)
}

/// Tell every listener, in order, of a compaction that begins.
pub fn tell_all_compaction_begun(listeners: &Vec<Arc<dyn EventListener>>, info: &CompactionJobInfo)
    ensures
        all_heard_compaction_begun(listeners@, info),
{
    let mut i: usize = 0;
    while i < listeners.len()
        invariant
            i <= listeners@.len(),
            forall|j: int|
                0 <= j < i ==> heard_compaction_begun(&*(#[trigger] listeners@[j]), info),
        decreases listeners@.len() - i,
    {
        tell_compaction_begun(&*listeners[i], info);
        i += 1;
    }
}

/// The listener was told of a compaction that completed.
pub open spec fn heard_compacted<L: EventListener + ?Sized>(listener: &L, info: &CompactionJobInfo) -> bool {
    call_ensures(L::on_compaction_completed, (listener, info), ())
}

fn tell_compacted<L: EventListener + ?Sized>(listener: &L, info: &CompactionJobInfo)
    ensures
        heard_compacted(listener, info),
{
    listener.on_compaction_completed(info);
}

/// Every listener was told of a compaction that completed.
pub open spec fn all_heard_compacted(
    listeners: Seq<Arc<dyn EventListener>>,
    info: &CompactionJobInfo,
) -> bool {
    forall|i: int| 0 <= i < listeners.len() ==> heard_compacted(&*(#[trigger] listeners[i]), info)
}

/// Tell every listener, in order, of a compaction that completed.
pub fn tell_all_compacted(listeners: &Vec<Arc<dyn EventListener>>, info: &CompactionJobInfo)
    ensures
        all_heard_compacted(listeners@, info),
{
    let mut i: usize = 0;
    while i < listeners.len()
        invariant
            i <= listeners@.len(),
            forall|j: int|
                0 <= j < i ==> heard_compacted(&*(#[trigger] listeners@[j]), info),
        decreases listeners@.len() - i,
    {
        tell_compacted(&*listeners[i], info);
        i += 1;
    }
}

/// The listener was told of a table that was created.
pub open spec fn heard_created<L: EventListener + ?Sized>(listener: &L, info: &TableFileCreationInfo) -> bool {
    call_ensures(L::on_table_file_created, (listener, info), ())
}

fn tell_created<L: EventListener + ?Sized>(listener: &L, info: &TableFileCreationInfo)
    ensures
        heard_created(listener, info),
{
    listener.on_table_file_created(info);
}

/// Every listener was told of a table that was created.
pub open spec fn all_heard_created(
    listeners: Seq<Arc<dyn EventListener>>,
    info: &TableFileCreationInfo,
) -> bool {
    forall|i: int| 0 <= i < listeners.len() ==> heard_created(&*(#[trigger] listeners[i]), info)
}

/// Tell every listener, in order, of a table that was created.
pub fn tell_all_created(listeners: &Vec<Arc<dyn EventListener>>, info: &TableFileCreationInfo)
    ensures
        all_heard_created(listeners@, info),
{
    let mut i: usize = 0;
    while i < listeners.len()
        invariant
            i <= listeners@.len(),
            forall|j: int|
                0 <= j < i ==> heard_created(&*(#[trigger] listeners@[j]), info),
        decreases listeners@.len() - i,
    {
        tell_created(&*listeners[i], info);
        i += 1;
    }
}

/// The listener was told of a table that was removed.
pub open spec fn heard_deleted<L: EventListener + ?Sized>(listener: &L, info: &TableFileDeletionInfo) -> bool {
    call_ensures(L::on_table_file_deleted, (listener, info), ())
}

fn tell_deleted<L: EventListener + ?Sized>(listener: &L, info: &TableFileDeletionInfo)
    ensures
        heard_deleted(listener, info),
{
    listener.on_table_file_deleted(info);
}

/// Every listener was told of a table that was removed.
pub open spec fn all_heard_deleted(
    listeners: Seq<Arc<dyn EventListener>>,
    info: &TableFileDeletionInfo,
) -> bool {
    forall|i: int| 0 <= i < listeners.len() ==> heard_deleted(&*(#[trigger] listeners[i]), info)
}

/// Tell every listener, in order, of a table that was removed.
pub fn tell_all_deleted(listeners: &Vec<Arc<dyn EventListener>>, info: &TableFileDeletionInfo)
    ensures
        all_heard_deleted(listeners@, info),
{
    let mut i: usize = 0;
    while i < listeners.len()
        invariant
            i <= listeners@.len(),
            forall|j: int|
                0 <= j < i ==> heard_deleted(&*(#[trigger] listeners@[j]), info),
        decreases listeners@.len() - i,
    {
        tell_deleted(&*listeners[i], info);
        i += 1;
    }
}

/// The listener was told of a file that was ingested.
pub open spec fn heard_ingested<L: EventListener + ?Sized>(listener: &L, info: &ExternalFileIngestionInfo) -> bool {
    call_ensures(L::on_external_file_ingested, (listener, info), ())
}

fn tell_ingested<L: EventListener + ?Sized>(listener: &L, info: &ExternalFileIngestionInfo)
    ensures
        heard_ingested(listener, info),
{
    listener.on_external_file_ingested(info);
}

/// Every listener was told of a file that was ingested.
pub open spec fn all_heard_ingested(
    listeners: Seq<Arc<dyn EventListener>>,
    info: &ExternalFileIngestionInfo,
) -> bool {
    forall|i: int| 0 <= i < listeners.len() ==> heard_ingested(&*(#[trigger] listeners[i]), info)
}

/// Tell every listener, in order, of a file that was ingested.
pub fn tell_all_ingested(listeners: &Vec<Arc<dyn EventListener>>, info: &ExternalFileIngestionInfo)
    ensures
        all_heard_ingested(listeners@, info),
{
    let mut i: usize = 0;
    while i < listeners.len()
        invariant
            i <= listeners@.len(),
            forall|j: int|
                0 <= j < i ==> heard_ingested(&*(#[trigger] listeners@[j]), info),
        decreases listeners@.len() - i,
    {
        tell_ingested(&*listeners[i], info);
        i += 1;
    }
}

} // verus!
