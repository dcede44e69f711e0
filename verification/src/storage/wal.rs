//! The durable log.
//!
//! [`WalStorage`] keeps the log's index in memory and decides which file
//! operations keep the files in step with it. Its caller reads and writes the
//! files: it hands in their contents where they are needed, and performs the
//! [`DiskOp`]s that each operation returns, in order, before it acts on the
//! result.
//!
//! * A hard state is written and synced on every call, whatever the policy.
//! * No operation loses it: an operation that takes away the record of the hard
//!   state writes another first.
//! * [`WalStorage::sync_entries`] is the durability barrier for entries.
//! * Recovery never cuts a record that may be committed.
use vstd::prelude::*;
use vstd::string::*;

use crate::storage::meta::{decode_meta, encode_meta, Meta, FORMAT_VERSION};
use crate::bytes::copy_range;
use crate::storage::record::{
    encode_entry, encode_hard_state, encode_record, RecordType, MAX_RECORD_BYTES,
};
use crate::storage::replay::{
    entry_type_to_u8, find_entry_end, recover_wal, retain_above, verify_continuity, LogRecord,
    SegmentFile,
};
use crate::storage::segment::{Segment, DEFAULT_SEGMENT_BYTES};
use crate::storage::snapshot::{decode_snapshot, encode_snapshot};
use crate::storage::wal_model::{
    Disk, FsyncPolicy, OpModel, OptionsModel, ReportModel, SnapshotFileModel, StorageStats,
    WalModel, SNAPSHOT_RETENTION,
};
use crate::types::{
    ConfState, EntryModel, Fault, HardState, LogEntry, LogIndex, RaftState, Snapshot, SnapshotModel,
    StorageError, Term,
};
use crate::storage::meta;
use crate::storage::replay;
use crate::storage::segment;
use crate::storage::snapshot;
use crate::storage::wal_laws;
use crate::storage::wal_model;
use crate::types;

verus! {

/// Configuration for a [`WalStorage`].
#[derive(Clone, Copy, Debug, PartialEq, Eq)]
pub struct WalConfig {
    /// When appended entries are synced.
    pub fsync_policy: FsyncPolicy,
    /// The size at which a segment file rolls over.
    pub segment_bytes: u64,
}

impl Default for WalConfig {
    fn default() -> (r: Self)
        ensures
            r == (WalConfig {
                fsync_policy: FsyncPolicy::Always,
                segment_bytes: DEFAULT_SEGMENT_BYTES,
            }),
    {
        WalConfig { fsync_policy: FsyncPolicy::Always, segment_bytes: DEFAULT_SEGMENT_BYTES }
    }
}

/// Options for opening a [`WalStorage`].
#[derive(Clone, Debug, PartialEq, Eq)]
pub struct WalOptions {
    /// The cluster identifier.
    pub cluster_id: String,
    /// The node identifier.
    pub node_id: String,
    /// The storage configuration.
    pub config: WalConfig,
    /// The creation time to record in a new directory, in milliseconds since
    /// the Unix epoch.
    pub created_at_millis: u64,
}

impl View for WalOptions {
    type V = OptionsModel;

    open spec fn view(&self) -> OptionsModel {
        OptionsModel {
            cluster_id: self.cluster_id@,
            node_id: self.node_id@,
            policy: self.config.fsync_policy,
            segment_bytes: self.config.segment_bytes,
            created_at: self.created_at_millis,
        }
    }
}

/// A file operation that the caller performs.
#[derive(Debug, PartialEq, Eq)]
pub enum DiskOp {
    /// Open a segment file, creating it empty if there is none.
    CreateSegment { first_index: u64 },
    /// Write bytes at the end of a segment file.
    WriteSegment { first_index: u64, bytes: Vec<u8> },
    /// Sync a segment file.
    SyncSegment { first_index: u64 },
    /// Tell the observer, if there is one, that a segment was synced.
    NotifySynced { first_index: u64, max_entry: u64 },
    /// Cut a segment file to a length.
    CutSegment { first_index: u64, len: u64 },
    /// Give a segment file new contents, creating it if there is none: write
    /// beside, sync, rename, sync the directory.
    ReplaceSegment { first_index: u64, bytes: Vec<u8> },
    /// Remove a segment file.
    RemoveSegment { first_index: u64 },
    /// Sync the directory.
    SyncDir,
    /// Replace a snapshot file: write beside, sync, rename, sync the directory.
    SaveSnapshot { index: u64, term: u64, bytes: Vec<u8> },
    /// Remove a snapshot file.
    RemoveSnapshot { index: u64, term: u64 },
    /// Replace the META file: write beside, sync, rename, sync the directory.
    SaveMeta { bytes: Vec<u8> },
}

impl View for DiskOp {
    type V = OpModel;

    open spec fn view(&self) -> OpModel {
        match self {
            DiskOp::CreateSegment { first_index } => OpModel::Create(*first_index),
            DiskOp::WriteSegment { first_index, bytes } => OpModel::Write(*first_index, bytes@),
            DiskOp::SyncSegment { first_index } => OpModel::Sync(*first_index),
            DiskOp::NotifySynced { first_index, max_entry } => OpModel::Synced(
                *first_index,
                *max_entry,
            ),
            DiskOp::CutSegment { first_index, len } => OpModel::Cut(*first_index, *len),
            DiskOp::ReplaceSegment { first_index, bytes } => OpModel::Replace(*first_index, bytes@),
            DiskOp::RemoveSegment { first_index } => OpModel::Remove(*first_index),
            DiskOp::SyncDir => OpModel::SyncDir,
            DiskOp::SaveSnapshot { index, term, bytes } => OpModel::SaveSnapshot(
                *index,
                *term,
                bytes@,
            ),
            DiskOp::RemoveSnapshot { index, term } => OpModel::RemoveSnapshot(*index, *term),
            DiskOp::SaveMeta { bytes } => OpModel::SaveMeta(bytes@),
        }
    }
}

/// File operations as mathematical values.
pub open spec fn op_models(ops: Seq<DiskOp>) -> Seq<OpModel> {
    Seq::new(ops.len(), |i: int| ops[i]@)
}

fn push_op(ops: &mut Vec<DiskOp>, op: DiskOp)
    ensures
        op_models(final(ops)@) == op_models(old(ops)@).push(op@),
{
    ops.push(op);
    assert(op_models(ops@) =~= op_models(old(ops)@).push(op@));
}

fn append_ops(ops: &mut Vec<DiskOp>, more: Vec<DiskOp>)
    ensures
        op_models(final(ops)@) == op_models(old(ops)@) + op_models(more@),
{
    let mut more = more;
    let ghost m = more@;
    ops.append(&mut more);
    assert(op_models(ops@) =~= op_models(old(ops)@) + op_models(m));
}

/// The contents of one snapshot file.
pub struct SnapshotFile {
    pub index: u64,
    pub term: u64,
    pub bytes: Vec<u8>,
}

/// Snapshot files as mathematical values.
pub open spec fn snapshot_models(files: Seq<SnapshotFile>) -> Seq<SnapshotFileModel> {
    Seq::new(
        files.len(),
        |i: int|
            SnapshotFileModel {
                index: files[i].index,
                term: files[i].term,
                bytes: files[i].bytes@,
            },
    )
}

/// The files of a data directory: segments in ascending order, snapshot files
/// as listed, and the META file if there is one.
pub struct DataDir {
    pub segments: Vec<SegmentFile>,
    pub snapshots: Vec<SnapshotFile>,
    pub meta: Option<Vec<u8>>,
}

impl View for DataDir {
    type V = Disk;

    open spec fn view(&self) -> Disk {
        Disk {
            segments: replay::segment_models(self.segments@),
            snapshots: snapshot_models(self.snapshots@),
            meta: match self.meta {
                Some(bytes) => Some(bytes@),
                None => None,
            },
        }
    }
}

/// The outcome of a recovery rewrite.
#[derive(Debug, PartialEq, Eq)]
pub struct ForceRecoveryReport {
    /// The cluster id found in META before the rewrite.
    pub previous_cluster_id: String,
    /// The cluster id now recorded in META.
    pub cluster_id: String,
    /// The new term.
    pub term: Term,
    /// The commit index, which is kept.
    pub commit: LogIndex,
    /// How many entries of the uncommitted tail were discarded.
    pub discarded_entries: u64,
}

/// The durable log.
pub struct WalStorage {
    segment: Segment,
    max_entry_in_segment: LogIndex,
    entries: Vec<LogEntry>,
    compacted_to: LogIndex,
    snapshot: Option<Snapshot>,
    meta: Meta,
    hard_state: HardState,
    pending_entry_fsync: bool,
    fsync_policy: FsyncPolicy,
    stats: StorageStats,
}

impl View for WalStorage {
    type V = WalModel;

    closed spec fn view(&self) -> WalModel {
        WalModel {
            segment: self.segment,
            max_entry: self.max_entry_in_segment,
            entries: types::entry_models(self.entries@),
            compacted_to: self.compacted_to,
            snapshot: match self.snapshot {
                Some(s) => Some(s@),
                None => None,
            },
            meta: self.meta@,
            hard_state: self.hard_state,
            pending: self.pending_entry_fsync,
            policy: self.fsync_policy,
            stats: self.stats,
        }
    }
}

// ---------------------------------------------------------------------------
// Opening
// ---------------------------------------------------------------------------
/// The identity in a META file always fits its length fields.
pub proof fn lemma_decoded_ids_fit(buf: Seq<u8>)
    ensures
        meta::decoded_meta(buf) matches Ok(m) ==> meta::id_fits(m.cluster_id) && meta::id_fits(m.node_id),
{
    let payload = buf.subrange(12, buf.len() as int);
    match meta::decoded_meta(buf) {
        Err(_) => {},
        Ok(m) => {
            let cluster_len = crate::bytes::u16_at(payload, 0) as int;
            let node_at = 2 + cluster_len;
            let node_len = crate::bytes::u16_at(payload, node_at) as int;
            vstd::utf8::decode_utf8_encode_utf8(payload.subrange(2, node_at));
            vstd::utf8::decode_utf8_encode_utf8(
                payload.subrange(node_at + 2, node_at + 2 + node_len),
            );
        },
    }
}

/// Read and validate META, or make one for a new directory.
///
/// The flag says whether the directory is new; its META is then to be written.
pub fn recover_meta(opts: &WalOptions, file: &Option<Vec<u8>>) -> (r: Result<(Meta, bool), Fault>)
    requires
        meta::id_fits(opts.cluster_id@),
        meta::id_fits(opts.node_id@),
    ensures
        match wal_model::identity(
            opts@,
            match *file {
                Some(bytes) => Some(bytes@),
                None => None,
            },
        ) {
            Ok((meta, fresh)) => r matches Ok(v) && v.0@ == meta && v.1 == fresh && meta::id_fits(
                meta.cluster_id,
            ) && meta::id_fits(meta.node_id),
            Err(fault) => r matches Err(f) && f == fault,
        },
{
    match file {
        None => {
            let meta = Meta {
                cluster_id: opts.cluster_id.clone(),
                node_id: opts.node_id.clone(),
                format_version: FORMAT_VERSION,
                created_at: opts.created_at_millis,
                snapshot_index: 0,
                snapshot_term: 0,
            };
            Ok((meta, true))
        },
        Some(bytes) => {
            proof {
                lemma_decoded_ids_fit(bytes@);
            }
            match decode_meta(bytes) {
                Err(e) => Err(Fault::Meta(e)),
                Ok(meta) => {
                    if meta.cluster_id != opts.cluster_id {
                        return Err(Fault::ClusterIdMismatch);
                    }
                    if meta.node_id != opts.node_id {
                        return Err(Fault::NodeIdMismatch);
                    }
                    if meta.format_version != FORMAT_VERSION {
                        return Err(Fault::FormatVersionMismatch { version: meta.format_version });
                    }
                    Ok((meta, false))
                },
            }
        },
    }
}

/// Load the newest valid snapshot that META names, falling back to an earlier
/// one where the newest is damaged.
pub fn load_snapshot(files: &Vec<SnapshotFile>, pointer: LogIndex) -> (r: Option<Snapshot>)
    ensures
        match r {
            Some(s) => wal_model::loaded_snapshot(snapshot_models(files@), pointer) == Some(s@),
            None => wal_model::loaded_snapshot(snapshot_models(files@), pointer) is None,
        },
{
    if pointer == 0 {
        return None;
    }
    let ghost models = snapshot_models(files@);
    let mut best: Option<Snapshot> = None;
    let mut i: usize = 0;
    while i < files.len()
        invariant
            i <= files@.len(),
            models == snapshot_models(files@),
            match best {
                Some(s) => wal_model::newest_snapshot(models, pointer, i as int) == Some(s@),
                None => wal_model::newest_snapshot(models, pointer, i as int) is None,
            },
        decreases files@.len() - i,
    {
        let file = &files[i];
        assert(models[i as int].index == file.index && models[i as int].bytes == file.bytes@);
        if file.index <= pointer {
            match decode_snapshot(&file.bytes) {
                Ok(s) => {
                    if s.meta.index == file.index {
                        let newer = match &best {
                            None => true,
                            Some(b) => s.meta.index > b.meta.index,
                        };
                        if newer {
                            best = Some(s);
                        }
                    }
                },
                Err(_) => {},
            }
        }
        i = i + 1;
    }
    best
}

/// The fault of a log that does not follow its snapshot, if it has one.
fn check_log(
    meta: &Meta,
    has_snapshot: bool,
    watermark: LogIndex,
    entries: &Vec<LogEntry>,
    last_kept: LogIndex,
    commit: LogIndex,
    Ghost(snapshot): Ghost<Option<SnapshotModel>>,
    Ghost(hard_state): Ghost<HardState>,
) -> (r: Option<Fault>)
    requires
        has_snapshot == (snapshot is Some),
        watermark == (match snapshot {
            Some(s) => s.index,
            None => 0,
        }),
        watermark < u64::MAX,
        commit == hard_state.commit,
        last_kept == replay::last_of(replay::retained(types::entry_models(entries@), watermark), watermark),
    ensures
        r == wal_model::log_fault(meta@, snapshot, types::entry_models(entries@), hard_state),
        r is None ==> replay::contiguous(types::entry_models(entries@)),
{
    let ghost es = types::entry_models(entries@);
    if meta.snapshot_index != 0 && !has_snapshot {
        let first: u64 = if entries.len() == 0 {
            1
        } else {
            entries[0].index
        };
        assert(first == wal_model::first_of(es));
        if first != 1 {
            return Some(Fault::SnapshotMissing { snapshot_index: meta.snapshot_index, first });
        }
    }
    match verify_continuity(entries) {
        Err(fault) => {
            return Some(fault);
        },
        Ok(()) => {},
    }
    if entries.len() > 0 && entries[0].index > watermark + 1 {
        return Some(Fault::SnapshotGap { compacted_to: watermark, first: entries[0].index });
    }
    if commit > last_kept {
        return Some(Fault::CommitBeyondLog { commit, last: last_kept });
    }
    None
}

impl WalStorage {
    /// Open the log that the files of a directory hold, or a new one where
    /// there are none.
    ///
    /// The file operations are to be performed whether or not the log opens.
    pub fn open(dir: &DataDir, opts: &WalOptions) -> (r: (
        Vec<DiskOp>,
        Result<WalStorage, StorageError>,
    ))
        requires
            meta::id_fits(opts.cluster_id@),
            meta::id_fits(opts.node_id@),
        ensures
            op_models(r.0@) == wal_model::opened(opts@, dir@).0,
            match wal_model::opened(opts@, dir@).1 {
                Ok(m) => r.1 matches Ok(w) && w@ == m && m.wf(),
                Err(fault) => r.1 matches Err(e) && e == StorageError::Unrecoverable(fault),
            },
    {
        let mut ops: Vec<DiskOp> = Vec::new();
        assert(op_models(ops@) =~= Seq::empty());
        let (meta, fresh) = match recover_meta(opts, &dir.meta) {
            Err(fault) => {
                return (ops, Err(StorageError::Unrecoverable(fault)));
            },
            Ok(v) => v,
        };
        if fresh {
            push_op(&mut ops, DiskOp::SaveMeta { bytes: encode_meta(&meta) });
            assert(op_models(ops@) =~= seq![OpModel::SaveMeta(meta::meta_bytes(meta@))]);
        }
        let ghost meta_ops = op_models(ops@);
        let snapshot = load_snapshot(&dir.snapshots, meta.snapshot_index);
        let ghost snapshot_model = wal_model::loaded_snapshot(dir@.snapshots, meta@.snapshot_index);
        let watermark: u64 = match &snapshot {
            Some(s) => s.meta.index,
            None => 0,
        };
        if watermark == u64::MAX {
            return (
                ops,
                Err(
                    StorageError::Unrecoverable(
                        Fault::SnapshotIndexExhausted { index: watermark },
                    ),
                ),
            );
        }
        let log = match recover_wal(&dir.segments, watermark) {
            Err(fault) => {
                return (ops, Err(StorageError::Unrecoverable(fault)));
            },
            Ok(v) => v,
        };
        let ghost records = replay::recovered(dir@.segments, watermark).unwrap().0;
        let ghost es = replay::entries_of(records);
        let ghost cut = log.truncate;
        match log.truncate {
            Some((first_index, len)) => {
                push_op(&mut ops, DiskOp::CutSegment { first_index, len });
                assert(op_models(ops@) =~= meta_ops + seq![OpModel::Cut(first_index, len)]);
            },
            None => {
                assert(op_models(ops@) =~= meta_ops + Seq::<OpModel>::empty());
            },
        }
        let ghost cut_ops = op_models(ops@);
        let hard_state = log.hard_state;
        let truncate = log.truncate;
        let all = log.entries;
        let kept = retain_above(&all, watermark);
        let ghost kept_models = replay::retained(es, watermark);
        let last_kept: u64 = if kept.len() == 0 {
            watermark
        } else {
            kept[kept.len() - 1].index
        };
        assert(last_kept == replay::last_of(kept_models, watermark)) by {
            assert(types::entry_models(kept@).len() == kept@.len());
        }
        match check_log(
            &meta,
            snapshot.is_some(),
            watermark,
            &all,
            last_kept,
            hard_state.commit,
            Ghost(snapshot_model),
            Ghost(hard_state),
        ) {
            Some(fault) => {
                return (ops, Err(StorageError::Unrecoverable(fault)));
            },
            None => {},
        }
        let is_new = dir.segments.len() == 0;
        let (first_index, size): (u64, u64) = if is_new {
            (1, 0)
        } else {
            let last = &dir.segments[dir.segments.len() - 1];
            let size: u64 = match truncate {
                Some((_, len)) => len,
                None => last.bytes.len() as u64,
            };
            (last.first_index, size)
        };
        if is_new {
            push_op(&mut ops, DiskOp::CreateSegment { first_index });
            push_op(&mut ops, DiskOp::SyncDir);
            assert(op_models(ops@) =~= cut_ops + seq![
                OpModel::Create(first_index),
                OpModel::SyncDir,
            ]);
        } else {
            assert(op_models(ops@) =~= cut_ops + Seq::<OpModel>::empty());
        }
        let max_entry_in_segment: u64 = if kept.len() == 0 {
            0
        } else {
            kept[kept.len() - 1].index
        };
        assert(max_entry_in_segment == replay::last_of(kept_models, 0)) by {
            assert(types::entry_models(kept@).len() == kept@.len());
        }
        let mut stats = StorageStats::default();
        stats.dir_fsyncs = (if fresh {
            1u64
        } else {
            0u64
        }) + (if is_new {
            1u64
        } else {
            0u64
        });
        stats.wal_truncated_records = if truncate.is_some() {
            1
        } else {
            0
        };
        proof {
            replay::lemma_retained_suffix(es, watermark);
            assert(dir@.segments.len() == dir.segments@.len());
        }
        let w = WalStorage {
            segment: Segment::open_with_max_bytes(first_index, size, opts.config.segment_bytes),
            max_entry_in_segment,
            entries: kept,
            compacted_to: watermark,
            snapshot,
            meta,
            hard_state,
            pending_entry_fsync: false,
            fsync_policy: opts.config.fsync_policy,
            stats,
        };
        assert(w@ == wal_model::opened(opts@, dir@).1.unwrap());
        (ops, Ok(w))
    }
}

/// The total data size of entries.
pub open spec fn data_total(es: Seq<EntryModel>) -> nat
    decreases es.len(),
{
    if es.len() == 0 {
        0
    } else {
        data_total(es.drop_last()) + es.last().data.len()
    }
}

/// Whether `n` is the length of the longest prefix whose data fits `limit`.
pub open spec fn longest_fitting(es: Seq<EntryModel>, limit: u64, n: int) -> bool {
    &&& 0 <= n <= es.len()
    &&& data_total(es.subrange(0, n)) <= limit
    &&& n < es.len() ==> data_total(es.subrange(0, n + 1)) > limit
}

// ---------------------------------------------------------------------------
// Reading
// ---------------------------------------------------------------------------
impl WalStorage {
    /// The sync and recovery counters.
    pub fn stats(&self) -> (r: StorageStats)
        ensures
            r == self@.stats,
    {
        self.stats
    }

    /// The hard state.
    pub fn hard_state(&self) -> (r: HardState)
        ensures
            r == self@.hard_state,
    {
        self.hard_state
    }

    /// The hard state, and the membership of the snapshot if there is one.
    pub fn initial_state(&self) -> (r: RaftState)
        ensures
            r.hard_state == self@.hard_state,
            match self@.snapshot {
                Some(s) => r.conf_state@ == s.conf,
                None => r.conf_state@ == types::empty_conf(),
            },
    {
        let conf_state = match &self.snapshot {
            Some(s) => s.meta.conf_state.clone(),
            None => ConfState::default(),
        };
        RaftState { hard_state: self.hard_state, conf_state }
    }

    /// The index of the first entry that the log can hold.
    pub fn first_index(&self) -> (r: LogIndex)
        requires
            self@.wf(),
        ensures
            r == self@.compacted_to + 1,
    {
        self.compacted_to + 1
    }

    /// The index of the last entry, or the watermark where there is none.
    pub fn last_index(&self) -> (r: LogIndex)
        ensures
            r == self@.last(),
    {
        assert(self@.entries.len() == self.entries@.len());
        if self.entries.len() == 0 {
            self.compacted_to
        } else {
            self.entries[self.entries.len() - 1].index
        }
    }

    /// The durable snapshot.
    pub fn snapshot(&self) -> (r: Option<Snapshot>)
        ensures
            match r {
                Some(s) => self@.snapshot == Some(s@),
                None => self@.snapshot is None,
            },
    {
        match &self.snapshot {
            Some(s) => Some(s.clone()),
            None => None,
        }
    }

    /// The entries from `low` up to (not including) `high`, cut to the longest
    /// prefix whose data fits `max_size` bytes.
    ///
    /// [`StorageError::Compacted`] if the log does not hold all of them.
    pub fn entries(&self, low: LogIndex, high: LogIndex, max_size: Option<u64>) -> (r: Result<
        Vec<LogEntry>,
        StorageError,
    >)
        requires
            self@.wf(),
        ensures
            if low >= high {
                r matches Ok(v) && v@.len() == 0
            } else if low <= self@.compacted_to || high > self@.last() + 1 {
                r matches Err(e) && e == StorageError::Compacted
            } else {
                let wanted = self@.entries.subrange(
                    low - self@.compacted_to - 1,
                    high - self@.compacted_to - 1,
                );
                r matches Ok(v) && match max_size {
                    None => types::entry_models(v@) == wanted,
                    Some(limit) => longest_fitting(wanted, limit, v@.len() as int)
                        && types::entry_models(v@) == wanted.subrange(0, v@.len() as int),
                }
            },
    {
        let mut out: Vec<LogEntry> = Vec::new();
        if low >= high {
            return Ok(out);
        }
        let first: u64 = self.compacted_to + 1;
        let last: u64 = self.last_index();
        if low < first || high - 1 > last {
            return Err(StorageError::Compacted);
        }
        let ghost es = self@.entries;
        assert(es.len() == self.entries@.len());
        proof {
            if es.len() > 0 {
                assert(es[es.len() - 1].index == self.compacted_to + 1 + (es.len() - 1));
            }
        }
        let n: usize = self.entries.len();
        assert(high - first <= n);
        let start: usize = (low - first) as usize;
        let end: usize = (high - first) as usize;
        let ghost wanted = es.subrange(start as int, end as int);
        let mut size: u64 = 0;
        let mut i: usize = start;
        assert(types::entry_models(out@) =~= wanted.subrange(0, 0));
        while i < end
            invariant
                start <= i <= end,
                end <= self.entries@.len(),
                es == types::entry_models(self.entries@),
                wanted == es.subrange(start as int, end as int),
                out@.len() == i - start,
                types::entry_models(out@) == wanted.subrange(0, i - start),
                max_size matches Some(limit) ==> size == data_total(wanted.subrange(0, i - start))
                    && size <= limit,
            ensures
                types::entry_models(out@) == wanted.subrange(0, out@.len() as int),
                out@.len() <= wanted.len(),
                match max_size {
                    None => out@.len() == wanted.len(),
                    Some(limit) => longest_fitting(wanted, limit, out@.len() as int),
                },
            decreases end - i,
        {
            proof {
                let next = wanted.subrange(0, i - start + 1);
                assert(next.drop_last() =~= wanted.subrange(0, i - start));
                assert(next.last() == self.entries@[i as int]@);
            }
            match max_size {
                Some(limit) => {
                    let add: u64 = self.entries[i].data.len() as u64;
                    if add > limit - size {
                        break ;
                    }
                    size = size + add;
                },
                None => {},
            }
            let entry = self.entries[i].clone();
            let ghost was = types::entry_models(out@);
            out.push(entry);
            assert(types::entry_models(out@) =~= was.push(entry@));
            assert(types::entry_models(out@) =~= wanted.subrange(0, i - start + 1));
            i = i + 1;
        }
        assert(wanted.subrange(0, wanted.len() as int) =~= wanted);
        Ok(out)
    }

    /// The term of the entry at `index`, or of the snapshot there.
    ///
    /// [`StorageError::Compacted`] if neither is known.
    pub fn term(&self, index: LogIndex) -> (r: Result<Term, StorageError>)
        requires
            self@.wf(),
        ensures
            if self@.compacted_to < index <= self@.last() {
                r matches Ok(t) && t == self@.entries[index - self@.compacted_to - 1].term
            } else if index <= self@.compacted_to && (self@.snapshot matches Some(s) && s.index
                == index) {
                r matches Ok(t) && t == self@.snapshot->0.term
            } else {
                r matches Err(e) && e == StorageError::Compacted
            },
    {
        let first: u64 = self.compacted_to + 1;
        if index < first {
            match &self.snapshot {
                Some(s) => {
                    if index == s.meta.index {
                        return Ok(s.meta.term);
                    }
                },
                None => {},
            }
            return Err(StorageError::Compacted);
        }
        let last: u64 = self.last_index();
        if index > last {
            return Err(StorageError::Compacted);
        }
        let ghost es = self@.entries;
        assert(es.len() == self.entries@.len());
        proof {
            if es.len() > 0 {
                assert(es[es.len() - 1].index == self.compacted_to + 1 + (es.len() - 1));
            }
        }
        let n: usize = self.entries.len();
        assert(index - first < n);
        let at: usize = (index - first) as usize;
        assert(es[at as int].term == self.entries@[at as int].term);
        Ok(self.entries[at].term)
    }

    /// The bytes that the segment files occupy, given their sizes.
    pub fn log_bytes(sizes: &Vec<u64>) -> (total: u64)
        ensures
            total == capped_total(sizes@),
    {
        let mut total: u64 = 0;
        let mut i: usize = 0;
        while i < sizes.len()
            invariant
                i <= sizes@.len(),
                total == capped_total(sizes@.subrange(0, i as int)),
            decreases sizes@.len() - i,
        {
            proof {
                let next = sizes@.subrange(0, i + 1);
                assert(next.drop_last() =~= sizes@.subrange(0, i as int));
            }
            total = total.saturating_add(sizes[i]);
            i = i + 1;
        }
        assert(sizes@.subrange(0, sizes@.len() as int) =~= sizes@);
        total
    }
}

/// The sum of sizes, capped at the largest `u64`.
pub open spec fn capped_total(sizes: Seq<u64>) -> u64
    decreases sizes.len(),
{
    if sizes.len() == 0 {
        0
    } else {
        segment::capped_sum(capped_total(sizes.drop_last()) as int, sizes.last() as int)
    }
}

// ---------------------------------------------------------------------------
// Writing
// ---------------------------------------------------------------------------
fn remove_above(segments: &Vec<SegmentFile>, first: u64, ops: &mut Vec<DiskOp>)
    ensures
        op_models(final(ops)@) == op_models(old(ops)@) + wal_model::removals_above(
            replay::segment_models(segments@),
            0,
            first,
        ),
{
    let ghost models = replay::segment_models(segments@);
    let ghost start = op_models(ops@);
    let mut i: usize = 0;
    assert(op_models(ops@) + wal_model::removals_above(models, 0, first) =~= start + wal_model::removals_above(
        models,
        0,
        first,
    ));
    while i < segments.len()
        invariant
            i <= segments@.len(),
            models == replay::segment_models(segments@),
            op_models(ops@) + wal_model::removals_above(models, i as int, first) == start + wal_model::removals_above(
                models,
                0,
                first,
            ),
        decreases segments@.len() - i,
    {
        let ghost before = op_models(ops@);
        let ghost rest = wal_model::removals_above(models, i + 1, first);
        let name: u64 = segments[i].first_index;
        assert(models[i as int].0 == name);
        if name > first {
            push_op(ops, DiskOp::RemoveSegment { first_index: name });
            assert(before + (seq![OpModel::Remove(name)] + rest) =~= op_models(ops@) + rest);
        } else {
            assert(before + (Seq::<OpModel>::empty() + rest) =~= op_models(ops@) + rest);
        }
        i = i + 1;
    }
    assert(op_models(ops@) + Seq::<OpModel>::empty() =~= op_models(ops@));
}

fn remove_but(segments: &Vec<SegmentFile>, first: u64, ops: &mut Vec<DiskOp>)
    ensures
        op_models(final(ops)@) == op_models(old(ops)@) + wal_model::removals_but(
            replay::segment_models(segments@),
            0,
            first,
        ),
{
    let ghost models = replay::segment_models(segments@);
    let ghost start = op_models(ops@);
    let ghost goal = start + wal_model::removals_but(models, 0, first);
    let mut i: usize = 0;
    while i < segments.len()
        invariant
            i <= segments@.len(),
            models == replay::segment_models(segments@),
            op_models(ops@) + wal_model::removals_but(models, i as int, first) == goal,
        decreases segments@.len() - i,
    {
        let ghost before = op_models(ops@);
        let ghost rest = wal_model::removals_but(models, i + 1, first);
        let name: u64 = segments[i].first_index;
        assert(models[i as int].0 == name);
        if name != first {
            push_op(ops, DiskOp::RemoveSegment { first_index: name });
            assert(before + (seq![OpModel::Remove(name)] + rest) =~= op_models(ops@) + rest);
        } else {
            assert(before + (Seq::<OpModel>::empty() + rest) =~= op_models(ops@) + rest);
        }
        i = i + 1;
    }
    assert(op_models(ops@) + Seq::<OpModel>::empty() =~= op_models(ops@));
}

/// The removals of the segments wholly below `keep_from`.
fn delete_segments_below(segments: &Vec<SegmentFile>, keep_from: u64, active: u64) -> (ops: Vec<
    DiskOp,
>)
    ensures
        op_models(ops@) == wal_model::removals_below(
            replay::segment_models(segments@),
            0,
            keep_from as int,
            active,
        ),
{
    let ghost models = replay::segment_models(segments@);
    let mut ops: Vec<DiskOp> = Vec::new();
    let mut i: usize = 0;
    let ghost goal = wal_model::removals_below(models, 0, keep_from as int, active);
    assert(op_models(ops@) + goal =~= goal);
    let n: usize = segments.len();
    while n > 1 && i < n - 1
        invariant
            i <= n,
            n == segments@.len(),
            models == replay::segment_models(segments@),
            goal == wal_model::removals_below(models, 0, keep_from as int, active),
            op_models(ops@) + wal_model::removals_below(models, i as int, keep_from as int, active) == goal,
        decreases segments@.len() - i,
    {
        let ghost before = op_models(ops@);
        let ghost rest = wal_model::removals_below(models, i + 1, keep_from as int, active);
        let this: u64 = segments[i].first_index;
        let next: u64 = segments[i + 1].first_index;
        assert(models[i as int].0 == this && models[i + 1].0 == next);
        if next <= keep_from && this != active {
            push_op(&mut ops, DiskOp::RemoveSegment { first_index: this });
            assert(before + (seq![OpModel::Remove(this)] + rest) =~= op_models(ops@) + rest);
        } else {
            assert(before + (Seq::<OpModel>::empty() + rest) =~= op_models(ops@) + rest);
        }
        i = i + 1;
    }
    assert(op_models(ops@) + Seq::<OpModel>::empty() =~= op_models(ops@));
    ops
}

fn count_newer(names: &Vec<(u64, u64)>, i: usize) -> (n: usize)
    requires
        i < names@.len(),
    ensures
        n == wal_model::newer_names(names@, i as int, names@.len() as int),
{
    let mut n: usize = 0;
    let mut k: usize = 0;
    while k < names.len()
        invariant
            k <= names@.len(),
            i < names@.len(),
            n <= k,
            n == wal_model::newer_names(names@, i as int, k as int),
        decreases names@.len() - k,
    {
        if names[k].0 > names[i].0 || (names[k].0 == names[i].0 && k < i) {
            n = n + 1;
        }
        k = k + 1;
    }
    n
}

/// The file operations that leave only the newest snapshot files.
fn prune_snapshots(names: &Vec<(u64, u64)>) -> (ops: Vec<DiskOp>)
    ensures
        op_models(ops@) == wal_model::pruned(names@),
{
    let mut ops: Vec<DiskOp> = Vec::new();
    let ghost goal = wal_model::prunings(names@, 0);
    let mut i: usize = 0;
    assert(op_models(ops@) + goal =~= goal);
    while i < names.len()
        invariant
            i <= names@.len(),
            goal == wal_model::prunings(names@, 0),
            op_models(ops@) + wal_model::prunings(names@, i as int) == goal,
        decreases names@.len() - i,
    {
        let ghost before = op_models(ops@);
        let ghost rest = wal_model::prunings(names@, i + 1);
        if count_newer(names, i) >= SNAPSHOT_RETENTION {
            let (index, term) = names[i];
            push_op(&mut ops, DiskOp::RemoveSnapshot { index, term });
            assert(before + (seq![OpModel::RemoveSnapshot(index, term)] + rest) =~= op_models(ops@)
                + rest);
        } else {
            assert(before + (Seq::<OpModel>::empty() + rest) =~= op_models(ops@) + rest);
        }
        i = i + 1;
    }
    assert(op_models(ops@) + Seq::<OpModel>::empty() =~= op_models(ops@));
    assert(op_models(ops@).len() == ops@.len());
    if ops.len() > 0 {
        push_op(&mut ops, DiskOp::SyncDir);
    } else {
        assert(op_models(ops@) =~= Seq::empty());
    }
    ops
}

fn copy_names(names: &Vec<(u64, u64)>, index: u64, term: u64) -> (r: Vec<(u64, u64)>)
    ensures
        r@ == wal_model::with_name(names@, index, term),
{
    let mut r: Vec<(u64, u64)> = Vec::new();
    let mut found = false;
    let mut i: usize = 0;
    while i < names.len()
        invariant
            i <= names@.len(),
            r@ == names@.subrange(0, i as int),
            found == names@.subrange(0, i as int).contains((index, term)),
        decreases names@.len() - i,
    {
        let ghost head = names@.subrange(0, i as int);
        let ghost next = names@.subrange(0, i + 1);
        let name = names[i];
        if name.0 == index && name.1 == term {
            found = true;
            assert(next[i as int] == (index, term));
        }
        r.push(name);
        proof {
            assert(next =~= head.push(name));
            if next.contains((index, term)) && name != (index, term) {
                let k = choose|k: int| 0 <= k < next.len() && next[k] == (index, term);
                assert(head[k] == (index, term));
            }
            if head.contains((index, term)) {
                let k = choose|k: int| 0 <= k < head.len() && head[k] == (index, term);
                assert(next[k] == (index, term));
            }
        }
        i = i + 1;
    }
    assert(names@.subrange(0, names@.len() as int) =~= names@);
    if !found {
        r.push((index, term));
    }
    r
}

proof fn lemma_image_payload(e: EntryModel)
    ensures
        replay::entry_payload(e).len() == 17 + e.data.len(),
{
    crate::bytes::lemma_u64_bytes(e.index);
    crate::bytes::lemma_u64_bytes(e.term);
}

impl WalStorage {
    /// Roll over to a new segment if the current one is full.
    fn maybe_rollover(&mut self, next_entry_index: LogIndex, ops: &mut Vec<DiskOp>)
        ensures
            final(self)@ == wal_model::rolled_model(old(self)@, next_entry_index),
            op_models(final(ops)@) == op_models(old(ops)@) + wal_model::rolled_ops(
                old(self)@,
                next_entry_index,
            ),
    {
        let ghost start = op_models(ops@);
        if self.segment.should_rollover() {
            let first_index: u64 = self.segment.first_index;
            if self.pending_entry_fsync {
                push_op(ops, DiskOp::SyncSegment { first_index });
                push_op(
                    ops,
                    DiskOp::NotifySynced { first_index, max_entry: self.max_entry_in_segment },
                );
                self.stats.entry_fsyncs = self.stats.entry_fsyncs.saturating_add(1);
                self.pending_entry_fsync = false;
            }
            push_op(ops, DiskOp::CreateSegment { first_index: next_entry_index });
            push_op(ops, DiskOp::SyncDir);
            self.stats.dir_fsyncs = self.stats.dir_fsyncs.saturating_add(1);
            let size: u64 = if first_index == next_entry_index {
                self.segment.size()
            } else {
                0
            };
            self.segment = Segment::open_with_max_bytes(
                next_entry_index,
                size,
                self.segment.max_bytes,
            );
            self.max_entry_in_segment = 0;
        }
        assert(op_models(ops@) =~= start + wal_model::rolled_ops(old(self)@, next_entry_index));
        assert(self@ =~= wal_model::rolled_model(old(self)@, next_entry_index));
    }

    /// The bytes of a record of the hard state.
    fn hard_state_record(&self) -> (bytes: Vec<u8>)
        ensures
            bytes@ == wal_model::hard_image(self@.hard_state),
            bytes@.len() == 34,
    {
        let hs = self.hard_state;
        let payload = encode_hard_state(hs.term, hs.vote, hs.commit);
        proof {
            crate::bytes::lemma_u64_bytes(hs.term);
            crate::bytes::lemma_u64_bytes(hs.commit);
            crate::bytes::lemma_u64_bytes(0);
            if let Some(v) = hs.vote {
                crate::bytes::lemma_u64_bytes(v);
            }
            wal_laws::lemma_image_len(LogRecord::Hard(hs));
        }
        encode_record(RecordType::HardState, &payload)
    }

    /// Cut the log after `keep`, given the contents of the segments. Returns
    /// how many entries were discarded.
    fn truncate_log_to(
        &mut self,
        keep: LogIndex,
        segments: &Vec<SegmentFile>,
        ops: &mut Vec<DiskOp>,
    ) -> (r: Result<u64, Fault>)
        requires
            old(self)@.wf(),
            old(self)@.compacted_to <= keep,
        ensures
            final(self)@ == wal_model::truncated(old(self)@, replay::segment_models(segments@), keep).model,
            op_models(final(ops)@) == op_models(old(ops)@) + wal_model::truncated(
                old(self)@,
                replay::segment_models(segments@),
                keep,
            ).ops,
            match wal_model::truncated(old(self)@, replay::segment_models(segments@), keep).fault {
                Some(fault) => r matches Err(f) && f == fault,
                None => r matches Ok(n) && n == old(self)@.entries.len()
                    - final(self)@.entries.len(),
            },
            final(self)@.wf(),
    {
        let ghost m = self@;
        let ghost models = replay::segment_models(segments@);
        let ghost start = op_models(ops@);
        let last: u64 = self.last_index();
        assert(m.entries.len() == self.entries@.len());
        if last <= keep {
            assert(op_models(ops@) =~= start + Seq::<OpModel>::empty());
            return Ok(0);
        }
        proof {
            assert(m.entries[m.entries.len() - 1].index == m.compacted_to + 1 + (m.entries.len()
                - 1));
        }
        let max_bytes: u64 = self.segment.max_bytes;
        match find_entry_end(segments, keep) {
            Some((i, end)) => {
                let first_index: u64 = segments[i].first_index;
                assert(models[i as int] == (first_index, segments@[i as int].bytes@));
                let held = &segments[i].bytes;
                assert(end <= held.len());
                let mut bytes = copy_range(held, 0, end as usize);
                let mut image = self.hard_state_record();
                assert(bytes@ == models[i as int].1.subrange(0, end as int));
                assert(image@ == wal_model::hard_image(m.hard_state));
                let size: u64 = end.saturating_add(image.len() as u64);
                bytes.append(&mut image);
                assert(bytes@ =~= models[i as int].1.subrange(0, end as int)
                    + wal_model::hard_image(m.hard_state));
                push_op(ops, DiskOp::ReplaceSegment { first_index, bytes });
                remove_above(segments, first_index, ops);
                push_op(ops, DiskOp::SyncDir);
                assert(op_models(ops@) =~= start + wal_model::truncated(m, models, keep).ops);
                self.segment = Segment::open_with_max_bytes(first_index, size, max_bytes);
                self.max_entry_in_segment = keep;
            },
            None => {
                if keep != self.compacted_to {
                    assert(op_models(ops@) =~= start + Seq::<OpModel>::empty());
                    return Err(Fault::EntryMissing { index: keep });
                }
                let bytes = self.hard_state_record();
                let size: u64 = bytes.len() as u64;
                push_op(ops, DiskOp::ReplaceSegment { first_index: 1, bytes });
                remove_but(segments, 1, ops);
                push_op(ops, DiskOp::SyncDir);
                assert(op_models(ops@) =~= start + wal_model::truncated(m, models, keep).ops);
                self.segment = Segment::open_with_max_bytes(1, size, max_bytes);
                self.max_entry_in_segment = 0;
            },
        }
        let kept: usize = (keep - self.compacted_to) as usize;
        let discarded: u64 = last - keep;
        self.entries.truncate(kept);
        self.pending_entry_fsync = false;
        proof {
            assert(self@.entries =~= m.entries.subrange(0, kept as int));
            assert(self@ =~= wal_model::truncated(m, models, keep).model);
        }
        Ok(discarded)
    }

    /// Write one entry that follows the log.
    fn append_one(&mut self, entry: &LogEntry, ops: &mut Vec<DiskOp>)
        requires
            old(self)@.wf(),
            wal_model::append_fault(old(self)@.last(), entry@) is None,
        ensures
            final(self)@ == wal_model::appended_model(old(self)@, entry@),
            op_models(final(ops)@) == op_models(old(ops)@) + wal_model::appended_ops(old(self)@, entry@),
            final(self)@.wf(),
            final(self)@.last() == entry.index,
    {
        let ghost m = self@;
        let ghost start = op_models(ops@);
        proof {
            lemma_image_payload(entry@);
            if m.entries.len() > 0 {
                assert(m.entries[m.entries.len() - 1].index == m.compacted_to + 1 + (
                m.entries.len() - 1));
            }
        }
        let payload = encode_entry(
            entry.index,
            entry.term,
            entry_type_to_u8(entry.entry_type),
            &entry.data,
        );
        self.maybe_rollover(entry.index, ops);
        let bytes = self.segment.append_record(RecordType::Entry, &payload);
        let first_index: u64 = self.segment.first_index;
        push_op(ops, DiskOp::WriteSegment { first_index, bytes });
        self.entries.push(entry.clone());
        self.max_entry_in_segment = entry.index;
        self.pending_entry_fsync = true;
        proof {
            assert(self@.entries =~= m.entries.push(entry@));
            assert(op_models(ops@) =~= start + wal_model::appended_ops(m, entry@));
            assert(self@ =~= wal_model::appended_model(m, entry@));
        }
    }

    /// Append entries, overwriting a conflicting suffix.
    ///
    /// `segments` are the contents of the segment files, in ascending order;
    /// they are read only where the first entry is not beyond the log's end
    /// ([`WalStorage::overwrites`]). On a fault the entries before the one it
    /// names have been appended.
    pub fn append(&mut self, entries: &Vec<LogEntry>, segments: &Vec<SegmentFile>) -> (r: (
        Vec<DiskOp>,
        Result<(), StorageError>,
    ))
        requires
            old(self)@.wf(),
        ensures
            final(self)@ == wal_model::appended(
                old(self)@,
                types::entry_models(entries@),
                replay::segment_models(segments@),
            ).model,
            op_models(r.0@) == wal_model::appended(
                old(self)@,
                types::entry_models(entries@),
                replay::segment_models(segments@),
            ).ops,
            match wal_model::appended(old(self)@, types::entry_models(entries@), replay::segment_models(segments@)).fault {
                Some(fault) => r.1 matches Err(e) && e == StorageError::Unrecoverable(fault),
                None => r.1 is Ok,
            },
            final(self)@.wf(),
    {
        let ghost m = self@;
        let ghost es = types::entry_models(entries@);
        let ghost models = replay::segment_models(segments@);
        let mut ops: Vec<DiskOp> = Vec::new();
        assert(op_models(ops@) =~= Seq::empty());
        if entries.len() > 0 {
            assert(es[0] == entries@[0]@);
            let first: u64 = entries[0].index;
            if first <= self.last_index() {
                if first <= self.compacted_to {
                    return (
                        ops,
                        Err(
                            StorageError::Unrecoverable(
                                Fault::AppendCompacted {
                                    index: first,
                                    compacted_to: self.compacted_to,
                                },
                            ),
                        ),
                    );
                }
                if first <= self.hard_state.commit {
                    return (
                        ops,
                        Err(
                            StorageError::Unrecoverable(
                                Fault::AppendCommitted {
                                    index: first,
                                    commit: self.hard_state.commit,
                                },
                            ),
                        ),
                    );
                }
                match self.truncate_log_to(first - 1, segments, &mut ops) {
                    Err(fault) => {
                        assert(op_models(ops@) =~= wal_model::truncated(m, models, (first - 1) as u64).ops);
                        return (ops, Err(StorageError::Unrecoverable(fault)));
                    },
                    Ok(_) => {},
                }
            }
        }
        let ghost cut_ops = op_models(ops@);
        let ghost base = self@;
        let ghost goal = wal_model::appended_all(base, es);
        proof {
            assert(es.subrange(0, es.len() as int) =~= es);
            if es.len() > 0 && es[0].index <= m.last() {
                assert(cut_ops =~= wal_model::truncated(m, models, (es[0].index - 1) as u64).ops);
            } else {
                assert(cut_ops =~= Seq::empty());
                assert(Seq::<OpModel>::empty() + goal.ops =~= goal.ops);
            }
            assert(cut_ops + goal.ops =~= wal_model::appended(m, es, models).ops);
        }
        let mut i: usize = 0;
        while i < entries.len()
            invariant
                i <= entries@.len(),
                es == types::entry_models(entries@),
                self@.wf(),
                goal == wal_model::appended_all(base, es),
                ({
                    let rest = wal_model::appended_all(self@, es.subrange(i as int, es.len() as int));
                    &&& goal.model == rest.model
                    &&& goal.fault == rest.fault
                    &&& cut_ops + goal.ops == op_models(ops@) + rest.ops
                }),
                m == old(self)@,
                models == replay::segment_models(segments@),
                cut_ops + goal.ops == wal_model::appended(m, es, models).ops,
                goal.model == wal_model::appended(m, es, models).model,
                goal.fault == wal_model::appended(m, es, models).fault,
            decreases entries@.len() - i,
        {
            let ghost left = es.subrange(i as int, es.len() as int);
            let ghost was = self@;
            assert(left[0] == entries@[i as int]@);
            assert(left.drop_first() =~= es.subrange(i + 1, es.len() as int));
            let entry = &entries[i];
            let last: u64 = self.last_index();
            if last == u64::MAX || entry.index != last + 1 {
                assert(op_models(ops@) + Seq::<OpModel>::empty() =~= op_models(ops@));
                return (
                    ops,
                    Err(
                        StorageError::Unrecoverable(
                            Fault::AppendGap { last, found: entry.index },
                        ),
                    ),
                );
            }
            let len: u64 = entry.data.len() as u64;
            if len > (MAX_RECORD_BYTES - 26) as u64 {
                assert(op_models(ops@) + Seq::<OpModel>::empty() =~= op_models(ops@));
                return (
                    ops,
                    Err(
                        StorageError::Unrecoverable(
                            Fault::RecordTooLarge {
                                index: entry.index,
                                size: len.saturating_add(26),
                            },
                        ),
                    ),
                );
            }
            let ghost ops_before = op_models(ops@);
            self.append_one(entry, &mut ops);
            proof {
                let rest = wal_model::appended_all(self@, left.drop_first());
                assert(ops_before + (wal_model::appended_ops(was, left[0]) + rest.ops) =~= op_models(ops@)
                    + rest.ops);
            }
            i = i + 1;
        }
        assert(op_models(ops@) + Seq::<OpModel>::empty() =~= op_models(ops@));
        (ops, Ok(()))
    }

    /// Whether appending these entries overwrites some that are there.
    pub fn overwrites(&self, entries: &Vec<LogEntry>) -> (b: bool)
        ensures
            b == (entries@.len() > 0 && entries@[0].index <= self@.last()),
    {
        entries.len() > 0 && entries[0].index <= self.last_index()
    }

    /// Record a hard state. It is written and synced, whatever the policy.
    pub fn set_hard_state(&mut self, hs: HardState) -> (ops: Vec<DiskOp>)
        requires
            old(self)@.wf(),
        ensures
            final(self)@ == wal_model::hard_state_set(old(self)@, hs).model,
            op_models(ops@) == wal_model::hard_state_set(old(self)@, hs).ops,
            final(self)@.wf(),
    {
        let ghost m = self@;
        let mut ops: Vec<DiskOp> = Vec::new();
        let payload = encode_hard_state(hs.term, hs.vote, hs.commit);
        proof {
            crate::bytes::lemma_u64_bytes(hs.term);
            crate::bytes::lemma_u64_bytes(hs.commit);
            crate::bytes::lemma_u64_bytes(0);
            if let Some(v) = hs.vote {
                crate::bytes::lemma_u64_bytes(v);
            }
        }
        let bytes = self.segment.append_record(RecordType::HardState, &payload);
        let first_index: u64 = self.segment.first_index;
        push_op(&mut ops, DiskOp::WriteSegment { first_index, bytes });
        push_op(&mut ops, DiskOp::SyncSegment { first_index });
        push_op(
            &mut ops,
            DiskOp::NotifySynced { first_index, max_entry: self.max_entry_in_segment },
        );
        self.stats.hard_state_fsyncs = self.stats.hard_state_fsyncs.saturating_add(1);
        self.hard_state = hs;
        proof {
            assert(op_models(ops@) =~= wal_model::hard_state_set(m, hs).ops);
            assert(self@ =~= wal_model::hard_state_set(m, hs).model);
        }
        ops
    }

    /// Sync the appended entries as the policy asks.
    pub fn sync_entries(&mut self) -> (ops: Vec<DiskOp>)
        requires
            old(self)@.wf(),
        ensures
            final(self)@ == wal_model::entries_synced(old(self)@).model,
            op_models(ops@) == wal_model::entries_synced(old(self)@).ops,
            final(self)@.wf(),
    {
        let ghost m = self@;
        let mut ops: Vec<DiskOp> = Vec::new();
        let due = match self.fsync_policy {
            FsyncPolicy::Always => true,
            FsyncPolicy::BatchMs(_) => self.pending_entry_fsync,
        };
        if due {
            let first_index: u64 = self.segment.first_index;
            push_op(&mut ops, DiskOp::SyncSegment { first_index });
            push_op(
                &mut ops,
                DiskOp::NotifySynced { first_index, max_entry: self.max_entry_in_segment },
            );
            self.stats.entry_fsyncs = self.stats.entry_fsyncs.saturating_add(1);
            self.stats.entry_sync_batches = self.stats.entry_sync_batches.saturating_add(1);
            self.pending_entry_fsync = false;
        }
        proof {
            assert(op_models(ops@) =~= wal_model::entries_synced(m).ops);
            assert(self@ =~= wal_model::entries_synced(m).model);
        }
        ops
    }

    /// Make a snapshot durable and point META at it. A snapshot that is not
    /// newer than the one there is changes nothing.
    ///
    /// `names` are the index and term of the snapshot files there are.
    pub fn save_snapshot(&mut self, snapshot: &Snapshot, names: &Vec<(u64, u64)>) -> (ops: Vec<
        DiskOp,
    >)
        requires
            old(self)@.wf(),
            snapshot::snapshot_fits(snapshot@),
        ensures
            final(self)@ == wal_model::snapshot_saved(old(self)@, snapshot@, names@).model,
            op_models(ops@) == wal_model::snapshot_saved(old(self)@, snapshot@, names@).ops,
            final(self)@.wf(),
    {
        let ghost m = self@;
        let mut ops: Vec<DiskOp> = Vec::new();
        assert(op_models(ops@) =~= Seq::empty());
        match &self.snapshot {
            Some(existing) => {
                if existing.meta.index >= snapshot.meta.index {
                    return ops;
                }
            },
            None => {},
        }
        let index: u64 = snapshot.meta.index;
        let term: u64 = snapshot.meta.term;
        push_op(&mut ops, DiskOp::SaveSnapshot { index, term, bytes: encode_snapshot(snapshot) });
        let mut meta = self.meta.clone();
        meta.snapshot_index = index;
        meta.snapshot_term = term;
        push_op(&mut ops, DiskOp::SaveMeta { bytes: encode_meta(&meta) });
        self.meta = meta;
        self.snapshot = Some(snapshot.clone());
        let all = copy_names(names, index, term);
        append_ops(&mut ops, prune_snapshots(&all));
        proof {
            assert(op_models(ops@) =~= wal_model::snapshot_saved(m, snapshot@, names@).ops);
            assert(self@ =~= wal_model::snapshot_saved(m, snapshot@, names@).model);
        }
        ops
    }

    /// Replace the whole log by one segment after `index` that holds no entry.
    fn replace_log_with_snapshot(
        &mut self,
        index: LogIndex,
        segments: &Vec<SegmentFile>,
        ops: &mut Vec<DiskOp>,
    )
        requires
            index < u64::MAX,
        ensures
            final(self)@ == wal_model::log_replaced(old(self)@, index, replay::segment_models(segments@)).model,
            op_models(final(ops)@) == op_models(old(ops)@) + wal_model::log_replaced(
                old(self)@,
                index,
                replay::segment_models(segments@),
            ).ops,
    {
        let ghost m = self@;
        let ghost start = op_models(ops@);
        let ghost models = replay::segment_models(segments@);
        let bytes = self.hard_state_record();
        let size: u64 = bytes.len() as u64;
        push_op(ops, DiskOp::ReplaceSegment { first_index: index + 1, bytes });
        remove_but(segments, index + 1, ops);
        if segments.len() > 0 {
            push_op(ops, DiskOp::SyncDir);
        }
        self.segment = Segment::open_with_max_bytes(index + 1, size, self.segment.max_bytes);
        self.max_entry_in_segment = 0;
        self.entries = Vec::new();
        self.compacted_to = index;
        self.pending_entry_fsync = false;
        proof {
            assert(models.len() == segments@.len());
            assert(op_models(ops@) =~= start + wal_model::log_replaced(m, index, models).ops);
            assert(self@.entries =~= Seq::empty());
            assert(self@ =~= wal_model::log_replaced(m, index, models).model);
        }
    }

    /// Adopt an installed snapshot: it is made durable first, then the log
    /// starts over after it.
    pub fn install_snapshot(
        &mut self,
        snapshot: &Snapshot,
        names: &Vec<(u64, u64)>,
        segments: &Vec<SegmentFile>,
    ) -> (r: (Vec<DiskOp>, Result<(), StorageError>))
        requires
            old(self)@.wf(),
            snapshot::snapshot_fits(snapshot@),
            snapshot.meta.index < u64::MAX,
        ensures
            final(self)@ == wal_model::snapshot_installed(
                old(self)@,
                snapshot@,
                names@,
                replay::segment_models(segments@),
            ).model,
            op_models(r.0@) == wal_model::snapshot_installed(
                old(self)@,
                snapshot@,
                names@,
                replay::segment_models(segments@),
            ).ops,
            match wal_model::snapshot_installed(
                old(self)@,
                snapshot@,
                names@,
                replay::segment_models(segments@),
            ).fault {
                Some(fault) => r.1 matches Err(e) && e == StorageError::Unrecoverable(fault),
                None => r.1 is Ok,
            },
            final(self)@.wf(),
    {
        let index: u64 = snapshot.meta.index;
        let mut ops: Vec<DiskOp> = Vec::new();
        assert(op_models(ops@) =~= Seq::empty());
        if index < self.compacted_to {
            return (
                ops,
                Err(
                    StorageError::Unrecoverable(
                        Fault::StaleSnapshot { index, compacted_to: self.compacted_to },
                    ),
                ),
            );
        }
        assert(self@.entries.len() == self.entries@.len());
        if index == self.compacted_to && self.entries.len() == 0 {
            return (ops, Ok(()));
        }
        let mut ops = self.save_snapshot(snapshot, names);
        self.replace_log_with_snapshot(index, segments, &mut ops);
        (ops, Ok(()))
    }

    /// Drop the entries through `compact_to`, which a snapshot must cover, and
    /// the segments that held nothing else.
    pub fn compact(&mut self, compact_to: LogIndex, segments: &Vec<SegmentFile>) -> (r: (
        Vec<DiskOp>,
        Result<(), StorageError>,
    ))
        requires
            old(self)@.wf(),
            compact_to < u64::MAX || wal_model::compacted(
                old(self)@,
                compact_to,
                replay::segment_models(segments@),
            ).fault is Some,
        ensures
            final(self)@ == wal_model::compacted(old(self)@, compact_to, replay::segment_models(segments@)).model,
            op_models(r.0@) == wal_model::compacted(old(self)@, compact_to, replay::segment_models(segments@)).ops,
            match wal_model::compacted(old(self)@, compact_to, replay::segment_models(segments@)).fault {
                Some(fault) => r.1 matches Err(e) && e == StorageError::Unrecoverable(fault),
                None => r.1 is Ok,
            },
            final(self)@.wf(),
    {
        let ghost m = self@;
        let ghost models = replay::segment_models(segments@);
        let mut ops: Vec<DiskOp> = Vec::new();
        assert(op_models(ops@) =~= Seq::empty());
        if compact_to <= self.compacted_to {
            return (ops, Ok(()));
        }
        let last: u64 = self.last_index();
        if compact_to > last {
            return (
                ops,
                Err(StorageError::Unrecoverable(Fault::CompactBeyondLog { compact_to, last })),
            );
        }
        match &self.snapshot {
            None => {
                return (ops, Err(StorageError::Unrecoverable(Fault::CompactWithoutSnapshot)));
            },
            Some(s) => {
                if s.meta.index < compact_to {
                    return (
                        ops,
                        Err(
                            StorageError::Unrecoverable(
                                Fault::CompactBeyondSnapshot {
                                    compact_to,
                                    snapshot_index: s.meta.index,
                                },
                            ),
                        ),
                    );
                }
            },
        }
        let mut removed = delete_segments_below(segments, compact_to + 1, self.segment.first_index);
        assert(op_models(removed@).len() == removed@.len());
        if removed.len() > 0 {
            push_op(&mut removed, DiskOp::SyncDir);
            let hard_state = self.hard_state;
            let mut kept = self.set_hard_state(hard_state);
            append_ops(&mut kept, removed);
            ops = kept;
            assert(op_models(ops@) =~= wal_model::compacted(m, compact_to, models).ops);
        }
        proof {
            assert(replay::contiguous(m.entries)) by {
                assert forall|i: int| 0 <= i < m.entries.len() implies (
                #[trigger] m.entries[i]).index == m.entries[0].index + i by {}
            }
            replay::lemma_retained_suffix(m.entries, compact_to);
        }
        self.entries = retain_above(&self.entries, compact_to);
        self.compacted_to = compact_to;
        proof {
            let n = m.entries.len();
            assert(m.entries[n - 1].index == m.compacted_to + 1 + (n - 1));
            if m.last() == compact_to {
                assert(m.entries.subrange(compact_to - m.compacted_to, n as int) =~= Seq::empty());
                assert(self@.entries =~= Seq::empty());
            }
            assert(self@ =~= wal_model::compacted(m, compact_to, models).model);
        }
        (ops, Ok(()))
    }
}

// ---------------------------------------------------------------------------
// Recovery rewrite
// ---------------------------------------------------------------------------
impl View for ForceRecoveryReport {
    type V = ReportModel;

    open spec fn view(&self) -> ReportModel {
        ReportModel {
            previous_cluster_id: self.previous_cluster_id@,
            cluster_id: self.cluster_id@,
            term: self.term,
            commit: self.commit,
            discarded: self.discarded_entries as int,
        }
    }
}

impl WalStorage {
    /// Rewrite an open log: drop the uncommitted tail, raise the term by one and
    /// vote for voter 1. Returns how many entries were discarded.
    fn rewrite(&mut self, segments: &Vec<SegmentFile>, ops: &mut Vec<DiskOp>) -> (r: Result<
        u64,
        Fault,
    >)
        requires
            old(self)@.wf(),
        ensures
            final(self)@ == wal_model::rewritten(old(self)@, replay::segment_models(segments@)).model,
            op_models(final(ops)@) == op_models(old(ops)@) + wal_model::rewritten(
                old(self)@,
                replay::segment_models(segments@),
            ).ops,
            match wal_model::rewritten(old(self)@, replay::segment_models(segments@)).fault {
                Some(fault) => r matches Err(f) && f == fault,
                None => r matches Ok(n) && n == old(self)@.entries.len()
                    - final(self)@.entries.len(),
            },
    {
        let ghost start = op_models(ops@);
        proof {
            reveal(wal_model::rewritten);
        }
        let hs = self.hard_state();
        if hs.term == u64::MAX {
            assert(start + Seq::<OpModel>::empty() =~= start);
            return Err(Fault::TermExhausted);
        }
        let keep: u64 = if hs.commit < self.compacted_to {
            self.compacted_to
        } else {
            hs.commit
        };
        let discarded: u64 = match self.truncate_log_to(keep, segments, ops) {
            Err(fault) => {
                return Err(fault);
            },
            Ok(n) => n,
        };
        let ghost cut = op_models(ops@);
        let next = HardState { term: hs.term + 1, vote: Some(1), commit: hs.commit };
        let set = self.set_hard_state(next);
        let ghost more = op_models(set@);
        append_ops(ops, set);
        assert(op_models(ops@) =~= cut + more);
        assert(op_models(ops@) =~= start + wal_model::rewritten(
            old(self)@,
            replay::segment_models(segments@),
        ).ops);
        Ok(discarded)
    }

    /// Rewrite a data directory so that its node can start a new single-voter
    /// cluster at its committed point. Destructive.
    ///
    /// The uncommitted tail is discarded, the term is raised by one with a vote
    /// for voter 1, the commit index is kept, and META gets the new cluster id
    /// (or keeps the old one).
    pub fn force_recovery(
        dir: &DataDir,
        node_id: &str,
        new_cluster_id: Option<String>,
        config: WalConfig,
        created_at_millis: u64,
    ) -> (r: (Vec<DiskOp>, Result<ForceRecoveryReport, StorageError>))
        requires
            new_cluster_id matches Some(s) ==> meta::id_fits(s@),
        ensures
            ({
                let goal = wal_model::force_recovered(
                    dir@,
                    node_id@,
                    match new_cluster_id {
                        Some(s) => Some(s@),
                        None => None,
                    },
                    config.fsync_policy,
                    config.segment_bytes,
                    created_at_millis,
                );
                &&& op_models(r.0@) == goal.0
                &&& match goal.1 {
                    Ok(report) => r.1 matches Ok(v) && v@ == report,
                    Err(fault) => r.1 matches Err(e) && e == StorageError::Unrecoverable(fault),
                }
            }),
    {
        let mut ops: Vec<DiskOp> = Vec::new();
        assert(op_models(ops@) =~= Seq::empty());
        let bytes = match &dir.meta {
            None => {
                return (ops, Err(StorageError::Unrecoverable(Fault::MetaMissing)));
            },
            Some(bytes) => bytes,
        };
        proof {
            lemma_decoded_ids_fit(bytes@);
        }
        let meta = match decode_meta(bytes) {
            Err(e) => {
                return (ops, Err(StorageError::Unrecoverable(Fault::RewriteMeta(e))));
            },
            Ok(meta) => meta,
        };
        if !crate::text::same_text(meta.node_id.as_str(), node_id) {
            return (ops, Err(StorageError::Unrecoverable(Fault::RewriteNodeIdMismatch)));
        }
        let target = match new_cluster_id {
            Some(s) => s,
            None => meta.cluster_id.clone(),
        };
        if target.as_str().is_empty() {
            return (ops, Err(StorageError::Unrecoverable(Fault::EmptyClusterId)));
        }
        let opts = WalOptions {
            cluster_id: meta.cluster_id.clone(),
            node_id: node_id.to_owned(),
            config,
            created_at_millis,
        };
        let (open_ops, opened) = WalStorage::open(dir, &opts);
        let mut ops = open_ops;
        let ghost open_models = op_models(ops@);
        let mut wal = match opened {
            Err(e) => {
                return (ops, Err(e));
            },
            Ok(wal) => wal,
        };
        let rewritten = wal.rewrite(&dir.segments, &mut ops);
        let ghost set_models = op_models(ops@);
        let discarded: u64 = match rewritten {
            Err(fault) => {
                return (ops, Err(StorageError::Unrecoverable(fault)));
            },
            Ok(n) => n,
        };
        let hs = wal.hard_state();
        let previous_cluster_id = meta.cluster_id.clone();
        let mut new_meta = meta;
        new_meta.cluster_id = target.clone();
        push_op(&mut ops, DiskOp::SaveMeta { bytes: encode_meta(&new_meta) });
        push_op(&mut ops, DiskOp::SyncDir);
        assert(op_models(ops@) =~= set_models + seq![
            OpModel::SaveMeta(meta::meta_bytes(new_meta@)),
            OpModel::SyncDir,
        ]);
        let report = ForceRecoveryReport {
            previous_cluster_id,
            cluster_id: target,
            term: hs.term,
            commit: hs.commit,
            discarded_entries: discarded,
        };
        (ops, Ok(report))
    }
}

} // verus!
