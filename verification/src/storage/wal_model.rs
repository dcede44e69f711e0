//! The durable log as a state machine: what each operation does to the log and
//! which file operations it asks for.
//!
//! [`WalModel`] is the state, an operation is a function from it to an
//! [`Outcome`], and [`run`] says what the file operations do to a [`Disk`].
use vstd::prelude::*;

use crate::storage::meta::{MetaModel, FORMAT_VERSION};
use crate::storage::record::MAX_RECORD_BYTES;
use crate::storage::replay::LogRecord;
use crate::storage::segment::Segment;
use crate::types::{EntryModel, Fault, HardState, SnapshotModel};
use crate::storage::meta;
use crate::storage::replay;
use crate::storage::segment;
use crate::storage::snapshot;

verus! {

/// How many snapshot files to retain on disk: the live one, and one to fall
/// back to.
pub const SNAPSHOT_RETENTION: usize = 2;

/// When appended entries are synced.
///
/// A hard state is synced on every call, whatever the policy.
#[derive(Clone, Copy, Debug, PartialEq, Eq, Structural)]
pub enum FsyncPolicy {
    /// Every `sync_entries` call syncs.
    Always,
    /// `sync_entries` syncs only if entries were appended since the last sync.
    /// The number of milliseconds is advisory.
    BatchMs(u64),
}

impl Default for FsyncPolicy {
    fn default() -> (r: Self)
        ensures
            r == FsyncPolicy::Always,
    {
        FsyncPolicy::Always
    }
}

/// Sync and recovery counters.
#[derive(Clone, Copy, Debug, PartialEq, Eq, Structural)]
pub struct StorageStats {
    /// Syncs made for hard states.
    pub hard_state_fsyncs: u64,
    /// Syncs made for entries.
    pub entry_fsyncs: u64,
    /// `sync_entries` calls that synced.
    pub entry_sync_batches: u64,
    /// Directory syncs (META write, segment creation).
    pub dir_fsyncs: u64,
    /// Records removed by cutting a torn segment during recovery.
    pub wal_truncated_records: u64,
}

impl Default for StorageStats {
    fn default() -> (r: Self)
        ensures
            r == zero_stats(),
    {
        StorageStats {
            hard_state_fsyncs: 0,
            entry_fsyncs: 0,
            entry_sync_batches: 0,
            dir_fsyncs: 0,
            wal_truncated_records: 0,
        }
    }
}

/// Counters that have counted nothing.
pub open spec fn zero_stats() -> StorageStats {
    StorageStats {
        hard_state_fsyncs: 0,
        entry_fsyncs: 0,
        entry_sync_batches: 0,
        dir_fsyncs: 0,
        wal_truncated_records: 0,
    }
}

/// A counter one further, capped at the largest `u64`.
pub open spec fn bumped(n: u64) -> u64 {
    segment::capped_sum(n as int, 1)
}

// ---------------------------------------------------------------------------
// File operations
// ---------------------------------------------------------------------------
/// A file operation, to be performed in order.
#[verifier::ext_equal]
pub enum OpModel {
    /// Open a segment file, creating it empty if there is none.
    Create(u64),
    /// Write bytes at the end of a segment file.
    Write(u64, Seq<u8>),
    /// Sync a segment file.
    Sync(u64),
    /// Report that a segment with the given highest entry was synced.
    Synced(u64, u64),
    /// Cut a segment file to a length.
    Cut(u64, u64),
    /// Give a segment file new contents atomically, creating it if there is
    /// none: write beside, sync, rename, sync the directory.
    Replace(u64, Seq<u8>),
    /// Remove a segment file.
    Remove(u64),
    /// Sync the directory.
    SyncDir,
    /// Replace a snapshot file atomically: write beside, sync, rename, sync the
    /// directory.
    SaveSnapshot(u64, u64, Seq<u8>),
    /// Remove a snapshot file.
    RemoveSnapshot(u64, u64),
    /// Replace the META file atomically.
    SaveMeta(Seq<u8>),
}

/// A snapshot file: name and contents.
#[verifier::ext_equal]
pub struct SnapshotFileModel {
    pub index: u64,
    pub term: u64,
    pub bytes: Seq<u8>,
}

/// The files of a data directory: segments in ascending order, snapshot files
/// in listing order, and the META file.
#[verifier::ext_equal]
pub struct Disk {
    pub segments: Seq<(u64, Seq<u8>)>,
    pub snapshots: Seq<SnapshotFileModel>,
    pub meta: Option<Seq<u8>>,
}

/// The number of segments whose name is below `first`.
pub open spec fn segments_below(segments: Seq<(u64, Seq<u8>)>, first: u64) -> int
    decreases segments.len(),
{
    if segments.len() == 0 {
        0
    } else {
        segments_below(segments.drop_last(), first) + if segments.last().0 < first {
            1int
        } else {
            0int
        }
    }
}

/// Whether there is a segment with the given name.
pub open spec fn has_segment(segments: Seq<(u64, Seq<u8>)>, first: u64) -> bool {
    exists|i: int| 0 <= i < segments.len() && (#[trigger] segments[i]).0 == first
}

/// The segments without the one of the given name.
pub open spec fn without_segment(segments: Seq<(u64, Seq<u8>)>, first: u64) -> Seq<(u64, Seq<u8>)>
    decreases segments.len(),
{
    if segments.len() == 0 {
        segments
    } else if segments.last().0 == first {
        without_segment(segments.drop_last(), first)
    } else {
        without_segment(segments.drop_last(), first).push(segments.last())
    }
}

/// The snapshot files without the one of the given name.
pub open spec fn without_snapshot(
    files: Seq<SnapshotFileModel>,
    index: u64,
    term: u64,
) -> Seq<SnapshotFileModel>
    decreases files.len(),
{
    if files.len() == 0 {
        files
    } else if files.last().index == index && files.last().term == term {
        without_snapshot(files.drop_last(), index, term)
    } else {
        without_snapshot(files.drop_last(), index, term).push(files.last())
    }
}

/// What one file operation does to the files.
pub open spec fn run_one(d: Disk, op: OpModel) -> Disk {
    match op {
        OpModel::Create(first) => if has_segment(d.segments, first) {
            d
        } else {
            Disk {
                segments: d.segments.insert(
                    segments_below(d.segments, first),
                    (first, Seq::<u8>::empty()),
                ),
                ..d
            }
        },
        OpModel::Write(first, bytes) => Disk {
            segments: d.segments.map_values(
                |s: (u64, Seq<u8>)|
                    if s.0 == first {
                        (s.0, s.1 + bytes)
                    } else {
                        s
                    },
            ),
            ..d
        },
        OpModel::Cut(first, len) => Disk {
            segments: d.segments.map_values(
                |s: (u64, Seq<u8>)|
                    if s.0 == first {
                        (s.0, s.1.subrange(0, len as int))
                    } else {
                        s
                    },
            ),
            ..d
        },
        OpModel::Replace(first, bytes) => if has_segment(d.segments, first) {
            Disk {
                segments: d.segments.map_values(
                    |s: (u64, Seq<u8>)|
                        if s.0 == first {
                            (s.0, bytes)
                        } else {
                            s
                        },
                ),
                ..d
            }
        } else {
            Disk {
                segments: d.segments.insert(segments_below(d.segments, first), (first, bytes)),
                ..d
            }
        },
        OpModel::Remove(first) => Disk { segments: without_segment(d.segments, first), ..d },
        OpModel::SaveSnapshot(index, term, bytes) => Disk {
            snapshots: without_snapshot(d.snapshots, index, term).push(
                SnapshotFileModel { index, term, bytes },
            ),
            ..d
        },
        OpModel::RemoveSnapshot(index, term) => Disk {
            snapshots: without_snapshot(d.snapshots, index, term),
            ..d
        },
        OpModel::SaveMeta(bytes) => Disk { meta: Some(bytes), ..d },
        OpModel::Sync(_) | OpModel::Synced(_, _) | OpModel::SyncDir => d,
    }
}

/// What a list of file operations does to the files.
pub open spec fn run(d: Disk, ops: Seq<OpModel>) -> Disk
    decreases ops.len(),
{
    if ops.len() == 0 {
        d
    } else {
        run_one(run(d, ops.drop_last()), ops.last())
    }
}

// ---------------------------------------------------------------------------
// State
// ---------------------------------------------------------------------------
/// The state of the durable log.
#[verifier::ext_equal]
pub struct WalModel {
    /// The segment that takes new records.
    pub segment: Segment,
    /// The highest entry written to that segment (0: none yet).
    pub max_entry: u64,
    /// The entries after the watermark.
    pub entries: Seq<EntryModel>,
    /// The index the log has been compacted through.
    pub compacted_to: u64,
    /// The durable snapshot.
    pub snapshot: Option<SnapshotModel>,
    /// The META record.
    pub meta: MetaModel,
    /// The hard state.
    pub hard_state: HardState,
    /// Whether entries were written since the last sync.
    pub pending: bool,
    /// When entries are synced.
    pub policy: FsyncPolicy,
    /// Sync and recovery counters.
    pub stats: StorageStats,
}

impl WalModel {
    /// The log's invariant: the entries follow the watermark without a gap, and
    /// a snapshot covers everything at or below it.
    pub open spec fn wf(self) -> bool {
        &&& self.compacted_to < u64::MAX
        &&& forall|i: int|
            0 <= i < self.entries.len() ==> (#[trigger] self.entries[i]).index
                == self.compacted_to + 1 + i
        &&& match self.snapshot {
            Some(s) => self.compacted_to <= s.index,
            None => self.compacted_to == 0,
        }
        &&& meta::id_fits(self.meta.cluster_id)
        &&& meta::id_fits(self.meta.node_id)
    }

    /// The index of the last entry, or the watermark.
    pub open spec fn last(self) -> u64 {
        replay::last_of(self.entries, self.compacted_to)
    }
}

/// What an operation does: the new state, the file operations in order, and
/// the fault that ended it, if any.
#[verifier::ext_equal]
pub struct Outcome {
    pub model: WalModel,
    pub ops: Seq<OpModel>,
    pub fault: Option<Fault>,
}

// ---------------------------------------------------------------------------
// Appending
// ---------------------------------------------------------------------------
/// The state after a rollover that the next entry may cause.
pub open spec fn rolled_model(m: WalModel, next: u64) -> WalModel {
    if m.segment.size >= m.segment.max_bytes {
        WalModel {
            segment: Segment {
                first_index: next,
                size: if m.segment.first_index == next {
                    m.segment.size
                } else {
                    0
                },
                max_bytes: m.segment.max_bytes,
            },
            max_entry: 0,
            pending: false,
            stats: StorageStats {
                entry_fsyncs: if m.pending {
                    bumped(m.stats.entry_fsyncs)
                } else {
                    m.stats.entry_fsyncs
                },
                dir_fsyncs: bumped(m.stats.dir_fsyncs),
                ..m.stats
            },
            ..m
        }
    } else {
        m
    }
}

/// The file operations of such a rollover: the outgoing segment is synced first
/// if it holds entries that are not.
pub open spec fn rolled_ops(m: WalModel, next: u64) -> Seq<OpModel> {
    if m.segment.size >= m.segment.max_bytes {
        (if m.pending {
            seq![
                OpModel::Sync(m.segment.first_index),
                OpModel::Synced(m.segment.first_index, m.max_entry),
            ]
        } else {
            Seq::empty()
        }) + seq![OpModel::Create(next), OpModel::SyncDir]
    } else {
        Seq::empty()
    }
}

/// The state after one entry.
pub open spec fn appended_model(m: WalModel, e: EntryModel) -> WalModel {
    let r = rolled_model(m, e.index);
    WalModel {
        segment: Segment {
            size: segment::capped_sum(
                r.segment.size as int,
                replay::record_image(LogRecord::Entry(e)).len() as int,
            ),
            ..r.segment
        },
        max_entry: e.index,
        entries: m.entries.push(e),
        pending: true,
        ..r
    }
}

/// The file operations of one entry.
pub open spec fn appended_ops(m: WalModel, e: EntryModel) -> Seq<OpModel> {
    rolled_ops(m, e.index).push(
        OpModel::Write(
            rolled_model(m, e.index).segment.first_index,
            replay::record_image(LogRecord::Entry(e)),
        ),
    )
}

/// Why an entry cannot follow the log that ends at `last`.
pub open spec fn append_fault(last: u64, e: EntryModel) -> Option<Fault> {
    if last == u64::MAX || e.index != last + 1 {
        Some(Fault::AppendGap { last, found: e.index })
    } else if replay::entry_record_size(e) > MAX_RECORD_BYTES {
        Some(
            Fault::RecordTooLarge { index: e.index, size: segment::capped_sum(26, e.data.len() as int) },
        )
    } else {
        None
    }
}

/// Entries one after the other, up to the first that cannot follow.
pub open spec fn appended_all(m: WalModel, es: Seq<EntryModel>) -> Outcome
    decreases es.len(),
{
    if es.len() == 0 {
        Outcome { model: m, ops: Seq::empty(), fault: None }
    } else {
        match append_fault(m.last(), es[0]) {
            Some(fault) => Outcome { model: m, ops: Seq::empty(), fault: Some(fault) },
            None => {
                let rest = appended_all(appended_model(m, es[0]), es.drop_first());
                Outcome { ops: appended_ops(m, es[0]) + rest.ops, ..rest }
            },
        }
    }
}

/// The removals of the segments whose name is above `first`, from number `i` on.
pub open spec fn removals_above(segments: Seq<(u64, Seq<u8>)>, i: int, first: u64) -> Seq<OpModel>
    decreases segments.len() - i,
{
    if i < 0 || i >= segments.len() {
        Seq::empty()
    } else {
        (if segments[i].0 > first {
            seq![OpModel::Remove(segments[i].0)]
        } else {
            Seq::empty()
        }) + removals_above(segments, i + 1, first)
    }
}

/// The removals of all segments but the one of the given name, from number `i`
/// on.
pub open spec fn removals_but(segments: Seq<(u64, Seq<u8>)>, i: int, first: u64) -> Seq<OpModel>
    decreases segments.len() - i,
{
    if i < 0 || i >= segments.len() {
        Seq::empty()
    } else {
        (if segments[i].0 != first {
            seq![OpModel::Remove(segments[i].0)]
        } else {
            Seq::empty()
        }) + removals_but(segments, i + 1, first)
    }
}

/// The bytes of a hard state's record.
pub open spec fn hard_image(h: HardState) -> Seq<u8> {
    replay::record_image(LogRecord::Hard(h))
}

/// Cutting the log after `keep`, given the contents of the segments. Where no
/// entry is left, the segments give way to one named 1.
///
/// The record of the hard state may stand behind the cut. The segment that stays
/// is therefore replaced by its records up to the cut and one more of the hard
/// state, before any other segment goes: at no point is the hard state lost.
pub open spec fn truncated(m: WalModel, segments: Seq<(u64, Seq<u8>)>, keep: u64) -> Outcome {
    if m.last() <= keep {
        Outcome { model: m, ops: Seq::empty(), fault: None }
    } else {
        match replay::entry_end_from(segments, 0, keep) {
            Some((i, end)) => Outcome {
                model: WalModel {
                    segment: Segment {
                        first_index: segments[i].0,
                        size: segment::capped_sum(end, hard_image(m.hard_state).len() as int),
                        max_bytes: m.segment.max_bytes,
                    },
                    max_entry: keep,
                    entries: m.entries.subrange(0, keep - m.compacted_to),
                    pending: false,
                    ..m
                },
                ops: seq![
                    OpModel::Replace(
                        segments[i].0,
                        segments[i].1.subrange(0, end) + hard_image(m.hard_state),
                    ),
                ] + removals_above(segments, 0, segments[i].0) + seq![OpModel::SyncDir],
                fault: None,
            },
            None => if keep == m.compacted_to {
                Outcome {
                    model: WalModel {
                        segment: Segment {
                            first_index: 1,
                            size: hard_image(m.hard_state).len() as u64,
                            max_bytes: m.segment.max_bytes,
                        },
                        max_entry: 0,
                        entries: Seq::empty(),
                        pending: false,
                        ..m
                    },
                    ops: seq![OpModel::Replace(1, hard_image(m.hard_state))] + removals_but(
                        segments,
                        0,
                        1,
                    ) + seq![OpModel::SyncDir],
                    fault: None,
                }
            } else {
                Outcome {
                    model: m,
                    ops: Seq::empty(),
                    fault: Some(Fault::EntryMissing { index: keep }),
                }
            },
        }
    }
}

/// Appending entries, over a conflicting suffix if there is one.
pub open spec fn appended(
    m: WalModel,
    es: Seq<EntryModel>,
    segments: Seq<(u64, Seq<u8>)>,
) -> Outcome {
    if es.len() > 0 && es[0].index <= m.last() {
        if es[0].index <= m.compacted_to {
            Outcome {
                model: m,
                ops: Seq::empty(),
                fault: Some(
                    Fault::AppendCompacted { index: es[0].index, compacted_to: m.compacted_to },
                ),
            }
        } else if es[0].index <= m.hard_state.commit {
            Outcome {
                model: m,
                ops: Seq::empty(),
                fault: Some(
                    Fault::AppendCommitted { index: es[0].index, commit: m.hard_state.commit },
                ),
            }
        } else {
            let cut = truncated(m, segments, (es[0].index - 1) as u64);
            if cut.fault is Some {
                cut
            } else {
                let rest = appended_all(cut.model, es);
                Outcome { ops: cut.ops + rest.ops, ..rest }
            }
        }
    } else {
        appended_all(m, es)
    }
}

// ---------------------------------------------------------------------------
// Hard state and syncing
// ---------------------------------------------------------------------------
/// Recording a hard state: written and synced before anything else happens.
pub open spec fn hard_state_set(m: WalModel, h: HardState) -> Outcome {
    let bytes = hard_image(h);
    Outcome {
        model: WalModel {
            segment: Segment {
                size: segment::capped_sum(m.segment.size as int, bytes.len() as int),
                ..m.segment
            },
            hard_state: h,
            stats: StorageStats {
                hard_state_fsyncs: bumped(m.stats.hard_state_fsyncs),
                ..m.stats
            },
            ..m
        },
        ops: seq![
            OpModel::Write(m.segment.first_index, bytes),
            OpModel::Sync(m.segment.first_index),
            OpModel::Synced(m.segment.first_index, m.max_entry),
        ],
        fault: None,
    }
}

/// Syncing the entries as the policy asks.
pub open spec fn entries_synced(m: WalModel) -> Outcome {
    if m.policy == FsyncPolicy::Always || m.pending {
        Outcome {
            model: WalModel {
                pending: false,
                stats: StorageStats {
                    entry_fsyncs: bumped(m.stats.entry_fsyncs),
                    entry_sync_batches: bumped(m.stats.entry_sync_batches),
                    ..m.stats
                },
                ..m
            },
            ops: seq![
                OpModel::Sync(m.segment.first_index),
                OpModel::Synced(m.segment.first_index, m.max_entry),
            ],
            fault: None,
        }
    } else {
        Outcome { model: m, ops: Seq::empty(), fault: None }
    }
}

// ---------------------------------------------------------------------------
// Snapshots and compaction
// ---------------------------------------------------------------------------
/// How many of the first `n` names come before name `i` when names are ordered
/// by falling index, equal ones in listing order.
pub open spec fn newer_names(names: Seq<(u64, u64)>, i: int, n: int) -> int
    decreases n,
{
    if n <= 0 {
        0
    } else {
        newer_names(names, i, n - 1) + if names[n - 1].0 > names[i].0 || (names[n - 1].0
            == names[i].0 && n - 1 < i) {
            1int
        } else {
            0int
        }
    }
}

/// The removals of all but the newest snapshot files, from name `i` on.
pub open spec fn prunings(names: Seq<(u64, u64)>, i: int) -> Seq<OpModel>
    decreases names.len() - i,
{
    if i < 0 || i >= names.len() {
        Seq::empty()
    } else {
        (if newer_names(names, i, names.len() as int) >= SNAPSHOT_RETENTION {
            seq![OpModel::RemoveSnapshot(names[i].0, names[i].1)]
        } else {
            Seq::empty()
        }) + prunings(names, i + 1)
    }
}

/// The file operations that prune the snapshot files.
pub open spec fn pruned(names: Seq<(u64, u64)>) -> Seq<OpModel> {
    if prunings(names, 0).len() > 0 {
        prunings(names, 0).push(OpModel::SyncDir)
    } else {
        Seq::empty()
    }
}

/// The names after the snapshot file at `(index, term)` was written.
pub open spec fn with_name(names: Seq<(u64, u64)>, index: u64, term: u64) -> Seq<(u64, u64)> {
    if names.contains((index, term)) {
        names
    } else {
        names.push((index, term))
    }
}

/// Saving a snapshot: its file, then the META pointer, then pruning. A snapshot
/// that is not newer than the one there is changes nothing.
pub open spec fn snapshot_saved(m: WalModel, s: SnapshotModel, names: Seq<(u64, u64)>) -> Outcome {
    if m.snapshot matches Some(existing) && existing.index >= s.index {
        Outcome { model: m, ops: Seq::empty(), fault: None }
    } else {
        let meta = MetaModel { snapshot_index: s.index, snapshot_term: s.term, ..m.meta };
        Outcome {
            model: WalModel { snapshot: Some(s), meta, ..m },
            ops: seq![
                OpModel::SaveSnapshot(s.index, s.term, snapshot::snapshot_bytes(s)),
                OpModel::SaveMeta(meta::meta_bytes(meta)),
            ] + pruned(with_name(names, s.index, s.term)),
            fault: None,
        }
    }
}

/// Replacing the whole log by one segment after the snapshot, which holds no
/// entry. It holds the hard state, and holds it before any other segment goes.
pub open spec fn log_replaced(m: WalModel, index: u64, segments: Seq<(u64, Seq<u8>)>) -> Outcome {
    Outcome {
        model: WalModel {
            segment: Segment {
                first_index: (index + 1) as u64,
                size: hard_image(m.hard_state).len() as u64,
                max_bytes: m.segment.max_bytes,
            },
            max_entry: 0,
            entries: Seq::empty(),
            compacted_to: index,
            pending: false,
            ..m
        },
        ops: seq![OpModel::Replace((index + 1) as u64, hard_image(m.hard_state))] + removals_but(
            segments,
            0,
            (index + 1) as u64,
        ) + if segments.len() > 0 {
            seq![OpModel::SyncDir]
        } else {
            Seq::empty()
        },
        fault: None,
    }
}

/// Installing a snapshot: saved first, then the log starts over after it.
pub open spec fn snapshot_installed(
    m: WalModel,
    s: SnapshotModel,
    names: Seq<(u64, u64)>,
    segments: Seq<(u64, Seq<u8>)>,
) -> Outcome {
    if s.index < m.compacted_to {
        Outcome {
            model: m,
            ops: Seq::empty(),
            fault: Some(Fault::StaleSnapshot { index: s.index, compacted_to: m.compacted_to }),
        }
    } else if s.index == m.compacted_to && m.entries.len() == 0 {
        Outcome { model: m, ops: Seq::empty(), fault: None }
    } else {
        let saved = snapshot_saved(m, s, names);
        let replaced = log_replaced(saved.model, s.index, segments);
        Outcome { ops: saved.ops + replaced.ops, ..replaced }
    }
}

/// The removals of the segments wholly below `keep_from`: those whose successor
/// starts at or before it. The active segment always stays.
pub open spec fn removals_below(
    segments: Seq<(u64, Seq<u8>)>,
    i: int,
    keep_from: int,
    active: u64,
) -> Seq<OpModel>
    decreases segments.len() - i,
{
    if i < 0 || i >= segments.len() - 1 {
        Seq::empty()
    } else {
        (if segments[i + 1].0 <= keep_from && segments[i].0 != active {
            seq![OpModel::Remove(segments[i].0)]
        } else {
            Seq::empty()
        }) + removals_below(segments, i + 1, keep_from, active)
    }
}

/// Compacting the log through `to`. The record of the hard state may stand in a
/// segment that goes, so before any goes the active segment takes it again.
pub open spec fn compacted(m: WalModel, to: u64, segments: Seq<(u64, Seq<u8>)>) -> Outcome {
    let removed = removals_below(segments, 0, to + 1, m.segment.first_index);
    if to <= m.compacted_to {
        Outcome { model: m, ops: Seq::empty(), fault: None }
    } else if to > m.last() {
        Outcome {
            model: m,
            ops: Seq::empty(),
            fault: Some(Fault::CompactBeyondLog { compact_to: to, last: m.last() }),
        }
    } else {
        match m.snapshot {
            None => Outcome {
                model: m,
                ops: Seq::empty(),
                fault: Some(Fault::CompactWithoutSnapshot),
            },
            Some(s) => if s.index < to {
                Outcome {
                    model: m,
                    ops: Seq::empty(),
                    fault: Some(
                        Fault::CompactBeyondSnapshot { compact_to: to, snapshot_index: s.index },
                    ),
                }
            } else {
                let kept = if removed.len() > 0 {
                    hard_state_set(m, m.hard_state)
                } else {
                    Outcome { model: m, ops: Seq::empty(), fault: None }
                };
                Outcome {
                    model: WalModel {
                        entries: m.entries.subrange(to - m.compacted_to, m.entries.len() as int),
                        compacted_to: to,
                        ..kept.model
                    },
                    ops: if removed.len() > 0 {
                        kept.ops + removed.push(OpModel::SyncDir)
                    } else {
                        Seq::empty()
                    },
                    fault: None,
                }
            },
        }
    }
}

// ---------------------------------------------------------------------------
// Opening
// ---------------------------------------------------------------------------
/// What a log is opened with.
#[verifier::ext_equal]
pub struct OptionsModel {
    pub cluster_id: Seq<char>,
    pub node_id: Seq<char>,
    pub policy: FsyncPolicy,
    pub segment_bytes: u64,
    pub created_at: u64,
}

/// The identity a directory is opened under, and whether it is new.
pub open spec fn identity(opts: OptionsModel, file: Option<Seq<u8>>) -> Result<
    (MetaModel, bool),
    Fault,
> {
    match file {
        None => Ok(
            (
                MetaModel {
                    cluster_id: opts.cluster_id,
                    node_id: opts.node_id,
                    format_version: FORMAT_VERSION,
                    created_at: opts.created_at,
                    snapshot_index: 0,
                    snapshot_term: 0,
                },
                true,
            ),
        ),
        Some(bytes) => match meta::decoded_meta(bytes) {
            Err(e) => Err(Fault::Meta(e)),
            Ok(meta) => if meta.cluster_id != opts.cluster_id {
                Err(Fault::ClusterIdMismatch)
            } else if meta.node_id != opts.node_id {
                Err(Fault::NodeIdMismatch)
            } else if meta.format_version != FORMAT_VERSION {
                Err(Fault::FormatVersionMismatch { version: meta.format_version })
            } else {
                Ok((meta, false))
            },
        },
    }
}

/// The snapshot in a file, if the file is whole and named rightly and META's
/// pointer reaches it.
pub open spec fn usable_snapshot(f: SnapshotFileModel, pointer: u64) -> Option<SnapshotModel> {
    match snapshot::decoded_snapshot(f.bytes) {
        Ok(s) => if f.index <= pointer && s.index == f.index {
            Some(s)
        } else {
            None
        },
        Err(_) => None,
    }
}

/// The usable snapshot with the highest index among the first `n` files.
pub open spec fn newest_snapshot(files: Seq<SnapshotFileModel>, pointer: u64, n: int) -> Option<
    SnapshotModel,
>
    decreases n,
{
    if n <= 0 {
        None
    } else {
        let before = newest_snapshot(files, pointer, n - 1);
        match (usable_snapshot(files[n - 1], pointer), before) {
            (None, _) => before,
            (Some(s), None) => Some(s),
            (Some(s), Some(b)) => if s.index > b.index {
                Some(s)
            } else {
                before
            },
        }
    }
}

/// The snapshot that recovery starts from. Without a pointer in META there is
/// none, whatever files there are.
pub open spec fn loaded_snapshot(files: Seq<SnapshotFileModel>, pointer: u64) -> Option<
    SnapshotModel,
> {
    if pointer == 0 {
        None
    } else {
        newest_snapshot(files, pointer, files.len() as int)
    }
}

/// The index of the first entry; 1 where there is none.
pub open spec fn first_of(es: Seq<EntryModel>) -> u64 {
    if es.len() == 0 {
        1
    } else {
        es[0].index
    }
}

/// Why the entries that recovery read do not make a log after the snapshot.
pub open spec fn log_fault(
    meta: MetaModel,
    snapshot: Option<SnapshotModel>,
    es: Seq<EntryModel>,
    hard_state: HardState,
) -> Option<Fault> {
    let watermark = match snapshot {
        Some(s) => s.index,
        None => 0,
    };
    let kept = replay::retained(es, watermark);
    if meta.snapshot_index != 0 && snapshot is None && first_of(es) != 1 {
        Some(
            Fault::SnapshotMissing { snapshot_index: meta.snapshot_index, first: first_of(es) },
        )
    } else if replay::gap_from(es, 1) is Some {
        replay::gap_from(es, 1)
    } else if es.len() > 0 && es[0].index > watermark + 1 {
        Some(Fault::SnapshotGap { compacted_to: watermark, first: es[0].index })
    } else if hard_state.commit > replay::last_of(kept, watermark) {
        Some(
            Fault::CommitBeyondLog {
                commit: hard_state.commit,
                last: replay::last_of(kept, watermark),
            },
        )
    } else {
        None
    }
}

/// Opening a directory: the file operations, and the log or the fault. The
/// operations are to be performed in either case. A directory without segments
/// gets an empty one named 1.
pub open spec fn opened(opts: OptionsModel, d: Disk) -> (Seq<OpModel>, Result<WalModel, Fault>) {
    match identity(opts, d.meta) {
        Err(fault) => (Seq::empty(), Err(fault)),
        Ok((meta, fresh)) => {
            let meta_ops = if fresh {
                seq![OpModel::SaveMeta(meta::meta_bytes(meta))]
            } else {
                Seq::empty()
            };
            let snapshot = loaded_snapshot(d.snapshots, meta.snapshot_index);
            let watermark = match snapshot {
                Some(s) => s.index,
                None => 0,
            };
            if watermark == u64::MAX {
                (meta_ops, Err(Fault::SnapshotIndexExhausted { index: watermark }))
            } else {
                match replay::recovered(d.segments, watermark) {
                    Err(fault) => (meta_ops, Err(fault)),
                    Ok((records, cut)) => {
                        let cut_ops = match cut {
                            Some((first, len)) => seq![OpModel::Cut(first, len)],
                            None => Seq::empty(),
                        };
                        let es = replay::entries_of(records);
                        let hard_state = replay::hard_of(records);
                        let kept = replay::retained(es, watermark);
                        match log_fault(meta, snapshot, es, hard_state) {
                            Some(fault) => (meta_ops + cut_ops, Err(fault)),
                            None => {
                                let new = d.segments.len() == 0;
                                let segment = Segment {
                                    first_index: if new {
                                        1
                                    } else {
                                        d.segments.last().0
                                    },
                                    size: if new {
                                        0
                                    } else {
                                        match cut {
                                            Some((_, len)) => len,
                                            None => d.segments.last().1.len() as u64,
                                        }
                                    },
                                    max_bytes: opts.segment_bytes,
                                };
                                let new_ops = if new {
                                    seq![OpModel::Create(segment.first_index), OpModel::SyncDir]
                                } else {
                                    Seq::empty()
                                };
                                (
                                    meta_ops + cut_ops + new_ops,
                                    Ok(
                                        WalModel {
                                            segment,
                                            max_entry: replay::last_of(kept, 0),
                                            entries: kept,
                                            compacted_to: watermark,
                                            snapshot,
                                            meta,
                                            hard_state,
                                            pending: false,
                                            policy: opts.policy,
                                            stats: StorageStats {
                                                dir_fsyncs: ((if fresh {
                                                    1int
                                                } else {
                                                    0
                                                }) + (if new {
                                                    1int
                                                } else {
                                                    0
                                                })) as u64,
                                                wal_truncated_records: if cut is Some {
                                                    1
                                                } else {
                                                    0
                                                },
                                                ..zero_stats()
                                            },
                                        },
                                    ),
                                )
                            },
                        }
                    },
                }
            }
        },
    }
}

// ---------------------------------------------------------------------------
// Recovery rewrite
// ---------------------------------------------------------------------------
/// What a recovery rewrite reports.
#[verifier::ext_equal]
pub struct ReportModel {
    pub previous_cluster_id: Seq<char>,
    pub cluster_id: Seq<char>,
    pub term: u64,
    pub commit: u64,
    pub discarded: int,
}

/// The index a recovery rewrite cuts the log after: the commit index, or the
/// watermark where that is higher.
pub open spec fn rewrite_keep(m: WalModel) -> u64 {
    if m.hard_state.commit < m.compacted_to {
        m.compacted_to
    } else {
        m.hard_state.commit
    }
}

/// Rewriting an open log for a new single-voter cluster: the uncommitted tail
/// goes, and the term is raised by one with a vote for voter 1.
#[verifier::opaque]
pub open spec fn rewritten(m: WalModel, segments: Seq<(u64, Seq<u8>)>) -> Outcome {
    let cut = truncated(m, segments, rewrite_keep(m));
    if m.hard_state.term == u64::MAX {
        Outcome { model: m, ops: Seq::empty(), fault: Some(Fault::TermExhausted) }
    } else if cut.fault is Some {
        cut
    } else {
        let next = HardState {
            term: (m.hard_state.term + 1) as u64,
            vote: Some(1),
            commit: m.hard_state.commit,
        };
        let set = hard_state_set(cut.model, next);
        Outcome { ops: cut.ops + set.ops, ..set }
    }
}

/// Rewriting a directory for a new single-voter cluster.
pub open spec fn force_recovered(
    d: Disk,
    node_id: Seq<char>,
    new_cluster_id: Option<Seq<char>>,
    policy: FsyncPolicy,
    segment_bytes: u64,
    created_at: u64,
) -> (Seq<OpModel>, Result<ReportModel, Fault>) {
    match d.meta {
        None => (Seq::empty(), Err(Fault::MetaMissing)),
        Some(bytes) => match meta::decoded_meta(bytes) {
            Err(e) => (Seq::empty(), Err(Fault::RewriteMeta(e))),
            Ok(meta) => {
                let target = match new_cluster_id {
                    Some(s) => s,
                    None => meta.cluster_id,
                };
                let opts = OptionsModel {
                    cluster_id: meta.cluster_id,
                    node_id,
                    policy,
                    segment_bytes,
                    created_at,
                };
                if meta.node_id != node_id {
                    (Seq::empty(), Err(Fault::RewriteNodeIdMismatch))
                } else if target.len() == 0 {
                    (Seq::empty(), Err(Fault::EmptyClusterId))
                } else {
                    let (open_ops, open_result) = opened(opts, d);
                    match open_result {
                        Err(fault) => (open_ops, Err(fault)),
                        Ok(m) => {
                            let out = rewritten(m, d.segments);
                            match out.fault {
                                Some(fault) => (open_ops + out.ops, Err(fault)),
                                None => (
                                    open_ops + out.ops + seq![
                                        OpModel::SaveMeta(
                                            meta::meta_bytes(MetaModel { cluster_id: target, ..meta }),
                                        ),
                                        OpModel::SyncDir,
                                    ],
                                    Ok(
                                        ReportModel {
                                            previous_cluster_id: meta.cluster_id,
                                            cluster_id: target,
                                            term: out.model.hard_state.term,
                                            commit: out.model.hard_state.commit,
                                            discarded: m.entries.len() - out.model.entries.len(),
                                        },
                                    ),
                                ),
                            }
                        },
                    }
                }
            },
        },
    }
}

} // verus!
