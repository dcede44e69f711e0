//! What each operation on the durable log comes to: when it succeeds, what the log
//! is then, and what it leaves alone.
use vstd::prelude::*;

use crate::storage::segment::Segment;
use crate::storage::wal::DiskOp;
use crate::storage::wal_model::{Disk, FsyncPolicy, OpModel, Outcome, StorageStats, WalModel};
use crate::types::{EntryModel, Fault, HardState, LogEntry, Snapshot, SnapshotModel};
use crate::storage::replay;
use crate::storage::wal_laws;
use crate::storage::wal_model;

verus! {

/// The index of the last entry of a log without gaps.
pub open spec fn end_of(m: WalModel) -> int {
    m.compacted_to + m.entries.len()
}

proof fn lemma_end(m: WalModel)
    requires
        m.wf(),
    ensures
        m.last() == end_of(m),
{
    if m.entries.len() > 0 {
        assert(m.entries[m.entries.len() - 1] == m.entries.last());
    }
}

proof fn lemma_above(es: Seq<EntryModel>, base: int, t: int)
    requires
        forall|i: int| 0 <= i < es.len() ==> (#[trigger] es[i]).index == base + 1 + i,
        base <= t,
    ensures
        es.filter(|e: EntryModel| e.index > t) == es.subrange(
            if t - base <= es.len() {
                t - base
            } else {
                es.len() as int
            },
            es.len() as int,
        ),
        es.filter(|e: EntryModel| e.index <= t) == es.subrange(
            0,
            if t - base <= es.len() {
                t - base
            } else {
                es.len() as int
            },
        ),
    decreases es.len(),
{
    reveal(Seq::filter);
    let n = es.len() as int;
    if n > 0 {
        let init = es.drop_last();
        assert forall|i: int| 0 <= i < init.len() implies (#[trigger] init[i]).index == base + 1
            + i by {
            assert(init[i] == es[i]);
        }
        lemma_above(init, base, t);
        assert(es[n - 1] == es.last());
        if t - base < n {
            assert(init.subrange(t - base, n - 1).push(es.last()) =~= es.subrange(t - base, n));
            assert(init.subrange(0, t - base) =~= es.subrange(0, t - base));
        } else {
            assert(init.subrange(n - 1, n - 1) =~= es.subrange(n, n));
            assert(init.subrange(0, n - 1).push(es.last()) =~= es.subrange(0, n));
        }
    } else {
        assert(es.filter(|e: EntryModel| e.index > t) =~= es.subrange(0, 0));
        assert(es.filter(|e: EntryModel| e.index <= t) =~= es.subrange(0, 0));
    }
}

// ---------------------------------------------------------------------------
// Compaction
// ---------------------------------------------------------------------------
/// The segments that go in a compaction are those whose successor starts low
/// enough.
proof fn lemma_removed_prefix(segs: Seq<(u64, Seq<u8>)>, i: int, keep_from: int, j: int)
    requires
        wal_laws::ascending(segs),
        0 <= i <= j < segs.len(),
    ensures
        j < i + wal_laws::removed_below(segs, i, keep_from) <==> j < segs.len() - 1 && segs[j
            + 1].0 <= keep_from,
    decreases segs.len() - i,
{
    if i < segs.len() - 1 {
        if segs[i + 1].0 > keep_from {
            if j < segs.len() - 1 && i < j {
                assert(segs[i + 1].0 < segs[j + 1].0);
            }
        } else if i < j {
            lemma_removed_prefix(segs, i + 1, keep_from, j);
        } else {
            lemma_removed_prefix(segs, i + 1, keep_from, j + 1);
        }
    }
}

/// A compaction that the log reaches and the snapshot covers succeeds, however often
/// the log was compacted before: the watermark is then exactly where it was asked
/// for, and exactly the entries above it are left. Of the segment files exactly those
/// are gone that the next one makes superfluous: where the next one starts at or
/// below the first entry that is left. The one that takes new records stays.
pub proof fn law_compaction_releases_what_it_covers(m: WalModel, d: Disk, to: u64, j: int)
    requires
        m.wf(),
        wal_laws::backed_log(m, d),
        m.compacted_to < to < u64::MAX,
        to <= end_of(m),
        m.snapshot is Some && m.snapshot->0.index >= to,
        0 <= j < d.segments.len(),
    ensures
        ({
            let out = wal_model::compacted(m, to, d.segments);
            let left = wal_model::run(d, out.ops).segments;
            &&& out.fault is None
            &&& out.model.compacted_to == to
            &&& out.model.entries == m.entries.filter(|e: EntryModel| e.index > to)
            &&& out.model.snapshot == m.snapshot
            &&& out.model.hard_state == m.hard_state
            &&& out.model.meta == m.meta
            &&& out.model.pending == m.pending
            &&& out.model.policy == m.policy
            &&& j < d.segments.len() - 1 && d.segments[j + 1].0 <= to + 1
                ==> !wal_model::has_segment(left, d.segments[j].0)
            &&& j == d.segments.len() - 1 || d.segments[j + 1].0 > to + 1
                ==> wal_model::has_segment(left, d.segments[j].0)
        }),
{
    lemma_end(m);
    lemma_above(m.entries, m.compacted_to as int, to as int);
    let out = wal_model::compacted(m, to, d.segments);
    let segs = d.segments;
    let gone = wal_model::removals_below(segs, 0, to + 1, m.segment.first_index);
    let h = m.hard_state;
    lemma_removed_prefix(segs, 0, to + 1, j);
    assert(segs.subrange(0, segs.len() as int) =~= segs);
    wal_laws::lemma_run_removals_below(d, segs, 0, to + 1);
    if gone.len() > 0 {
        let set = wal_model::hard_state_set(m, h);
        let d1 = wal_model::run(d, set.ops);
        let segs1 = d1.segments;
        wal_laws::law_hard_state_is_durable(m, d, h);
        wal_laws::lemma_hard_state_written(m, d, h);
        wal_laws::lemma_removals_by_name(segs, segs1, 0, to + 1, m.segment.first_index);
        assert(segs1.subrange(0, segs1.len() as int) =~= segs1);
        wal_laws::lemma_run_removals_below(d1, segs1, 0, to + 1);
        let k = wal_laws::removed_below(segs1, 0, to + 1);
        lemma_removed_prefix(segs1, 0, to + 1, j);
        assert(segs1[j].0 == segs[j].0);
        assert(j < segs.len() - 1 ==> segs1[j + 1].0 == segs[j + 1].0);
        let sync = seq![OpModel::SyncDir];
        wal_laws::lemma_run_push(d1, gone, OpModel::SyncDir);
        assert(gone.push(OpModel::SyncDir) =~= gone + sync);
        wal_laws::lemma_run_concat(d, set.ops, gone + sync);
        let left = wal_model::run(d, out.ops).segments;
        assert(left == segs1.subrange(k, segs1.len() as int));
        if j >= k {
            assert(left[j - k].0 == segs[j].0);
        } else {
            assert forall|x: int| 0 <= x < left.len() implies (#[trigger] left[x]).0
                != segs[j].0 by {
                assert(left[x] == segs1[k + x]);
                assert(segs1[j].0 < segs1[k + x].0);
            }
        }
    } else {
        assert(out.ops =~= Seq::empty());
        assert(wal_model::run(d, out.ops) == d);
        assert(d.segments[j].0 == segs[j].0);
    }
}

/// Whatever the files hold, a compaction that the log reaches and the snapshot covers
/// moves the watermark to where it was asked for and leaves exactly the entries above.
pub proof fn law_compaction_moves_the_watermark(m: WalModel, to: u64, segs: Seq<(u64, Seq<u8>)>)
    requires
        m.wf(),
        m.compacted_to < to <= end_of(m),
        m.snapshot is Some && m.snapshot->0.index >= to,
    ensures
        ({
            let out = wal_model::compacted(m, to, segs);
            &&& out.fault is None
            &&& out.model.compacted_to == to
            &&& out.model.entries == m.entries.filter(|e: EntryModel| e.index > to)
            &&& out.model == (WalModel {
                segment: Segment { size: out.model.segment.size, ..m.segment },
                entries: out.model.entries,
                compacted_to: out.model.compacted_to,
                stats: StorageStats {
                    hard_state_fsyncs: out.model.stats.hard_state_fsyncs,
                    ..m.stats
                },
                ..m
            })
        }),
{
    lemma_end(m);
    lemma_above(m.entries, m.compacted_to as int, to as int);
}

/// A compaction at or below the watermark does nothing. One beyond the log, without a
/// snapshot, or beyond the snapshot is refused for that reason, in this order, and
/// nothing changes.
pub proof fn law_refused_compaction_says_why(m: WalModel, to: u64, segs: Seq<(u64, Seq<u8>)>)
    requires
        m.wf(),
    ensures
        ({
            let out = wal_model::compacted(m, to, segs);
            &&& to <= m.compacted_to ==> out == (Outcome {
                model: m,
                ops: Seq::empty(),
                fault: None,
            })
            &&& to > end_of(m) ==> out == (Outcome {
                model: m,
                ops: Seq::empty(),
                fault: Some(Fault::CompactBeyondLog { compact_to: to, last: m.last() }),
            }) && m.last() == end_of(m)
            &&& m.compacted_to < to <= end_of(m) && m.snapshot is None ==> out == (Outcome {
                model: m,
                ops: Seq::empty(),
                fault: Some(Fault::CompactWithoutSnapshot),
            })
            &&& m.compacted_to < to <= end_of(m) && m.snapshot is Some && m.snapshot->0.index < to
                ==> out == (Outcome {
                model: m,
                ops: Seq::empty(),
                fault: Some(
                    Fault::CompactBeyondSnapshot {
                        compact_to: to,
                        snapshot_index: m.snapshot->0.index,
                    },
                ),
            })
        }),
{
    lemma_end(m);
}

// ---------------------------------------------------------------------------
// Cutting and appending
// ---------------------------------------------------------------------------
/// Cutting the log leaves exactly the entries up to the cut, as they were; the
/// watermark, the snapshot, the identity, the hard state and the counters stay. Where
/// nothing lies behind the cut, nothing happens.
pub proof fn law_cut_keeps_what_is_before_it(m: WalModel, d: Disk, keep: u64)
    requires
        m.wf(),
        wal_laws::backed_log(m, d),
        m.compacted_to <= keep,
        wal_laws::file_sized(d.segments),
    ensures
        ({
            let out = wal_model::truncated(m, d.segments, keep);
            &&& out.fault is None
            &&& out.model.entries == m.entries.filter(|e: EntryModel| e.index <= keep)
            &&& keep >= end_of(m) ==> out.model == m && out.ops.len() == 0
            &&& keep < end_of(m) ==> !out.model.pending && (out.model.max_entry == keep || keep
                == m.compacted_to && out.model.max_entry == 0)
            &&& out.model == (WalModel {
                segment: Segment { max_bytes: m.segment.max_bytes, ..out.model.segment },
                max_entry: out.model.max_entry,
                entries: out.model.entries,
                pending: out.model.pending,
                ..m
            })
        }),
{
    lemma_end(m);
    lemma_above(m.entries, m.compacted_to as int, keep as int);
    wal_laws::law_truncation_keeps_files_in_step(m, d, keep);
    let out = wal_model::truncated(m, d.segments, keep);
    if m.last() <= keep {
        assert(m.entries.subrange(0, m.entries.len() as int) =~= m.entries);
    } else if replay::entry_end_from(d.segments, 0, keep) is None {
        assert(m.entries.subrange(0, 0) =~= Seq::empty());
    }
}

/// How many entries an append takes: those that follow one another from `base` on and
/// are not too large.
proof fn lemma_taken(m: WalModel, es: Seq<EntryModel>) -> (k: int)
    requires
        m.wf(),
    ensures
        0 <= k <= es.len(),
        ({
            let out = wal_model::appended_all(m, es);
            &&& out.model.entries == m.entries + es.subrange(0, k)
            &&& forall|i: int|
                0 <= i < k ==> (#[trigger] es[i]).index == end_of(m) + 1 + i && 26
                    + es[i].data.len() <= 67_108_864
            &&& out.fault is None <==> k == es.len()
            &&& out.fault matches Some(fault) ==> k < es.len() && (if es[k].index != end_of(m) + 1
                + k {
                fault == (Fault::AppendGap { last: (end_of(m) + k) as u64, found: es[k].index })
            } else {
                &&& 26 + es[k].data.len() > 67_108_864
                &&& fault matches Fault::RecordTooLarge { index, size }
                &&& index == es[k].index
                &&& 26 + es[k].data.len() <= u64::MAX ==> size == 26 + es[k].data.len()
            })
            &&& k > 0 ==> out.model.pending && out.model.max_entry == es[k - 1].index
            &&& out.model.compacted_to == m.compacted_to
            &&& out.model.snapshot == m.snapshot
            &&& out.model.meta == m.meta
            &&& out.model.hard_state == m.hard_state
            &&& out.model.policy == m.policy
            &&& out.model.segment.max_bytes == m.segment.max_bytes
            &&& k == 0 ==> out.model == m && out.ops.len() == 0
        }),
    decreases es.len(),
{
    lemma_end(m);
    let out = wal_model::appended_all(m, es);
    if es.len() == 0 {
        assert(m.entries + es.subrange(0, 0) =~= m.entries);
        0
    } else if wal_model::append_fault(m.last(), es[0]) is Some {
        assert(m.entries + es.subrange(0, 0) =~= m.entries);
        0
    } else {
        let m1 = wal_model::appended_model(m, es[0]);
        let rest = es.drop_first();
        assert forall|i: int| 0 <= i < m1.entries.len() implies (#[trigger] m1.entries[i]).index
            == m1.compacted_to + 1 + i by {
            if i < m.entries.len() {
                assert(m1.entries[i] == m.entries[i]);
            }
        }
        let k = lemma_taken(m1, rest);
        assert(m1.entries + rest.subrange(0, k) =~= m.entries + es.subrange(0, k + 1));
        assert forall|i: int| 0 <= i < k + 1 implies (#[trigger] es[i]).index == end_of(m) + 1 + i
            && 26 + es[i].data.len() <= 67_108_864 by {
            if i > 0 {
                assert(es[i] == rest[i - 1]);
            }
        }
        if k < rest.len() {
            assert(es[k + 1] == rest[k]);
        }
        k + 1
    }
}

/// An append that would reach below the watermark or overwrite what is committed is
/// refused and changes nothing. Any other takes the entries that follow one another,
/// from the place of the first, over whatever stood there, and stops at the first that
/// does not follow or is too large, saying which; what stood before them stays. Apart
/// from the entries, only what says which of them are written and synced changes.
pub proof fn law_append_takes_what_follows(m: WalModel, d: Disk, es: Seq<EntryModel>)
    requires
        m.wf(),
        wal_laws::backed_log(m, d),
        wal_laws::file_sized(d.segments),
    ensures
        ({
            let out = wal_model::appended(m, es, d.segments);
            let over = es.len() > 0 && es[0].index <= end_of(m);
            let base = if over {
                es[0].index - 1
            } else {
                end_of(m)
            };
            if over && es[0].index <= m.compacted_to {
                out == (Outcome {
                    model: m,
                    ops: Seq::empty(),
                    fault: Some(
                        Fault::AppendCompacted {
                            index: es[0].index,
                            compacted_to: m.compacted_to,
                        },
                    ),
                })
            } else if over && es[0].index <= m.hard_state.commit {
                out == (Outcome {
                    model: m,
                    ops: Seq::empty(),
                    fault: Some(
                        Fault::AppendCommitted {
                            index: es[0].index,
                            commit: m.hard_state.commit,
                        },
                    ),
                })
            } else {
                &&& exists|k: int|
                    #![trigger es.subrange(0, k)]
                    {
                        &&& 0 <= k <= es.len()
                        &&& out.model.entries == m.entries.subrange(0, base - m.compacted_to)
                            + es.subrange(0, k)
                        &&& forall|i: int|
                            0 <= i < k ==> (#[trigger] es[i]).index == base + 1 + i && 26
                                + es[i].data.len() <= 67_108_864
                        &&& out.fault is None <==> k == es.len()
                        &&& out.fault matches Some(fault) ==> k < es.len() && (if es[k].index
                            != base + 1 + k {
                            fault == (Fault::AppendGap {
                                last: (base + k) as u64,
                                found: es[k].index,
                            })
                        } else {
                            &&& 26 + es[k].data.len() > 67_108_864
                            &&& fault matches Fault::RecordTooLarge { index, size }
                            &&& index == es[k].index
                            &&& 26 + es[k].data.len() <= u64::MAX ==> size == 26
                                + es[k].data.len()
                        })
                        &&& k > 0 ==> out.model.pending && out.model.max_entry == es[k - 1].index
                    }
                &&& out.model.compacted_to == m.compacted_to
                &&& out.model.snapshot == m.snapshot
                &&& out.model.meta == m.meta
                &&& out.model.hard_state == m.hard_state
                &&& out.model.policy == m.policy
                &&& out.model.segment.max_bytes == m.segment.max_bytes
            }
        }),
{
    lemma_end(m);
    let over = es.len() > 0 && es[0].index <= end_of(m);
    if over && m.compacted_to < es[0].index && m.hard_state.commit < es[0].index {
        let keep = (es[0].index - 1) as u64;
        wal_laws::law_truncation_keeps_files_in_step(m, d, keep);
        law_cut_keeps_what_is_before_it(m, d, keep);
        lemma_above(m.entries, m.compacted_to as int, keep as int);
        let cut = wal_model::truncated(m, d.segments, keep);
        lemma_end(cut.model);
        let k = lemma_taken(cut.model, es);
        assert(es.subrange(0, k) == es.subrange(0, k));
        assert(end_of(cut.model) == keep);
    } else if !over {
        let k = lemma_taken(m, es);
        assert(m.entries.subrange(0, m.entries.len() as int) =~= m.entries);
        assert(es.subrange(0, k) == es.subrange(0, k));
    }
}

/// A segment that has reached its size gives way to one named after the next entry,
/// which is synced into the directory; any other goes on. The log itself is not
/// touched.
pub proof fn law_full_segment_gives_way(m: WalModel, next: u64)
    requires
        m.segment.first_index != next,
    ensures
        ({
            let r = wal_model::rolled_model(m, next);
            let ops = wal_model::rolled_ops(m, next);
            &&& m.segment.size < m.segment.max_bytes ==> r == m && ops.len() == 0
            &&& m.segment.size >= m.segment.max_bytes ==> {
                &&& r.segment.first_index == next
                &&& r.segment.size == 0
                &&& ops.len() >= 2
                &&& ops[ops.len() - 2] == OpModel::Create(next)
                &&& ops[ops.len() - 1] == OpModel::SyncDir
                &&& m.stats.dir_fsyncs < u64::MAX ==> r.stats.dir_fsyncs == m.stats.dir_fsyncs + 1
                &&& m.pending && m.stats.entry_fsyncs < u64::MAX ==> r.stats.entry_fsyncs
                    == m.stats.entry_fsyncs + 1
                &&& !m.pending ==> r.stats.entry_fsyncs == m.stats.entry_fsyncs && ops.len() == 2
            }
            &&& r == (WalModel {
                segment: Segment { max_bytes: m.segment.max_bytes, ..r.segment },
                max_entry: r.max_entry,
                pending: r.pending,
                stats: StorageStats {
                    entry_fsyncs: r.stats.entry_fsyncs,
                    dir_fsyncs: r.stats.dir_fsyncs,
                    ..m.stats
                },
                ..m
            })
        }),
{
}

/// What is removed is synced into the directory, and never goes first: a cut writes the
/// segment that stays before it removes any other, a compaction writes and syncs the
/// hard state before, and an installed snapshot's log is there before the old one goes.
pub proof fn law_removals_come_last_and_are_synced(
    m: WalModel,
    segs: Seq<(u64, Seq<u8>)>,
    keep: u64,
    to: u64,
    index: u64,
)
    ensures
        ({
            let ops = wal_model::truncated(m, segs, keep).ops;
            ops.len() > 0 ==> ops[0] is Replace && ops.last() == OpModel::SyncDir
        }),
        ({
            let ops = wal_model::compacted(m, to, segs).ops;
            ops.len() > 0 ==> ops.len() > 3 && ops[0] is Write && ops[1] == OpModel::Sync(
                m.segment.first_index,
            ) && ops.last() == OpModel::SyncDir
        }),
        ({
            let ops = wal_model::log_replaced(m, index, segs).ops;
            ops[0] is Replace && (segs.len() > 0 ==> ops.last() == OpModel::SyncDir)
        }),
{
}

// ---------------------------------------------------------------------------
// Hard state and syncing
// ---------------------------------------------------------------------------
/// A hard state that is set is the log's from then on, counted as one sync; entries,
/// watermark, snapshot and what is left to sync stay as they were. It never fails.
pub proof fn law_hard_state_is_taken_as_given(m: WalModel, h: HardState)
    ensures
        ({
            let out = wal_model::hard_state_set(m, h);
            &&& out.fault is None
            &&& out.model.hard_state == h
            &&& out.ops.len() == 3
            &&& out.ops[2] == OpModel::Synced(m.segment.first_index, m.max_entry)
            &&& m.stats.hard_state_fsyncs < u64::MAX ==> out.model.stats.hard_state_fsyncs
                == m.stats.hard_state_fsyncs + 1
            &&& out.model == (WalModel {
                segment: Segment { size: out.model.segment.size, ..m.segment },
                hard_state: out.model.hard_state,
                stats: StorageStats {
                    hard_state_fsyncs: out.model.stats.hard_state_fsyncs,
                    ..m.stats
                },
                ..m
            })
        }),
{
}

/// Syncing entries syncs the segment that takes them, exactly where the policy always
/// asks for it or there is something to sync, and reports the highest entry in it. It
/// is counted then and only then, and changes nothing else.
pub proof fn law_sync_happens_where_it_is_owed(m: WalModel)
    ensures
        ({
            let out = wal_model::entries_synced(m);
            let owed = m.pending || m.policy == FsyncPolicy::Always;
            &&& out.fault is None
            &&& !owed ==> out.model == m && out.ops.len() == 0
            &&& owed ==> {
                &&& out.ops == seq![
                    OpModel::Sync(m.segment.first_index),
                    OpModel::Synced(m.segment.first_index, m.max_entry),
                ]
                &&& m.stats.entry_fsyncs < u64::MAX ==> out.model.stats.entry_fsyncs
                    == m.stats.entry_fsyncs + 1
                &&& m.stats.entry_sync_batches < u64::MAX ==> out.model.stats.entry_sync_batches
                    == m.stats.entry_sync_batches + 1
            }
            &&& out.model == (WalModel {
                pending: false,
                stats: StorageStats {
                    entry_fsyncs: out.model.stats.entry_fsyncs,
                    entry_sync_batches: out.model.stats.entry_sync_batches,
                    ..m.stats
                },
                ..m
            })
        }),
{
}

// ---------------------------------------------------------------------------
// Snapshots
// ---------------------------------------------------------------------------
/// A snapshot that is newer than the one there is becomes the log's snapshot, as it
/// is, and the identity points at it; its file is written before the identity, and
/// both before any older file goes. Nothing else changes.
pub proof fn law_newer_snapshot_is_taken_as_given(
    m: WalModel,
    s: SnapshotModel,
    names: Seq<(u64, u64)>,
)
    requires
        m.snapshot is Some ==> m.snapshot->0.index < s.index,
    ensures
        ({
            let out = wal_model::snapshot_saved(m, s, names);
            &&& out.fault is None
            &&& out.model.snapshot == Some(s)
            &&& out.model.meta.snapshot_index == s.index
            &&& out.model.meta.snapshot_term == s.term
            &&& out.model.meta.cluster_id == m.meta.cluster_id
            &&& out.model.meta.node_id == m.meta.node_id
            &&& out.model.meta.format_version == m.meta.format_version
            &&& out.model.meta.created_at == m.meta.created_at
            &&& out.ops.len() >= 2
            &&& out.ops[0] matches OpModel::SaveSnapshot(index, term, _) && index == s.index
                && term == s.term
            &&& out.ops[1] is SaveMeta
            &&& out.model == (WalModel {
                snapshot: out.model.snapshot,
                meta: out.model.meta,
                ..m
            })
        }),
{
}

proof fn lemma_newer_two(names: Seq<(u64, u64)>, i: int, n: int)
    requires
        0 <= i < names.len(),
        0 <= n <= names.len(),
        forall|a: int, b: int|
            0 <= a < b < names.len() ==> (#[trigger] names[a]).0 != (#[trigger] names[b]).0,
    ensures
        wal_model::newer_names(names, i, n) >= 0,
        wal_model::newer_names(names, i, n) >= 1 <==> exists|a: int|
            0 <= a < n && (#[trigger] names[a]).0 > names[i].0,
        wal_model::newer_names(names, i, n) >= 2 <==> exists|a: int, b: int|
            0 <= a < b < n && (#[trigger] names[a]).0 > names[i].0 && (#[trigger] names[b]).0
                > names[i].0,
    decreases n,
{
    if n > 0 {
        lemma_newer_two(names, i, n - 1);
        let last = names[n - 1];
        if n - 1 != i {
            if n - 1 < i {
                assert(names[n - 1].0 != names[i].0);
            } else {
                assert(names[i].0 != names[n - 1].0);
            }
        }
        let before = wal_model::newer_names(names, i, n - 1);
        if last.0 > names[i].0 && before >= 1 {
            let a = choose|a: int| 0 <= a < n - 1 && (#[trigger] names[a]).0 > names[i].0;
            assert(names[a].0 > names[i].0 && names[n - 1].0 > names[i].0);
        }
    }
}

proof fn lemma_pruned(names: Seq<(u64, u64)>, i: int, p: int)
    requires
        0 <= i <= p < names.len(),
        forall|a: int, b: int|
            0 <= a < b < names.len() ==> (#[trigger] names[a]).0 != (#[trigger] names[b]).0,
    ensures
        wal_model::prunings(names, i).contains(
            OpModel::RemoveSnapshot(names[p].0, names[p].1),
        ) <==> wal_model::newer_names(names, p, names.len() as int) >= 2,
    decreases names.len() - i,
{
    let op = OpModel::RemoveSnapshot(names[p].0, names[p].1);
    let rest = wal_model::prunings(names, i + 1);
    let here = if wal_model::newer_names(names, i, names.len() as int) >= 2 {
        seq![OpModel::RemoveSnapshot(names[i].0, names[i].1)]
    } else {
        Seq::empty()
    };
    let all = wal_model::prunings(names, i);
    assert(all == here + rest);
    if i < p {
        lemma_pruned(names, i + 1, p);
        assert(names[i].0 != names[p].0);
        if rest.contains(op) {
            let k = choose|k: int| 0 <= k < rest.len() && rest[k] == op;
            assert(all[here.len() + k] == op);
        }
        if all.contains(op) {
            let k = choose|k: int| 0 <= k < all.len() && all[k] == op;
            if k >= here.len() {
                assert(rest[k - here.len()] == op);
            }
        }
    } else {
        lemma_not_pruned_later(names, i + 1, p);
        if here.len() > 0 {
            assert(all[0] == op);
        }
        if all.contains(op) {
            let k = choose|k: int| 0 <= k < all.len() && all[k] == op;
            if k >= here.len() {
                assert(rest[k - here.len()] == op);
            }
        }
    }
}

proof fn lemma_not_pruned_later(names: Seq<(u64, u64)>, i: int, p: int)
    requires
        0 <= p < i,
        p < names.len(),
        forall|a: int, b: int|
            0 <= a < b < names.len() ==> (#[trigger] names[a]).0 != (#[trigger] names[b]).0,
    ensures
        !wal_model::prunings(names, i).contains(OpModel::RemoveSnapshot(names[p].0, names[p].1)),
    decreases names.len() - i,
{
    if i < names.len() {
        let op = OpModel::RemoveSnapshot(names[p].0, names[p].1);
        lemma_not_pruned_later(names, i + 1, p);
        assert(names[p].0 != names[i].0);
        let rest = wal_model::prunings(names, i + 1);
        let all = wal_model::prunings(names, i);
        let here = all.len() - rest.len();
        if all.contains(op) {
            let k = choose|k: int| 0 <= k < all.len() && all[k] == op;
            if k >= here {
                assert(rest[k - here] == op);
            }
        }
    }
}

/// Of several snapshot files exactly the two newest are kept: a file goes where two
/// others have a higher index, and only there. Any removal is synced.
pub proof fn law_two_newest_snapshots_are_kept(names: Seq<(u64, u64)>, i: int)
    requires
        0 <= i < names.len(),
        forall|a: int, b: int|
            0 <= a < b < names.len() ==> (#[trigger] names[a]).0 != (#[trigger] names[b]).0,
    ensures
        wal_model::pruned(names).contains(OpModel::RemoveSnapshot(names[i].0, names[i].1)) <==> (
        exists|a: int, b: int|
            0 <= a < b < names.len() && (#[trigger] names[a]).0 > names[i].0 && (
            #[trigger] names[b]).0 > names[i].0),
        wal_model::pruned(names).len() > 0 ==> wal_model::pruned(names).last() == OpModel::SyncDir,
{
    let op = OpModel::RemoveSnapshot(names[i].0, names[i].1);
    lemma_newer_two(names, i, names.len() as int);
    lemma_pruned(names, 0, i);
    let all = wal_model::prunings(names, 0);
    if all.contains(op) {
        let k = choose|k: int| 0 <= k < all.len() && all[k] == op;
        assert(all.push(OpModel::SyncDir)[k] == op);
    }
    if wal_model::pruned(names).contains(op) {
        let k = choose|k: int|
            0 <= k < wal_model::pruned(names).len() && wal_model::pruned(names)[k] == op;
        assert(all[k] == op);
    }
}

/// Saving a snapshot leaves the two newest files, itself counted among them.
pub proof fn law_saving_leaves_the_two_newest(
    m: WalModel,
    s: SnapshotModel,
    names: Seq<(u64, u64)>,
    i: int,
)
    requires
        m.snapshot is Some ==> m.snapshot->0.index < s.index,
        0 <= i < names.len(),
        forall|a: int, b: int|
            0 <= a < b < names.len() ==> (#[trigger] names[a]).0 != (#[trigger] names[b]).0,
        forall|a: int| 0 <= a < names.len() ==> (#[trigger] names[a]).0 != s.index,
    ensures
        ({
            let all = names.push((s.index, s.term));
            wal_model::snapshot_saved(m, s, names).ops.contains(
                OpModel::RemoveSnapshot(names[i].0, names[i].1),
            ) <==> exists|a: int, b: int|
                0 <= a < b < all.len() && (#[trigger] all[a]).0 > names[i].0 && (
                #[trigger] all[b]).0 > names[i].0
        }),
{
    let all = names.push((s.index, s.term));
    let op = OpModel::RemoveSnapshot(names[i].0, names[i].1);
    let ops = wal_model::snapshot_saved(m, s, names).ops;
    if names.contains((s.index, s.term)) {
        let k = choose|k: int| 0 <= k < names.len() && names[k] == (s.index, s.term);
        assert(names[k].0 != s.index);
    }
    assert forall|a: int, b: int| 0 <= a < b < all.len() implies (#[trigger] all[a]).0 != (
    #[trigger] all[b]).0 by {
        assert(all[a] == names[a]);
        if b < names.len() {
            assert(all[b] == names[b]);
        }
    }
    assert(all[i] == names[i]);
    law_two_newest_snapshots_are_kept(all, i);
    let gone = wal_model::pruned(all);
    if gone.contains(op) {
        let k = choose|k: int| 0 <= k < gone.len() && gone[k] == op;
        assert(ops[k + 2] == op);
    }
    if ops.contains(op) {
        let k = choose|k: int| 0 <= k < ops.len() && ops[k] == op;
        assert(gone[k - 2] == op);
    }
}

/// A snapshot behind the watermark cannot be installed; one at the watermark of an
/// empty log changes nothing. Any other leaves an empty log right after it, with the
/// hard state, the identity of the node and the counters as they were; the snapshot is
/// then the one that was installed, unless a newer one was there.
pub proof fn law_installing_starts_the_log_over(
    m: WalModel,
    s: SnapshotModel,
    names: Seq<(u64, u64)>,
    segments: Seq<(u64, Seq<u8>)>,
)
    requires
        s.index < u64::MAX,
    ensures
        ({
            let out = wal_model::snapshot_installed(m, s, names, segments);
            let newer = m.snapshot is Some && m.snapshot->0.index >= s.index;
            if s.index < m.compacted_to {
                out == (Outcome {
                    model: m,
                    ops: Seq::empty(),
                    fault: Some(
                        Fault::StaleSnapshot { index: s.index, compacted_to: m.compacted_to },
                    ),
                })
            } else if s.index == m.compacted_to && m.entries.len() == 0 {
                out == (Outcome { model: m, ops: Seq::empty(), fault: None })
            } else {
                &&& out.fault is None
                &&& out.model.entries.len() == 0
                &&& out.model.compacted_to == s.index
                &&& out.model.segment.first_index == s.index + 1
                &&& out.model.segment.max_bytes == m.segment.max_bytes
                &&& !out.model.pending
                &&& out.model.hard_state == m.hard_state
                &&& out.model.policy == m.policy
                &&& out.model.stats == m.stats
                &&& !newer ==> out.model.snapshot == Some(s) && out.model.meta.snapshot_index
                    == s.index && out.model.meta.snapshot_term == s.term
                &&& newer ==> out.model.snapshot == m.snapshot && out.model.meta == m.meta
                &&& out.model.meta.cluster_id == m.meta.cluster_id
                &&& out.model.meta.node_id == m.meta.node_id
            }
        }),
{
}

// ---------------------------------------------------------------------------
// File operations
// ---------------------------------------------------------------------------
/// A file operation is seen with its file and its bytes.
pub proof fn law_file_operation_is_seen_in_full(op: DiskOp)
    ensures
        op matches DiskOp::CreateSegment { first_index } ==> op@ == OpModel::Create(first_index),
        op matches DiskOp::WriteSegment { first_index, bytes } ==> op@ == OpModel::Write(
            first_index,
            bytes@,
        ),
        op matches DiskOp::SyncSegment { first_index } ==> op@ == OpModel::Sync(first_index),
        op matches DiskOp::NotifySynced { first_index, max_entry } ==> op@ == OpModel::Synced(
            first_index,
            max_entry,
        ),
        op matches DiskOp::CutSegment { first_index, len } ==> op@ == OpModel::Cut(first_index, len),
        op matches DiskOp::ReplaceSegment { first_index, bytes } ==> op@ == OpModel::Replace(
            first_index,
            bytes@,
        ),
        op matches DiskOp::RemoveSegment { first_index } ==> op@ == OpModel::Remove(first_index),
        op is SyncDir <==> op@ is SyncDir,
        op matches DiskOp::SaveSnapshot { index, term, bytes } ==> op@ == OpModel::SaveSnapshot(
            index,
            term,
            bytes@,
        ),
        op matches DiskOp::RemoveSnapshot { index, term } ==> op@ == OpModel::RemoveSnapshot(
            index,
            term,
        ),
        op matches DiskOp::SaveMeta { bytes } ==> op@ == OpModel::SaveMeta(bytes@),
{
}

/// Entries and snapshots are seen in full.
pub proof fn law_entry_and_snapshot_are_seen_in_full(e: LogEntry, s: Snapshot)
    ensures
        e@.index == e.index && e@.term == e.term && e@.entry_type == e.entry_type,
        e@.data == e.data@,
        s@.index == s.meta.index && s@.term == s.meta.term && s@.data == s.data@,
        s@.conf.voters == s.meta.conf_state.voters@,
        s@.conf.learners == s.meta.conf_state.learners@,
{
}

} // verus!
