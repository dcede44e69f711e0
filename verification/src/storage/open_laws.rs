//! What opening a directory comes to: whose it is, what is read, and what is refused.
use vstd::prelude::*;

use crate::storage::meta::MetaModel;
use crate::storage::replay::{LogRecord, SegmentTail};
use crate::storage::wal_model::{
    Disk, FsyncPolicy, OpModel, OptionsModel, SnapshotFileModel, WalModel,
};
use crate::types::{EntryModel, Fault, HardState, SnapshotModel};
use crate::storage::meta;
use crate::storage::record;
use crate::storage::replay;
use crate::storage::snapshot;
use crate::storage::wal_laws;
use crate::storage::wal_model;
use crate::bytes;

verus! {

// ---------------------------------------------------------------------------
// Identity
// ---------------------------------------------------------------------------
/// A directory without an identity is given the one it is opened with, before
/// anything else. One that has an identity is opened only under its own cluster and
/// node; under any other, or where the identity cannot be read, nothing is touched.
pub proof fn law_directory_opens_under_its_own_name(opts: OptionsModel, d: Disk)
    ensures
        ({
            let (ops, result) = wal_model::opened(opts, d);
            match d.meta {
                None => {
                    &&& ops.len() > 0 && ops[0] is SaveMeta
                    &&& result matches Ok(m) ==> m.meta.cluster_id == opts.cluster_id
                        && m.meta.node_id == opts.node_id && m.meta.created_at == opts.created_at
                        && m.meta.snapshot_index == 0 && m.snapshot is None && ops[0]
                        == OpModel::SaveMeta(meta::meta_bytes(m.meta))
                },
                Some(file) => match meta::decoded_meta(file) {
                    Err(e) => ops.len() == 0 && result == Err::<WalModel, Fault>(Fault::Meta(e)),
                    Ok(meta) => {
                        &&& meta.cluster_id != opts.cluster_id ==> ops.len() == 0 && result
                            == Err::<WalModel, Fault>(Fault::ClusterIdMismatch)
                        &&& meta.cluster_id == opts.cluster_id && meta.node_id != opts.node_id
                            ==> ops.len() == 0 && result == Err::<WalModel, Fault>(
                            Fault::NodeIdMismatch,
                        )
                        &&& result matches Ok(m) ==> m.meta == meta && meta.cluster_id
                            == opts.cluster_id && meta.node_id == opts.node_id
                            && meta.format_version == 1
                    },
                },
            }
        }),
{
}

// ---------------------------------------------------------------------------
// Snapshot
// ---------------------------------------------------------------------------
/// Whether a file holds a whole snapshot at the index of its name, and the pointer
/// reaches it.
pub open spec fn holds(f: SnapshotFileModel, pointer: u64, s: SnapshotModel) -> bool {
    snapshot::decoded_snapshot(f.bytes) == Ok::<_, snapshot::SnapshotError>(s) && s.index == f.index
        && f.index <= pointer
}

proof fn lemma_newest(files: Seq<SnapshotFileModel>, pointer: u64, n: int)
    requires
        0 <= n <= files.len(),
    ensures
        match wal_model::newest_snapshot(files, pointer, n) {
            Some(s) => (exists|i: int| 0 <= i < n && holds(#[trigger] files[i], pointer, s))
                && forall|i: int, t: SnapshotModel|
                0 <= i < n && #[trigger] holds(files[i], pointer, t) ==> t.index <= s.index,
            None => forall|i: int, t: SnapshotModel|
                0 <= i < n ==> !#[trigger] holds(files[i], pointer, t),
        },
    decreases n,
{
    if n > 0 {
        lemma_newest(files, pointer, n - 1);
        let before = wal_model::newest_snapshot(files, pointer, n - 1);
        let f = files[n - 1];
        if let Some(s) = wal_model::usable_snapshot(f, pointer) {
            assert(holds(files[n - 1], pointer, s));
        }
        if let Some(b) = before {
            let i = choose|i: int| 0 <= i < n - 1 && holds(#[trigger] files[i], pointer, b);
            assert(holds(files[i], pointer, b));
        }
    }
}

/// Recovery starts from the newest snapshot among the files that are whole, are named
/// rightly and are reached by the pointer of the identity; where there is none, or no
/// pointer, it starts without.
pub proof fn law_newest_whole_snapshot_is_loaded(
    files: Seq<SnapshotFileModel>,
    pointer: u64,
    i: int,
    t: SnapshotModel,
)
    requires
        0 <= i < files.len(),
    ensures
        pointer == 0 ==> wal_model::loaded_snapshot(files, pointer) is None,
        pointer > 0 && holds(files[i], pointer, t) ==> (wal_model::loaded_snapshot(
            files,
            pointer,
        ) matches Some(s) && t.index <= s.index),
        wal_model::loaded_snapshot(files, pointer) matches Some(s) ==> exists|j: int|
            0 <= j < files.len() && holds(#[trigger] files[j], pointer, s),
{
    lemma_newest(files, pointer, files.len() as int);
}

// ---------------------------------------------------------------------------
// Records
// ---------------------------------------------------------------------------
/// The entries that a log is opened with are those above the watermark, in order.
pub proof fn law_entries_above_the_watermark_stay(es: Seq<EntryModel>, watermark: u64)
    ensures
        replay::retained(es, watermark) == es.filter(|e: EntryModel| e.index > watermark),
    decreases es.len(),
{
    reveal(Seq::filter);
    if es.len() > 0 {
        law_entries_above_the_watermark_stay(es.drop_last(), watermark);
    } else {
        assert(replay::retained(es, watermark) =~= es.filter(
            |e: EntryModel| e.index > watermark,
        ));
    }
}

/// Of the records read, every entry counts, in order, and the last hard state does;
/// where there is none, the node has not voted yet and knows of no term.
pub proof fn law_every_entry_and_the_last_hard_state_count(
    rs: Seq<LogRecord>,
    e: EntryModel,
    h: HardState,
)
    ensures
        replay::entries_of(Seq::empty()).len() == 0,
        replay::hard_of(Seq::empty()) == (HardState { term: 0, vote: None, commit: 0 }),
        replay::entries_of(rs.push(LogRecord::Entry(e))) == replay::entries_of(rs).push(e),
        replay::hard_of(rs.push(LogRecord::Entry(e))) == replay::hard_of(rs),
        replay::entries_of(rs.push(LogRecord::Hard(h))) == replay::entries_of(rs),
        replay::hard_of(rs.push(LogRecord::Hard(h))) == h,
{
    replay::lemma_entries_push(rs, LogRecord::Entry(e));
    replay::lemma_entries_push(rs, LogRecord::Hard(h));
}

/// A segment is read record by record. Where it ends inside a record it is torn there;
/// where a whole record or its payload does not decode, reading stops with that error
/// at that place.
pub proof fn law_segment_is_read_record_by_record(raw: Seq<u8>, offset: int)
    requires
        0 <= offset <= raw.len() <= u64::MAX,
    ensures
        ({
            let (records, tail) = replay::scan(raw, offset);
            let whole = offset + 8 <= raw.len() && offset + 8 + bytes::u32_at(raw, offset)
                <= raw.len();
            let end = offset + 8 + bytes::u32_at(raw, offset);
            &&& offset == raw.len() ==> records.len() == 0 && tail == SegmentTail::Clean
            &&& offset < raw.len() && !whole ==> records.len() == 0 && tail == (SegmentTail::Torn {
                offset: offset as u64,
            })
            &&& offset < raw.len() && whole ==> match record::decoded_record(
                raw.subrange(offset, end),
            ) {
                Err(error) => records.len() == 0 && tail == (SegmentTail::BadRecord {
                    offset: offset as u64,
                    error,
                }),
                Ok((t, payload)) => match replay::typed(t, payload) {
                    Err(error) => records.len() == 0 && tail == (SegmentTail::BadPayload {
                        offset: offset as u64,
                        error,
                    }),
                    Ok(r) => {
                        &&& records == seq![r] + replay::scan(raw, end).0
                        &&& tail == replay::scan(raw, end).1
                    },
                },
            }
        }),
{
}

proof fn lemma_clean_run(
    segments: Seq<(u64, Seq<u8>)>,
    from: int,
    i: int,
    watermark: u64,
    before: Seq<LogRecord>,
)
    requires
        0 <= from <= i <= segments.len(),
        forall|j: int|
            0 <= j < i ==> replay::scan((#[trigger] segments[j]).1, 0).1 == SegmentTail::Clean,
        before == wal_laws::all_records(segments.subrange(0, from)),
    ensures
        replay::recovered_from(segments, from, watermark, before) == replay::recovered_from(
            segments,
            i,
            watermark,
            wal_laws::all_records(segments.subrange(0, i)),
        ),
    decreases i - from,
{
    if from < i {
        let next = segments.subrange(0, from + 1);
        assert(next.drop_last() =~= segments.subrange(0, from));
        assert(next.last() == segments[from]);
        lemma_clean_run(
            segments,
            from + 1,
            i,
            watermark,
            before + replay::scan(segments[from].1, 0).0,
        );
    }
}

/// Recovery reads the segments in order. Damage is refused wherever it is, and told by
/// segment and place; a segment that ends inside a record is refused too, unless it is
/// the last and what is missing cannot have been committed: then it is cut there.
pub proof fn law_first_damage_decides_recovery(
    segments: Seq<(u64, Seq<u8>)>,
    i: int,
    watermark: u64,
)
    requires
        0 <= i < segments.len(),
        forall|j: int|
            0 <= j < i ==> replay::scan((#[trigger] segments[j]).1, 0).1 == SegmentTail::Clean,
    ensures
        ({
            let (records, tail) = replay::scan(segments[i].1, 0);
            let all = wal_laws::all_records(segments.subrange(0, i)) + records;
            let es = replay::entries_of(all);
            let last = if es.len() == 0 {
                watermark
            } else {
                es.last().index
            };
            let commit = replay::hard_of(all).commit;
            let out = replay::recovered(segments, watermark);
            match tail {
                SegmentTail::Clean => i == segments.len() - 1 ==> out == Ok::<
                    (Seq<LogRecord>, Option<(u64, u64)>),
                    Fault,
                >((all, None)),
                SegmentTail::Torn { offset } => if i < segments.len() - 1 {
                    out == Err::<(Seq<LogRecord>, Option<(u64, u64)>), Fault>(
                        Fault::TornSegment { segment: segments[i].0, offset },
                    )
                } else if last <= commit {
                    out == Err::<(Seq<LogRecord>, Option<(u64, u64)>), Fault>(
                        Fault::TornCommitted { last, commit },
                    )
                } else {
                    out == Ok::<(Seq<LogRecord>, Option<(u64, u64)>), Fault>(
                        (all, Some((segments[i].0, offset))),
                    )
                },
                SegmentTail::BadRecord { offset, error } => out == Err::<
                    (Seq<LogRecord>, Option<(u64, u64)>),
                    Fault,
                >(Fault::CorruptRecord { segment: segments[i].0, offset, error }),
                SegmentTail::BadPayload { offset, error } => out == Err::<
                    (Seq<LogRecord>, Option<(u64, u64)>),
                    Fault,
                >(Fault::CorruptPayload { segment: segments[i].0, offset, error }),
            }
        }),
{
    assert(segments.subrange(0, 0) =~= Seq::empty());
    assert(wal_laws::all_records(segments.subrange(0, 0)) =~= Seq::empty());
    lemma_clean_run(segments, 0, i, watermark, Seq::empty());
    if replay::scan(segments[i].1, 0).1 == SegmentTail::Clean && i == segments.len() - 1 {
        let all = wal_laws::all_records(segments.subrange(0, i)) + replay::scan(
            segments[i].1,
            0,
        ).0;
        assert(replay::recovered_from(segments, i + 1, watermark, all) == Ok::<
            (Seq<LogRecord>, Option<(u64, u64)>),
            Fault,
        >((all, None)));
    }
}

// ---------------------------------------------------------------------------
// The log
// ---------------------------------------------------------------------------
/// Whether an entry follows the one before it.
pub open spec fn follows(es: Seq<EntryModel>, k: int) -> bool {
    es[k].index == es[k - 1].index + 1
}

proof fn lemma_gap(es: Seq<EntryModel>, i: int)
    requires
        1 <= i,
    ensures
        replay::gap_from(es, i) is None <==> forall|k: int|
            i <= k < es.len() ==> #[trigger] follows(es, k),
        replay::gap_from(es, i) matches Some(fault) ==> fault is IndexGap,
    decreases es.len() - i,
{
    if i < es.len() {
        lemma_gap(es, i + 1);
        if !follows(es, i) {
            assert(replay::gap_from(es, i) is Some);
        }
    }
}

/// The hole that is told is the first: everything before it follows.
pub proof fn law_first_hole_is_told(es: Seq<EntryModel>, k: int)
    requires
        1 <= k < es.len(),
        forall|j: int| 1 <= j < k ==> #[trigger] follows(es, j),
        !follows(es, k),
    ensures
        replay::gap_from(es, 1) == Some(
            Fault::IndexGap { last: es[k - 1].index, found: es[k].index },
        ),
{
    lemma_first_hole(es, 1, k);
}

proof fn lemma_first_hole(es: Seq<EntryModel>, i: int, k: int)
    requires
        1 <= i <= k < es.len(),
        forall|j: int| 1 <= j < k ==> #[trigger] follows(es, j),
        !follows(es, k),
    ensures
        replay::gap_from(es, i) == Some(
            Fault::IndexGap { last: es[k - 1].index, found: es[k].index },
        ),
    decreases k - i,
{
    if i < k {
        assert(follows(es, i));
        lemma_first_hole(es, i + 1, k);
    }
}

/// What was read makes a log exactly where the snapshot that the identity points at is
/// there or not needed, the entries follow one another, they reach back to the
/// snapshot, and they reach as far as what is committed. Where not, the first of these
/// that fails is told.
pub proof fn law_log_is_whole_or_refused(
    meta: MetaModel,
    snapshot: Option<SnapshotModel>,
    es: Seq<EntryModel>,
    h: HardState,
)
    ensures
        ({
            let fault = wal_model::log_fault(meta, snapshot, es, h);
            let watermark = match snapshot {
                Some(s) => s.index,
                None => 0,
            };
            let kept = es.filter(|e: EntryModel| e.index > watermark);
            let last = if kept.len() == 0 {
                watermark
            } else {
                kept.last().index
            };
            let first = if es.len() == 0 {
                1
            } else {
                es[0].index
            };
            let follow = forall|k: int| 1 <= k < es.len() ==> #[trigger] follows(es, k);
            let missing = meta.snapshot_index != 0 && snapshot is None && first != 1;
            &&& fault is None <==> !missing && follow && (es.len() > 0 ==> es[0].index <= watermark
                + 1) && h.commit <= last
            &&& missing ==> fault == Some(
                Fault::SnapshotMissing { snapshot_index: meta.snapshot_index, first },
            )
            &&& !missing && !follow ==> fault is Some && fault->0 is IndexGap
            &&& !missing && follow && es.len() > 0 && es[0].index > watermark + 1 ==> fault == Some(
                Fault::SnapshotGap { compacted_to: watermark, first: es[0].index },
            )
            &&& !missing && follow && (es.len() > 0 ==> es[0].index <= watermark + 1) && h.commit
                > last ==> fault == Some(Fault::CommitBeyondLog { commit: h.commit, last })
        }),
{
    let watermark = match snapshot {
        Some(s) => s.index,
        None => 0,
    };
    law_entries_above_the_watermark_stay(es, watermark);
    lemma_gap(es, 1);
}

/// A log that opens is what its files hold: the loaded snapshot, the entries above it,
/// the last hard state; nothing is left to sync. It goes on in the last segment, or in
/// a first one where there was none.
pub proof fn law_opened_log_is_what_the_files_hold(opts: OptionsModel, d: Disk)
    ensures
        wal_model::opened(opts, d).1 matches Ok(m) ==> {
            let watermark = match m.snapshot {
                Some(s) => s.index,
                None => 0,
            };
            &&& m.snapshot == wal_model::loaded_snapshot(d.snapshots, m.meta.snapshot_index)
            &&& m.compacted_to == watermark
            &&& replay::recovered(d.segments, watermark) matches Ok((records, cut))
            &&& m.entries == replay::entries_of(records).filter(
                |e: EntryModel| e.index > watermark,
            )
            &&& m.hard_state == replay::hard_of(records)
            &&& !m.pending
            &&& m.max_entry == if m.entries.len() == 0 {
                0
            } else {
                m.entries.last().index
            }
            &&& m.policy == opts.policy
            &&& d.segments.len() > 0 && cut is None ==> m.segment.size
                == d.segments.last().1.len() as u64
            &&& d.segments.len() > 0 && cut is Some ==> m.segment.size == (cut->0).1
            &&& d.segments.len() == 0 ==> m.segment.size == 0
            &&& m.segment.max_bytes == opts.segment_bytes
            &&& m.segment.first_index == if d.segments.len() == 0 {
                1
            } else {
                d.segments.last().0
            }
            &&& m.stats.wal_truncated_records == if cut is Some {
                1
            } else {
                0int
            }
            &&& cut matches Some((first, len)) ==> wal_model::opened(opts, d).0.contains(
                OpModel::Cut(first, len),
            )
        },
{
    if let Ok(m) = wal_model::opened(opts, d).1 {
        let watermark = match m.snapshot {
            Some(s) => s.index,
            None => 0,
        };
        let (records, cut) = replay::recovered(d.segments, watermark)->Ok_0;
        law_entries_above_the_watermark_stay(replay::entries_of(records), watermark);
        if let Some((first, len)) = cut {
            let ops = wal_model::opened(opts, d).0;
            let k = if d.meta is None {
                1int
            } else {
                0
            };
            assert(ops[k] == OpModel::Cut(first, len));
        }
    }
}

// ---------------------------------------------------------------------------
// Recovery rewrite
// ---------------------------------------------------------------------------
/// A recovery rewrite needs an identity, of this very node, and a cluster id that is
/// not empty; where one is missing nothing is touched. Without a new cluster id the
/// old one stays. A log that does not open is not rewritten.
pub proof fn law_rewrite_is_refused_to_strangers(
    d: Disk,
    node_id: Seq<char>,
    new_cluster_id: Option<Seq<char>>,
    policy: FsyncPolicy,
    segment_bytes: u64,
    created_at: u64,
)
    ensures
        ({
            let (ops, result) = wal_model::force_recovered(
                d,
                node_id,
                new_cluster_id,
                policy,
                segment_bytes,
                created_at,
            );
            match d.meta {
                None => ops.len() == 0 && result is Err && result->Err_0 == Fault::MetaMissing,
                Some(file) => match meta::decoded_meta(file) {
                    Err(e) => ops.len() == 0 && result is Err && result->Err_0
                        == Fault::RewriteMeta(e),
                    Ok(meta) => {
                        let target = match new_cluster_id {
                            Some(name) => name,
                            None => meta.cluster_id,
                        };
                        let (open_ops, opened) = wal_model::opened(
                            OptionsModel {
                                cluster_id: meta.cluster_id,
                                node_id,
                                policy,
                                segment_bytes,
                                created_at,
                            },
                            d,
                        );
                        &&& meta.node_id != node_id ==> ops.len() == 0 && result is Err
                            && result->Err_0 == Fault::RewriteNodeIdMismatch
                        &&& meta.node_id == node_id && target.len() == 0 ==> ops.len() == 0
                            && result is Err && result->Err_0 == Fault::EmptyClusterId
                        &&& meta.node_id == node_id && target.len() > 0 && opened is Err ==> ops
                            == open_ops && result is Err && result->Err_0 == opened->Err_0
                        &&& result matches Ok(report) ==> {
                            &&& meta.node_id == node_id
                            &&& report.previous_cluster_id == meta.cluster_id
                            &&& report.cluster_id == target
                            &&& ops.len() >= 2
                            &&& ops[ops.len() - 2] == OpModel::SaveMeta(
                                meta::meta_bytes(MetaModel { cluster_id: target, ..meta }),
                            )
                            &&& ops.last() == OpModel::SyncDir
                        }
                    },
                },
            }
        }),
{
}

/// A term that cannot be raised is not rewritten.
pub proof fn law_last_term_is_not_rewritten(m: WalModel, segments: Seq<(u64, Seq<u8>)>)
    requires
        m.hard_state.term == u64::MAX,
    ensures
        wal_model::rewritten(m, segments).fault == Some(Fault::TermExhausted),
        wal_model::rewritten(m, segments).model == m,
        wal_model::rewritten(m, segments).ops.len() == 0,
{
    reveal(wal_model::rewritten);
}

} // verus!
