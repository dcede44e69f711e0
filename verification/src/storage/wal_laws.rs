//! Laws of the durable log: whatever it did, its files read back as the log.
//!
//! [`backed_log`] says that a log's segment files read back as the log,
//! [`backed_snapshots`] that its snapshot and META files do. Every operation
//! keeps both, and opening such files gives the log back.
use vstd::prelude::*;

use crate::storage::meta::{MetaModel, FORMAT_VERSION};
use crate::storage::record::{DecodeError, RecordType, MAX_RECORD_BYTES};
use crate::storage::replay::{LogRecord, SegmentTail};
use crate::storage::wal_model::{
    Disk, FsyncPolicy, OpModel, OptionsModel, SnapshotFileModel, WalModel,
};
use crate::types::{EntryModel, Fault, HardState, SnapshotModel};
use crate::bytes;
use crate::storage::meta;
use crate::storage::record;
use crate::storage::replay;
use crate::storage::segment;
use crate::storage::snapshot;
use crate::storage::wal_model;

verus! {

// ---------------------------------------------------------------------------
// Scanning
// ---------------------------------------------------------------------------
/// Bytes after a clean run of records do not change how the run reads.
pub proof fn lemma_scan_extend(raw: Seq<u8>, tail: Seq<u8>, offset: int)
    requires
        0 <= offset <= raw.len(),
        replay::scan(raw, offset).1 == SegmentTail::Clean,
    ensures
        replay::scan(raw + tail, offset).0 == replay::scan(raw, offset).0 + replay::scan(
            raw + tail,
            raw.len() as int,
        ).0,
        replay::scan(raw + tail, offset).1 == replay::scan(raw + tail, raw.len() as int).1,
    decreases raw.len() - offset,
{
    let all = raw + tail;
    if offset == raw.len() {
        assert(replay::scan(raw, offset).0 + replay::scan(all, offset).0 =~= replay::scan(all, offset).0);
    } else {
        assert(all.subrange(offset, offset + 4) =~= raw.subrange(offset, offset + 4));
        let end = offset + 8 + bytes::u32_at(raw, offset);
        assert(all.subrange(offset, end) =~= raw.subrange(offset, end));
        lemma_scan_extend(raw, tail, end);
        match record::decoded_record(raw.subrange(offset, end)) {
            Ok((t, p)) => match replay::typed(t, p) {
                Ok(r) => {
                    let rest = replay::scan(raw, end).0;
                    let after = replay::scan(all, raw.len() as int).0;
                    assert((seq![r] + rest) + after =~= seq![r] + (rest + after));
                },
                Err(_) => {},
            },
            Err(_) => {},
        }
    }
}

/// The length of a record's bytes.
pub proof fn lemma_image_len(r: LogRecord)
    requires
        replay::storable(r),
    ensures
        replay::record_image(r).len() == (match r {
            LogRecord::Entry(e) => replay::entry_record_size(e),
            LogRecord::Hard(_) => 34,
        }),
        replay::record_image(r).len() >= 9,
        bytes::u32_at(replay::record_image(r), 0) == replay::record_image(r).len() - 8,
{
    match r {
        LogRecord::Entry(e) => {
            bytes::lemma_u64_bytes(e.index);
            bytes::lemma_u64_bytes(e.term);
            record::lemma_framed_layout(seq![record::type_byte(RecordType::Entry)] + replay::entry_payload(e));
        },
        LogRecord::Hard(h) => {
            bytes::lemma_u64_bytes(h.term);
            bytes::lemma_u64_bytes(h.commit);
            bytes::lemma_u64_bytes(0);
            if let Some(v) = h.vote {
                bytes::lemma_u64_bytes(v);
            }
            record::lemma_framed_layout(seq![record::type_byte(RecordType::HardState)] + replay::hard_payload(h));
        },
    }
}

/// A record's bytes decode to the record.
pub proof fn lemma_image_decodes(r: LogRecord)
    requires
        replay::storable(r),
    ensures
        record::decoded_record(replay::record_image(r)) matches Ok((t, p)) && replay::typed(t, p) == Ok::<
            LogRecord,
            DecodeError,
        >(r),
{
    lemma_image_len(r);
    match r {
        LogRecord::Entry(e) => {
            bytes::lemma_u64_bytes(e.index);
            bytes::lemma_u64_bytes(e.term);
            record::law_record_round_trip(RecordType::Entry, replay::entry_payload(e));
            record::law_entry_round_trip(
                e.index,
                e.term,
                crate::storage::replay::entry_type_byte(e.entry_type),
                e.data,
            );
        },
        LogRecord::Hard(h) => {
            bytes::lemma_u64_bytes(h.term);
            bytes::lemma_u64_bytes(h.commit);
            bytes::lemma_u64_bytes(0);
            if let Some(v) = h.vote {
                bytes::lemma_u64_bytes(v);
            }
            record::law_record_round_trip(RecordType::HardState, replay::hard_payload(h));
            record::law_hard_state_round_trip(h.term, h.vote, h.commit);
        },
    }
}

/// A record written after a clean run of records is read as one more record.
pub proof fn lemma_scan_append(raw: Seq<u8>, r: LogRecord)
    requires
        replay::scan(raw, 0).1 == SegmentTail::Clean,
        replay::storable(r),
    ensures
        replay::scan(raw + replay::record_image(r), 0) == (replay::scan(raw, 0).0.push(r), SegmentTail::Clean),
{
    let image = replay::record_image(r);
    let all = raw + image;
    let at = raw.len() as int;
    lemma_scan_extend(raw, image, 0);
    lemma_image_len(r);
    lemma_image_decodes(r);
    assert(all.subrange(at, at + 4) =~= image.subrange(0, 4));
    assert(all.subrange(at, all.len() as int) =~= image);
    assert(replay::scan(all, all.len() as int).0 =~= Seq::empty());
    assert(replay::scan(all, at).0 =~= seq![r]);
    assert(replay::scan(raw, 0).0 + seq![r] =~= replay::scan(raw, 0).0.push(r));
}

/// Part of a record written after a clean run of records is a tear there.
pub proof fn lemma_scan_torn(raw: Seq<u8>, r: LogRecord, cut: int)
    requires
        replay::scan(raw, 0).1 == SegmentTail::Clean,
        replay::storable(r),
        0 < cut < replay::record_image(r).len(),
    ensures
        replay::scan(raw + replay::record_image(r).subrange(0, cut), 0) == (
            replay::scan(raw, 0).0,
            SegmentTail::Torn { offset: raw.len() as u64 },
        ),
{
    let image = replay::record_image(r);
    let part = image.subrange(0, cut);
    let all = raw + part;
    let at = raw.len() as int;
    lemma_scan_extend(raw, part, 0);
    lemma_image_len(r);
    if cut >= 4 {
        assert(all.subrange(at, at + 4) =~= image.subrange(0, 4));
    }
    assert(replay::scan(raw, 0).0 + Seq::<LogRecord>::empty() =~= replay::scan(raw, 0).0);
}

// ---------------------------------------------------------------------------
// Records of several segments
// ---------------------------------------------------------------------------
/// The records of all segments, in order.
pub open spec fn all_records(segments: Seq<(u64, Seq<u8>)>) -> Seq<LogRecord>
    decreases segments.len(),
{
    if segments.len() == 0 {
        Seq::empty()
    } else {
        all_records(segments.drop_last()) + replay::scan(segments.last().1, 0).0
    }
}

/// Whether every segment ends with a complete record.
pub open spec fn all_clean(segments: Seq<(u64, Seq<u8>)>) -> bool {
    forall|i: int|
        0 <= i < segments.len() ==> replay::scan((#[trigger] segments[i]).1, 0).1 == SegmentTail::Clean
}

/// Whether the segments are in ascending order of their names.
pub open spec fn ascending(segments: Seq<(u64, Seq<u8>)>) -> bool {
    forall|i: int, j: int|
        0 <= i < j < segments.len() ==> (#[trigger] segments[i]).0 < (#[trigger] segments[j]).0
}

/// The entries in one segment.
pub open spec fn entries_in(segment: (u64, Seq<u8>)) -> Seq<EntryModel> {
    replay::entries_of(replay::scan(segment.1, 0).0)
}

/// Whether every entry stands before the name of each later segment, and at or
/// after the name of its own.
pub open spec fn named(segments: Seq<(u64, Seq<u8>)>) -> bool {
    &&& forall|i: int, j: int, k: int|
        #![trigger segments[j], entries_in(segments[i])[k]]
        0 <= i < j < segments.len() && 0 <= k < entries_in(segments[i]).len() ==> entries_in(
            segments[i],
        )[k].index < segments[j].0
    &&& forall|i: int, k: int|
        0 <= i < segments.len() && 0 <= k < entries_in(segments[i]).len() ==> segments[i].0 <= (
        #[trigger] entries_in(segments[i])[k]).index
}

pub proof fn lemma_entries_concat(a: Seq<LogRecord>, b: Seq<LogRecord>)
    ensures
        replay::entries_of(a + b) == replay::entries_of(a) + replay::entries_of(b),
    decreases b.len(),
{
    if b.len() == 0 {
        assert(a + b =~= a);
        assert(replay::entries_of(a) + replay::entries_of(b) =~= replay::entries_of(a));
    } else {
        lemma_entries_concat(a, b.drop_last());
        assert((a + b).drop_last() =~= a + b.drop_last());
        assert((a + b).last() == b.last());
        match b.last() {
            LogRecord::Entry(e) => {
                assert((replay::entries_of(a) + replay::entries_of(b.drop_last())).push(e) =~= replay::entries_of(a)
                    + replay::entries_of(b.drop_last()).push(e));
            },
            LogRecord::Hard(_) => {},
        }
    }
}

pub proof fn lemma_records_concat(a: Seq<(u64, Seq<u8>)>, b: Seq<(u64, Seq<u8>)>)
    ensures
        all_records(a + b) == all_records(a) + all_records(b),
    decreases b.len(),
{
    if b.len() == 0 {
        assert(a + b =~= a);
        assert(all_records(a) + all_records(b) =~= all_records(a));
    } else {
        lemma_records_concat(a, b.drop_last());
        assert((a + b).drop_last() =~= a + b.drop_last());
        assert((a + b).last() == b.last());
        let s = replay::scan(b.last().1, 0).0;
        assert((all_records(a) + all_records(b.drop_last())) + s =~= all_records(a) + (all_records(
            b.drop_last(),
        ) + s));
    }
}

/// Segments that end with complete records are read in full.
pub proof fn lemma_recovered_clean(segments: Seq<(u64, Seq<u8>)>, i: int, watermark: u64)
    requires
        0 <= i <= segments.len(),
        all_clean(segments),
    ensures
        replay::recovered_from(segments, i, watermark, all_records(segments.subrange(0, i))) == Ok::<
            (Seq<LogRecord>, Option<(u64, u64)>),
            Fault,
        >((all_records(segments), None)),
    decreases segments.len() - i,
{
    if i == segments.len() {
        assert(segments.subrange(0, i) =~= segments);
    } else {
        let next = segments.subrange(0, i + 1);
        assert(next.drop_last() =~= segments.subrange(0, i));
        assert(next.last() == segments[i]);
        assert(replay::scan(segments[i].1, 0).1 == SegmentTail::Clean);
        lemma_recovered_clean(segments, i + 1, watermark);
    }
}

/// Segments of which only the last is torn are read up to the tear.
pub proof fn lemma_recovered_torn(
    segments: Seq<(u64, Seq<u8>)>,
    i: int,
    watermark: u64,
    offset: u64,
)
    requires
        0 <= i < segments.len(),
        all_clean(segments.drop_last()),
        replay::scan(segments.last().1, 0).1 == (SegmentTail::Torn { offset }),
    ensures
        replay::recovered_from(segments, i, watermark, all_records(segments.subrange(0, i))) == (if replay::last_of(
            replay::entries_of(all_records(segments)),
            watermark,
        ) <= replay::hard_of(all_records(segments)).commit {
            Err::<(Seq<LogRecord>, Option<(u64, u64)>), Fault>(
                Fault::TornCommitted {
                    last: replay::last_of(replay::entries_of(all_records(segments)), watermark),
                    commit: replay::hard_of(all_records(segments)).commit,
                },
            )
        } else {
            Ok((all_records(segments), Some((segments.last().0, offset))))
        }),
    decreases segments.len() - i,
{
    let next = segments.subrange(0, i + 1);
    assert(next.drop_last() =~= segments.subrange(0, i));
    assert(next.last() == segments[i]);
    if i == segments.len() - 1 {
        assert(next =~= segments);
    } else {
        assert(segments.drop_last()[i] == segments[i]);
        lemma_recovered_torn(segments, i + 1, watermark, offset);
    }
}

// ---------------------------------------------------------------------------
// File operations
// ---------------------------------------------------------------------------
pub proof fn lemma_run_concat(d: Disk, a: Seq<OpModel>, b: Seq<OpModel>)
    ensures
        wal_model::run(d, a + b) == wal_model::run(wal_model::run(d, a), b),
    decreases b.len(),
{
    if b.len() == 0 {
        assert(a + b =~= a);
    } else {
        lemma_run_concat(d, a, b.drop_last());
        assert((a + b).drop_last() =~= a + b.drop_last());
        assert((a + b).last() == b.last());
    }
}

pub proof fn lemma_run_push(d: Disk, ops: Seq<OpModel>, op: OpModel)
    ensures
        wal_model::run(d, ops.push(op)) == wal_model::run_one(wal_model::run(d, ops), op),
{
    assert(ops.push(op).drop_last() =~= ops);
}

pub proof fn lemma_run_first(d: Disk, op: OpModel, ops: Seq<OpModel>)
    ensures
        wal_model::run(d, seq![op] + ops) == wal_model::run(wal_model::run_one(d, op), ops),
{
    lemma_run_concat(d, seq![op], ops);
    assert(seq![op].drop_last() =~= Seq::empty());
    assert(wal_model::run(d, seq![op]) == wal_model::run_one(wal_model::run(d, Seq::empty()), op));
}

/// Writing to the last segment.
proof fn lemma_write_last(d: Disk, bytes: Seq<u8>)
    requires
        d.segments.len() > 0,
        ascending(d.segments),
    ensures
        wal_model::run_one(d, OpModel::Write(d.segments.last().0, bytes)).segments
            == d.segments.drop_last().push((d.segments.last().0, d.segments.last().1 + bytes)),
{
    let first = d.segments.last().0;
    let out = wal_model::run_one(d, OpModel::Write(first, bytes)).segments;
    let goal = d.segments.drop_last().push((first, d.segments.last().1 + bytes));
    assert forall|i: int| 0 <= i < out.len() implies out[i] == goal[i] by {
        if i < d.segments.len() - 1 {
            assert(d.segments[i].0 < d.segments[d.segments.len() - 1].0);
        }
    }
    assert(out =~= goal);
}

proof fn lemma_all_below(segments: Seq<(u64, Seq<u8>)>, first: u64)
    requires
        forall|i: int| 0 <= i < segments.len() ==> (#[trigger] segments[i]).0 < first,
    ensures
        wal_model::segments_below(segments, first) == segments.len(),
    decreases segments.len(),
{
    if segments.len() > 0 {
        assert(segments[segments.len() - 1].0 < first);
        assert forall|i: int| 0 <= i < segments.drop_last().len() implies (
        #[trigger] segments.drop_last()[i]).0 < first by {
            assert(segments[i].0 < first);
        }
        lemma_all_below(segments.drop_last(), first);
    }
}

/// Creating a segment whose name is above all others.
proof fn lemma_create_last(d: Disk, first: u64)
    requires
        forall|i: int| 0 <= i < d.segments.len() ==> (#[trigger] d.segments[i]).0 < first,
    ensures
        wal_model::run_one(d, OpModel::Create(first)) == (Disk {
            segments: d.segments.push((first, Seq::<u8>::empty())),
            ..d
        }),
{
    lemma_all_below(d.segments, first);
    assert(!wal_model::has_segment(d.segments, first));
    assert(d.segments.insert(d.segments.len() as int, (first, Seq::<u8>::empty()))
        =~= d.segments.push((first, Seq::<u8>::empty())));
}

/// Removing a segment takes out exactly the one of that name.
proof fn lemma_without(segments: Seq<(u64, Seq<u8>)>, p: int)
    requires
        ascending(segments),
        0 <= p < segments.len(),
    ensures
        wal_model::without_segment(segments, segments[p].0) == segments.remove(p),
    decreases segments.len(),
{
    let init = segments.drop_last();
    let first = segments[p].0;
    if p == segments.len() - 1 {
        lemma_without_none(init, first);
        assert(segments.remove(p) =~= init);
    } else {
        assert(segments[p].0 < segments[segments.len() - 1].0);
        assert(ascending(init)) by {
            assert forall|i: int, j: int| 0 <= i < j < init.len() implies (#[trigger] init[i]).0 < (
            #[trigger] init[j]).0 by {
                assert(segments[i].0 < segments[j].0);
            }
        }
        assert(init[p] == segments[p]);
        lemma_without(init, p);
        assert(segments.remove(p) =~= init.remove(p).push(segments.last()));
    }
}

proof fn lemma_without_none(segments: Seq<(u64, Seq<u8>)>, first: u64)
    requires
        forall|i: int| 0 <= i < segments.len() ==> (#[trigger] segments[i]).0 != first,
    ensures
        wal_model::without_segment(segments, first) == segments,
    decreases segments.len(),
{
    if segments.len() > 0 {
        assert(segments[segments.len() - 1].0 != first);
        assert forall|i: int| 0 <= i < segments.drop_last().len() implies (
        #[trigger] segments.drop_last()[i]).0 != first by {
            assert(segments[i].0 != first);
        }
        lemma_without_none(segments.drop_last(), first);
        assert(segments.drop_last().push(segments.last()) =~= segments);
    }
}

/// Where a name stands among segments in ascending order.
proof fn lemma_below(segments: Seq<(u64, Seq<u8>)>, first: u64)
    requires
        ascending(segments),
    ensures
        0 <= wal_model::segments_below(segments, first) <= segments.len(),
        forall|i: int|
            0 <= i < wal_model::segments_below(segments, first) ==> (#[trigger] segments[i]).0
                < first,
        forall|i: int|
            wal_model::segments_below(segments, first) <= i < segments.len() ==> (
            #[trigger] segments[i]).0 >= first,
    decreases segments.len(),
{
    if segments.len() > 0 {
        let init = segments.drop_last();
        let n = segments.len() - 1;
        assert(ascending(init)) by {
            assert forall|i: int, j: int| 0 <= i < j < init.len() implies (#[trigger] init[i]).0 < (
            #[trigger] init[j]).0 by {
                assert(segments[i].0 < segments[j].0);
            }
        }
        lemma_below(init, first);
        let a = wal_model::segments_below(init, first);
        if segments[n].0 < first && a < n {
            assert(init[a].0 >= first);
            assert(segments[a].0 < segments[n].0);
        }
        assert forall|i: int|
            0 <= i < wal_model::segments_below(segments, first) implies (
        #[trigger] segments[i]).0 < first by {
            if i < n {
                assert(init[i] == segments[i]);
            }
        }
        assert forall|i: int|
            wal_model::segments_below(segments, first) <= i < segments.len() implies (
        #[trigger] segments[i]).0 >= first by {
            if i < n {
                assert(init[i] == segments[i]);
            }
        }
    }
}

/// Segments with `x` in place of those from number `a` to number `b`, without
/// the first `k` of the others.
pub open spec fn around(all: Seq<(u64, Seq<u8>)>, x: (u64, Seq<u8>), a: int, b: int, k: int) -> Seq<
    (u64, Seq<u8>),
> {
    all.subrange(
        if k < a {
            k
        } else {
            a
        },
        a,
    ).push(x) + all.subrange(
        if k < b {
            b
        } else {
            k
        },
        all.len() as int,
    )
}

/// Whether `x` can stand in place of the segments from number `a` to number `b`.
pub open spec fn fits_at(all: Seq<(u64, Seq<u8>)>, x: (u64, Seq<u8>), a: int, b: int) -> bool {
    &&& 0 <= a <= b <= all.len()
    &&& b <= a + 1
    &&& b == a + 1 ==> all[a].0 == x.0
    &&& forall|i: int| 0 <= i < a ==> (#[trigger] all[i]).0 < x.0
    &&& forall|i: int| b <= i < all.len() ==> (#[trigger] all[i]).0 > x.0
}

/// What replacing a segment does.
proof fn lemma_replaced(d: Disk, x: (u64, Seq<u8>)) -> (at: (int, int))
    requires
        ascending(d.segments),
    ensures
        fits_at(d.segments, x, at.0, at.1),
        wal_model::run_one(d, OpModel::Replace(x.0, x.1)) == (Disk {
            segments: around(d.segments, x, at.0, at.1, 0),
            ..d
        }),
{
    let all = d.segments;
    let a = wal_model::segments_below(all, x.0);
    lemma_below(all, x.0);
    let out = wal_model::run_one(d, OpModel::Replace(x.0, x.1)).segments;
    if wal_model::has_segment(all, x.0) {
        let p = choose|i: int| 0 <= i < all.len() && (#[trigger] all[i]).0 == x.0;
        if a < p {
            assert(all[a].0 < all[p].0);
        }
        assert(a == p);
        assert forall|i: int| a + 1 <= i < all.len() implies (#[trigger] all[i]).0 > x.0 by {
            assert(all[a].0 < all[i].0);
        }
        assert(out =~= around(all, x, a, a + 1, 0));
        (a, a + 1)
    } else {
        assert(out =~= around(all, x, a, a, 0));
        (a, a)
    }
}

proof fn lemma_around_ascending(all: Seq<(u64, Seq<u8>)>, x: (u64, Seq<u8>), a: int, b: int, k: int)
    requires
        ascending(all),
        fits_at(all, x, a, b),
        0 <= k <= all.len(),
    ensures
        ascending(around(all, x, a, b, k)),
{
    let segs = around(all, x, a, b, k);
    let from = if k < a {
        k
    } else {
        a
    };
    let then = if k < b {
        b
    } else {
        k
    };
    assert forall|i: int, j: int| 0 <= i < j < segs.len() implies (#[trigger] segs[i]).0 < (
    #[trigger] segs[j]).0 by {
        let p = a - from;
        if i < p {
            assert(segs[i] == all[from + i]);
        } else if i > p {
            assert(segs[i] == all[then + (i - p - 1)]);
        }
        if j < p {
            assert(segs[j] == all[from + j]);
        } else if j > p {
            assert(segs[j] == all[then + (j - p - 1)]);
        }
    }
}

/// Removing segment number `k` of those that stand around `x`.
proof fn lemma_removed_around(
    d: Disk,
    all: Seq<(u64, Seq<u8>)>,
    x: (u64, Seq<u8>),
    a: int,
    b: int,
    k: int,
)
    requires
        ascending(all),
        fits_at(all, x, a, b),
        0 <= k < all.len(),
        k < a || k >= b,
        d.segments == around(all, x, a, b, k),
    ensures
        wal_model::run_one(d, OpModel::Remove(all[k].0)) == (Disk {
            segments: around(all, x, a, b, k + 1),
            ..d
        }),
{
    lemma_around_ascending(all, x, a, b, k);
    let p: int = if k < a {
        0
    } else {
        1
    };
    assert(d.segments[p] == all[k]);
    lemma_without(d.segments, p);
    assert(d.segments.remove(p) =~= around(all, x, a, b, k + 1));
}

/// Removing all segments around `x`, one after the other. Where `x` and the
/// segments before ended with the same hard state, no removal changes it.
proof fn lemma_run_removals_but(
    d: Disk,
    all: Seq<(u64, Seq<u8>)>,
    x: (u64, Seq<u8>),
    a: int,
    b: int,
    k: int,
)
    requires
        ascending(all),
        fits_at(all, x, a, b),
        0 <= k <= all.len(),
        d.segments == around(all, x, a, b, k),
    ensures
        wal_model::run(d, wal_model::removals_but(all, k, x.0)) == (Disk {
            segments: seq![x],
            ..d
        }),
        ends_with_hard(x, replay::hard_of(all_records(all))) ==> hard_state_throughout(
            d,
            wal_model::removals_but(all, k, x.0),
            replay::hard_of(all_records(all)),
        ),
    decreases all.len() - k,
{
    let ops = wal_model::removals_but(all, k, x.0);
    let h = replay::hard_of(all_records(all));
    if ends_with_hard(x, h) {
        lemma_around_hard(all, x, a, b, k);
    }
    if k == all.len() {
        assert(d.segments =~= seq![x]);
    } else {
        let rest = wal_model::removals_but(all, k + 1, x.0);
        if a <= k < b {
            assert(all[k].0 == x.0);
            assert(Seq::<OpModel>::empty() + rest =~= rest);
            assert(around(all, x, a, b, k) =~= around(all, x, a, b, k + 1));
            lemma_run_removals_but(d, all, x, a, b, k + 1);
        } else {
            let op = OpModel::Remove(all[k].0);
            assert(all[k].0 != x.0);
            let next = wal_model::run_one(d, op);
            lemma_removed_around(d, all, x, a, b, k);
            lemma_run_first(d, op, rest);
            lemma_run_removals_but(next, all, x, a, b, k + 1);
            if ends_with_hard(x, h) {
                lemma_throughout_first(d, op, rest, h);
            }
        }
    }
}

/// Removing the segments above `x`, one after the other. The hard state stays
/// throughout, as with [`lemma_run_removals_but`].
proof fn lemma_run_removals_above(
    d: Disk,
    all: Seq<(u64, Seq<u8>)>,
    x: (u64, Seq<u8>),
    p: int,
    k: int,
)
    requires
        ascending(all),
        0 <= p < all.len(),
        fits_at(all, x, p, p + 1),
        0 <= k <= all.len(),
        d.segments == all.subrange(0, p).push(x) + all.subrange(
            if k <= p {
                p + 1
            } else {
                k
            },
            all.len() as int,
        ),
    ensures
        wal_model::run(d, wal_model::removals_above(all, k, x.0)) == (Disk {
            segments: all.subrange(0, p).push(x),
            ..d
        }),
        ends_with_hard(x, replay::hard_of(all_records(all))) ==> hard_state_throughout(
            d,
            wal_model::removals_above(all, k, x.0),
            replay::hard_of(all_records(all)),
        ),
    decreases all.len() - k,
{
    let h = replay::hard_of(all_records(all));
    let head = all.subrange(0, p).push(x);
    let from = if k <= p {
        p + 1
    } else {
        k
    };
    let tail = all.subrange(from, all.len() as int);
    if ends_with_hard(x, h) {
        lemma_tail_hard(all, all.subrange(0, p), x, from);
    }
    if k == all.len() {
        assert(d.segments =~= head);
    } else {
        let rest = wal_model::removals_above(all, k + 1, x.0);
        if k <= p {
            if k < p {
                assert(all[k].0 < x.0);
            }
            assert(Seq::<OpModel>::empty() + rest =~= rest);
            lemma_run_removals_above(d, all, x, p, k + 1);
        } else {
            let op = OpModel::Remove(all[k].0);
            let next = wal_model::run_one(d, op);
            let segs = d.segments;
            assert(all[k].0 > x.0);
            assert(ascending(segs)) by {
                assert forall|i: int, j: int| 0 <= i < j < segs.len() implies (
                #[trigger] segs[i]).0 < (#[trigger] segs[j]).0 by {
                    if i < p {
                        assert(segs[i] == all[i]);
                    } else if i > p {
                        assert(segs[i] == all[i - p - 1 + k]);
                    }
                    if j < p {
                        assert(segs[j] == all[j]);
                    } else if j > p {
                        assert(segs[j] == all[j - p - 1 + k]);
                    }
                }
            }
            assert(segs[p + 1] == all[k]);
            lemma_without(segs, p + 1);
            assert(segs.remove(p + 1) =~= head + all.subrange(k + 1, all.len() as int));
            lemma_run_first(d, op, rest);
            lemma_run_removals_above(next, all, x, p, k + 1);
            if ends_with_hard(x, h) {
                lemma_throughout_first(d, op, rest, h);
            }
        }
    }
}

// ---------------------------------------------------------------------------
// The hard state while operations run
// ---------------------------------------------------------------------------
/// Whether a segment ends with a complete record of the hard state.
pub open spec fn ends_with_hard(x: (u64, Seq<u8>), h: HardState) -> bool {
    &&& replay::scan(x.1, 0).1 == SegmentTail::Clean
    &&& replay::scan(x.1, 0).0.len() > 0
    &&& replay::scan(x.1, 0).0.last() == LogRecord::Hard(h)
}

/// Whether the files read back as the hard state before, between and after the
/// operations: wherever a crash interrupts them, it is not lost.
pub open spec fn hard_state_throughout(d: Disk, ops: Seq<OpModel>, h: HardState) -> bool {
    forall|n: int|
        0 <= n <= ops.len() ==> durable_hard_state(
            #[trigger] wal_model::run(d, ops.subrange(0, n)),
        ) == h
}

proof fn lemma_throughout_first(d: Disk, op: OpModel, rest: Seq<OpModel>, h: HardState)
    requires
        durable_hard_state(d) == h,
        hard_state_throughout(wal_model::run_one(d, op), rest, h),
    ensures
        hard_state_throughout(d, seq![op] + rest, h),
{
    let ops = seq![op] + rest;
    assert forall|n: int| 0 <= n <= ops.len() implies durable_hard_state(
        #[trigger] wal_model::run(d, ops.subrange(0, n)),
    ) == h by {
        if n == 0 {
            assert(ops.subrange(0, 0) =~= Seq::empty());
        } else {
            assert(ops.subrange(0, n) =~= seq![op] + rest.subrange(0, n - 1));
            lemma_run_first(d, op, rest.subrange(0, n - 1));
        }
    }
}

proof fn lemma_throughout_concat(d: Disk, a: Seq<OpModel>, b: Seq<OpModel>, h: HardState)
    requires
        hard_state_throughout(d, a, h),
        hard_state_throughout(wal_model::run(d, a), b, h),
    ensures
        hard_state_throughout(d, a + b, h),
{
    let ops = a + b;
    assert forall|n: int| 0 <= n <= ops.len() implies durable_hard_state(
        #[trigger] wal_model::run(d, ops.subrange(0, n)),
    ) == h by {
        if n <= a.len() {
            assert(ops.subrange(0, n) =~= a.subrange(0, n));
        } else {
            let k = n - a.len();
            assert(ops.subrange(0, n) =~= a + b.subrange(0, k));
            lemma_run_concat(d, a, b.subrange(0, k));
        }
    }
}

/// Operations that touch no segment keep the hard state.
proof fn lemma_throughout_apart(d: Disk, ops: Seq<OpModel>, h: HardState)
    requires
        durable_hard_state(d) == h,
        forall|i: int| 0 <= i < ops.len() ==> apart(#[trigger] ops[i]),
    ensures
        hard_state_throughout(d, ops, h),
    decreases ops.len(),
{
    if ops.len() == 0 {
        assert forall|n: int| 0 <= n <= ops.len() implies durable_hard_state(
            #[trigger] wal_model::run(d, ops.subrange(0, n)),
        ) == h by {
            assert(ops.subrange(0, n) =~= Seq::empty());
        }
    } else {
        let rest = ops.drop_first();
        assert(apart(ops[0]));
        assert forall|i: int| 0 <= i < rest.len() implies apart(#[trigger] rest[i]) by {
            assert(rest[i] == ops[i + 1]);
        }
        lemma_throughout_apart(wal_model::run_one(d, ops[0]), rest, h);
        lemma_throughout_first(d, ops[0], rest, h);
        assert(seq![ops[0]] + rest =~= ops);
    }
}

/// Whether an operation leaves the contents of all segments alone.
pub open spec fn apart(op: OpModel) -> bool {
    match op {
        OpModel::Create(_) | OpModel::Write(_, _) | OpModel::Cut(_, _) | OpModel::Replace(_, _)
        | OpModel::Remove(_) => false,
        _ => true,
    }
}

/// Records that end with a hard state stand for whatever stood before a tail.
proof fn lemma_hard_tail(p: Seq<LogRecord>, q: Seq<LogRecord>, tail: Seq<LogRecord>)
    requires
        q.len() > 0,
        q.last() == LogRecord::Hard(replay::hard_of(p + tail)),
    ensures
        replay::hard_of(q + tail) == replay::hard_of(p + tail),
    decreases tail.len(),
{
    if tail.len() == 0 {
        assert(q + tail =~= q);
    } else {
        assert((q + tail).last() == tail.last());
        assert((p + tail).last() == tail.last());
        assert((q + tail).drop_last() =~= q + tail.drop_last());
        assert((p + tail).drop_last() =~= p + tail.drop_last());
        if tail.last() is Entry {
            lemma_hard_tail(p, q, tail.drop_last());
        }
    }
}

/// A segment that ends with the hard state, before some of the segments' tail.
proof fn lemma_tail_hard(
    all: Seq<(u64, Seq<u8>)>,
    head: Seq<(u64, Seq<u8>)>,
    x: (u64, Seq<u8>),
    from: int,
)
    requires
        0 <= from <= all.len(),
        ends_with_hard(x, replay::hard_of(all_records(all))),
    ensures
        replay::hard_of(all_records(head.push(x) + all.subrange(from, all.len() as int)))
            == replay::hard_of(all_records(all)),
{
    let gone = all.subrange(0, from);
    let tail = all.subrange(from, all.len() as int);
    assert(all =~= gone + tail);
    lemma_records_concat(gone, tail);
    lemma_records_concat(head.push(x), tail);
    assert(head.push(x).drop_last() =~= head);
    lemma_hard_tail(all_records(gone), all_records(head.push(x)), all_records(tail));
}

proof fn lemma_around_hard(all: Seq<(u64, Seq<u8>)>, x: (u64, Seq<u8>), a: int, b: int, k: int)
    requires
        fits_at(all, x, a, b),
        0 <= k <= all.len(),
        ends_with_hard(x, replay::hard_of(all_records(all))),
    ensures
        replay::hard_of(all_records(around(all, x, a, b, k))) == replay::hard_of(all_records(all)),
{
    let from = if k < a {
        k
    } else {
        a
    };
    let then = if k < b {
        b
    } else {
        k
    };
    lemma_tail_hard(all, all.subrange(from, a), x, then);
}

/// A segment's clean records followed by a record of a hard state.
proof fn lemma_hard_appended(first: u64, raw: Seq<u8>, h: HardState)
    requires
        replay::scan(raw, 0).1 == SegmentTail::Clean,
    ensures
        ends_with_hard((first, raw + wal_model::hard_image(h)), h),
{
    lemma_scan_append(raw, LogRecord::Hard(h));
}

// ---------------------------------------------------------------------------
// Files that read back as the log
// ---------------------------------------------------------------------------
/// A length as a segment's size: capped at the largest `u64`.
pub open spec fn capped_len(n: nat) -> u64 {
    segment::capped_sum(n as int, 0)
}

/// Whether the segment files read back as the log and its hard state.
pub open spec fn backed_log(m: WalModel, d: Disk) -> bool {
    let es = replay::entries_of(all_records(d.segments));
    &&& d.segments.len() > 0
    &&& ascending(d.segments)
    &&& all_clean(d.segments)
    &&& named(d.segments)
    &&& d.segments.last().0 == m.segment.first_index
    &&& m.segment.size == capped_len(d.segments.last().1.len())
    &&& m.segment.first_index <= m.last() + 1
    &&& replay::contiguous(es)
    &&& es.len() > 0 ==> es[0].index <= m.compacted_to + 1 && es.last().index >= m.compacted_to
    &&& replay::retained(es, m.compacted_to) == m.entries
    &&& durable_hard_state(d) == m.hard_state
}

/// The hard state that the segment files read back as.
pub open spec fn durable_hard_state(d: Disk) -> HardState {
    replay::hard_of(all_records(d.segments))
}

/// No entry in the files lies beyond the log's end.
proof fn lemma_entries_within(m: WalModel, d: Disk, k: int)
    requires
        m.wf(),
        backed_log(m, d),
        0 <= k < replay::entries_of(all_records(d.segments)).len(),
    ensures
        replay::entries_of(all_records(d.segments))[k].index <= m.last(),
        replay::entries_of(all_records(d.segments)).last().index <= m.last(),
        replay::entries_of(all_records(d.segments)).last().index == m.last() || m.entries.len() == 0,
{
    let es = replay::entries_of(all_records(d.segments));
    replay::lemma_retained_suffix(es, m.compacted_to);
    assert(es[k].index == es[0].index + k);
    assert(es[es.len() - 1].index == es[0].index + (es.len() - 1));
    if es.last().index > m.compacted_to {
        assert(m.entries.last() == es.last());
    }
}

/// The entries of one segment are among those of all.
proof fn lemma_entry_in_all(segments: Seq<(u64, Seq<u8>)>, i: int, k: int)
    requires
        0 <= i < segments.len(),
        0 <= k < entries_in(segments[i]).len(),
    ensures
        replay::entries_of(all_records(segments)).contains(entries_in(segments[i])[k]),
{
    let a = segments.subrange(0, i);
    let b = segments.subrange(i, segments.len() as int);
    let one = segments.subrange(i, i + 1);
    let c = segments.subrange(i + 1, segments.len() as int);
    assert(segments =~= a + b);
    assert(b =~= one + c);
    lemma_records_concat(a, b);
    lemma_records_concat(one, c);
    lemma_entries_concat(all_records(a), all_records(b));
    lemma_entries_concat(all_records(one), all_records(c));
    assert(one.drop_last() =~= Seq::empty());
    assert(one.last() == segments[i]);
    assert(all_records(one.drop_last()) =~= Seq::empty());
    assert(all_records(one) =~= replay::scan(segments[i].1, 0).0);
    let e = entries_in(segments[i])[k];
    let at = replay::entries_of(all_records(a)).len() + k;
    assert(replay::entries_of(all_records(segments))[at] == e);
}

/// A new empty segment after the others adds no record.
proof fn lemma_new_segment(segs: Seq<(u64, Seq<u8>)>, next: u64)
    requires
        ascending(segs),
        all_clean(segs),
        named(segs),
        forall|i: int| 0 <= i < segs.len() ==> (#[trigger] segs[i]).0 < next,
        forall|i: int|
            0 <= i < replay::entries_of(all_records(segs)).len() ==> (#[trigger] replay::entries_of(
                all_records(segs),
            )[i]).index < next,
    ensures
        all_records(segs.push((next, Seq::<u8>::empty()))) == all_records(segs),
        all_clean(segs.push((next, Seq::<u8>::empty()))),
        ascending(segs.push((next, Seq::<u8>::empty()))),
        named(segs.push((next, Seq::<u8>::empty()))),
{
    let out = segs.push((next, Seq::<u8>::empty()));
    assert(out.drop_last() =~= segs);
    assert(replay::scan(Seq::<u8>::empty(), 0).0 =~= Seq::empty());
    assert(all_records(out) =~= all_records(segs));
    assert forall|i: int, k: int|
        0 <= i < out.len() && 0 <= k < entries_in(out[i]).len() implies out[i].0 <= (
    #[trigger] entries_in(out[i])[k]).index by {
        if i < segs.len() {
            assert(out[i] == segs[i]);
        }
    }
    assert forall|i: int, j: int, k: int|
        #![trigger out[j], entries_in(out[i])[k]]
        0 <= i < j < out.len() && 0 <= k < entries_in(out[i]).len() implies entries_in(
        out[i],
    )[k].index < out[j].0 by {
        assert(out[i] == segs[i]);
        if j < segs.len() {
            assert(out[j] == segs[j]);
        } else {
            lemma_entry_in_all(segs, i, k);
            let all = replay::entries_of(all_records(segs));
            let at = choose|at: int| 0 <= at < all.len() && all[at] == entries_in(segs[i])[k];
            assert(all[at].index < next);
        }
    }
}

/// What the file operations of a rollover do.
proof fn lemma_rolled_run(m: WalModel, d: Disk, next: u64)
    requires
        m.segment.size >= m.segment.max_bytes,
    ensures
        wal_model::run(d, wal_model::rolled_ops(m, next)) == wal_model::run_one(d, OpModel::Create(next)),
{
    let a = OpModel::Sync(m.segment.first_index);
    let b = OpModel::Synced(m.segment.first_index, m.max_entry);
    let c = OpModel::Create(next);
    let e = Seq::<OpModel>::empty();
    let tail = seq![c, OpModel::SyncDir];
    assert(tail =~= e.push(c).push(OpModel::SyncDir));
    lemma_run_push(d, e.push(c), OpModel::SyncDir);
    lemma_run_push(d, e, c);
    if m.pending {
        assert(seq![a, b] =~= e.push(a).push(b));
        lemma_run_push(d, e.push(a), b);
        lemma_run_push(d, e, a);
        lemma_run_concat(d, seq![a, b], tail);
    } else {
        lemma_run_concat(d, e, tail);
    }
}

/// Rolling over before the entry that follows the log.
proof fn lemma_rolled_backed(m: WalModel, d: Disk, next: u64)
    requires
        m.wf(),
        backed_log(m, d),
        m.last() < u64::MAX,
        next == m.last() + 1,
    ensures
        wal_model::rolled_model(m, next).wf(),
        backed_log(wal_model::rolled_model(m, next), wal_model::run(d, wal_model::rolled_ops(m, next))),
        durable_hard_state(wal_model::run(d, wal_model::rolled_ops(m, next))) == durable_hard_state(d),
        wal_model::run(d, wal_model::rolled_ops(m, next)).snapshots == d.snapshots,
        wal_model::run(d, wal_model::rolled_ops(m, next)).meta == d.meta,
{
    if m.segment.size >= m.segment.max_bytes {
        lemma_rolled_run(m, d, next);
        let n = d.segments.len() - 1;
        if m.segment.first_index == next {
            assert(d.segments[n].0 == next);
            assert(wal_model::has_segment(d.segments, next));
        } else {
            assert forall|i: int| 0 <= i < d.segments.len() implies (#[trigger] d.segments[i]).0
                < next by {
                if i < n {
                    assert(d.segments[i].0 < d.segments[n].0);
                }
            }
            lemma_create_last(d, next);
            let all = replay::entries_of(all_records(d.segments));
            assert forall|i: int| 0 <= i < all.len() implies (#[trigger] all[i]).index < next by {
                lemma_entries_within(m, d, i);
            }
            lemma_new_segment(d.segments, next);
        }
    } else {
        assert(wal_model::run(d, wal_model::rolled_ops(m, next)) == d);
    }
}

/// A rollover keeps the hard state in the files throughout.
proof fn lemma_rolled_throughout(m: WalModel, d: Disk, next: u64)
    requires
        m.wf(),
        backed_log(m, d),
        m.last() < u64::MAX,
        next == m.last() + 1,
    ensures
        hard_state_throughout(d, wal_model::rolled_ops(m, next), m.hard_state),
{
    let h = m.hard_state;
    let ops = wal_model::rolled_ops(m, next);
    if m.segment.size >= m.segment.max_bytes {
        let e = Seq::<OpModel>::empty();
        let a = OpModel::Sync(m.segment.first_index);
        let b = OpModel::Synced(m.segment.first_index, m.max_entry);
        let c = OpModel::Create(next);
        let head = if m.pending {
            seq![a, b]
        } else {
            e
        };
        let sync = seq![OpModel::SyncDir];
        lemma_rolled_backed(m, d, next);
        lemma_rolled_run(m, d, next);
        assert(durable_hard_state(wal_model::run_one(d, c)) == h);
        lemma_throughout_apart(wal_model::run_one(d, c), sync, h);
        lemma_throughout_first(d, c, sync, h);
        lemma_throughout_apart(d, head, h);
        if m.pending {
            assert(head =~= e.push(a).push(b));
            lemma_run_push(d, e.push(a), b);
            lemma_run_push(d, e, a);
        }
        assert(wal_model::run(d, head) == d);
        lemma_throughout_concat(d, head, seq![c] + sync, h);
        assert(ops =~= head + (seq![c] + sync));
    } else {
        lemma_throughout_apart(d, ops, h);
    }
}

/// Writing one record to the active segment.
proof fn lemma_written_records(d: Disk, r: LogRecord)
    requires
        d.segments.len() > 0,
        ascending(d.segments),
        all_clean(d.segments),
        replay::storable(r),
    ensures
        ({
            let d1 = wal_model::run_one(d, OpModel::Write(d.segments.last().0, replay::record_image(r)));
            &&& all_records(d1.segments) == all_records(d.segments).push(r)
            &&& all_clean(d1.segments)
            &&& ascending(d1.segments)
            &&& named(d.segments) && (r matches LogRecord::Entry(e) ==> d.segments.last().0
                <= e.index) ==> named(d1.segments)
            &&& d1.segments.len() == d.segments.len()
            &&& d1.segments.last().0 == d.segments.last().0
            &&& d1.segments.last().1.len() == d.segments.last().1.len() + replay::record_image(r).len()
            &&& d1.snapshots == d.snapshots
            &&& d1.meta == d.meta
        }),
{
    let segs = d.segments;
    let bytes = replay::record_image(r);
    let d1 = wal_model::run_one(d, OpModel::Write(segs.last().0, bytes));
    let out = d1.segments;
    lemma_write_last(d, bytes);
    assert(replay::scan(segs[segs.len() - 1].1, 0).1 == SegmentTail::Clean);
    lemma_scan_append(segs.last().1, r);
    assert(out.drop_last() =~= segs.drop_last());
    let a = all_records(segs.drop_last());
    let b = replay::scan(segs.last().1, 0).0;
    assert(a + b.push(r) =~= (a + b).push(r));
    assert(all_clean(out)) by {
        assert forall|i: int| 0 <= i < out.len() implies replay::scan((#[trigger] out[i]).1, 0).1
            == SegmentTail::Clean by {
            if i < segs.len() - 1 {
                assert(out[i] == segs[i]);
            }
        }
    }
    assert(ascending(out)) by {
        assert forall|i: int, j: int| 0 <= i < j < out.len() implies (#[trigger] out[i]).0 < (
        #[trigger] out[j]).0 by {
            assert(segs[i].0 < segs[j].0);
        }
    }
    if named(segs) && (r matches LogRecord::Entry(e) ==> segs.last().0 <= e.index) {
        let n = segs.len() - 1;
        replay::lemma_entries_push(b, r);
        assert forall|i: int, k: int|
            0 <= i < out.len() && 0 <= k < entries_in(out[i]).len() implies out[i].0 <= (
        #[trigger] entries_in(out[i])[k]).index by {
            assert(out[i].0 == segs[i].0);
            if i < n {
                assert(out[i] == segs[i]);
            } else if k < entries_in(segs[n]).len() {
                assert(entries_in(out[i])[k] == entries_in(segs[n])[k]);
            }
        }
        assert forall|i: int, j: int, k: int|
            #![trigger out[j], entries_in(out[i])[k]]
            0 <= i < j < out.len() && 0 <= k < entries_in(out[i]).len() implies entries_in(
            out[i],
        )[k].index < out[j].0 by {
            assert(out[i] == segs[i]);
            assert(out[j].0 == segs[j].0);
            assert(entries_in(segs[i])[k].index < segs[j].0);
        }
    }
}

proof fn lemma_retained_push(es: Seq<EntryModel>, e: EntryModel, watermark: u64)
    ensures
        replay::retained(es.push(e), watermark) == (if e.index > watermark {
            replay::retained(es, watermark).push(e)
        } else {
            replay::retained(es, watermark)
        }),
{
    assert(es.push(e).drop_last() =~= es);
}

/// Appending one entry keeps the files in step.
proof fn lemma_append_one_backed(m: WalModel, d: Disk, e: EntryModel)
    requires
        m.wf(),
        backed_log(m, d),
        wal_model::append_fault(m.last(), e) is None,
    ensures
        wal_model::appended_model(m, e).wf(),
        wal_model::appended_model(m, e).last() == e.index,
        backed_log(wal_model::appended_model(m, e), wal_model::run(d, wal_model::appended_ops(m, e))),
        durable_hard_state(wal_model::run(d, wal_model::appended_ops(m, e))) == durable_hard_state(d),
        hard_state_throughout(d, wal_model::appended_ops(m, e), m.hard_state),
        wal_model::run(d, wal_model::appended_ops(m, e)).snapshots == d.snapshots,
        wal_model::run(d, wal_model::appended_ops(m, e)).meta == d.meta,
{
    let r = LogRecord::Entry(e);
    let rm = wal_model::rolled_model(m, e.index);
    let d1 = wal_model::run(d, wal_model::rolled_ops(m, e.index));
    lemma_rolled_backed(m, d, e.index);
    let op = OpModel::Write(rm.segment.first_index, replay::record_image(r));
    lemma_run_push(d, wal_model::rolled_ops(m, e.index), op);
    lemma_written_records(d1, r);
    let d2 = wal_model::run_one(d1, op);
    let rs = all_records(d1.segments);
    let es = replay::entries_of(rs);
    replay::lemma_entries_push(rs, r);
    lemma_retained_push(es, e, m.compacted_to);
    if m.entries.len() > 0 {
        assert(m.entries[m.entries.len() - 1].index == m.compacted_to + 1 + (m.entries.len() - 1));
    }
    let am = wal_model::appended_model(m, e);
    assert forall|i: int| 0 <= i < am.entries.len() implies (#[trigger] am.entries[i]).index
        == am.compacted_to + 1 + i by {
        if i < m.entries.len() {
            assert(am.entries[i] == m.entries[i]);
        }
    }
    let es2 = es.push(e);
    assert(replay::contiguous(es2)) by {
        replay::lemma_retained_suffix(es, m.compacted_to);
        if es.len() > 0 {
            lemma_entries_within(rm, d1, es.len() - 1);
            assert(es[es.len() - 1].index == es[0].index + (es.len() - 1));
        }
        assert forall|i: int| 0 <= i < es2.len() implies (#[trigger] es2[i]).index == es2[0].index
            + i by {
            if i < es.len() {
                assert(es[i].index == es[0].index + i);
            }
        }
    }
    assert(replay::entries_of(all_records(d2.segments)) == es2);
    assert(am.segment.size == capped_len(d2.segments.last().1.len()));
    let rolled = wal_model::rolled_ops(m, e.index);
    let none = Seq::<OpModel>::empty();
    lemma_rolled_throughout(m, d, e.index);
    lemma_throughout_apart(d2, none, m.hard_state);
    lemma_throughout_first(d1, op, none, m.hard_state);
    lemma_throughout_concat(d, rolled, seq![op] + none, m.hard_state);
    assert(rolled.push(op) =~= rolled + (seq![op] + none));
}

/// Appending entries that follow the log keeps the files in step, and does not
/// change the hard state that they read back as.
pub proof fn lemma_append_all_backed(m: WalModel, d: Disk, es: Seq<EntryModel>)
    requires
        m.wf(),
        backed_log(m, d),
    ensures
        wal_model::appended_all(m, es).model.wf(),
        backed_log(wal_model::appended_all(m, es).model, wal_model::run(d, wal_model::appended_all(m, es).ops)),
        durable_hard_state(wal_model::run(d, wal_model::appended_all(m, es).ops)) == durable_hard_state(d),
        hard_state_throughout(d, wal_model::appended_all(m, es).ops, m.hard_state),
        wal_model::run(d, wal_model::appended_all(m, es).ops).snapshots == d.snapshots,
        wal_model::run(d, wal_model::appended_all(m, es).ops).meta == d.meta,
    decreases es.len(),
{
    if es.len() > 0 && wal_model::append_fault(m.last(), es[0]) is None {
        let m1 = wal_model::appended_model(m, es[0]);
        let o1 = wal_model::appended_ops(m, es[0]);
        let d1 = wal_model::run(d, o1);
        lemma_append_one_backed(m, d, es[0]);
        lemma_append_all_backed(m1, d1, es.drop_first());
        lemma_run_concat(d, o1, wal_model::appended_all(m1, es.drop_first()).ops);
        lemma_throughout_concat(
            d,
            o1,
            wal_model::appended_all(m1, es.drop_first()).ops,
            m.hard_state,
        );
    } else {
        lemma_throughout_apart(d, wal_model::appended_all(m, es).ops, m.hard_state);
    }
}

// ---------------------------------------------------------------------------
// Cutting the log
// ---------------------------------------------------------------------------
/// Where the entry's record ends, the bytes before end with that entry.
proof fn lemma_entry_end_in(raw: Seq<u8>, offset: int, index: u64)
    requires
        0 <= offset <= raw.len(),
        replay::scan(raw, offset).1 == SegmentTail::Clean,
    ensures
        match replay::entry_end_in(raw, offset, index) {
            Some(end) => {
                let part = replay::scan(raw.subrange(0, end), offset);
                &&& offset < end <= raw.len()
                &&& part.1 == SegmentTail::Clean
                &&& part.0.len() > 0
                &&& part.0.len() <= replay::scan(raw, offset).0.len()
                &&& part.0 == replay::scan(raw, offset).0.subrange(0, part.0.len() as int)
                &&& part.0.last() matches LogRecord::Entry(e) && e.index == index
            },
            None => forall|k: int|
                0 <= k < replay::scan(raw, offset).0.len() ==> ((#[trigger] replay::scan(raw, offset).0[k]) matches
                LogRecord::Entry(e) ==> e.index != index),
        },
    decreases raw.len() - offset,
{
    if offset < raw.len() {
        let end = offset + 8 + bytes::u32_at(raw, offset);
        let bytes = raw.subrange(offset, end);
        let (t, p) = record::decoded_record(bytes).unwrap();
        let r = replay::typed(t, p).unwrap();
        let rest = replay::scan(raw, end).0;
        assert(replay::scan(raw, offset).0 == seq![r] + rest);
        if replay::holds_entry(bytes, index) {
            let cut = raw.subrange(0, end);
            assert(cut.subrange(offset, offset + 4) =~= raw.subrange(offset, offset + 4));
            assert(cut.subrange(offset, end) =~= bytes);
            assert(replay::scan(cut, end).0 =~= Seq::empty());
            assert(replay::scan(cut, offset).0 =~= seq![r]);
            assert(replay::scan(raw, offset).0.subrange(0, 1) =~= seq![r]);
        } else {
            lemma_entry_end_in(raw, end, index);
            match replay::entry_end_in(raw, end, index) {
                Some(stop) => {
                    let cut = raw.subrange(0, stop);
                    assert(cut.subrange(offset, offset + 4) =~= raw.subrange(offset, offset + 4));
                    assert(cut.subrange(offset, end) =~= bytes);
                    let part = replay::scan(cut, end).0;
                    assert(replay::scan(cut, offset).0 == seq![r] + part);
                    assert((seq![r] + part).last() == part.last());
                    assert((seq![r] + rest).subrange(0, 1 + part.len() as int) =~= seq![r]
                        + rest.subrange(0, part.len() as int));
                },
                None => {
                    let all = replay::scan(raw, offset).0;
                    assert forall|k: int| 0 <= k < all.len() implies ((#[trigger] all[k]) matches
                    LogRecord::Entry(e) ==> e.index != index) by {
                        if k > 0 {
                            assert(all[k] == rest[k - 1]);
                        }
                    }
                },
            }
        }
    }
}

/// The segments, cut at `end` in number `i`.
pub open spec fn cut_segments(segments: Seq<(u64, Seq<u8>)>, i: int, end: int) -> Seq<
    (u64, Seq<u8>),
> {
    segments.subrange(0, i).push((segments[i].0, segments[i].1.subrange(0, end)))
}

/// Where the entry's record ends, the segments before end with that entry.
proof fn lemma_entry_end_from(segments: Seq<(u64, Seq<u8>)>, i: int, index: u64)
    requires
        0 <= i <= segments.len(),
        all_clean(segments),
    ensures
        match replay::entry_end_from(segments, i, index) {
            Some((j, end)) => {
                let rs = all_records(cut_segments(segments, j, end));
                &&& i <= j < segments.len()
                &&& 0 < end <= segments[j].1.len()
                &&& all_clean(cut_segments(segments, j, end))
                &&& rs.len() > 0
                &&& rs.len() <= all_records(segments).len()
                &&& rs == all_records(segments).subrange(0, rs.len() as int)
                &&& rs.last() matches LogRecord::Entry(e) && e.index == index
                &&& ({
                    let part = replay::scan(segments[j].1.subrange(0, end), 0).0;
                    &&& 0 < part.len() <= replay::scan(segments[j].1, 0).0.len()
                    &&& part == replay::scan(segments[j].1, 0).0.subrange(0, part.len() as int)
                    &&& part.last() == rs.last()
                })
            },
            None => forall|j: int, k: int|
                #![trigger replay::scan(segments[j].1, 0).0[k]]
                i <= j < segments.len() && 0 <= k < replay::scan(segments[j].1, 0).0.len() ==> (replay::scan(
                    segments[j].1,
                    0,
                ).0[k] matches LogRecord::Entry(e) ==> e.index != index),
        },
    decreases segments.len() - i,
{
    if i < segments.len() {
        assert(replay::scan(segments[i].1, 0).1 == SegmentTail::Clean);
        lemma_entry_end_in(segments[i].1, 0, index);
        match replay::entry_end_in(segments[i].1, 0, index) {
            Some(end) => {
                let cut = cut_segments(segments, i, end);
                let head = segments.subrange(0, i);
                let tail = segments.subrange(i, segments.len() as int);
                let one = segments.subrange(i, i + 1);
                let after = segments.subrange(i + 1, segments.len() as int);
                assert(cut.drop_last() =~= head);
                assert(segments =~= head + tail);
                assert(tail =~= one + after);
                lemma_records_concat(head, tail);
                lemma_records_concat(one, after);
                assert(one.drop_last() =~= Seq::empty());
                assert(one.last() == segments[i]);
                assert(all_records(one.drop_last()) =~= Seq::empty());
                let mine = replay::scan(segments[i].1, 0).0;
                assert(all_records(one) =~= mine);
                let part = replay::scan(segments[i].1.subrange(0, end), 0).0;
                let rs = all_records(cut);
                assert(rs == all_records(head) + part);
                assert(rs.last() == part.last());
                assert(all_records(segments).subrange(0, rs.len() as int) =~= rs);
                assert forall|k: int| 0 <= k < cut.len() implies replay::scan((#[trigger] cut[k]).1, 0).1
                    == SegmentTail::Clean by {
                    if k < i {
                        assert(cut[k] == segments[k]);
                    }
                }
            },
            None => {
                lemma_entry_end_from(segments, i + 1, index);
            },
        }
    }
}

/// An entry among the records of all segments stands in one of them.
proof fn lemma_entry_has_segment(segments: Seq<(u64, Seq<u8>)>, k: int) -> (at: (int, int))
    requires
        0 <= k < replay::entries_of(all_records(segments)).len(),
    ensures
        0 <= at.0 < segments.len(),
        0 <= at.1 < replay::scan(segments[at.0].1, 0).0.len(),
        replay::scan(segments[at.0].1, 0).0[at.1] == LogRecord::Entry(
            replay::entries_of(all_records(segments))[k],
        ),
    decreases segments.len(),
{
    let init = segments.drop_last();
    let n = segments.len() - 1;
    let last = replay::scan(segments.last().1, 0).0;
    lemma_entries_concat(all_records(init), last);
    if k < replay::entries_of(all_records(init)).len() {
        let at = lemma_entry_has_segment(init, k);
        assert(init[at.0] == segments[at.0]);
        at
    } else {
        let j = lemma_entry_has_record(last, k - replay::entries_of(all_records(init)).len());
        (n, j)
    }
}

proof fn lemma_entry_has_record(rs: Seq<LogRecord>, k: int) -> (j: int)
    requires
        0 <= k < replay::entries_of(rs).len(),
    ensures
        0 <= j < rs.len(),
        rs[j] == LogRecord::Entry(replay::entries_of(rs)[k]),
    decreases rs.len(),
{
    let init = rs.drop_last();
    if k < replay::entries_of(init).len() {
        let j = lemma_entry_has_record(init, k);
        assert(init[j] == rs[j]);
        j
    } else {
        rs.len() - 1
    }
}

/// What the file operations of a cut do to the segments, with the hard state in
/// the files throughout.
proof fn lemma_cut_run(d: Disk, i: int, bytes: Seq<u8>)
    requires
        ascending(d.segments),
        0 <= i < d.segments.len(),
        ends_with_hard((d.segments[i].0, bytes), durable_hard_state(d)),
    ensures
        ({
            let x = (d.segments[i].0, bytes);
            let ops = seq![OpModel::Replace(x.0, x.1)] + wal_model::removals_above(
                d.segments,
                0,
                x.0,
            ) + seq![OpModel::SyncDir];
            &&& wal_model::run(d, ops) == (Disk {
                segments: d.segments.subrange(0, i).push(x),
                ..d
            })
            &&& hard_state_throughout(d, ops, durable_hard_state(d))
        }),
{
    let segs = d.segments;
    let x = (segs[i].0, bytes);
    let h = durable_hard_state(d);
    let op = OpModel::Replace(x.0, x.1);
    let gone = wal_model::removals_above(segs, 0, x.0);
    let at = lemma_replaced(d, x);
    if at.0 < i {
        assert(segs[at.0].0 < segs[i].0);
    } else if at.0 > i {
        assert(segs[i].0 < x.0);
    }
    assert(at.1 == i + 1) by {
        if at.1 == i {
            assert(segs[i].0 > x.0);
        }
    }
    let d1 = wal_model::run_one(d, op);
    assert(d1.segments =~= segs.subrange(0, i).push(x) + segs.subrange(i + 1, segs.len() as int));
    lemma_run_removals_above(d1, segs, x, i, 0);
    lemma_run_first(d, op, gone);
    lemma_throughout_first(d, op, gone, h);
    let ops = seq![op] + gone;
    let d2 = wal_model::run(d, ops);
    let sync = seq![OpModel::SyncDir];
    assert(durable_hard_state(d2) == h) by {
        assert(ops.subrange(0, ops.len() as int) =~= ops);
    }
    lemma_run_push(d, ops, OpModel::SyncDir);
    assert(ops + sync =~= ops.push(OpModel::SyncDir));
    lemma_throughout_apart(d2, sync, h);
    lemma_throughout_concat(d, ops, sync, h);
}

/// What replacing all segments by one does, with the hard state in the files
/// throughout.
proof fn lemma_replace_run(d: Disk, first: u64)
    requires
        ascending(d.segments),
    ensures
        ({
            let h = durable_hard_state(d);
            let x = (first, wal_model::hard_image(h));
            let ops = seq![OpModel::Replace(x.0, x.1)] + wal_model::removals_but(
                d.segments,
                0,
                x.0,
            ) + seq![OpModel::SyncDir];
            &&& wal_model::run(d, ops) == (Disk { segments: seq![x], ..d })
            &&& hard_state_throughout(d, ops, h)
        }),
{
    let segs = d.segments;
    let h = durable_hard_state(d);
    let x = (first, wal_model::hard_image(h));
    lemma_one_hard_segment(first, h);
    let op = OpModel::Replace(x.0, x.1);
    let gone = wal_model::removals_but(segs, 0, x.0);
    let at = lemma_replaced(d, x);
    let d1 = wal_model::run_one(d, op);
    lemma_run_removals_but(d1, segs, x, at.0, at.1, 0);
    lemma_run_first(d, op, gone);
    lemma_throughout_first(d, op, gone, h);
    let ops = seq![op] + gone;
    let d2 = wal_model::run(d, ops);
    let sync = seq![OpModel::SyncDir];
    assert(durable_hard_state(d2) == h) by {
        assert(ops.subrange(0, ops.len() as int) =~= ops);
    }
    lemma_run_push(d, ops, OpModel::SyncDir);
    assert(ops + sync =~= ops.push(OpModel::SyncDir));
    lemma_throughout_apart(d2, sync, h);
    lemma_throughout_concat(d, ops, sync, h);
}

/// One segment with a hard state reads back as that alone.
proof fn lemma_one_hard_segment(first: u64, h: HardState)
    ensures
        ({
            let x = (first, wal_model::hard_image(h));
            let segs = seq![x];
            &&& all_records(segs) == seq![LogRecord::Hard(h)]
            &&& replay::entries_of(all_records(segs)) == Seq::<EntryModel>::empty()
            &&& replay::hard_of(all_records(segs)) == h
            &&& all_clean(segs)
            &&& ascending(segs)
            &&& named(segs)
            &&& x.1.len() == 34
            &&& ends_with_hard(x, h)
        }),
{
    let r = LogRecord::Hard(h);
    let image = wal_model::hard_image(h);
    let segs = seq![(first, image)];
    let e = Seq::<u8>::empty();
    assert(e + image =~= image);
    assert(replay::scan(e, 0).0 =~= Seq::empty());
    lemma_scan_append(e, r);
    lemma_image_len(r);
    assert(segs.drop_last() =~= Seq::empty());
    assert(segs.last() == (first, image));
    assert(Seq::<LogRecord>::empty().push(r) =~= seq![r]);
    assert(all_records(segs.drop_last()) =~= Seq::empty());
    assert(all_records(segs) =~= seq![r]);
    replay::lemma_entries_push(Seq::empty(), r);
    assert(entries_in(segs[0]) =~= Seq::empty());
}

/// One empty segment reads back as no record at all.
proof fn lemma_one_empty_segment(first: u64)
    ensures
        ({
            let segs = seq![(first, Seq::<u8>::empty())];
            &&& all_records(segs) == Seq::<LogRecord>::empty()
            &&& all_clean(segs)
            &&& ascending(segs)
            &&& named(segs)
        }),
{
    let segs = seq![(first, Seq::<u8>::empty())];
    assert(segs.drop_last() =~= Seq::empty());
    assert(replay::scan(Seq::<u8>::empty(), 0).0 =~= Seq::empty());
    assert(segs.last() == (first, Seq::<u8>::empty()));
    assert(all_records(segs.drop_last()) =~= Seq::empty());
    assert(all_records(segs) =~= Seq::empty());
}

/// A prefix of the log's records that ends with entry `keep` reads back as the
/// log up to `keep`.
proof fn lemma_prefix_retained(m: WalModel, d: Disk, rs: Seq<LogRecord>, keep: u64)
    requires
        m.wf(),
        backed_log(m, d),
        rs.len() <= all_records(d.segments).len(),
        rs == all_records(d.segments).subrange(0, rs.len() as int),
        rs.len() > 0,
        rs.last() matches LogRecord::Entry(e) && e.index == keep,
        m.compacted_to <= keep <= m.last(),
    ensures
        replay::contiguous(replay::entries_of(rs)),
        replay::entries_of(rs).len() > 0,
        replay::entries_of(rs)[0].index <= m.compacted_to + 1,
        replay::entries_of(rs).last().index == keep,
        replay::retained(replay::entries_of(rs), m.compacted_to) == m.entries.subrange(0, keep - m.compacted_to),
{
    let all = all_records(d.segments);
    let rest = all.subrange(rs.len() as int, all.len() as int);
    assert(all =~= rs + rest);
    lemma_entries_concat(rs, rest);
    let es = replay::entries_of(all);
    let part = replay::entries_of(rs);
    let c = m.compacted_to;
    assert(part.last().index == keep);
    assert(part =~= es.subrange(0, part.len() as int));
    assert forall|i: int| 0 <= i < part.len() implies (#[trigger] part[i]).index == part[0].index
        + i by {
        assert(es[i].index == es[0].index + i);
        assert(es[0] == part[0]);
    }
    replay::lemma_retained_suffix(es, c);
    replay::lemma_retained_suffix(part, c);
    assert(part[part.len() - 1].index == part[0].index + (part.len() - 1));
    assert(es[es.len() - 1].index == es[0].index + (es.len() - 1));
    if keep > c {
        let from = c + 1 - es[0].index;
        assert(part.subrange(from, part.len() as int) =~= es.subrange(
            from,
            es.len() as int,
        ).subrange(0, keep - c));
    } else {
        assert(replay::retained(part, c) =~= m.entries.subrange(0, 0));
    }
}

/// The segments cut after entry `keep` are still named rightly.
proof fn lemma_cut_named(segs: Seq<(u64, Seq<u8>)>, i: int, end: int, keep: u64)
    requires
        ascending(segs),
        all_clean(segs),
        named(segs),
        replay::entry_end_from(segs, 0, keep) == Some((i, end)),
    ensures
        ascending(cut_segments(segs, i, end)),
        named(cut_segments(segs, i, end)),
        segs[i].0 <= keep,
{
    let cut = cut_segments(segs, i, end);
    lemma_entry_end_from(segs, 0, keep);
    let whole = replay::scan(segs[i].1, 0).0;
    let part = replay::scan(segs[i].1.subrange(0, end), 0).0;
    let rest = whole.subrange(part.len() as int, whole.len() as int);
    assert(whole =~= part + rest);
    lemma_entries_concat(part, rest);
    let mine = entries_in(cut[i]);
    assert(mine == replay::entries_of(part));
    assert(mine.last().index == keep);
    assert forall|x: int, k: int|
        0 <= x < cut.len() && 0 <= k < entries_in(cut[x]).len() implies cut[x].0 <= (
    #[trigger] entries_in(cut[x])[k]).index by {
        if x < i {
            assert(cut[x] == segs[x]);
        } else {
            assert(entries_in(cut[x])[k] == entries_in(segs[i])[k]);
        }
    }
    assert(cut[i].0 <= mine[mine.len() - 1].index);
    assert forall|x: int, y: int| 0 <= x < y < cut.len() implies (#[trigger] cut[x]).0 < (
    #[trigger] cut[y]).0 by {
        assert(segs[x].0 < segs[y].0);
    }
    assert forall|x: int, y: int, k: int|
        #![trigger cut[y], entries_in(cut[x])[k]]
        0 <= x < y < cut.len() && 0 <= k < entries_in(cut[x]).len() implies entries_in(
        cut[x],
    )[k].index < cut[y].0 by {
        assert(cut[x] == segs[x]);
        assert(cut[y].0 == segs[y].0);
        assert(entries_in(segs[x])[k].index < segs[y].0);
    }
}

/// The lengths of the segments fit a file size.
pub open spec fn file_sized(segments: Seq<(u64, Seq<u8>)>) -> bool {
    forall|i: int| 0 <= i < segments.len() ==> (#[trigger] segments[i]).1.len() <= u64::MAX
}

proof fn lemma_cut_found(m: WalModel, d: Disk, keep: u64, i: int, end: int)
    requires
        m.wf(),
        backed_log(m, d),
        m.compacted_to <= keep < m.last(),
        file_sized(d.segments),
        replay::entry_end_from(d.segments, 0, keep) == Some((i, end)),
    ensures
        backed_log(wal_model::truncated(m, d.segments, keep).model, wal_model::run(d, wal_model::truncated(m, d.segments, keep).ops)),
        wal_model::truncated(m, d.segments, keep).model.last() == keep,
        wal_model::run(d, wal_model::truncated(m, d.segments, keep).ops).snapshots == d.snapshots,
        wal_model::run(d, wal_model::truncated(m, d.segments, keep).ops).meta == d.meta,
        hard_state_throughout(d, wal_model::truncated(m, d.segments, keep).ops, m.hard_state),
{
    let segs = d.segments;
    let cut = cut_segments(segs, i, end);
    let r = LogRecord::Hard(m.hard_state);
    lemma_entry_end_from(segs, 0, keep);
    assert(segs[i].1.len() <= u64::MAX);
    let part = segs[i].1.subrange(0, end);
    let written = part + wal_model::hard_image(m.hard_state);
    assert(cut[i] == (segs[i].0, part));
    assert(replay::scan(cut[i].1, 0).1 == SegmentTail::Clean);
    lemma_hard_appended(segs[i].0, part, m.hard_state);
    lemma_cut_run(d, i, written);
    lemma_image_len(r);
    let d0 = Disk { segments: cut, ..d };
    lemma_cut_named(segs, i, end, keep);
    lemma_written_records(d0, r);
    lemma_write_last(d0, wal_model::hard_image(m.hard_state));
    assert(cut.drop_last() =~= segs.subrange(0, i));
    replay::lemma_entries_push(all_records(cut), r);
    lemma_prefix_retained(m, d, all_records(cut), keep);
    let o = wal_model::truncated(m, segs, keep).model;
    let n = m.entries.len();
    assert(m.entries[n - 1].index == m.compacted_to + 1 + (n - 1));
    if o.entries.len() > 0 {
        let k = o.entries.len() - 1;
        assert(o.entries[k] == m.entries[k]);
        assert(m.entries[k].index == m.compacted_to + 1 + k);
    }
}

proof fn lemma_cut_all(m: WalModel, d: Disk, keep: u64)
    requires
        m.wf(),
        backed_log(m, d),
        m.compacted_to <= keep < m.last(),
        replay::entry_end_from(d.segments, 0, keep) is None,
    ensures
        keep == m.compacted_to,
        backed_log(wal_model::truncated(m, d.segments, keep).model, wal_model::run(d, wal_model::truncated(m, d.segments, keep).ops)),
        wal_model::truncated(m, d.segments, keep).model.last() == keep,
        wal_model::run(d, wal_model::truncated(m, d.segments, keep).ops).snapshots == d.snapshots,
        wal_model::run(d, wal_model::truncated(m, d.segments, keep).ops).meta == d.meta,
        hard_state_throughout(d, wal_model::truncated(m, d.segments, keep).ops, m.hard_state),
{
    let segs = d.segments;
    let es = replay::entries_of(all_records(segs));
    let c = m.compacted_to;
    let n = m.entries.len();
    assert(m.entries[n - 1].index == c + 1 + (n - 1));
    replay::lemma_retained_suffix(es, c);
    assert(es.len() > 0);
    assert(es[es.len() - 1].index == es[0].index + (es.len() - 1));
    lemma_entry_end_from(segs, 0, keep);
    if es[0].index <= keep {
        let k = keep - es[0].index;
        assert(es[k].index == es[0].index + k);
        let at = lemma_entry_has_segment(segs, k);
        assert(replay::scan(segs[at.0].1, 0).0[at.1] == LogRecord::Entry(es[k]));
        assert(false);
    }
    assert(keep == c);
    lemma_replace_run(d, 1);
    lemma_one_hard_segment(1, m.hard_state);
    assert(replay::retained(Seq::empty(), c) =~= Seq::empty());
}

/// Cutting the log keeps the files in step with it, and never fails. The hard
/// state that the files read back as stays, wherever a crash interrupts the cut.
pub proof fn law_truncation_keeps_files_in_step(m: WalModel, d: Disk, keep: u64)
    requires
        m.wf(),
        backed_log(m, d),
        m.compacted_to <= keep,
        file_sized(d.segments),
    ensures
        wal_model::truncated(m, d.segments, keep).fault is None,
        wal_model::truncated(m, d.segments, keep).model.wf(),
        wal_model::truncated(m, d.segments, keep).model.last() == (if keep < m.last() {
            keep
        } else {
            m.last()
        }),
        backed_log(wal_model::truncated(m, d.segments, keep).model, wal_model::run(d, wal_model::truncated(m, d.segments, keep).ops)),
        wal_model::run(d, wal_model::truncated(m, d.segments, keep).ops).snapshots == d.snapshots,
        wal_model::run(d, wal_model::truncated(m, d.segments, keep).ops).meta == d.meta,
        durable_hard_state(wal_model::run(d, wal_model::truncated(m, d.segments, keep).ops))
            == durable_hard_state(d),
        hard_state_throughout(
            d,
            wal_model::truncated(m, d.segments, keep).ops,
            durable_hard_state(d),
        ),
{
    if keep < m.last() {
        match replay::entry_end_from(d.segments, 0, keep) {
            Some((i, end)) => {
                lemma_cut_found(m, d, keep, i, end);
            },
            None => {
                lemma_cut_all(m, d, keep);
            },
        }
        let o = wal_model::truncated(m, d.segments, keep).model;
        assert forall|i: int| 0 <= i < o.entries.len() implies (#[trigger] o.entries[i]).index
            == o.compacted_to + 1 + i by {
            assert(m.entries[i].index == m.compacted_to + 1 + i);
        }
    } else {
        lemma_throughout_apart(d, Seq::empty(), m.hard_state);
    }
}

// ---------------------------------------------------------------------------
// Appending, hard state, syncing
// ---------------------------------------------------------------------------
/// Appending keeps the files in step with the log, whether it overwrites a
/// suffix or not and wherever it stops. The hard state that the files read back
/// as stays, wherever a crash interrupts it.
pub proof fn law_append_keeps_files_in_step(m: WalModel, d: Disk, es: Seq<EntryModel>)
    requires
        m.wf(),
        backed_log(m, d),
        file_sized(d.segments),
    ensures
        wal_model::appended(m, es, d.segments).model.wf(),
        backed_log(wal_model::appended(m, es, d.segments).model, wal_model::run(d, wal_model::appended(m, es, d.segments).ops)),
        wal_model::run(d, wal_model::appended(m, es, d.segments).ops).snapshots == d.snapshots,
        wal_model::run(d, wal_model::appended(m, es, d.segments).ops).meta == d.meta,
        durable_hard_state(wal_model::run(d, wal_model::appended(m, es, d.segments).ops))
            == durable_hard_state(d),
        hard_state_throughout(
            d,
            wal_model::appended(m, es, d.segments).ops,
            durable_hard_state(d),
        ),
{
    if es.len() > 0 && es[0].index <= m.last() {
        if es[0].index > m.compacted_to && es[0].index > m.hard_state.commit {
            let keep = (es[0].index - 1) as u64;
            let cut = wal_model::truncated(m, d.segments, keep);
            law_truncation_keeps_files_in_step(m, d, keep);
            let d1 = wal_model::run(d, cut.ops);
            lemma_append_all_backed(cut.model, d1, es);
            lemma_run_concat(d, cut.ops, wal_model::appended_all(cut.model, es).ops);
            lemma_throughout_concat(
                d,
                cut.ops,
                wal_model::appended_all(cut.model, es).ops,
                m.hard_state,
            );
        } else {
            lemma_throughout_apart(d, Seq::empty(), m.hard_state);
        }
    } else {
        lemma_append_all_backed(m, d, es);
    }
}

/// An append that starts at or after the log's first index, above the commit
/// index, with consecutive entries that are not too large succeeds, and the log
/// is then what it was before the first of them, followed by them.
pub proof fn law_append_replaces_the_suffix(m: WalModel, d: Disk, es: Seq<EntryModel>)
    requires
        m.wf(),
        backed_log(m, d),
        file_sized(d.segments),
        es.len() > 0,
        replay::contiguous(es),
        m.compacted_to < es[0].index <= m.last() + 1,
        es[0].index <= m.last() ==> m.hard_state.commit < es[0].index,
        forall|i: int|
            0 <= i < es.len() ==> replay::entry_record_size(#[trigger] es[i]) <= MAX_RECORD_BYTES,
    ensures
        wal_model::appended(m, es, d.segments).fault is None,
        wal_model::appended(m, es, d.segments).model.entries == m.entries.subrange(
            0,
            es[0].index - m.compacted_to - 1,
        ) + es,
{
    if es[0].index <= m.last() {
        let keep = (es[0].index - 1) as u64;
        law_truncation_keeps_files_in_step(m, d, keep);
        let cut = wal_model::truncated(m, d.segments, keep).model;
        lemma_append_all_succeeds(cut, es);
        assert(cut.entries =~= m.entries.subrange(0, es[0].index - m.compacted_to - 1));
    } else {
        lemma_append_all_succeeds(m, es);
        if m.entries.len() > 0 {
            let n = m.entries.len();
            assert(m.entries[n - 1].index == m.compacted_to + 1 + (n - 1));
        }
        assert(m.entries.subrange(0, es[0].index - m.compacted_to - 1) =~= m.entries);
    }
}

proof fn lemma_append_all_succeeds(m: WalModel, es: Seq<EntryModel>)
    requires
        m.wf(),
        es.len() > 0,
        replay::contiguous(es),
        m.last() < u64::MAX,
        es[0].index == m.last() + 1,
        forall|i: int|
            0 <= i < es.len() ==> replay::entry_record_size(#[trigger] es[i]) <= MAX_RECORD_BYTES,
    ensures
        wal_model::appended_all(m, es).fault is None,
        wal_model::appended_all(m, es).model.entries == m.entries + es,
    decreases es.len(),
{
    assert(replay::entry_record_size(es[0]) <= MAX_RECORD_BYTES);
    let m1 = wal_model::appended_model(m, es[0]);
    let rest = es.drop_first();
    if m.entries.len() > 0 {
        let n = m.entries.len();
        assert(m.entries[n - 1].index == m.compacted_to + 1 + (n - 1));
    }
    assert forall|i: int| 0 <= i < m1.entries.len() implies (#[trigger] m1.entries[i]).index
        == m1.compacted_to + 1 + i by {
        if i < m.entries.len() {
            assert(m1.entries[i] == m.entries[i]);
        }
    }
    if rest.len() > 0 {
        assert(es[1].index == es[0].index + 1);
        assert forall|i: int| 0 <= i < rest.len() implies (#[trigger] rest[i]).index
            == rest[0].index + i by {
            assert(es[i + 1].index == es[0].index + (i + 1));
        }
        assert forall|i: int| 0 <= i < rest.len() implies replay::entry_record_size(#[trigger] rest[i])
            <= MAX_RECORD_BYTES by {
            assert(replay::entry_record_size(es[i + 1]) <= MAX_RECORD_BYTES);
        }
        lemma_append_all_succeeds(m1, rest);
        assert(m1.entries + rest =~= m.entries + es);
    } else {
        assert(m1.entries =~= m.entries + es);
    }
}

/// Appending never drops or changes an entry at or below the commit index.
pub proof fn law_append_keeps_committed(
    m: WalModel,
    d: Disk,
    es: Seq<EntryModel>,
    i: int,
)
    requires
        m.wf(),
        backed_log(m, d),
        file_sized(d.segments),
        0 <= i < m.entries.len(),
        m.entries[i].index <= m.hard_state.commit,
    ensures
        i < wal_model::appended(m, es, d.segments).model.entries.len(),
        wal_model::appended(m, es, d.segments).model.entries[i] == m.entries[i],
        wal_model::appended(m, es, d.segments).model.compacted_to == m.compacted_to,
        wal_model::appended(m, es, d.segments).model.hard_state == m.hard_state,
{
    assert(m.entries[i].index == m.compacted_to + 1 + i);
    if es.len() > 0 && es[0].index <= m.last() {
        if es[0].index > m.compacted_to && es[0].index > m.hard_state.commit {
            let keep = (es[0].index - 1) as u64;
            law_truncation_keeps_files_in_step(m, d, keep);
            lemma_append_all_extends(wal_model::truncated(m, d.segments, keep).model, es);
        }
    } else {
        lemma_append_all_extends(m, es);
    }
}

proof fn lemma_append_all_extends(m: WalModel, es: Seq<EntryModel>)
    ensures
        m.entries.len() <= wal_model::appended_all(m, es).model.entries.len(),
        forall|i: int|
            0 <= i < m.entries.len() ==> (#[trigger] wal_model::appended_all(m, es).model.entries[i])
                == m.entries[i],
        wal_model::appended_all(m, es).model.compacted_to == m.compacted_to,
        wal_model::appended_all(m, es).model.hard_state == m.hard_state,
    decreases es.len(),
{
    if es.len() > 0 && wal_model::append_fault(m.last(), es[0]) is None {
        let m1 = wal_model::appended_model(m, es[0]);
        lemma_append_all_extends(m1, es.drop_first());
        assert forall|i: int| 0 <= i < m.entries.len() implies (#[trigger] wal_model::appended_all(
            m,
            es,
        ).model.entries[i]) == m.entries[i] by {
            assert(m1.entries[i] == m.entries[i]);
        }
    }
}

/// A hard state that was set is what the files read back as, and the write is
/// followed by its sync before anything else.
pub proof fn law_hard_state_is_durable(m: WalModel, d: Disk, h: HardState)
    requires
        m.wf(),
        backed_log(m, d),
    ensures
        wal_model::hard_state_set(m, h).model.wf(),
        backed_log(wal_model::hard_state_set(m, h).model, wal_model::run(d, wal_model::hard_state_set(m, h).ops)),
        durable_hard_state(wal_model::run(d, wal_model::hard_state_set(m, h).ops)) == h,
        wal_model::run(d, wal_model::hard_state_set(m, h).ops).snapshots == d.snapshots,
        wal_model::run(d, wal_model::hard_state_set(m, h).ops).meta == d.meta,
        wal_model::hard_state_set(m, h).ops[0] is Write,
        wal_model::hard_state_set(m, h).ops[1] == OpModel::Sync(m.segment.first_index),
{
    let r = LogRecord::Hard(h);
    let e = Seq::<OpModel>::empty();
    let a = OpModel::Write(m.segment.first_index, replay::record_image(r));
    let b = OpModel::Sync(m.segment.first_index);
    let c = OpModel::Synced(m.segment.first_index, m.max_entry);
    assert(seq![a, b, c] =~= e.push(a).push(b).push(c));
    lemma_run_push(d, e.push(a).push(b), c);
    lemma_run_push(d, e.push(a), b);
    lemma_run_push(d, e, a);
    lemma_written_records(d, r);
    replay::lemma_entries_push(all_records(d.segments), r);
}

/// Syncing changes neither the log nor what the files read back as; afterwards
/// no appended entry is left unsynced.
pub proof fn law_sync_changes_no_content(m: WalModel, d: Disk)
    requires
        m.wf(),
        backed_log(m, d),
    ensures
        wal_model::entries_synced(m).model.wf(),
        backed_log(wal_model::entries_synced(m).model, wal_model::run(d, wal_model::entries_synced(m).ops)),
        wal_model::run(d, wal_model::entries_synced(m).ops) == d,
        !wal_model::entries_synced(m).model.pending,
        m.pending ==> wal_model::entries_synced(m).ops.len() > 0 && wal_model::entries_synced(m).ops[0]
            == OpModel::Sync(m.segment.first_index),
        m.policy == FsyncPolicy::Always ==> wal_model::entries_synced(m).ops.len() > 0,
{
    let e = Seq::<OpModel>::empty();
    let a = OpModel::Sync(m.segment.first_index);
    let b = OpModel::Synced(m.segment.first_index, m.max_entry);
    assert(seq![a, b] =~= e.push(a).push(b));
    lemma_run_push(d, e.push(a), b);
    lemma_run_push(d, e, a);
}

/// A rollover syncs the outgoing segment before the next one takes its place,
/// if it holds entries that are not synced.
pub proof fn law_rollover_syncs_first(m: WalModel, next: u64)
    requires
        m.segment.size >= m.segment.max_bytes,
        m.pending,
    ensures
        wal_model::rolled_ops(m, next)[0] == OpModel::Sync(m.segment.first_index),
        wal_model::rolled_ops(m, next)[2] == OpModel::Create(next),
        wal_model::rolled_ops(m, next)[3] == OpModel::SyncDir,
        !wal_model::rolled_model(m, next).pending,
{
}

// ---------------------------------------------------------------------------
// Compaction
// ---------------------------------------------------------------------------
proof fn lemma_retained_concat(a: Seq<EntryModel>, b: Seq<EntryModel>, watermark: u64)
    ensures
        replay::retained(a + b, watermark) == replay::retained(a, watermark) + replay::retained(b, watermark),
    decreases b.len(),
{
    if b.len() == 0 {
        assert(a + b =~= a);
        assert(replay::retained(a, watermark) + replay::retained(b, watermark) =~= replay::retained(a, watermark));
    } else {
        lemma_retained_concat(a, b.drop_last(), watermark);
        assert((a + b).drop_last() =~= a + b.drop_last());
        let ra = replay::retained(a, watermark);
        let rb = replay::retained(b.drop_last(), watermark);
        assert((ra + rb).push(b.last()) =~= ra + rb.push(b.last()));
    }
}

proof fn lemma_retained_none(es: Seq<EntryModel>, watermark: u64)
    requires
        forall|i: int| 0 <= i < es.len() ==> (#[trigger] es[i]).index <= watermark,
    ensures
        replay::retained(es, watermark).len() == 0,
    decreases es.len(),
{
    if es.len() > 0 {
        assert(es[es.len() - 1].index <= watermark);
        assert forall|i: int| 0 <= i < es.drop_last().len() implies (
        #[trigger] es.drop_last()[i]).index <= watermark by {
            assert(es[i].index <= watermark);
        }
        lemma_retained_none(es.drop_last(), watermark);
    }
}

/// How many segments a compaction removes, from number `i` on.
pub open spec fn removed_below(segs: Seq<(u64, Seq<u8>)>, i: int, keep_from: int) -> int
    decreases segs.len() - i,
{
    if i < 0 || i >= segs.len() - 1 || segs[i + 1].0 > keep_from {
        0
    } else {
        1 + removed_below(segs, i + 1, keep_from)
    }
}

/// The removals of a compaction take a prefix of the segments.
pub proof fn lemma_run_removals_below(
    d: Disk,
    all: Seq<(u64, Seq<u8>)>,
    i: int,
    keep_from: int,
)
    requires
        0 <= i < all.len(),
        ascending(all),
        d.segments == all.subrange(i, all.len() as int),
    ensures
        ({
            let ops = wal_model::removals_below(all, i, keep_from, all.last().0);
            let k = i + removed_below(all, i, keep_from);
            &&& i <= k < all.len()
            &&& wal_model::run(d, ops) == (Disk { segments: all.subrange(k, all.len() as int), ..d })
            &&& i < k ==> all[k].0 <= keep_from
            &&& (ops.len() == 0) == (k == i)
        }),
        forall|h: HardState| #[trigger]
            ends_with_hard(all.last(), h) ==> hard_state_throughout(
                d,
                wal_model::removals_below(all, i, keep_from, all.last().0),
                h,
            ),
    decreases all.len() - i,
{
    let active = all.last().0;
    let ops = wal_model::removals_below(all, i, keep_from, active);
    assert forall|h: HardState| #[trigger] ends_with_hard(all.last(), h) implies (
    durable_hard_state(d) == h) by {
        assert(d.segments.last() == all.last());
    }
    if i < all.len() - 1 {
        assert(all[i].0 < all[all.len() - 1].0);
        let rest = wal_model::removals_below(all, i + 1, keep_from, active);
        if all[i + 1].0 <= keep_from {
            let op = OpModel::Remove(all[i].0);
            assert(ascending(d.segments)) by {
                assert forall|x: int, y: int| 0 <= x < y < d.segments.len() implies (
                #[trigger] d.segments[x]).0 < (#[trigger] d.segments[y]).0 by {
                    assert(all[i + x].0 < all[i + y].0);
                }
            }
            assert(d.segments[0] == all[i]);
            lemma_without(d.segments, 0);
            assert(d.segments.remove(0) =~= all.subrange(i + 1, all.len() as int));
            lemma_run_first(d, op, rest);
            lemma_run_removals_below(wal_model::run_one(d, op), all, i + 1, keep_from);
            assert forall|h: HardState| #[trigger] ends_with_hard(
                all.last(),
                h,
            ) implies hard_state_throughout(d, ops, h) by {
                lemma_throughout_first(d, op, rest, h);
            }
        } else {
            lemma_no_removals(all, i + 1, keep_from, active);
            assert(Seq::<OpModel>::empty() + rest =~= rest);
        }
    }
    if ops.len() == 0 {
        assert forall|h: HardState| #[trigger] ends_with_hard(
            all.last(),
            h,
        ) implies hard_state_throughout(d, ops, h) by {
            lemma_throughout_apart(d, ops, h);
        }
    }
}

/// Which segments a compaction removes depends on their names alone.
pub proof fn lemma_removals_by_name(
    a: Seq<(u64, Seq<u8>)>,
    b: Seq<(u64, Seq<u8>)>,
    i: int,
    keep_from: int,
    active: u64,
)
    requires
        a.len() == b.len(),
        forall|k: int| 0 <= k < a.len() ==> (#[trigger] a[k]).0 == (#[trigger] b[k]).0,
    ensures
        wal_model::removals_below(a, i, keep_from, active) == wal_model::removals_below(
            b,
            i,
            keep_from,
            active,
        ),
    decreases a.len() - i,
{
    if 0 <= i < a.len() - 1 {
        assert(a[i].0 == b[i].0);
        assert(a[i + 1].0 == b[i + 1].0);
        lemma_removals_by_name(a, b, i + 1, keep_from, active);
    }
}

proof fn lemma_no_removals(all: Seq<(u64, Seq<u8>)>, i: int, keep_from: int, active: u64)
    requires
        0 < i <= all.len(),
        ascending(all),
        i < all.len() ==> all[i].0 > keep_from,
    ensures
        wal_model::removals_below(all, i, keep_from, active).len() == 0,
    decreases all.len() - i,
{
    if i < all.len() - 1 {
        assert(all[i].0 < all[i + 1].0);
        lemma_no_removals(all, i + 1, keep_from, active);
    }
}

/// Compaction keeps the files in step with the log: a segment goes only if all
/// its entries are at or below the watermark, and the snapshot covers those. The
/// hard state that the files read back as stays, wherever a crash interrupts it.
pub proof fn law_compaction_keeps_files_in_step(m: WalModel, d: Disk, to: u64)
    requires
        m.wf(),
        backed_log(m, d),
        to < u64::MAX,
    ensures
        wal_model::compacted(m, to, d.segments).model.wf(),
        backed_log(wal_model::compacted(m, to, d.segments).model, wal_model::run(d, wal_model::compacted(m, to, d.segments).ops)),
        wal_model::run(d, wal_model::compacted(m, to, d.segments).ops).snapshots == d.snapshots,
        wal_model::run(d, wal_model::compacted(m, to, d.segments).ops).meta == d.meta,
        wal_model::compacted(m, to, d.segments).model.last() == m.last(),
        durable_hard_state(wal_model::run(d, wal_model::compacted(m, to, d.segments).ops))
            == durable_hard_state(d),
        hard_state_throughout(
            d,
            wal_model::compacted(m, to, d.segments).ops,
            durable_hard_state(d),
        ),
{
    let out = wal_model::compacted(m, to, d.segments);
    let h = m.hard_state;
    let segs = d.segments;
    let gone = wal_model::removals_below(segs, 0, to + 1, m.segment.first_index);
    if out.fault is None && to > m.compacted_to && gone.len() > 0 {
        let set = wal_model::hard_state_set(m, h);
        let d1 = wal_model::run(d, set.ops);
        let segs1 = d1.segments;
        law_hard_state_is_durable(m, d, h);
        lemma_hard_state_written(m, d, h);
        let sync = seq![OpModel::SyncDir];
        lemma_removals_by_name(segs, segs1, 0, to + 1, m.segment.first_index);
        assert(segs1.subrange(0, segs1.len() as int) =~= segs1);
        lemma_run_removals_below(d1, segs1, 0, to + 1);
        let k = removed_below(segs1, 0, to + 1);
        let left = segs1.subrange(k, segs1.len() as int);
        let d2 = wal_model::run(d1, gone);
        lemma_left_segments(segs1, k);
        lemma_compacted_entries(set.model, d1, to, k);
        assert(left.last() == segs1.last());
        assert(durable_hard_state(d2) == h);
        lemma_run_push(d1, gone, OpModel::SyncDir);
        assert(gone.push(OpModel::SyncDir) =~= gone + sync);
        lemma_run_concat(d, set.ops, gone + sync);
        lemma_throughout_apart(d2, sync, h);
        lemma_throughout_concat(d1, gone, sync, h);
        lemma_throughout_concat(d, set.ops, gone + sync, h);
    } else {
        assert(out.ops =~= Seq::empty());
        assert(wal_model::run(d, out.ops) == d);
        lemma_throughout_apart(d, out.ops, h);
        if out.fault is None && to > m.compacted_to {
            assert(segs.subrange(0, segs.len() as int) =~= segs);
            lemma_run_removals_below(d, segs, 0, to + 1);
            lemma_compacted_entries(m, d, to, 0);
        }
    }
}

/// Writing the hard state that the files hold once more keeps it throughout.
pub proof fn lemma_hard_state_written(m: WalModel, d: Disk, h: HardState)
    requires
        m.wf(),
        backed_log(m, d),
        h == m.hard_state,
    ensures
        ({
            let ops = wal_model::hard_state_set(m, h).ops;
            let d1 = wal_model::run(d, ops);
            &&& hard_state_throughout(d, ops, h)
            &&& d1.segments.len() == d.segments.len()
            &&& forall|k: int|
                0 <= k < d.segments.len() ==> (#[trigger] d.segments[k]).0 == (
                #[trigger] d1.segments[k]).0
            &&& ends_with_hard(d1.segments.last(), h)
        }),
{
    let r = LogRecord::Hard(h);
    let a = OpModel::Write(m.segment.first_index, wal_model::hard_image(h));
    let b = OpModel::Sync(m.segment.first_index);
    let c = OpModel::Synced(m.segment.first_index, m.max_entry);
    let rest = seq![b, c];
    let n = d.segments.len() - 1;
    assert(replay::scan(d.segments[n].1, 0).1 == SegmentTail::Clean);
    lemma_hard_appended(d.segments[n].0, d.segments[n].1, h);
    lemma_write_last(d, wal_model::hard_image(h));
    lemma_written_records(d, r);
    replay::lemma_entries_push(all_records(d.segments), r);
    let d1 = wal_model::run_one(d, a);
    lemma_throughout_apart(d1, rest, h);
    lemma_throughout_first(d, a, rest, h);
    assert(seq![a, b, c] =~= seq![a] + rest);
    lemma_run_first(d, a, rest);
    let e = Seq::<OpModel>::empty();
    assert(rest =~= e.push(b).push(c));
    lemma_run_push(d1, e.push(b), c);
    lemma_run_push(d1, e, b);
}

proof fn lemma_left_segments(segs: Seq<(u64, Seq<u8>)>, k: int)
    requires
        0 <= k < segs.len(),
        ascending(segs),
        all_clean(segs),
        named(segs),
    ensures
        ascending(segs.subrange(k, segs.len() as int)),
        all_clean(segs.subrange(k, segs.len() as int)),
        named(segs.subrange(k, segs.len() as int)),
        segs.subrange(k, segs.len() as int).last() == segs.last(),
{
    let left = segs.subrange(k, segs.len() as int);
    assert forall|x: int, y: int| 0 <= x < y < left.len() implies (#[trigger] left[x]).0 < (
    #[trigger] left[y]).0 by {
        assert(segs[k + x].0 < segs[k + y].0);
    }
    assert forall|x: int| 0 <= x < left.len() implies replay::scan((#[trigger] left[x]).1, 0).1
        == SegmentTail::Clean by {
        assert(left[x] == segs[k + x]);
    }
    assert forall|x: int, y: int, n: int|
        #![trigger left[y], entries_in(left[x])[n]]
        0 <= x < y < left.len() && 0 <= n < entries_in(left[x]).len() implies entries_in(
        left[x],
    )[n].index < left[y].0 by {
        assert(left[x] == segs[k + x]);
        assert(left[y] == segs[k + y]);
        assert(entries_in(segs[k + x])[n].index < segs[k + y].0);
    }
    assert forall|x: int, n: int|
        0 <= x < left.len() && 0 <= n < entries_in(left[x]).len() implies left[x].0 <= (
    #[trigger] entries_in(left[x])[n]).index by {
        assert(left[x] == segs[k + x]);
    }
}

/// The entries of the removed segments are at or below the watermark.
proof fn lemma_compacted_entries(m: WalModel, d: Disk, to: u64, k: int)
    requires
        m.wf(),
        backed_log(m, d),
        m.compacted_to < to <= m.last(),
        0 <= k < d.segments.len(),
        0 < k ==> d.segments[k].0 <= to + 1,
    ensures
        ({
            let left = d.segments.subrange(k, d.segments.len() as int);
            let es = replay::entries_of(all_records(left));
            let kept = m.entries.subrange(to - m.compacted_to, m.entries.len() as int);
            &&& replay::contiguous(es)
            &&& es.len() > 0 ==> es[0].index <= to + 1 && es.last().index >= to
            &&& replay::retained(es, to) == kept
            &&& forall|i: int| 0 <= i < kept.len() ==> (#[trigger] kept[i]).index == to + 1 + i
            &&& replay::last_of(kept, to) == m.last()
        }),
{
    let segs = d.segments;
    let c = m.compacted_to;
    let head = segs.subrange(0, k);
    let left = segs.subrange(k, segs.len() as int);
    assert(segs =~= head + left);
    lemma_records_concat(head, left);
    lemma_entries_concat(all_records(head), all_records(left));
    let all = replay::entries_of(all_records(segs));
    let a = replay::entries_of(all_records(head));
    let es = replay::entries_of(all_records(left));
    let n = m.entries.len();
    assert(m.entries[n - 1].index == c + 1 + (n - 1));
    replay::lemma_retained_suffix(all, c);
    replay::lemma_retained_suffix(all, to);
    assert(all.len() > 0);
    assert(all[all.len() - 1].index == all[0].index + (all.len() - 1));
    assert(all.last() == m.entries.last());
    assert forall|i: int| 0 <= i < a.len() implies (#[trigger] a[i]).index <= to by {
        let at = lemma_entry_has_segment(head, i);
        let j = lemma_record_has_entry(replay::scan(head[at.0].1, 0).0, at.1);
        assert(head[at.0] == segs[at.0]);
        assert(entries_in(segs[at.0])[j] == a[i]);
        assert(entries_in(segs[at.0])[j].index < segs[k].0);
    }
    lemma_retained_none(a, to);
    lemma_retained_concat(a, es, to);
    assert(replay::retained(a, to) + replay::retained(es, to) =~= replay::retained(es, to));
    assert forall|i: int| 0 <= i < es.len() implies (#[trigger] es[i]).index == es[0].index + i by {
        assert(all[a.len() + i].index == all[0].index + (a.len() + i));
        assert(all[a.len() as int].index == all[0].index + a.len());
        assert(all[a.len() + i] == es[i]);
        assert(all[a.len() as int] == es[0]);
    }
    if es.len() > 0 {
        assert(all.last() == es.last());
        assert(all[a.len() as int] == es[0]);
        assert(all[a.len() as int].index == all[0].index + a.len());
        if a.len() > 0 {
            assert(a[a.len() - 1].index <= to);
            assert(all[a.len() - 1] == a[a.len() - 1]);
            assert(all[a.len() - 1].index == all[0].index + (a.len() - 1));
        }
    } else {
        assert(a.len() > 0);
        assert(all.last() == a[a.len() - 1]);
    }
    let kept = m.entries.subrange(to - c, n as int);
    if m.last() > to {
        let f1 = c + 1 - all[0].index;
        let f2 = to + 1 - all[0].index;
        assert(all.subrange(f1, all.len() as int).subrange(to - c, n as int) =~= all.subrange(
            f2,
            all.len() as int,
        ));
    } else {
        assert(kept =~= Seq::empty());
        assert(replay::retained(es, to) =~= kept);
    }
    assert forall|i: int| 0 <= i < kept.len() implies (#[trigger] kept[i]).index == to + 1 + i by {
        assert(kept[i] == m.entries[to - c + i]);
    }
    if kept.len() > 0 {
        assert(kept.last() == m.entries.last());
    }
}

/// An entry record is among the entries.
proof fn lemma_record_has_entry(rs: Seq<LogRecord>, j: int) -> (k: int)
    requires
        0 <= j < rs.len(),
        rs[j] is Entry,
    ensures
        0 <= k < replay::entries_of(rs).len(),
        replay::entries_of(rs)[k] == rs[j]->Entry_0,
    decreases rs.len(),
{
    if j == rs.len() - 1 {
        replay::entries_of(rs).len() - 1
    } else {
        let k = lemma_record_has_entry(rs.drop_last(), j);
        k
    }
}

/// Compaction asks for a snapshot that covers it, and never moves back.
pub proof fn law_compaction_needs_a_snapshot(m: WalModel, to: u64, segs: Seq<(u64, Seq<u8>)>)
    requires
        m.wf(),
    ensures
        wal_model::compacted(m, to, segs).model.compacted_to >= m.compacted_to,
        wal_model::compacted(m, to, segs).model.compacted_to != m.compacted_to ==> (m.snapshot matches Some(s)
            && s.index >= wal_model::compacted(m, to, segs).model.compacted_to),
        wal_model::compacted(m, to, segs).model.snapshot == m.snapshot,
{
}

// ---------------------------------------------------------------------------
// Snapshots and META
// ---------------------------------------------------------------------------
/// Whether the META and snapshot files read back as the log's identity and
/// snapshot: META holds the identity, whose pointer is the snapshot's index, and
/// the snapshot's file is the one with the highest index.
pub open spec fn backed_snapshots(m: WalModel, d: Disk) -> bool {
    &&& d.meta == Some(meta::meta_bytes(m.meta))
    &&& m.meta.format_version == FORMAT_VERSION
    &&& match m.snapshot {
        None => m.meta.snapshot_index == 0,
        Some(s) => {
            &&& 0 < s.index < u64::MAX
            &&& m.meta.snapshot_index == s.index
            &&& snapshot::snapshot_fits(s)
            &&& newest_is(d.snapshots, s)
        },
    }
}

/// Whether the snapshot's file is among the files, and every other one has a
/// lower index.
pub open spec fn newest_is(files: Seq<SnapshotFileModel>, s: SnapshotModel) -> bool {
    let f = SnapshotFileModel { index: s.index, term: s.term, bytes: snapshot::snapshot_bytes(s) };
    &&& files.contains(f)
    &&& forall|i: int|
        0 <= i < files.len() ==> (#[trigger] files[i]) == f || files[i].index < s.index
}

/// The file with the highest index is the one that recovery loads.
proof fn lemma_newest_loads(files: Seq<SnapshotFileModel>, s: SnapshotModel, n: int)
    requires
        newest_is(files, s),
        snapshot::snapshot_fits(s),
        0 <= n <= files.len(),
    ensures
        wal_model::newest_snapshot(files, s.index, n) matches Some(b) ==> b == s || b.index < s.index,
        (exists|i: int|
            0 <= i < n && files[i] == (SnapshotFileModel {
                index: s.index,
                term: s.term,
                bytes: snapshot::snapshot_bytes(s),
            })) ==> wal_model::newest_snapshot(files, s.index, n) == Some(s),
    decreases n,
{
    if n > 0 {
        lemma_newest_loads(files, s, n - 1);
        snapshot::law_snapshot_round_trip(s);
        let f = files[n - 1];
        let mine = SnapshotFileModel { index: s.index, term: s.term, bytes: snapshot::snapshot_bytes(s) };
        assert(f == mine || f.index < s.index);
        if exists|i: int| 0 <= i < n && files[i] == mine {
            let i = choose|i: int| 0 <= i < n && files[i] == mine;
            if i < n - 1 {
                assert(files[i] == mine);
            }
        }
    }
}

/// What the files hold is what recovery starts from.
proof fn lemma_backed_loads(m: WalModel, d: Disk)
    requires
        backed_snapshots(m, d),
    ensures
        wal_model::loaded_snapshot(d.snapshots, m.meta.snapshot_index) == m.snapshot,
{
    if let Some(s) = m.snapshot {
        let f = SnapshotFileModel { index: s.index, term: s.term, bytes: snapshot::snapshot_bytes(s) };
        lemma_newest_loads(d.snapshots, s, d.snapshots.len() as int);
        let i = choose|i: int| 0 <= i < d.snapshots.len() && d.snapshots[i] == f;
        assert(d.snapshots[i] == f);
    }
}

proof fn lemma_without_snapshot(files: Seq<SnapshotFileModel>, index: u64, term: u64)
    ensures
        forall|i: int|
            0 <= i < wal_model::without_snapshot(files, index, term).len() ==> files.contains(
                #[trigger] wal_model::without_snapshot(files, index, term)[i],
            ),
        forall|i: int|
            0 <= i < files.len() && !((#[trigger] files[i]).index == index && files[i].term == term)
                ==> wal_model::without_snapshot(files, index, term).contains(files[i]),
    decreases files.len(),
{
    if files.len() > 0 {
        let init = files.drop_last();
        let out = wal_model::without_snapshot(files, index, term);
        let inner = wal_model::without_snapshot(init, index, term);
        lemma_without_snapshot(init, index, term);
        assert forall|i: int| 0 <= i < out.len() implies files.contains(#[trigger] out[i]) by {
            if i < inner.len() {
                assert(out[i] == inner[i]);
                assert(init.contains(inner[i]));
                let k = choose|k: int| 0 <= k < init.len() && init[k] == inner[i];
                assert(files[k] == out[i]);
            } else {
                assert(out[i] == files[files.len() - 1]);
            }
        }
        assert forall|i: int|
            0 <= i < files.len() && !((#[trigger] files[i]).index == index && files[i].term
                == term) implies out.contains(files[i]) by {
            if i < init.len() {
                assert(init[i] == files[i]);
                assert(inner.contains(init[i]));
                let k = choose|k: int| 0 <= k < inner.len() && inner[k] == init[i];
                assert(out[k] == files[i]);
            } else {
                assert(out[out.len() - 1] == files[i]);
            }
        }
    }
}

/// Whether an operation leaves the newest snapshot file alone.
pub open spec fn spares(op: OpModel, s: SnapshotModel) -> bool {
    match op {
        OpModel::RemoveSnapshot(index, _) => index < s.index,
        OpModel::SyncDir => true,
        _ => false,
    }
}

/// Pruning operations that spare the newest snapshot file keep it the newest.
proof fn lemma_run_spares(d: Disk, ops: Seq<OpModel>, s: SnapshotModel)
    requires
        newest_is(d.snapshots, s),
        forall|i: int| 0 <= i < ops.len() ==> spares(#[trigger] ops[i], s),
    ensures
        newest_is(wal_model::run(d, ops).snapshots, s),
        wal_model::run(d, ops).segments == d.segments,
        wal_model::run(d, ops).meta == d.meta,
    decreases ops.len(),
{
    if ops.len() > 0 {
        let init = ops.drop_last();
        assert forall|i: int| 0 <= i < init.len() implies spares(#[trigger] init[i], s) by {
            assert(spares(ops[i], s));
        }
        lemma_run_spares(d, init, s);
        let d1 = wal_model::run(d, init);
        let op = ops.last();
        assert(spares(ops[ops.len() - 1], s));
        if let OpModel::RemoveSnapshot(index, term) = op {
            let f = SnapshotFileModel { index: s.index, term: s.term, bytes: snapshot::snapshot_bytes(s) };
            let files = d1.snapshots;
            let out = wal_model::without_snapshot(files, index, term);
            lemma_without_snapshot(files, index, term);
            let k = choose|k: int| 0 <= k < files.len() && files[k] == f;
            assert(files[k] == f);
            assert(out.contains(f));
            assert forall|i: int| 0 <= i < out.len() implies (#[trigger] out[i]) == f
                || out[i].index < s.index by {
                assert(files.contains(out[i]));
                let j = choose|j: int| 0 <= j < files.len() && files[j] == out[i];
                assert(files[j] == out[i]);
            }
        }
    }
}

/// The name with the strictly highest index is never pruned.
proof fn lemma_prunings_spare(names: Seq<(u64, u64)>, i: int, s: SnapshotModel, p: int)
    requires
        0 <= i <= names.len(),
        0 <= p < names.len(),
        names[p] == (s.index, s.term),
        forall|k: int| 0 <= k < names.len() && k != p ==> (#[trigger] names[k]).0 < s.index,
    ensures
        forall|k: int|
            0 <= k < wal_model::prunings(names, i).len() ==> spares(#[trigger] wal_model::prunings(names, i)[k], s),
    decreases names.len() - i,
{
    if i < names.len() {
        lemma_prunings_spare(names, i + 1, s, p);
        if i == p {
            lemma_newest_name(names, p, names.len() as int);
        } else {
            assert(names[i].0 < s.index);
        }
        let out = wal_model::prunings(names, i);
        let rest = wal_model::prunings(names, i + 1);
        assert forall|k: int| 0 <= k < out.len() implies spares(#[trigger] out[k], s) by {
            let shift = out.len() - rest.len();
            if k >= shift {
                assert(out[k] == rest[k - shift]);
            }
        }
    }
}

proof fn lemma_newest_name(names: Seq<(u64, u64)>, p: int, n: int)
    requires
        0 <= p < names.len(),
        0 <= n <= names.len(),
        forall|k: int| 0 <= k < names.len() && k != p ==> (#[trigger] names[k]).0 < names[p].0,
    ensures
        wal_model::newer_names(names, p, n) == 0,
    decreases n,
{
    if n > 0 {
        lemma_newest_name(names, p, n - 1);
        if n - 1 != p {
            assert(names[n - 1].0 < names[p].0);
        }
    }
}

/// The names of snapshot files.
pub open spec fn names_of(files: Seq<SnapshotFileModel>) -> Seq<(u64, u64)> {
    Seq::new(files.len(), |i: int| (files[i].index, files[i].term))
}

/// Saving a snapshot keeps the files in step: it becomes the one that recovery
/// loads, and the log's own files are not touched. Where there was no snapshot,
/// no stray snapshot file may reach its index.
pub proof fn law_saved_snapshot_is_loaded(m: WalModel, d: Disk, s: SnapshotModel)
    requires
        m.wf(),
        backed_snapshots(m, d),
        snapshot::snapshot_fits(s),
        0 < s.index < u64::MAX,
        m.snapshot is None ==> forall|i: int|
            0 <= i < d.snapshots.len() ==> (#[trigger] d.snapshots[i]).index < s.index,
    ensures
        ({
            let out = wal_model::snapshot_saved(m, s, names_of(d.snapshots));
            let d1 = wal_model::run(d, out.ops);
            &&& out.model.wf()
            &&& backed_snapshots(out.model, d1)
            &&& d1.segments == d.segments
            &&& out.model.entries == m.entries
            &&& out.model.compacted_to == m.compacted_to
            &&& out.model.snapshot is Some
            &&& out.model.snapshot->0.index >= s.index
            &&& wal_model::loaded_snapshot(d1.snapshots, out.model.meta.snapshot_index) == out.model.snapshot
        }),
{
    let names = names_of(d.snapshots);
    let out = wal_model::snapshot_saved(m, s, names);
    let skipped = m.snapshot matches Some(existing) && existing.index >= s.index;
    if !skipped {
        let files = d.snapshots;
        let f = SnapshotFileModel { index: s.index, term: s.term, bytes: snapshot::snapshot_bytes(s) };
        assert forall|i: int| 0 <= i < files.len() implies (#[trigger] files[i]).index < s.index by {
            if let Some(e) = m.snapshot {
                assert(files[i].index <= e.index);
            }
        }
        lemma_without_snapshot_none(files, s.index, s.term);
        let saved = files.push(f);
        let e = Seq::<OpModel>::empty();
        let a = OpModel::SaveSnapshot(s.index, s.term, snapshot::snapshot_bytes(s));
        let b = OpModel::SaveMeta(meta::meta_bytes(out.model.meta));
        let d2 = Disk { snapshots: saved, meta: Some(meta::meta_bytes(out.model.meta)), ..d };
        assert(seq![a, b] =~= e.push(a).push(b));
        lemma_run_push(d, e.push(a), b);
        lemma_run_push(d, e, a);
        assert(wal_model::run(d, seq![a, b]) == d2);
        assert(saved[saved.len() - 1] == f);
        assert(newest_is(saved, s)) by {
            assert forall|i: int| 0 <= i < saved.len() implies (#[trigger] saved[i]) == f
                || saved[i].index < s.index by {
                if i < files.len() {
                    assert(saved[i] == files[i]);
                }
            }
        }
        assert(!names.contains((s.index, s.term))) by {
            if names.contains((s.index, s.term)) {
                let k = choose|k: int| 0 <= k < names.len() && names[k] == (s.index, s.term);
                assert(files[k].index < s.index);
            }
        }
        let all = names.push((s.index, s.term));
        assert forall|k: int| 0 <= k < all.len() && k != names.len() implies (
        #[trigger] all[k]).0 < s.index by {
            assert(all[k] == names[k]);
            assert(files[k].index < s.index);
        }
        lemma_prunings_spare(all, 0, s, names.len() as int);
        let more = wal_model::pruned(all);
        assert forall|k: int| 0 <= k < more.len() implies spares(#[trigger] more[k], s) by {
            if k < wal_model::prunings(all, 0).len() {
                assert(more[k] == wal_model::prunings(all, 0)[k]);
            }
        }
        lemma_run_spares(d2, more, s);
        lemma_run_concat(d, seq![a, b], more);
    }
    lemma_backed_loads(out.model, wal_model::run(d, out.ops));
}

proof fn lemma_without_snapshot_none(files: Seq<SnapshotFileModel>, index: u64, term: u64)
    requires
        forall|i: int| 0 <= i < files.len() ==> (#[trigger] files[i]).index < index,
    ensures
        wal_model::without_snapshot(files, index, term) == files,
    decreases files.len(),
{
    if files.len() > 0 {
        assert(files[files.len() - 1].index < index);
        assert forall|i: int| 0 <= i < files.drop_last().len() implies (
        #[trigger] files.drop_last()[i]).index < index by {
            assert(files[i].index < index);
        }
        lemma_without_snapshot_none(files.drop_last(), index, term);
        assert(files.drop_last().push(files.last()) =~= files);
    }
}

/// The snapshot never moves back.
pub proof fn law_snapshot_never_moves_back(
    m: WalModel,
    s: SnapshotModel,
    names: Seq<(u64, u64)>,
)
    ensures
        m.snapshot matches Some(e) ==> (wal_model::snapshot_saved(m, s, names).model.snapshot matches Some(n)
            && n.index >= e.index),
        m.snapshot matches Some(e) && e.index >= s.index ==> wal_model::snapshot_saved(m, s, names).model == m
            && wal_model::snapshot_saved(m, s, names).ops.len() == 0,
{
}

/// Installing a snapshot makes it durable before the log is touched, and leaves
/// the log empty after it, in step with the files. The hard state that the files
/// read back as stays, wherever a crash interrupts the installation.
pub proof fn law_installed_snapshot_replaces_the_log(m: WalModel, d: Disk, s: SnapshotModel)
    requires
        m.wf(),
        backed_log(m, d),
        backed_snapshots(m, d),
        snapshot::snapshot_fits(s),
        m.compacted_to <= s.index < u64::MAX,
        0 < s.index,
        m.snapshot matches Some(e) ==> e.index <= s.index,
        m.snapshot is None ==> forall|i: int|
            0 <= i < d.snapshots.len() ==> (#[trigger] d.snapshots[i]).index < s.index,
    ensures
        ({
            let out = wal_model::snapshot_installed(m, s, names_of(d.snapshots), d.segments);
            let d1 = wal_model::run(d, out.ops);
            &&& out.fault is None
            &&& out.model.wf()
            &&& out.model.entries.len() == 0
            &&& out.model.compacted_to == s.index
            &&& out.model.snapshot matches Some(n) && n.index == s.index
            &&& backed_log(out.model, d1)
            &&& backed_snapshots(out.model, d1)
            &&& out.ops.len() > 0 && (m.snapshot matches Some(e) ==> e.index < s.index) ==> {
                &&& out.ops[0] is SaveSnapshot
                &&& out.ops[1] is SaveMeta
            }
            &&& durable_hard_state(d1) == durable_hard_state(d)
            &&& hard_state_throughout(d, out.ops, durable_hard_state(d))
        }),
{
    let names = names_of(d.snapshots);
    let out = wal_model::snapshot_installed(m, s, names, d.segments);
    let h = m.hard_state;
    if s.index == m.compacted_to && m.entries.len() == 0 {
        lemma_throughout_apart(d, out.ops, h);
    } else {
        let saved = wal_model::snapshot_saved(m, s, names);
        let d1 = wal_model::run(d, saved.ops);
        law_saved_snapshot_is_loaded(m, d, s);
        let replaced = wal_model::log_replaced(saved.model, s.index, d.segments);
        let first = (s.index + 1) as u64;
        lemma_run_concat(d, saved.ops, replaced.ops);
        lemma_replace_run(d1, first);
        lemma_one_hard_segment(first, h);
        assert(replay::retained(Seq::empty(), s.index) =~= Seq::empty());
        lemma_saving_is_apart(m, s, names);
        lemma_throughout_apart(d, saved.ops, h);
        lemma_throughout_concat(d, saved.ops, replaced.ops, h);
    }
}

/// Saving a snapshot touches no segment.
proof fn lemma_saving_is_apart(m: WalModel, s: SnapshotModel, names: Seq<(u64, u64)>)
    ensures
        forall|i: int|
            0 <= i < wal_model::snapshot_saved(m, s, names).ops.len() ==> apart(
                #[trigger] wal_model::snapshot_saved(m, s, names).ops[i],
            ),
{
    let all = wal_model::with_name(names, s.index, s.term);
    lemma_prunings_are_apart(all, 0);
    let more = wal_model::pruned(all);
    assert forall|i: int| 0 <= i < more.len() implies apart(#[trigger] more[i]) by {
        if i < wal_model::prunings(all, 0).len() {
            assert(more[i] == wal_model::prunings(all, 0)[i]);
        }
    }
    let ops = wal_model::snapshot_saved(m, s, names).ops;
    assert forall|i: int| 0 <= i < ops.len() implies apart(#[trigger] ops[i]) by {
        if i >= 2 {
            assert(ops[i] == more[i - 2]);
        }
    }
}

proof fn lemma_prunings_are_apart(names: Seq<(u64, u64)>, i: int)
    ensures
        forall|k: int|
            0 <= k < wal_model::prunings(names, i).len() ==> apart(
                #[trigger] wal_model::prunings(names, i)[k],
            ),
    decreases names.len() - i,
{
    if 0 <= i < names.len() {
        lemma_prunings_are_apart(names, i + 1);
        let rest = wal_model::prunings(names, i + 1);
        let ops = wal_model::prunings(names, i);
        assert forall|k: int| 0 <= k < ops.len() implies apart(#[trigger] ops[k]) by {
            let skip = ops.len() - rest.len();
            if k >= skip {
                assert(ops[k] == rest[k - skip]);
            }
        }
    }
}

// ---------------------------------------------------------------------------
// Opening
// ---------------------------------------------------------------------------
/// A new directory opens as an empty log whose files are in step with it.
pub proof fn law_new_directory_opens(opts: OptionsModel)
    requires
        meta::id_fits(opts.cluster_id),
        meta::id_fits(opts.node_id),
    ensures
        ({
            let d = Disk { segments: Seq::empty(), snapshots: Seq::empty(), meta: None };
            let out = wal_model::opened(opts, d);
            &&& out.1 matches Ok(m) && m.wf() && m.entries.len() == 0 && m.compacted_to == 0
                && m.hard_state == crate::types::initial_hard_state() && backed_log(
                m,
                wal_model::run(d, out.0),
            ) && backed_snapshots(m, wal_model::run(d, out.0)) && durable_hard_state(wal_model::run(d, out.0))
                == crate::types::initial_hard_state()
        }),
{
    let d = Disk { segments: Seq::empty(), snapshots: Seq::empty(), meta: None };
    let out = wal_model::opened(opts, d);
    let m = out.1.unwrap();
    let e = Seq::<OpModel>::empty();
    let a = OpModel::SaveMeta(meta::meta_bytes(m.meta));
    let b = OpModel::Create(1);
    let c = OpModel::SyncDir;
    assert(replay::recovered(d.segments, 0) == Ok::<(Seq<LogRecord>, Option<(u64, u64)>), Fault>(
        (Seq::empty(), None),
    ));
    assert(replay::entries_of(Seq::empty()) =~= Seq::empty());
    assert(replay::retained(Seq::empty(), 0) =~= Seq::empty());
    assert(out.0 =~= e.push(a).push(b).push(c));
    lemma_run_push(d, e.push(a).push(b), c);
    lemma_run_push(d, e.push(a), b);
    lemma_run_push(d, e, a);
    let d1 = wal_model::run_one(d, a);
    lemma_create_last(d1, 1);
    lemma_one_empty_segment(1);
    assert(d1.segments.push((1u64, Seq::<u8>::empty())) =~= seq![(1u64, Seq::<u8>::empty())]);
}

/// The index that recovery starts after.
pub open spec fn watermark_of(m: WalModel) -> u64 {
    match m.snapshot {
        Some(s) => s.index,
        None => 0,
    }
}

/// Whether a log is opened under its own identity.
pub open spec fn same_identity(m: WalModel, opts: OptionsModel) -> bool {
    opts.cluster_id == m.meta.cluster_id && opts.node_id == m.meta.node_id
}

proof fn lemma_reopened_entries(m: WalModel, d: Disk, w: u64)
    requires
        m.wf(),
        backed_log(m, d),
        m.compacted_to <= w < u64::MAX,
    ensures
        ({
            let es = replay::entries_of(all_records(d.segments));
            &&& replay::gap_from(es, 1) is None
            &&& es.len() > 0 ==> es[0].index <= w + 1
            &&& replay::retained(es, w) == replay::retained(m.entries, w)
            &&& w <= m.last() ==> replay::last_of(replay::retained(es, w), w) == m.last()
            &&& w > m.last() ==> replay::last_of(replay::retained(es, w), w) == w
        }),
{
    let es = replay::entries_of(all_records(d.segments));
    let c = m.compacted_to;
    replay::lemma_contiguous_no_gap(es, 1);
    replay::lemma_retained_suffix(es, c);
    replay::lemma_retained_suffix(es, w);
    assert(replay::contiguous(m.entries)) by {
        assert forall|i: int| 0 <= i < m.entries.len() implies (#[trigger] m.entries[i]).index
            == m.entries[0].index + i by {}
    }
    replay::lemma_retained_suffix(m.entries, w);
    if es.len() > 0 {
        assert(es[es.len() - 1].index == es[0].index + (es.len() - 1));
        if es.last().index > c {
            assert(m.entries.last() == es.last());
            let n = m.entries.len();
            assert(m.entries[n - 1].index == c + 1 + (n - 1));
            assert(m.entries[0].index == c + 1);
            if es.last().index > w {
                let f1 = c + 1 - es[0].index;
                let f2 = w + 1 - es[0].index;
                assert(es.subrange(f1, es.len() as int).subrange(w - c, n as int) =~= es.subrange(
                    f2,
                    es.len() as int,
                ));
            } else {
                assert(replay::retained(es, w) =~= replay::retained(m.entries, w));
            }
        } else {
            assert(replay::retained(es, w) =~= replay::retained(m.entries, w));
        }
    } else {
        assert(replay::retained(es, w) =~= replay::retained(m.entries, w));
    }
}

/// Opening the files of a log gives the log back: its entries after the
/// snapshot, its snapshot and identity, and its hard state. It fails only if the
/// commit index is beyond the log.
#[verifier::spinoff_prover]
pub proof fn law_reopening_gives_back_the_log(m: WalModel, d: Disk, opts: OptionsModel)
    requires
        m.wf(),
        backed_log(m, d),
        backed_snapshots(m, d),
        same_identity(m, opts),
        file_sized(d.segments),
    ensures
        ({
            let w = watermark_of(m);
            let last = if w <= m.last() {
                m.last()
            } else {
                w
            };
            let out = wal_model::opened(opts, d);
            &&& out.0.len() == 0
            &&& if m.hard_state.commit <= last {
                &&& out.1 matches Ok(n)
                &&& n.wf()
                &&& n.entries == replay::retained(m.entries, w)
                &&& n.compacted_to == w
                &&& n.last() == last
                &&& n.snapshot == m.snapshot
                &&& n.meta == m.meta
                &&& n.hard_state == m.hard_state
                &&& backed_snapshots(n, d)
                &&& w <= m.last() ==> backed_log(n, d)
            } else {
                out.1 == Err::<WalModel, Fault>(
                    Fault::CommitBeyondLog { commit: m.hard_state.commit, last },
                )
            }
        }),
{
    let w = watermark_of(m);
    let segs = d.segments;
    meta::law_meta_round_trip(m.meta);
    lemma_backed_loads(m, d);
    lemma_recovered_clean(segs, 0, w);
    assert(all_records(segs.subrange(0, 0)) =~= Seq::empty());
    lemma_reopened_entries(m, d, w);
    let es = replay::entries_of(all_records(segs));
    let out = wal_model::opened(opts, d);
    assert(out.0 =~= Seq::empty());
    assert(wal_model::log_fault(m.meta, m.snapshot, es, durable_hard_state(d)) is None || wal_model::log_fault(
        m.meta,
        m.snapshot,
        es,
        durable_hard_state(d),
    )->0 is CommitBeyondLog);
    lemma_reopened_indices(m, d, w);
}

/// A vote is not forgotten: after a snapshot was installed, a reopening finds the
/// hard state that was there before, and an empty log after the snapshot.
pub proof fn law_vote_survives_an_installed_snapshot(
    m: WalModel,
    d: Disk,
    s: SnapshotModel,
    opts: OptionsModel,
)
    requires
        m.wf(),
        backed_log(m, d),
        backed_snapshots(m, d),
        same_identity(m, opts),
        file_sized(d.segments),
        snapshot::snapshot_fits(s),
        m.compacted_to <= s.index < u64::MAX,
        0 < s.index,
        m.hard_state.commit <= s.index,
        m.snapshot matches Some(e) ==> e.index <= s.index,
        m.snapshot is None ==> forall|i: int|
            0 <= i < d.snapshots.len() ==> (#[trigger] d.snapshots[i]).index < s.index,
    ensures
        ({
            let out = wal_model::snapshot_installed(m, s, names_of(d.snapshots), d.segments);
            &&& wal_model::opened(opts, wal_model::run(d, out.ops)).1 matches Ok(n)
            &&& n.hard_state == m.hard_state
            &&& n.entries.len() == 0
            &&& n.last() == s.index
        }),
{
    let out = wal_model::snapshot_installed(m, s, names_of(d.snapshots), d.segments);
    let d1 = wal_model::run(d, out.ops);
    law_installed_snapshot_replaces_the_log(m, d, s);
    if s.index == m.compacted_to && m.entries.len() == 0 {
        assert(d1 == d);
    } else {
        let saved = wal_model::snapshot_saved(m, s, names_of(d.snapshots));
        let replaced = wal_model::log_replaced(saved.model, s.index, d.segments);
        law_saved_snapshot_is_loaded(m, d, s);
        lemma_run_concat(d, saved.ops, replaced.ops);
        lemma_replace_run(wal_model::run(d, saved.ops), (s.index + 1) as u64);
        lemma_one_hard_segment((s.index + 1) as u64, m.hard_state);
    }
    assert(file_sized(d1.segments));
    law_reopening_gives_back_the_log(out.model, d1, opts);
    assert(replay::retained(out.model.entries, s.index).len() == 0);
}

/// The entries that a reopening keeps follow the watermark.
proof fn lemma_reopened_indices(m: WalModel, d: Disk, w: u64)
    requires
        m.wf(),
        backed_log(m, d),
        m.compacted_to <= w < u64::MAX,
    ensures
        ({
            let es = replay::entries_of(all_records(d.segments));
            let kept = replay::retained(es, w);
            &&& forall|i: int| 0 <= i < kept.len() ==> (#[trigger] kept[i]).index == w + 1 + i
            &&& es.len() > 0 ==> es.last().index >= m.compacted_to && es.last().index <= m.last()
                && (es.last().index == m.last() || m.entries.len() == 0)
        }),
{
    let es = replay::entries_of(all_records(d.segments));
    let kept = replay::retained(es, w);
    lemma_reopened_entries(m, d, w);
    replay::lemma_retained_suffix(es, w);
    assert forall|i: int| 0 <= i < kept.len() implies (#[trigger] kept[i]).index == w + 1 + i by {
        let k = w + 1 - es[0].index + i;
        assert(es[k].index == es[0].index + k);
        assert(kept[i] == es[k]);
    }
    if es.len() > 0 {
        assert(es[es.len() - 1].index == es[0].index + (es.len() - 1));
        lemma_entries_within(m, d, es.len() - 1);
    }
}

/// A crash while a record was being written leaves the log's last segment torn.
/// Opening it cuts the partial record and gives back the log as it was before,
/// unless the lost record may have been committed: then it refuses.
#[verifier::spinoff_prover]
pub proof fn law_torn_write_is_cut_or_refused(
    m: WalModel,
    d: Disk,
    opts: OptionsModel,
    r: LogRecord,
    cut: int,
)
    requires
        m.wf(),
        backed_log(m, d),
        backed_snapshots(m, d),
        same_identity(m, opts),
        replay::storable(r),
        0 < cut < replay::record_image(r).len(),
        watermark_of(m) <= m.last(),
        file_sized(d.segments),
    ensures
        ({
            let torn = wal_model::run_one(
                d,
                OpModel::Write(d.segments.last().0, replay::record_image(r).subrange(0, cut)),
            );
            let es = replay::entries_of(all_records(d.segments));
            let last = replay::last_of(es, watermark_of(m));
            let commit = durable_hard_state(d).commit;
            let out = wal_model::opened(opts, torn);
            &&& last == m.last()
            &&& if last <= commit {
                out.0.len() == 0 && out.1 == Err::<WalModel, Fault>(
                    Fault::TornCommitted { last, commit },
                )
            } else {
                &&& wal_model::run(torn, out.0) == d
                &&& out.1 matches Ok(n)
                &&& n.entries == replay::retained(m.entries, watermark_of(m))
                &&& n.last() == m.last()
                &&& n.snapshot == m.snapshot
                &&& n.hard_state == durable_hard_state(d)
                &&& n.stats.wal_truncated_records == 1
                &&& backed_log(n, d)
            }
        }),
{
    let segs = d.segments;
    let part = replay::record_image(r).subrange(0, cut);
    let first = segs.last().0;
    let raw = segs.last().1;
    let torn = wal_model::run_one(d, OpModel::Write(first, part));
    lemma_write_last(d, part);
    let tsegs = torn.segments;
    assert(tsegs.drop_last() =~= segs.drop_last());
    assert(replay::scan(segs[segs.len() - 1].1, 0).1 == SegmentTail::Clean);
    lemma_scan_torn(raw, r, cut);
    assert(all_records(tsegs) == all_records(segs));
    assert(all_clean(tsegs.drop_last())) by {
        assert forall|i: int| 0 <= i < tsegs.drop_last().len() implies replay::scan(
            (#[trigger] tsegs.drop_last()[i]).1,
            0,
        ).1 == SegmentTail::Clean by {
            assert(tsegs.drop_last()[i] == segs[i]);
        }
    }
    let w = watermark_of(m);
    assert(segs[segs.len() - 1].1.len() <= u64::MAX);
    lemma_recovered_torn(tsegs, 0, w, raw.len() as u64);
    assert(all_records(tsegs.subrange(0, 0)) =~= Seq::empty());
    meta::law_meta_round_trip(m.meta);
    lemma_backed_loads(m, d);
    lemma_reopened_entries(m, d, w);
    let es = replay::entries_of(all_records(segs));
    let out = wal_model::opened(opts, torn);
    lemma_torn_last(m, d, w);
    let last = replay::last_of(es, w);
    let commit = durable_hard_state(d).commit;
    if last <= commit {
        assert(out.0 =~= Seq::empty());
    } else {
        let e = Seq::<OpModel>::empty();
        let op = OpModel::Cut(first, raw.len() as u64);
        assert(out.0 =~= e.push(op));
        lemma_run_push(torn, e, op);
        let back = wal_model::run_one(torn, op).segments;
        assert forall|i: int| 0 <= i < segs.len() implies back[i] == segs[i] by {
            if i < segs.len() - 1 {
                assert(segs[i].0 < segs[segs.len() - 1].0);
            } else {
                assert((raw + part).subrange(0, raw.len() as int) =~= raw);
            }
        }
        assert(back =~= segs);
        assert(wal_model::run(torn, out.0) == d);
        replay::lemma_retained_suffix(es, w);
        let n = out.1.unwrap();
        if es.len() > 0 {
            assert(es[es.len() - 1].index == es[0].index + (es.len() - 1));
        }
        assert(n.segment.first_index <= n.last() + 1);
    }
}

proof fn lemma_torn_last(m: WalModel, d: Disk, w: u64)
    requires
        m.wf(),
        backed_log(m, d),
        m.compacted_to <= w <= m.last(),
    ensures
        replay::last_of(replay::entries_of(all_records(d.segments)), w) == m.last(),
{
    let es = replay::entries_of(all_records(d.segments));
    replay::lemma_retained_suffix(es, m.compacted_to);
    if es.len() > 0 {
        lemma_entries_within(m, d, es.len() - 1);
    }
}

/// The hard state that a recovery rewrite records.
pub open spec fn rewrite_hard_state(h: HardState) -> HardState {
    HardState { term: (h.term + 1) as u64, vote: Some(1), commit: h.commit }
}

/// The file operations of a recovery rewrite after the log was opened.
pub open spec fn rewrite_ops(n: WalModel, segs: Seq<(u64, Seq<u8>)>, target: Seq<char>) -> Seq<
    OpModel,
> {
    wal_model::rewritten(n, segs).ops + seq![
        OpModel::SaveMeta(meta::meta_bytes(MetaModel { cluster_id: target, ..n.meta })),
        OpModel::SyncDir,
    ]
}

/// The log after a recovery rewrite.
pub open spec fn rewrite_model(
    n: WalModel,
    segs: Seq<(u64, Seq<u8>)>,
    target: Seq<char>,
) -> WalModel {
    WalModel {
        meta: MetaModel { cluster_id: target, ..n.meta },
        ..wal_model::rewritten(n, segs).model
    }
}

proof fn lemma_rewrite_steps(n: WalModel, d: Disk, target: Seq<char>)
    requires
        n.wf(),
        backed_log(n, d),
        backed_snapshots(n, d),
        file_sized(d.segments),
        meta::id_fits(target),
        n.hard_state.term < u64::MAX,
    ensures
        wal_model::rewritten(n, d.segments).fault is None,
        rewrite_model(n, d.segments, target).wf(),
        backed_log(rewrite_model(n, d.segments, target), wal_model::run(d, rewrite_ops(n, d.segments, target))),
        backed_snapshots(
            rewrite_model(n, d.segments, target),
            wal_model::run(d, rewrite_ops(n, d.segments, target)),
        ),
        durable_hard_state(wal_model::run(d, rewrite_ops(n, d.segments, target))) == rewrite_hard_state(
            n.hard_state,
        ),
{
    reveal(wal_model::rewritten);
    let keep = wal_model::rewrite_keep(n);
    let cut = wal_model::truncated(n, d.segments, keep);
    law_truncation_keeps_files_in_step(n, d, keep);
    let d1 = wal_model::run(d, cut.ops);
    let set = wal_model::hard_state_set(cut.model, rewrite_hard_state(n.hard_state));
    law_hard_state_is_durable(cut.model, d1, rewrite_hard_state(n.hard_state));
    let d2 = wal_model::run(d1, set.ops);
    let meta = MetaModel { cluster_id: target, ..n.meta };
    let e = Seq::<OpModel>::empty();
    let a = OpModel::SaveMeta(meta::meta_bytes(meta));
    let b = OpModel::SyncDir;
    let tail = seq![a, b];
    assert(tail =~= e.push(a).push(b));
    lemma_run_push(d2, e.push(a), b);
    lemma_run_push(d2, e, a);
    lemma_run_concat(d, cut.ops + set.ops, tail);
    lemma_run_concat(d, cut.ops, set.ops);
}

/// A recovery rewrite resets the node to its committed point: afterwards the
/// directory opens under the new cluster id, with the entries through the commit
/// index (or the snapshot), the term raised by one, and a vote for voter 1.
#[verifier::spinoff_prover]
pub proof fn law_recovery_rewrite_resets_the_node(
    m: WalModel,
    d: Disk,
    target: Seq<char>,
    opts: OptionsModel,
)
    requires
        m.wf(),
        backed_log(m, d),
        backed_snapshots(m, d),
        file_sized(d.segments),
        watermark_of(m) <= m.last(),
        durable_hard_state(d).commit <= m.last(),
        durable_hard_state(d).term < u64::MAX,
        target.len() > 0,
        meta::id_fits(target),
        opts.cluster_id == target,
        opts.node_id == m.meta.node_id,
        file_sized(
            wal_model::run(
                d,
                wal_model::force_recovered(
                    d,
                    m.meta.node_id,
                    Some(target),
                    opts.policy,
                    opts.segment_bytes,
                    opts.created_at,
                ).0,
            ).segments,
        ),
    ensures
        ({
            let (ops, result) = wal_model::force_recovered(
                d,
                m.meta.node_id,
                Some(target),
                opts.policy,
                opts.segment_bytes,
                opts.created_at,
            );
            let before = durable_hard_state(d);
            let keep = if before.commit < watermark_of(m) {
                watermark_of(m)
            } else {
                before.commit
            };
            &&& result matches Ok(report) && report.term == before.term + 1 && report.commit
                == before.commit && report.discarded == m.last() - keep
            &&& wal_model::opened(opts, wal_model::run(d, ops)).1 matches Ok(n) && n.hard_state == (HardState {
                term: (before.term + 1) as u64,
                vote: Some(1),
                commit: before.commit,
            }) && n.last() == keep && n.entries == replay::retained(m.entries, watermark_of(m)).subrange(
                0,
                keep - watermark_of(m),
            ) && n.meta.cluster_id == target && n.snapshot == m.snapshot
        }),
{
    reveal(wal_model::rewritten);
    let w = watermark_of(m);
    let old_opts = OptionsModel { cluster_id: m.meta.cluster_id, ..opts };
    meta::law_meta_round_trip(m.meta);
    law_reopening_gives_back_the_log(m, d, old_opts);
    let n = wal_model::opened(old_opts, d).1.unwrap();
    let keep = wal_model::rewrite_keep(n);
    let ops = rewrite_ops(n, d.segments, target);
    let n3 = rewrite_model(n, d.segments, target);
    law_truncation_keeps_files_in_step(n, d, keep);
    lemma_rewrite_steps(n, d, target);
    assert(wal_model::opened(old_opts, d).0 =~= Seq::empty());
    let forced = wal_model::force_recovered(
        d,
        m.meta.node_id,
        Some(target),
        opts.policy,
        opts.segment_bytes,
        opts.created_at,
    );
    assert(forced.0 =~= ops);
    law_reopening_gives_back_the_log(n3, wal_model::run(d, ops), opts);
    lemma_retained_all(n3.entries, w);
    let count = n.entries.len();
    if count > 0 {
        assert(n.entries[count - 1].index == w + 1 + (count - 1));
    }
    if n.last() <= keep {
        assert(n.entries.subrange(0, keep - w) =~= n.entries);
    }
}

proof fn lemma_retained_all(es: Seq<EntryModel>, watermark: u64)
    requires
        forall|i: int| 0 <= i < es.len() ==> (#[trigger] es[i]).index > watermark,
    ensures
        replay::retained(es, watermark) == es,
    decreases es.len(),
{
    if es.len() > 0 {
        assert(es[es.len() - 1].index > watermark);
        assert forall|i: int| 0 <= i < es.drop_last().len() implies (
        #[trigger] es.drop_last()[i]).index > watermark by {
            assert(es[i].index > watermark);
        }
        lemma_retained_all(es.drop_last(), watermark);
        assert(es.drop_last().push(es.last()) =~= es);
    } else {
        assert(replay::retained(es, watermark) =~= es);
    }
}

} // verus!
