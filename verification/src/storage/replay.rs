//! What the bytes of the segment files say: the records in them, and the log
//! that recovery reads off.
//!
//! Recovery takes the segments in ascending order. A record that is complete
//! but does not decode ends it with an error, wherever it stands. A segment
//! that ends inside a record is torn; only the last one may be, and only where
//! nothing committed can be lost by cutting it.
use vstd::prelude::*;

use crate::bytes::get_u32;
use crate::storage::record::{
    decode_entry, decode_hard_state, decode_record, DecodeError, RecordType, MAX_RECORD_BYTES,
};
use crate::types::{EntryModel, EntryType, Fault, HardState, LogEntry, LogIndex};
use crate::bytes;
use crate::storage::record;
use crate::types;

verus! {

/// The contents of one segment file.
pub struct SegmentFile {
    pub first_index: u64,
    pub bytes: Vec<u8>,
}

/// The segment files as mathematical values: name and contents.
pub open spec fn segment_models(files: Seq<SegmentFile>) -> Seq<(u64, Seq<u8>)> {
    Seq::new(files.len(), |i: int| (files[i].first_index, files[i].bytes@))
}

/// A decoded log record.
#[verifier::ext_equal]
pub enum LogRecord {
    Entry(EntryModel),
    Hard(HardState),
}

/// The byte that stands for an entry type in a record.
pub open spec fn entry_type_byte(t: EntryType) -> u8 {
    match t {
        EntryType::Entry => 0,
        EntryType::ConfChange => 1,
        EntryType::ConfChangeV2 => 2,
    }
}

/// The entry type that a byte stands for; a byte without a meaning of its own
/// stands for an ordinary entry.
pub open spec fn entry_type_of(b: u8) -> EntryType {
    if b == 1 {
        EntryType::ConfChange
    } else if b == 2 {
        EntryType::ConfChangeV2
    } else {
        EntryType::Entry
    }
}

/// The byte that stands for an entry type in a record.
pub fn entry_type_to_u8(t: EntryType) -> (b: u8)
    ensures
        b == entry_type_byte(t),
{
    match t {
        EntryType::Entry => 0,
        EntryType::ConfChange => 1,
        EntryType::ConfChangeV2 => 2,
    }
}

/// The entry type that a byte stands for.
pub fn entry_type_from_u8(b: u8) -> (t: EntryType)
    ensures
        t == entry_type_of(b),
{
    if b == 1 {
        EntryType::ConfChange
    } else if b == 2 {
        EntryType::ConfChangeV2
    } else {
        EntryType::Entry
    }
}

/// The payload of an entry's record.
pub open spec fn entry_payload(e: EntryModel) -> Seq<u8> {
    record::entry_bytes(e.index, e.term, entry_type_byte(e.entry_type), e.data)
}

/// The payload of a hard state's record.
pub open spec fn hard_payload(h: HardState) -> Seq<u8> {
    record::hard_state_bytes(h.term, h.vote, h.commit)
}

/// The bytes of a record on disk.
pub open spec fn record_image(r: LogRecord) -> Seq<u8> {
    match r {
        LogRecord::Entry(e) => record::record_bytes(RecordType::Entry, entry_payload(e)),
        LogRecord::Hard(h) => record::record_bytes(RecordType::HardState, hard_payload(h)),
    }
}

/// The size of an entry's record on disk.
pub open spec fn entry_record_size(e: EntryModel) -> int {
    26 + e.data.len() as int
}

/// Whether a record is within the size limit.
pub open spec fn storable(r: LogRecord) -> bool {
    match r {
        LogRecord::Entry(e) => entry_record_size(e) <= MAX_RECORD_BYTES,
        LogRecord::Hard(_) => true,
    }
}

/// What a decoded record's payload says.
pub open spec fn typed(t: RecordType, payload: Seq<u8>) -> Result<LogRecord, DecodeError> {
    match t {
        RecordType::HardState => match record::decoded_hard_state(payload) {
            Ok((term, vote, commit)) => Ok(LogRecord::Hard(HardState { term, vote, commit })),
            Err(e) => Err(e),
        },
        RecordType::Entry => match record::decoded_entry(payload) {
            Ok((index, term, ty, data)) => Ok(
                LogRecord::Entry(
                    EntryModel { index, term, entry_type: entry_type_of(ty), data },
                ),
            ),
            Err(e) => Err(e),
        },
        RecordType::Meta => Err(DecodeError::UnsupportedRecordType(t)),
    }
}

/// How the records of a segment end.
#[derive(Clone, Copy, Debug, PartialEq, Eq)]
pub enum SegmentTail {
    /// With a complete record, or no record at all.
    Clean,
    /// Inside a record.
    Torn { offset: u64 },
    /// At a complete record that does not decode.
    BadRecord { offset: u64, error: DecodeError },
    /// At a complete record whose payload does not decode.
    BadPayload { offset: u64, error: DecodeError },
}

/// Whether the bytes end inside the record that starts at `offset`.
pub open spec fn torn_at(raw: Seq<u8>, offset: int) -> bool {
    raw.len() - offset < 8 || offset + 8 + bytes::u32_at(raw, offset) > raw.len()
}

/// The records from `offset` on, and how they end.
pub open spec fn scan(raw: Seq<u8>, offset: int) -> (Seq<LogRecord>, SegmentTail)
    decreases raw.len() - offset,
{
    let end = offset + 8 + bytes::u32_at(raw, offset);
    if offset < 0 || offset >= raw.len() {
        (Seq::empty(), SegmentTail::Clean)
    } else if torn_at(raw, offset) {
        (Seq::empty(), SegmentTail::Torn { offset: offset as u64 })
    } else {
        match record::decoded_record(raw.subrange(offset, end)) {
            Err(error) => (
                Seq::empty(),
                SegmentTail::BadRecord { offset: offset as u64, error },
            ),
            Ok((t, payload)) => match typed(t, payload) {
                Err(error) => (
                    Seq::empty(),
                    SegmentTail::BadPayload { offset: offset as u64, error },
                ),
                Ok(r) => (seq![r] + scan(raw, end).0, scan(raw, end).1),
            },
        }
    }
}

/// The log entries among records, in order.
pub open spec fn entries_of(rs: Seq<LogRecord>) -> Seq<EntryModel>
    decreases rs.len(),
{
    if rs.len() == 0 {
        Seq::empty()
    } else {
        match rs.last() {
            LogRecord::Entry(e) => entries_of(rs.drop_last()).push(e),
            LogRecord::Hard(_) => entries_of(rs.drop_last()),
        }
    }
}

/// The last hard state among records, or the initial one.
pub open spec fn hard_of(rs: Seq<LogRecord>) -> HardState
    decreases rs.len(),
{
    if rs.len() == 0 {
        types::initial_hard_state()
    } else {
        match rs.last() {
            LogRecord::Entry(_) => hard_of(rs.drop_last()),
            LogRecord::Hard(h) => h,
        }
    }
}

/// The index of the last entry; `watermark` where there is none.
pub open spec fn last_of(entries: Seq<EntryModel>, watermark: u64) -> u64 {
    if entries.len() == 0 {
        watermark
    } else {
        entries.last().index
    }
}

/// What recovery reads from the segments from number `i` on, after the records
/// `before`: all records, and where the last segment has to be cut.
pub open spec fn recovered_from(
    segments: Seq<(u64, Seq<u8>)>,
    i: int,
    watermark: u64,
    before: Seq<LogRecord>,
) -> Result<(Seq<LogRecord>, Option<(u64, u64)>), Fault>
    decreases segments.len() - i,
{
    if i < 0 || i >= segments.len() {
        Ok((before, None))
    } else {
        let (records, tail) = scan(segments[i].1, 0);
        let now = before + records;
        match tail {
            SegmentTail::Clean => recovered_from(segments, i + 1, watermark, now),
            SegmentTail::Torn { offset } => if i != segments.len() - 1 {
                Err(Fault::TornSegment { segment: segments[i].0, offset })
            } else if last_of(entries_of(now), watermark) <= hard_of(now).commit {
                Err(
                    Fault::TornCommitted {
                        last: last_of(entries_of(now), watermark),
                        commit: hard_of(now).commit,
                    },
                )
            } else {
                Ok((now, Some((segments[i].0, offset))))
            },
            SegmentTail::BadRecord { offset, error } => Err(
                Fault::CorruptRecord { segment: segments[i].0, offset, error },
            ),
            SegmentTail::BadPayload { offset, error } => Err(
                Fault::CorruptPayload { segment: segments[i].0, offset, error },
            ),
        }
    }
}

/// What recovery reads from the segments.
pub open spec fn recovered(segments: Seq<(u64, Seq<u8>)>, watermark: u64) -> Result<
    (Seq<LogRecord>, Option<(u64, u64)>),
    Fault,
> {
    recovered_from(segments, 0, watermark, Seq::empty())
}

/// The log that recovery read, and where the last segment has to be cut.
pub struct Recovered {
    pub entries: Vec<LogEntry>,
    pub hard_state: HardState,
    pub truncate: Option<(u64, u64)>,
}

pub proof fn lemma_entries_push(rs: Seq<LogRecord>, r: LogRecord)
    ensures
        entries_of(rs.push(r)) == (match r {
            LogRecord::Entry(e) => entries_of(rs).push(e),
            LogRecord::Hard(_) => entries_of(rs),
        }),
        hard_of(rs.push(r)) == (match r {
            LogRecord::Entry(_) => hard_of(rs),
            LogRecord::Hard(h) => h,
        }),
{
    assert(rs.push(r).drop_last() =~= rs);
}

/// Read the records of one segment onto the log read so far.
fn replay_segment(
    raw: &[u8],
    entries: &mut Vec<LogEntry>,
    hard_state: &mut HardState,
    Ghost(before): Ghost<Seq<LogRecord>>,
) -> (tail: SegmentTail)
    requires
        types::entry_models(old(entries)@) == entries_of(before),
        *old(hard_state) == hard_of(before),
    ensures
        tail == scan(raw@, 0).1,
        types::entry_models(final(entries)@) == entries_of(before + scan(raw@, 0).0),
        *final(hard_state) == hard_of(before + scan(raw@, 0).0),
{
    let total: usize = raw.len();
    let mut offset: usize = 0;
    let ghost mut now = before;
    assert(now + scan(raw@, 0).0 =~= before + scan(raw@, 0).0);
    while offset < total
        invariant
            offset <= total,
            total == raw@.len(),
            types::entry_models(entries@) == entries_of(now),
            *hard_state == hard_of(now),
            now + scan(raw@, offset as int).0 == before + scan(raw@, 0).0,
            scan(raw@, offset as int).1 == scan(raw@, 0).1,
        decreases total - offset,
    {
        assert(now + Seq::<LogRecord>::empty() =~= now);
        if total - offset < 8 {
            return SegmentTail::Torn { offset: offset as u64 };
        }
        let len: u32 = get_u32(raw, offset);
        if ((total - offset - 8) as u64) < len as u64 {
            return SegmentTail::Torn { offset: offset as u64 };
        }
        let end: usize = offset + 8 + len as usize;
        let (record_type, payload) = match decode_record(
            vstd::slice::slice_subrange(raw, offset, end),
        ) {
            Err(error) => {
                return SegmentTail::BadRecord { offset: offset as u64, error };
            },
            Ok(v) => v,
        };
        let ghost r: LogRecord;
        match record_type {
            RecordType::HardState => {
                match decode_hard_state(&payload) {
                    Err(error) => {
                        return SegmentTail::BadPayload { offset: offset as u64, error };
                    },
                    Ok((term, vote, commit)) => {
                        *hard_state = HardState { term, vote, commit };
                        proof {
                            r = LogRecord::Hard(HardState { term, vote, commit });
                        }
                    },
                }
            },
            RecordType::Entry => {
                match decode_entry(&payload) {
                    Err(error) => {
                        return SegmentTail::BadPayload { offset: offset as u64, error };
                    },
                    Ok((index, term, ty, data)) => {
                        let entry = LogEntry {
                            index,
                            term,
                            entry_type: entry_type_from_u8(ty),
                            data,
                        };
                        let ghost was = types::entry_models(entries@);
                        proof {
                            r = LogRecord::Entry(entry@);
                        }
                        entries.push(entry);
                        assert(types::entry_models(entries@) =~= was.push(entry@));
                    },
                }
            },
            RecordType::Meta => {
                return SegmentTail::BadPayload {
                    offset: offset as u64,
                    error: DecodeError::UnsupportedRecordType(record_type),
                };
            },
        }
        proof {
            lemma_entries_push(now, r);
            let rest = scan(raw@, end as int).0;
            assert(scan(raw@, offset as int).0 =~= seq![r] + rest);
            assert(now + (seq![r] + rest) =~= now.push(r) + rest);
            now = now.push(r);
        }
        offset = end;
    }
    assert(now + Seq::<LogRecord>::empty() =~= now);
    SegmentTail::Clean
}

/// Read the log off the segments, which are given in ascending order.
///
/// `watermark` is the index that a snapshot covers: the log ends there where
/// the segments hold no entry.
pub fn recover_wal(segments: &Vec<SegmentFile>, watermark: LogIndex) -> (r: Result<
    Recovered,
    Fault,
>)
    ensures
        match recovered(segment_models(segments@), watermark) {
            Err(fault) => r matches Err(f) && f == fault,
            Ok((records, truncate)) => r matches Ok(v) && types::entry_models(v.entries@) == entries_of(
                records,
            ) && v.hard_state == hard_of(records) && v.truncate == truncate,
        },
{
    let ghost models = segment_models(segments@);
    let mut entries: Vec<LogEntry> = Vec::new();
    let mut hard_state = HardState::default();
    let ghost mut before: Seq<LogRecord> = Seq::empty();
    let mut i: usize = 0;
    assert(types::entry_models(entries@) =~= entries_of(before));
    while i < segments.len()
        invariant
            i <= segments@.len(),
            models == segment_models(segments@),
            types::entry_models(entries@) == entries_of(before),
            hard_state == hard_of(before),
            recovered(models, watermark) == recovered_from(models, i as int, watermark, before),
        decreases segments@.len() - i,
    {
        let file = &segments[i];
        let tail = replay_segment(&file.bytes, &mut entries, &mut hard_state, Ghost(before));
        proof {
            before = before + scan(file.bytes@, 0).0;
            assert(models[i as int] == (file.first_index, file.bytes@));
        }
        match tail {
            SegmentTail::Clean => {},
            SegmentTail::Torn { offset } => {
                if i != segments.len() - 1 {
                    return Err(Fault::TornSegment { segment: file.first_index, offset });
                }
                let last: u64 = if entries.len() == 0 {
                    watermark
                } else {
                    entries[entries.len() - 1].index
                };
                assert(last == last_of(entries_of(before), watermark)) by {
                    assert(types::entry_models(entries@).len() == entries@.len());
                }
                if last <= hard_state.commit {
                    return Err(Fault::TornCommitted { last, commit: hard_state.commit });
                }
                return Ok(
                    Recovered { entries, hard_state, truncate: Some((file.first_index, offset)) },
                );
            },
            SegmentTail::BadRecord { offset, error } => {
                return Err(Fault::CorruptRecord { segment: file.first_index, offset, error });
            },
            SegmentTail::BadPayload { offset, error } => {
                return Err(Fault::CorruptPayload { segment: file.first_index, offset, error });
            },
        }
        i = i + 1;
    }
    Ok(Recovered { entries, hard_state, truncate: None })
}

// ---------------------------------------------------------------------------
// Continuity
// ---------------------------------------------------------------------------
/// Whether the entries have consecutive indices.
pub open spec fn contiguous(es: Seq<EntryModel>) -> bool {
    forall|i: int| 0 <= i < es.len() ==> (#[trigger] es[i]).index == es[0].index + i
}

/// The first hole in the entries.
pub open spec fn gap_from(es: Seq<EntryModel>, i: int) -> Option<Fault>
    decreases es.len() - i,
{
    if i < 1 || i >= es.len() {
        None
    } else if es[i - 1].index == u64::MAX || es[i].index != es[i - 1].index + 1 {
        Some(Fault::IndexGap { last: es[i - 1].index, found: es[i].index })
    } else {
        gap_from(es, i + 1)
    }
}

/// Without a hole the entries have consecutive indices.
pub proof fn lemma_no_gap(es: Seq<EntryModel>, i: int)
    requires
        1 <= i <= es.len(),
        gap_from(es, i) is None,
        forall|k: int| 0 <= k < i && k < es.len() ==> (#[trigger] es[k]).index == es[0].index + k,
    ensures
        contiguous(es),
    decreases es.len() - i,
{
    if i < es.len() {
        assert(es[i - 1].index == es[0].index + (i - 1));
        lemma_no_gap(es, i + 1);
    }
}

/// Consecutive indices leave no hole.
pub proof fn lemma_contiguous_no_gap(es: Seq<EntryModel>, i: int)
    requires
        1 <= i,
        contiguous(es),
    ensures
        gap_from(es, i) is None,
    decreases es.len() - i,
{
    if i < es.len() {
        assert(es[i - 1].index == es[0].index + (i - 1));
        assert(es[i].index == es[0].index + i);
        lemma_contiguous_no_gap(es, i + 1);
    }
}

/// Verify that the entries have consecutive indices.
pub fn verify_continuity(entries: &Vec<LogEntry>) -> (r: Result<(), Fault>)
    ensures
        match gap_from(types::entry_models(entries@), 1) {
            None => r is Ok && contiguous(types::entry_models(entries@)),
            Some(fault) => r matches Err(f) && f == fault,
        },
{
    let ghost es = types::entry_models(entries@);
    let mut i: usize = 1;
    while i < entries.len()
        invariant
            1 <= i,
            i <= entries@.len() || entries@.len() == 0,
            es == types::entry_models(entries@),
            gap_from(es, 1) == gap_from(es, i as int),
        decreases entries@.len() - i,
    {
        let last: u64 = entries[i - 1].index;
        let found: u64 = entries[i].index;
        assert(es[i - 1].index == last && es[i as int].index == found);
        if last == u64::MAX || found != last + 1 {
            return Err(Fault::IndexGap { last, found });
        }
        i = i + 1;
    }
    proof {
        if es.len() > 0 {
            lemma_no_gap(es, 1);
        }
    }
    Ok(())
}

/// The entries above the watermark.
pub open spec fn retained(es: Seq<EntryModel>, watermark: u64) -> Seq<EntryModel>
    decreases es.len(),
{
    if es.len() == 0 {
        Seq::empty()
    } else if es.last().index > watermark {
        retained(es.drop_last(), watermark).push(es.last())
    } else {
        retained(es.drop_last(), watermark)
    }
}

/// Keep the entries above the watermark.
pub fn retain_above(entries: &Vec<LogEntry>, watermark: LogIndex) -> (kept: Vec<LogEntry>)
    ensures
        types::entry_models(kept@) == retained(types::entry_models(entries@), watermark),
{
    let ghost es = types::entry_models(entries@);
    let mut kept: Vec<LogEntry> = Vec::new();
    let mut i: usize = 0;
    assert(types::entry_models(kept@) =~= retained(es.subrange(0, 0), watermark));
    while i < entries.len()
        invariant
            i <= entries@.len(),
            es == types::entry_models(entries@),
            types::entry_models(kept@) == retained(es.subrange(0, i as int), watermark),
        decreases entries@.len() - i,
    {
        proof {
            let next = es.subrange(0, i + 1);
            assert(next.drop_last() =~= es.subrange(0, i as int));
            assert(next.last() == entries@[i as int]@);
        }
        if entries[i].index > watermark {
            let entry = entries[i].clone();
            let ghost was = types::entry_models(kept@);
            kept.push(entry);
            assert(types::entry_models(kept@) =~= was.push(entry@));
        }
        i = i + 1;
    }
    assert(es.subrange(0, es.len() as int) =~= es);
    kept
}

/// Of consecutive entries, those above the watermark are a suffix.
pub proof fn lemma_retained_suffix(es: Seq<EntryModel>, watermark: u64)
    requires
        contiguous(es),
        es.len() > 0 ==> es[0].index <= watermark + 1,
    ensures
        es.len() > 0 && es.last().index > watermark ==> retained(es, watermark) == es.subrange(
            watermark + 1 - es[0].index,
            es.len() as int,
        ),
        es.len() == 0 || es.last().index <= watermark ==> retained(es, watermark).len() == 0,
    decreases es.len(),
{
    if es.len() > 0 {
        let init = es.drop_last();
        assert(contiguous(init)) by {
            assert forall|i: int| 0 <= i < init.len() implies (#[trigger] init[i]).index
                == init[0].index + i by {
                assert(es[i].index == es[0].index + i);
            }
        }
        lemma_retained_suffix(init, watermark);
        assert(es[es.len() - 1].index == es[0].index + (es.len() - 1));
        if es.last().index > watermark {
            let from = watermark + 1 - es[0].index;
            if init.len() > 0 {
                assert(es[init.len() - 1].index == es[0].index + (init.len() - 1));
            }
            assert(retained(es, watermark) =~= es.subrange(from, es.len() as int));
        }
    }
}

// ---------------------------------------------------------------------------
// Finding an entry
// ---------------------------------------------------------------------------
/// Whether `bytes` are the record of the entry with the given index.
pub open spec fn holds_entry(bytes: Seq<u8>, index: u64) -> bool {
    match record::decoded_record(bytes) {
        Ok((t, payload)) => t == RecordType::Entry && match record::decoded_entry(payload) {
            Ok(e) => e.0 == index,
            Err(_) => false,
        },
        Err(_) => false,
    }
}

/// The offset just past the first entry record with the given index.
pub open spec fn entry_end_in(raw: Seq<u8>, offset: int, index: u64) -> Option<int>
    decreases raw.len() - offset,
{
    let end = offset + 8 + bytes::u32_at(raw, offset);
    if offset < 0 || offset >= raw.len() || torn_at(raw, offset) {
        None
    } else if holds_entry(raw.subrange(offset, end), index) {
        Some(end)
    } else {
        entry_end_in(raw, end, index)
    }
}

/// The segment number and offset just past the first entry record with the
/// given index, in the segments from number `i` on.
pub open spec fn entry_end_from(segments: Seq<(u64, Seq<u8>)>, i: int, index: u64) -> Option<
    (int, int),
>
    decreases segments.len() - i,
{
    if i < 0 || i >= segments.len() {
        None
    } else {
        match entry_end_in(segments[i].1, 0, index) {
            Some(end) => Some((i, end)),
            None => entry_end_from(segments, i + 1, index),
        }
    }
}

fn find_entry_end_in(raw: &[u8], index: LogIndex) -> (r: Option<usize>)
    ensures
        match r {
            Some(end) => entry_end_in(raw@, 0, index) == Some(end as int) && end <= raw@.len(),
            None => entry_end_in(raw@, 0, index) is None,
        },
{
    let total: usize = raw.len();
    let mut offset: usize = 0;
    while offset < total
        invariant
            offset <= total,
            total == raw@.len(),
            entry_end_in(raw@, 0, index) == entry_end_in(raw@, offset as int, index),
        decreases total - offset,
    {
        if total - offset < 8 {
            return None;
        }
        let len: u32 = get_u32(raw, offset);
        if ((total - offset - 8) as u64) < len as u64 {
            return None;
        }
        let end: usize = offset + 8 + len as usize;
        match decode_record(vstd::slice::slice_subrange(raw, offset, end)) {
            Ok((record_type, payload)) => {
                if record_type == RecordType::Entry {
                    match decode_entry(&payload) {
                        Ok((found, _, _, _)) => {
                            if found == index {
                                return Some(end);
                            }
                        },
                        Err(_) => {},
                    }
                }
            },
            Err(_) => {},
        }
        offset = end;
    }
    None
}

/// Find the first entry record with the given index: the number of the segment
/// that holds it, and the offset just past it.
pub fn find_entry_end(segments: &Vec<SegmentFile>, index: LogIndex) -> (r: Option<(usize, u64)>)
    ensures
        match r {
            Some((i, end)) => entry_end_from(segment_models(segments@), 0, index) == Some(
                (i as int, end as int),
            ) && i < segments@.len() && end <= segments@[i as int].bytes@.len(),
            None => entry_end_from(segment_models(segments@), 0, index) is None,
        },
{
    let ghost models = segment_models(segments@);
    let mut i: usize = 0;
    while i < segments.len()
        invariant
            i <= segments@.len(),
            models == segment_models(segments@),
            entry_end_from(models, 0, index) == entry_end_from(models, i as int, index),
        decreases segments@.len() - i,
    {
        assert(models[i as int].1 == segments@[i as int].bytes@);
        match find_entry_end_in(&segments[i].bytes, index) {
            Some(end) => {
                return Some((i, end as u64));
            },
            None => {},
        }
        i = i + 1;
    }
    None
}

} // verus!
