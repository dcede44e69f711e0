//! Segment files: naming, growth, and the records in one.
//!
//! A segment file is named `wal-%020d.log` by the first log index it will
//! hold. It takes records until it reaches the rollover threshold.
use vstd::prelude::*;
use vstd::string::*;
use vstd::utf8::*;

use crate::bytes::get_u32;
use crate::ids;
use crate::ids::insert_id;
use crate::storage::meta::join_path;
use crate::storage::record::{decode_record, encode_record, DecodeError, RecordType};
use crate::text::{parse_digits, push_decimal, push_padded, same_text};
use crate::bytes;
use crate::storage::meta;
use crate::storage::record;
use crate::text;

verus! {

/// The default maximum size of a single segment file before rollover.
pub const DEFAULT_SEGMENT_BYTES: u64 = 134_217_728;

/// Errors from segments.
#[derive(Clone, Debug, PartialEq, Eq)]
pub enum SegmentError {
    /// A low-level I/O failure, as reported by the environment.
    Io(String),
    /// A record in the segment could not be decoded.
    Decode(DecodeError),
    /// The file name is not a valid segment name.
    InvalidName(String),
}

impl SegmentError {
    /// The text of [`SegmentError::message`].
    pub open spec fn text(self) -> Seq<char> {
        match self {
            SegmentError::Io(err) => "segment I/O error: "@ + err@,
            SegmentError::Decode(err) => "segment decode error: "@ + err.text(),
            SegmentError::InvalidName(name) => "invalid segment file name: "@ + name@,
        }
    }

    /// A description of the error.
    pub fn message(&self) -> (s: String)
        ensures
            s@ == self.text(),
    {
        let mut s = String::new();
        match self {
            SegmentError::Io(err) => {
                s.append("segment I/O error: ");
                s.append(err.as_str());
            },
            SegmentError::Decode(err) => {
                s.append("segment decode error: ");
                let detail = err.message();
                s.append(detail.as_str());
            },
            SegmentError::InvalidName(name) => {
                s.append("invalid segment file name: ");
                s.append(name.as_str());
            },
        }
        assert(s@ =~= self.text());
        s
    }
}

// ---------------------------------------------------------------------------
// Names
// ---------------------------------------------------------------------------
/// The file name of a segment.
pub open spec fn segment_name_chars(first_index: u64) -> Seq<char> {
    "wal-"@ + text::padded(first_index as nat, 10, 20) + ".log"@
}

/// The file name of the segment that starts at the given log index.
pub fn segment_name(first_index: u64) -> (s: String)
    ensures
        s@ == segment_name_chars(first_index),
{
    let mut s = String::new();
    s.append("wal-");
    push_padded(&mut s, first_index, 10, 20);
    s.append(".log");
    assert(s@ =~= segment_name_chars(first_index));
    s
}

/// The parts of a segment's name.
pub proof fn lemma_segment_name_parts(first_index: u64)
    ensures
        segment_name_chars(first_index).len() == 28,
        segment_name_chars(first_index).subrange(0, 4) == "wal-"@,
        segment_name_chars(first_index).subrange(4, 24) == text::padded(first_index as nat, 10, 20),
        segment_name_chars(first_index).subrange(24, 28) == ".log"@,
        text::parsed(segment_name_chars(first_index).subrange(4, 24)) == Some(first_index as nat),
{
    reveal_strlit("wal-");
    reveal_strlit(".log");
    text::lemma_padded_len(first_index as nat, 10, 20);
    text::lemma_pow10_20();
    text::lemma_parsed_padded(first_index as nat, 20);
    let n = segment_name_chars(first_index);
    assert(n.subrange(0, 4) =~= "wal-"@);
    assert(n.subrange(4, 24) =~= text::padded(first_index as nat, 10, 20));
    assert(n.subrange(24, 28) =~= ".log"@);
}

/// What is said of a name that is no segment's.
pub open spec fn name_fault(name: Seq<char>) -> Seq<char> {
    let n = name.len() as int;
    let digits = name.subrange(4, n - 4);
    if n < 4 || name.subrange(n - 4, n) != ".log"@ {
        name + " does not end with .log"@
    } else if n < 8 || name.subrange(0, 4) != "wal-"@ {
        name + " does not start with wal-"@
    } else if encode_utf8(digits).len() as usize != 20 {
        "segment name has "@ + text::decimal((encode_utf8(digits).len() as usize) as nat)
            + " digits, expected 20"@
    } else {
        "segment name digits are not a valid u64: "@ + digits
    }
}

/// Digits take one byte each.
proof fn lemma_digits_are_ascii(s: Seq<char>)
    requires
        text::parsed(s) is Some,
    ensures
        is_ascii_chars(s),
    decreases s.len(),
{
    if s.len() > 0 {
        lemma_digits_are_ascii(s.drop_last());
        assert(text::digit_value(s.last()) is Some);
        assert forall|i: int| 0 <= i < s.len() implies '\0' <= #[trigger] s[i] <= '\u{7f}' by {
            if i < s.len() - 1 {
                assert(s.drop_last()[i] == s[i]);
            }
        }
    }
}

/// Parse a segment file name back into its first log index.
///
/// [`SegmentError::InvalidName`] for any name that is not exactly what
/// [`segment_name`] writes.
pub fn parse_segment_name(name: &str) -> (r: Result<u64, SegmentError>)
    ensures
        match r {
            Ok(index) => name@ == segment_name_chars(index),
            Err(e) => {
                &&& forall|index: u64| name@ != #[trigger] segment_name_chars(index)
                &&& e matches SegmentError::InvalidName(detail) && detail@ == name_fault(name@)
            },
        },
{
    proof {
        reveal_strlit("wal-");
        reveal_strlit(".log");
        assert forall|index: u64| name@ == #[trigger] segment_name_chars(index) implies {
            &&& name@.len() == 28
            &&& name@.subrange(0, 4) == "wal-"@
            &&& name@.subrange(24, 28) == ".log"@
            &&& text::parsed(name@.subrange(4, 24)) == Some(index as nat)
        } by {
            lemma_segment_name_parts(index);
        }
    }
    let n: usize = name.unicode_len();
    if n < 4 || !same_text(name.substring_char(n - 4, n), ".log") {
        let mut s = name.to_owned();
        s.append(" does not end with .log");
        return Err(SegmentError::InvalidName(s));
    }
    if n < 8 || !same_text(name.substring_char(0, 4), "wal-") {
        let mut s = name.to_owned();
        s.append(" does not start with wal-");
        return Err(SegmentError::InvalidName(s));
    }
    let digits = name.substring_char(4, n - 4);
    let len: usize = digits.len();
    proof {
        if text::parsed(digits@) is Some {
            lemma_digits_are_ascii(digits@);
            is_ascii_chars_encode_utf8(digits@);
            assert(len == digits@.len());
        }
    }
    if len != 20 {
        let mut s = String::new();
        s.append("segment name has ");
        push_decimal(&mut s, len as u64);
        s.append(" digits, expected 20");
        assert(s@ =~= name_fault(name@));
        return Err(SegmentError::InvalidName(s));
    }
    match parse_digits(digits) {
        None => {
            let mut s = String::new();
            s.append("segment name digits are not a valid u64: ");
            s.append(digits);
            assert(s@ =~= name_fault(name@));
            Err(SegmentError::InvalidName(s))
        },
        Some(index) => {
            proof {
                text::lemma_padded_parsed(digits@);
                assert(name@ =~= segment_name_chars(index));
            }
            Ok(index)
        },
    }
}

/// Whether a list of names has that of a segment.
pub open spec fn names_segment(names: Seq<String>, index: u64) -> bool {
    exists|k: int| 0 <= k < names.len() && (#[trigger] names[k])@ == segment_name_chars(index)
}

/// The segments among the names of a directory, in ascending order.
pub fn list_segment_indices(names: &Vec<String>) -> (r: Vec<u64>)
    ensures
        ids::ascending(r@),
        forall|index: u64| #[trigger] r@.contains(index) <==> names_segment(names@, index),
{
    let mut r: Vec<u64> = Vec::new();
    let n: usize = names.len();
    let mut i: usize = 0;
    while i < n
        invariant
            i <= n,
            n == names@.len(),
            ids::ascending(r@),
            forall|index: u64| #[trigger]
                r@.contains(index) <==> names_segment(names@.subrange(0, i as int), index),
        decreases n - i,
    {
        let ghost before = names@.subrange(0, i as int);
        let ghost after = names@.subrange(0, i + 1);
        let ghost known = r@;
        let name = &names[i];
        let parsed = parse_segment_name(name.as_str());
        if let Ok(index) = parsed {
            insert_id(&mut r, index);
        }
        assert forall|index: u64| #[trigger] r@.contains(index) <==> names_segment(after, index) by {
            assert(known.contains(index) <==> names_segment(before, index));
            if names_segment(before, index) {
                let k = choose|k: int|
                    0 <= k < before.len() && (#[trigger] before[k])@ == segment_name_chars(index);
                assert(after[k] == before[k]);
            }
            if names_segment(after, index) {
                let k = choose|k: int|
                    0 <= k < after.len() && (#[trigger] after[k])@ == segment_name_chars(index);
                if k < i {
                    assert(before[k] == after[k]);
                } else {
                    assert(name@ == segment_name_chars(index));
                    lemma_segment_name_parts(index);
                    if let Ok(found) = parsed {
                        lemma_segment_name_parts(found);
                    }
                }
            }
            if let Ok(found) = parsed {
                assert(after[i as int]@ == segment_name_chars(found));
            }
        }
        i = i + 1;
    }
    assert(names@.subrange(0, n as int) =~= names@);
    r
}

/// The full path to a segment file within a data directory.
pub fn segment_path(data_dir: &str, first_index: u64) -> (path: String)
    ensures
        path@ == meta::joined_path(data_dir@, segment_name_chars(first_index)),
{
    let name = segment_name(first_index);
    join_path(data_dir, name.as_str())
}

// ---------------------------------------------------------------------------
// Growth
// ---------------------------------------------------------------------------
/// `a + b`, capped at the largest `u64`.
pub open spec fn capped_sum(a: int, b: int) -> u64 {
    if a + b > u64::MAX {
        u64::MAX
    } else {
        (a + b) as u64
    }
}

/// The segment that takes new records: its name, size and rollover threshold.
///
/// The size is that of the file, capped at the largest `u64`.
pub struct Segment {
    pub first_index: u64,
    pub size: u64,
    pub max_bytes: u64,
}

impl Segment {
    /// A segment of `size` bytes with the default threshold.
    pub fn open(first_index: u64, size: u64) -> (r: Segment)
        ensures
            r == (Segment { first_index, size, max_bytes: DEFAULT_SEGMENT_BYTES }),
    {
        Segment { first_index, size, max_bytes: DEFAULT_SEGMENT_BYTES }
    }

    /// A segment of `size` bytes with the given threshold.
    pub fn open_with_max_bytes(first_index: u64, size: u64, max_bytes: u64) -> (r: Segment)
        ensures
            r == (Segment { first_index, size, max_bytes }),
    {
        Segment { first_index, size, max_bytes }
    }

    /// Take one framed record: the bytes to write at the end of the file.
    pub fn append_record(&mut self, record_type: RecordType, payload: &[u8]) -> (framed: Vec<u8>)
        requires
            payload@.len() < u32::MAX,
        ensures
            framed@ == record::record_bytes(record_type, payload@),
            *final(self) == (Segment {
                size: capped_sum(old(self).size as int, framed@.len() as int),
                ..*old(self)
            }),
    {
        let framed = encode_record(record_type, payload);
        self.size = self.size.saturating_add(framed.len() as u64);
        framed
    }

    /// The current size of the segment file in bytes.
    pub fn size(&self) -> (n: u64)
        ensures
            n == self.size,
    {
        self.size
    }

    /// Whether the segment has reached the rollover threshold.
    pub fn should_rollover(&self) -> (b: bool)
        ensures
            b == (self.size >= self.max_bytes),
    {
        self.size >= self.max_bytes
    }

    /// Cut the segment to `offset` bytes.
    pub fn truncate_at(&mut self, offset: u64)
        ensures
            *final(self) == (Segment { size: offset, ..*old(self) }),
    {
        self.size = offset;
    }

    /// Read all complete records from the contents of a segment file.
    ///
    /// A partial record at the end is ignored; a complete record that does not
    /// decode is an error.
    pub fn read_all_records(raw: &[u8]) -> (r: Result<Vec<(RecordType, Vec<u8>)>, SegmentError>)
        ensures
            match r {
                Ok(v) => complete_records(raw@, 0) == Some(record_models(v@)),
                Err(e) => complete_records(raw@, 0) is None && e == SegmentError::Decode(
                    DecodeError::TooShort,
                ),
            },
    {
        let mut records: Vec<(RecordType, Vec<u8>)> = Vec::new();
        let total: usize = raw.len();
        let mut offset: usize = 0;
        assert(record_models(records@) =~= Seq::empty());
        assert(complete_records(raw@, 0) == joined_records(
            record_models(records@),
            complete_records(raw@, 0),
        )) by {
            match complete_records(raw@, 0) {
                Some(s) => assert(Seq::<(RecordType, Seq<u8>)>::empty() + s =~= s),
                None => {},
            }
        }
        while offset < total
            invariant
                offset <= total,
                total == raw@.len(),
                complete_records(raw@, 0) == joined_records(
                    record_models(records@),
                    complete_records(raw@, offset as int),
                ),
            ensures
                complete_records(raw@, 0) == Some(record_models(records@)),
            decreases total - offset,
        {
            proof {
                assert(record_models(records@) + Seq::<(RecordType, Seq<u8>)>::empty()
                    =~= record_models(records@));
            }
            if total - offset < 8 {
                break ;
            }
            let len: u32 = get_u32(raw, offset);
            if len < 1 || ((total - offset - 8) as u64) < len as u64 {
                break ;
            }
            let end: usize = offset + 8 + len as usize;
            match decode_record(vstd::slice::slice_subrange(raw, offset, end)) {
                Ok((t, payload)) => {
                    let ghost before = record_models(records@);
                    records.push((t, payload));
                    proof {
                        assert(record_models(records@) =~= before.push((t, payload@)));
                        match complete_records(raw@, end as int) {
                            Some(rest) => {
                                assert(before + (seq![(t, payload@)] + rest) =~= before.push(
                                    (t, payload@),
                                ) + rest);
                            },
                            None => {},
                        }
                    }
                },
                Err(_) => {
                    return Err(SegmentError::Decode(DecodeError::TooShort));
                },
            }
            offset = end;
            proof {
                if offset == total {
                    assert(record_models(records@) + Seq::<(RecordType, Seq<u8>)>::empty()
                        =~= record_models(records@));
                }
            }
        }
        Ok(records)
    }
}

/// Decoded records as mathematical values.
pub open spec fn record_models(v: Seq<(RecordType, Vec<u8>)>) -> Seq<(RecordType, Seq<u8>)> {
    Seq::new(v.len(), |i: int| (v[i].0, v[i].1@))
}

/// `before` followed by `rest`, if there is a rest.
pub open spec fn joined_records(
    before: Seq<(RecordType, Seq<u8>)>,
    rest: Option<Seq<(RecordType, Seq<u8>)>>,
) -> Option<Seq<(RecordType, Seq<u8>)>> {
    match rest {
        Some(s) => Some(before + s),
        None => None,
    }
}

/// The complete records from `offset` on; `None` if one does not decode.
pub open spec fn complete_records(raw: Seq<u8>, offset: int) -> Option<
    Seq<(RecordType, Seq<u8>)>,
>
    decreases raw.len() - offset,
{
    let len = bytes::u32_at(raw, offset) as int;
    let end = offset + 8 + len;
    if offset < 0 || raw.len() - offset < 8 || len < 1 || end > raw.len() {
        Some(Seq::empty())
    } else {
        match record::decoded_record(raw.subrange(offset, end)) {
            Err(_) => None,
            Ok(r) => joined_records(seq![r], complete_records(raw, end)),
        }
    }
}

// ---------------------------------------------------------------------------
// Laws
// ---------------------------------------------------------------------------
/// Two segments never share a name.
pub proof fn law_segment_names_are_distinct(a: u64, b: u64)
    requires
        segment_name_chars(a) == segment_name_chars(b),
    ensures
        a == b,
{
    lemma_segment_name_parts(a);
    lemma_segment_name_parts(b);
}

/// Segment names sort as the indices in them do.
pub proof fn law_segment_names_sort_by_index(a: u64, b: u64)
    ensures
        a < b <==> text::sorts_before(segment_name_chars(a), segment_name_chars(b)),
{
    let x = segment_name_chars(a);
    let y = segment_name_chars(b);
    lemma_segment_name_parts(a);
    lemma_segment_name_parts(b);
    if a < b {
        lemma_smaller_name_sorts_before(a, b);
    }
    if text::sorts_before(x, y) && b <= a {
        let k = choose|k: int|
            0 <= k < x.len() && x.subrange(0, k) == y.subrange(0, k) && #[trigger] x[k] < y[k];
        if b < a {
            lemma_smaller_name_sorts_before(b, a);
            let j = choose|j: int|
                0 <= j < y.len() && y.subrange(0, j) == x.subrange(0, j) && #[trigger] y[j] < x[j];
            if j < k {
                assert(x.subrange(0, k)[j] == y.subrange(0, k)[j]);
            } else if k < j {
                assert(x.subrange(0, j)[k] == y.subrange(0, j)[k]);
            }
        }
    }
}

proof fn lemma_smaller_name_sorts_before(a: u64, b: u64)
    requires
        a < b,
    ensures
        text::sorts_before(segment_name_chars(a), segment_name_chars(b)),
{
    let x = segment_name_chars(a);
    let y = segment_name_chars(b);
    lemma_segment_name_parts(a);
    lemma_segment_name_parts(b);
    text::lemma_pow10_20();
    let k = text::lemma_padded_sorts(a as nat, b as nat, 20);
    let px = text::padded(a as nat, 10, 20);
    let py = text::padded(b as nat, 10, 20);
    assert(x.subrange(4, 24)[k] == x[4 + k]);
    assert(y.subrange(4, 24)[k] == y[4 + k]);
    assert(x.subrange(0, 4 + k) =~= x.subrange(0, 4) + px.subrange(0, k));
    assert(y.subrange(0, 4 + k) =~= y.subrange(0, 4) + py.subrange(0, k));
    assert(x[4 + k] < y[4 + k]);
}

/// A record takes its header and its type byte besides its payload.
pub proof fn law_record_size(t: RecordType, payload: Seq<u8>)
    requires
        payload.len() < u32::MAX,
    ensures
        record::record_bytes(t, payload).len() == 9 + payload.len(),
{
    record::lemma_framed_layout(seq![record::type_byte(t)] + payload);
}

} // verus!
