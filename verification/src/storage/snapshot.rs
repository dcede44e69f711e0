//! The snapshot file: name, layout, encode and decode.
//!
//! A snapshot is a file of its own, `snapshot-<index>-<term>.snap`:
//!
//! ```text
//! [u32 magic][u32 format_version][u64 index][u64 term]
//! [u32 voters_len][u64 voters...][u32 learners_len][u64 learners...]
//! [u64 data_len][data...]
//! [u32 crc32c]        over every byte before this field
//! ```
use vstd::prelude::*;
use vstd::string::*;

use crate::bytes::{copy_range, get_u32, get_u64, put_slice, put_u32, put_u64};
use crate::storage::crc32c::crc32c;
use crate::storage::record::{push_checksum, put_id_list, read_id_list};
use crate::storage::meta::FORMAT_VERSION;
use crate::text::{parse_digits, push_decimal, push_padded, same_text};
use crate::types::{ConfModel, ConfState, Snapshot, SnapshotMeta, SnapshotModel};
use crate::bytes;
use crate::storage::crc32c;
use crate::storage::record;
use crate::text;

verus! {

/// The magic number that a snapshot file starts with (`"ARAS"` in ASCII).
pub const SNAPSHOT_MAGIC: u32 = 0x4152_4153;

/// Errors from decoding a snapshot file.
#[derive(Clone, Copy, Debug, PartialEq, Eq)]
pub enum SnapshotError {
    /// The file is too short to hold a checksum.
    TooShort,
    /// The file does not start with [`SNAPSHOT_MAGIC`].
    BadMagic,
    /// The file's `format_version` differs from [`FORMAT_VERSION`].
    BadFormatVersion {
        /// The version found in the file.
        found: u32,
    },
    /// The stored checksum does not match the computed one.
    ChecksumMismatch {
        /// The checksum stored in the file.
        expected: u32,
        /// The checksum computed over the body.
        actual: u32,
    },
    /// A length field points past the end of the file, or bytes follow the data.
    Truncated,
}

impl SnapshotError {
    /// The text of [`SnapshotError::message`].
    pub open spec fn text(self) -> Seq<char> {
        match self {
            SnapshotError::TooShort => "snapshot file is too short"@,
            SnapshotError::BadMagic => "snapshot file has an invalid magic number"@,
            SnapshotError::BadFormatVersion { found } => "snapshot format_version "@ + text::decimal(
                found as nat,
            ) + " != supported "@ + text::decimal(FORMAT_VERSION as nat),
            SnapshotError::ChecksumMismatch { expected, actual } =>
                "snapshot checksum mismatch: expected "@ + record::checksum_text(expected) + ", got "@
                    + record::checksum_text(actual),
            SnapshotError::Truncated => "snapshot file has a truncated field"@,
        }
    }

    /// A description of the error.
    pub fn message(&self) -> (s: String)
        ensures
            s@ == self.text(),
    {
        let mut s = String::new();
        match self {
            SnapshotError::TooShort => s.append("snapshot file is too short"),
            SnapshotError::BadMagic => s.append("snapshot file has an invalid magic number"),
            SnapshotError::BadFormatVersion { found } => {
                s.append("snapshot format_version ");
                push_decimal(&mut s, *found as u64);
                s.append(" != supported ");
                push_decimal(&mut s, FORMAT_VERSION as u64);
            },
            SnapshotError::ChecksumMismatch { expected, actual } => {
                s.append("snapshot checksum mismatch: expected ");
                push_checksum(&mut s, *expected);
                s.append(", got ");
                push_checksum(&mut s, *actual);
            },
            SnapshotError::Truncated => s.append("snapshot file has a truncated field"),
        }
        assert(s@ =~= self.text());
        s
    }
}

// ---------------------------------------------------------------------------
// Names
// ---------------------------------------------------------------------------
/// The file name of a snapshot.
pub open spec fn snapshot_name_chars(index: u64, term: u64) -> Seq<char> {
    "snapshot-"@ + text::padded(index as nat, 10, 20) + "-"@ + text::padded(term as nat, 10, 20) + ".snap"@
}

/// The file name for a snapshot at `(index, term)`.
pub fn snapshot_file_name(index: u64, term: u64) -> (s: String)
    ensures
        s@ == snapshot_name_chars(index, term),
{
    let mut s = String::new();
    s.append("snapshot-");
    push_padded(&mut s, index, 10, 20);
    s.append("-");
    push_padded(&mut s, term, 10, 20);
    s.append(".snap");
    assert(s@ =~= snapshot_name_chars(index, term));
    s
}

/// Parse `(index, term)` back out of a snapshot file name.
///
/// `None` for any name that is not exactly what [`snapshot_file_name`] writes,
/// so a stray file in the data directory is ignored.
pub fn parse_snapshot_file_name(name: &str) -> (r: Option<(u64, u64)>)
    ensures
        match r {
            Some(v) => name@ == snapshot_name_chars(v.0, v.1),
            None => forall|index: u64, term: u64| name@ != snapshot_name_chars(index, term),
        },
{
    proof {
        reveal_strlit("snapshot-");
        reveal_strlit("-");
        reveal_strlit(".snap");
        assert forall|index: u64, term: u64| true implies {
            let n = #[trigger] snapshot_name_chars(index, term);
            &&& n.len() == 55
            &&& n.subrange(0, 9) == "snapshot-"@
            &&& n.subrange(9, 29) == text::padded(index as nat, 10, 20)
            &&& n.subrange(29, 30) == "-"@
            &&& n.subrange(30, 50) == text::padded(term as nat, 10, 20)
            &&& n.subrange(50, 55) == ".snap"@
        } by {
            text::lemma_padded_len(index as nat, 10, 20);
            text::lemma_padded_len(term as nat, 10, 20);
            let n = snapshot_name_chars(index, term);
            assert(n.subrange(0, 9) =~= "snapshot-"@);
            assert(n.subrange(9, 29) =~= text::padded(index as nat, 10, 20));
            assert(n.subrange(29, 30) =~= "-"@);
            assert(n.subrange(30, 50) =~= text::padded(term as nat, 10, 20));
            assert(n.subrange(50, 55) =~= ".snap"@);
        }
    }
    if name.unicode_len() != 55 {
        return None;
    }
    if !same_text(name.substring_char(0, 9), "snapshot-") || !same_text(
        name.substring_char(29, 30),
        "-",
    ) || !same_text(name.substring_char(50, 55), ".snap") {
        return None;
    }
    let index_digits = name.substring_char(9, 29);
    let term_digits = name.substring_char(30, 50);
    proof {
        text::lemma_pow10_20();
        assert forall|index: u64, term: u64| name@ == snapshot_name_chars(index, term) implies {
            &&& text::parsed(index_digits@) == Some(index as nat)
            &&& text::parsed(term_digits@) == Some(term as nat)
        } by {
            text::lemma_parsed_padded(index as nat, 20);
            text::lemma_parsed_padded(term as nat, 20);
        }
    }
    match (parse_digits(index_digits), parse_digits(term_digits)) {
        (Some(index), Some(term)) => {
            proof {
                text::lemma_padded_parsed(index_digits@);
                text::lemma_padded_parsed(term_digits@);
                assert(name@ =~= snapshot_name_chars(index, term));
            }
            Some((index, term))
        },
        _ => None,
    }
}

// ---------------------------------------------------------------------------
// Contents
// ---------------------------------------------------------------------------
/// Everything in a snapshot file before the checksum.
pub open spec fn snapshot_body(s: SnapshotModel) -> Seq<u8> {
    bytes::u32_bytes(SNAPSHOT_MAGIC) + bytes::u32_bytes(FORMAT_VERSION) + bytes::u64_bytes(s.index) + bytes::u64_bytes(s.term)
        + record::id_list_bytes(s.conf.voters) + record::id_list_bytes(s.conf.learners) + bytes::u64_bytes(
        s.data.len() as u64,
    ) + s.data
}

/// A body followed by its checksum.
pub open spec fn sealed(body: Seq<u8>) -> Seq<u8> {
    body + bytes::u32_bytes(crc32c::crc32c_of(body))
}

/// The bytes of a snapshot file.
pub open spec fn snapshot_bytes(s: SnapshotModel) -> Seq<u8> {
    sealed(snapshot_body(s))
}

/// What a body with a matching checksum decodes to.
pub open spec fn decoded_snapshot_body(body: Seq<u8>) -> Result<SnapshotModel, SnapshotError> {
    if body.len() < 4 {
        Err(SnapshotError::Truncated)
    } else if bytes::u32_at(body, 0) != SNAPSHOT_MAGIC {
        Err(SnapshotError::BadMagic)
    } else if body.len() < 8 {
        Err(SnapshotError::Truncated)
    } else if bytes::u32_at(body, 4) != FORMAT_VERSION {
        Err(SnapshotError::BadFormatVersion { found: bytes::u32_at(body, 4) })
    } else if body.len() < 24 {
        Err(SnapshotError::Truncated)
    } else {
        match record::id_list_at(body, 24) {
            None => Err(SnapshotError::Truncated),
            Some((voters, after_voters)) => match record::id_list_at(body, after_voters) {
                None => Err(SnapshotError::Truncated),
                Some((learners, at)) => if at + 8 > body.len() || at + 8 + bytes::u64_at(body, at)
                    != body.len() {
                    Err(SnapshotError::Truncated)
                } else {
                    Ok(
                        SnapshotModel {
                            index: bytes::u64_at(body, 8),
                            term: bytes::u64_at(body, 16),
                            conf: ConfModel { voters, learners },
                            data: body.subrange(at + 8, body.len() as int),
                        },
                    )
                },
            },
        }
    }
}

/// What a snapshot file decodes to.
pub open spec fn decoded_snapshot(bytes: Seq<u8>) -> Result<SnapshotModel, SnapshotError> {
    if bytes.len() < 4 {
        Err(SnapshotError::TooShort)
    } else {
        let body = bytes.subrange(0, bytes.len() - 4);
        let stored = bytes::u32_at(bytes, bytes.len() - 4);
        if stored != crc32c::crc32c_of(body) {
            Err(SnapshotError::ChecksumMismatch { expected: stored, actual: crc32c::crc32c_of(body) })
        } else {
            decoded_snapshot_body(body)
        }
    }
}

/// Whether the member counts of a snapshot fit their length fields.
pub open spec fn snapshot_fits(s: SnapshotModel) -> bool {
    &&& s.conf.voters.len() <= u32::MAX
    &&& s.conf.learners.len() <= u32::MAX
    &&& s.data.len() <= u64::MAX
}

/// Encode a snapshot into the bytes of its file.
pub fn encode_snapshot(snapshot: &Snapshot) -> (bytes: Vec<u8>)
    requires
        snapshot_fits(snapshot@),
    ensures
        bytes@ == snapshot_bytes(snapshot@),
{
    let mut body: Vec<u8> = Vec::new();
    put_u32(&mut body, SNAPSHOT_MAGIC);
    put_u32(&mut body, FORMAT_VERSION);
    put_u64(&mut body, snapshot.meta.index);
    put_u64(&mut body, snapshot.meta.term);
    put_id_list(&mut body, &snapshot.meta.conf_state.voters);
    put_id_list(&mut body, &snapshot.meta.conf_state.learners);
    put_u64(&mut body, snapshot.data.len() as u64);
    put_slice(&mut body, &snapshot.data);
    assert(body@ =~= snapshot_body(snapshot@));
    let crc: u32 = crc32c(&body);
    put_u32(&mut body, crc);
    body
}

fn decode_snapshot_body(body: &[u8]) -> (r: Result<Snapshot, SnapshotError>)
    ensures
        match r {
            Ok(s) => decoded_snapshot_body(body@) == Ok::<SnapshotModel, SnapshotError>(s@),
            Err(e) => decoded_snapshot_body(body@) == Err::<SnapshotModel, SnapshotError>(e),
        },
{
    if body.len() < 4 {
        return Err(SnapshotError::Truncated);
    }
    if get_u32(body, 0) != SNAPSHOT_MAGIC {
        return Err(SnapshotError::BadMagic);
    }
    if body.len() < 8 {
        return Err(SnapshotError::Truncated);
    }
    let format_version: u32 = get_u32(body, 4);
    if format_version != FORMAT_VERSION {
        return Err(SnapshotError::BadFormatVersion { found: format_version });
    }
    if body.len() < 24 {
        return Err(SnapshotError::Truncated);
    }
    let index: u64 = get_u64(body, 8);
    let term: u64 = get_u64(body, 16);
    let (voters, after_voters) = match read_id_list(body, 24) {
        None => {
            return Err(SnapshotError::Truncated);
        },
        Some(v) => v,
    };
    let (learners, at) = match read_id_list(body, after_voters) {
        None => {
            return Err(SnapshotError::Truncated);
        },
        Some(v) => v,
    };
    if body.len() - at < 8 {
        return Err(SnapshotError::Truncated);
    }
    let data_len: u64 = get_u64(body, at);
    if (body.len() - at - 8) as u64 != data_len {
        return Err(SnapshotError::Truncated);
    }
    let data = copy_range(body, at + 8, body.len());
    let snapshot = Snapshot {
        meta: SnapshotMeta { index, term, conf_state: ConfState { voters, learners } },
        data,
    };
    Ok(snapshot)
}

/// Decode and validate a snapshot file: its checksum, magic, format version and
/// every length field.
pub fn decode_snapshot(bytes: &[u8]) -> (r: Result<Snapshot, SnapshotError>)
    ensures
        match r {
            Ok(s) => decoded_snapshot(bytes@) == Ok::<SnapshotModel, SnapshotError>(s@),
            Err(e) => decoded_snapshot(bytes@) == Err::<SnapshotModel, SnapshotError>(e),
        },
{
    if bytes.len() < 4 {
        return Err(SnapshotError::TooShort);
    }
    let at: usize = bytes.len() - 4;
    let body = vstd::slice::slice_subrange(bytes, 0, at);
    let expected: u32 = get_u32(bytes, at);
    let actual: u32 = crc32c(body);
    if expected != actual {
        return Err(SnapshotError::ChecksumMismatch { expected, actual });
    }
    decode_snapshot_body(body)
}

// ---------------------------------------------------------------------------
// Laws
// ---------------------------------------------------------------------------
/// A sealed body is split back into the body and a checksum that matches it.
pub proof fn lemma_sealed(body: Seq<u8>)
    ensures
        sealed(body).len() == body.len() + 4,
        sealed(body).subrange(0, sealed(body).len() - 4) == body,
        bytes::u32_at(sealed(body), sealed(body).len() - 4) == crc32c::crc32c_of(body),
{
    bytes::lemma_u32_bytes(crc32c::crc32c_of(body));
    let s = sealed(body);
    assert(s.subrange(0, s.len() - 4) =~= body);
    assert(s.subrange(s.len() - 4, s.len() as int) =~= bytes::u32_bytes(crc32c::crc32c_of(body)));
}

/// Decoding an encoded snapshot gives it back.
pub proof fn law_snapshot_round_trip(s: SnapshotModel)
    requires
        snapshot_fits(s),
    ensures
        decoded_snapshot(snapshot_bytes(s)) == Ok::<SnapshotModel, SnapshotError>(s),
{
    let body = snapshot_body(s);
    lemma_sealed(body);
    let head = bytes::u32_bytes(SNAPSHOT_MAGIC) + bytes::u32_bytes(FORMAT_VERSION) + bytes::u64_bytes(s.index)
        + bytes::u64_bytes(s.term);
    let vs = record::id_list_bytes(s.conf.voters);
    let ls = record::id_list_bytes(s.conf.learners);
    let len = bytes::u64_bytes(s.data.len() as u64);
    bytes::lemma_u32_bytes(SNAPSHOT_MAGIC);
    bytes::lemma_u32_bytes(FORMAT_VERSION);
    bytes::lemma_u64_bytes(s.index);
    bytes::lemma_u64_bytes(s.term);
    bytes::lemma_u64_bytes(s.data.len() as u64);
    record::lemma_id_list_at(head, s.conf.voters, ls + len + s.data);
    record::lemma_id_list_at(head + vs, s.conf.learners, len + s.data);
    assert(body =~= head + vs + (ls + len + s.data));
    assert(body =~= (head + vs) + ls + (len + s.data));
    assert(body.subrange(0, 4) =~= bytes::u32_bytes(SNAPSHOT_MAGIC));
    assert(body.subrange(4, 8) =~= bytes::u32_bytes(FORMAT_VERSION));
    assert(body.subrange(8, 16) =~= bytes::u64_bytes(s.index));
    assert(body.subrange(16, 24) =~= bytes::u64_bytes(s.term));
    let at = (head + vs + ls).len() as int;
    assert(body.subrange(at, at + 8) =~= len);
    assert(body.subrange(at + 8, body.len() as int) =~= s.data);
}

/// A snapshot file with one byte changed, wherever it stands, is rejected.
pub proof fn law_corrupt_snapshot_is_rejected(s: SnapshotModel, i: int, byte: u8)
    requires
        0 <= i < snapshot_bytes(s).len(),
        byte != snapshot_bytes(s)[i],
    ensures
        decoded_snapshot(snapshot_bytes(s).update(i, byte)) matches Err(
            SnapshotError::ChecksumMismatch { expected, actual },
        ) && expected != actual,
{
    lemma_sealed_byte_changed(snapshot_body(s), i, byte);
}

/// A sealed body with one byte changed no longer matches its checksum.
pub proof fn lemma_sealed_byte_changed(body: Seq<u8>, i: int, byte: u8)
    requires
        0 <= i < sealed(body).len(),
        byte != sealed(body)[i],
    ensures
        ({
            let broken = sealed(body).update(i, byte);
            crc32c::crc32c_of(broken.subrange(0, broken.len() - 4)) != bytes::u32_at(
                broken,
                broken.len() - 4,
            )
        }),
{
    let whole = sealed(body);
    let broken = whole.update(i, byte);
    let at = whole.len() - 4;
    lemma_sealed(body);
    if i < at {
        assert(broken.subrange(0, at) =~= body.update(i, byte));
        assert(broken.subrange(at, broken.len() as int) =~= whole.subrange(at, whole.len() as int));
        crc32c::law_one_byte_corruption_changes_checksum(body, i, byte);
    } else {
        assert(broken.subrange(0, at) =~= body);
        bytes::lemma_u32_changed(whole, at, i, byte);
    }
}

/// A body of another length that agrees with a snapshot's as far as both go is
/// no body of a snapshot.
proof fn lemma_other_length_is_no_body(s: SnapshotModel, other: Seq<u8>)
    requires
        snapshot_fits(s),
        other.len() != snapshot_body(s).len(),
        forall|i: int|
            0 <= i < other.len() && i < snapshot_body(s).len() ==> other[i] == #[trigger] snapshot_body(
                s,
            )[i],
    ensures
        decoded_snapshot_body(other) is Err,
{
    let body = snapshot_body(s);
    law_snapshot_round_trip(s);
    lemma_sealed(body);
    assert(decoded_snapshot_body(body) is Ok);
    if decoded_snapshot_body(other) is Ok {
        let upto = if other.len() < body.len() {
            other.len() as int
        } else {
            body.len() as int
        };
        assert(other.subrange(0, upto) =~= body.subrange(0, upto));
        lemma_same_end(other, body, upto);
    }
}

/// Two bodies that decode and agree as far as both go end at the same length.
proof fn lemma_same_end(a: Seq<u8>, b: Seq<u8>, upto: int)
    requires
        decoded_snapshot_body(a) is Ok,
        decoded_snapshot_body(b) is Ok,
        upto == a.len() || upto == b.len(),
        upto <= a.len(),
        upto <= b.len(),
        a.subrange(0, upto) == b.subrange(0, upto),
    ensures
        a.len() == b.len(),
{
    let (short, long) = if upto == a.len() {
        (a, b)
    } else {
        (b, a)
    };
    let next = record::id_list_at(short, 24).unwrap().1;
    record::lemma_id_list_read(short, 24);
    record::lemma_id_list_agrees(short, long, 24, upto);
    record::lemma_id_list_read(short, next);
    record::lemma_id_list_agrees(short, long, next, upto);
    let at = record::id_list_at(short, next).unwrap().1;
    assert(short.subrange(0, upto).subrange(at, at + 8) =~= short.subrange(at, at + 8));
    assert(long.subrange(0, upto).subrange(at, at + 8) =~= long.subrange(at, at + 8));
}

/// Every proper prefix of a snapshot file is rejected.
pub proof fn law_truncated_snapshot_is_rejected(s: SnapshotModel, cut: int)
    requires
        snapshot_fits(s),
        0 <= cut < snapshot_bytes(s).len(),
    ensures
        decoded_snapshot(snapshot_bytes(s).subrange(0, cut)) is Err,
{
    let body = snapshot_body(s);
    let short = snapshot_bytes(s).subrange(0, cut);
    lemma_sealed(body);
    if cut >= 4 {
        let other = short.subrange(0, cut - 4);
        assert forall|i: int| 0 <= i < other.len() && i < body.len() implies other[i]
            == #[trigger] body[i] by {}
        lemma_other_length_is_no_body(s, other);
    }
}

/// A snapshot file followed by anything is rejected.
pub proof fn law_extended_snapshot_is_rejected(s: SnapshotModel, tail: Seq<u8>)
    requires
        snapshot_fits(s),
        tail.len() > 0,
    ensures
        decoded_snapshot(snapshot_bytes(s) + tail) is Err,
{
    let body = snapshot_body(s);
    let long = snapshot_bytes(s) + tail;
    lemma_sealed(body);
    let other = long.subrange(0, long.len() - 4);
    assert forall|i: int| 0 <= i < other.len() && i < body.len() implies other[i]
        == #[trigger] body[i] by {}
    lemma_other_length_is_no_body(s, other);
}

/// A snapshot file that is accepted is the one encoding of what it decodes to.
pub proof fn law_accepted_snapshot_is_its_encoding(file: Seq<u8>)
    requires
        decoded_snapshot(file) is Ok,
    ensures
        decoded_snapshot(file) matches Ok(s) && snapshot_fits(s) && file == snapshot_bytes(s),
{
    let s = decoded_snapshot(file).unwrap();
    let body = file.subrange(0, file.len() - 4);
    let next = record::id_list_at(body, 24).unwrap().1;
    record::lemma_id_list_read(body, 24);
    record::lemma_id_list_read(body, next);
    let at = record::id_list_at(body, next).unwrap().1;
    bytes::lemma_u32_read(body, 0);
    bytes::lemma_u32_read(body, 4);
    bytes::lemma_u64_read(body, 8);
    bytes::lemma_u64_read(body, 16);
    bytes::lemma_u64_read(body, at);
    bytes::lemma_u32_read(file, file.len() - 4);
    assert(body =~= body.subrange(0, 4) + body.subrange(4, 8) + body.subrange(8, 16)
        + body.subrange(16, 24) + body.subrange(24, next) + body.subrange(next, at)
        + body.subrange(at, at + 8) + s.data);
    assert(file =~= body + file.subrange(file.len() - 4, file.len() as int));
}

/// Two snapshots never share a name.
pub proof fn law_snapshot_names_are_distinct(a: u64, b: u64, c: u64, d: u64)
    requires
        snapshot_name_chars(a, b) == snapshot_name_chars(c, d),
    ensures
        a == c,
        b == d,
{
    reveal_strlit("snapshot-");
    reveal_strlit("-");
    reveal_strlit(".snap");
    text::lemma_pow10_20();
    text::lemma_padded_len(a as nat, 10, 20);
    text::lemma_padded_len(b as nat, 10, 20);
    text::lemma_padded_len(c as nat, 10, 20);
    text::lemma_padded_len(d as nat, 10, 20);
    let x = snapshot_name_chars(a, b);
    let y = snapshot_name_chars(c, d);
    assert(x.subrange(9, 29) =~= text::padded(a as nat, 10, 20));
    assert(y.subrange(9, 29) =~= text::padded(c as nat, 10, 20));
    assert(x.subrange(30, 50) =~= text::padded(b as nat, 10, 20));
    assert(y.subrange(30, 50) =~= text::padded(d as nat, 10, 20));
    text::lemma_parsed_padded(a as nat, 20);
    text::lemma_parsed_padded(b as nat, 20);
    text::lemma_parsed_padded(c as nat, 20);
    text::lemma_parsed_padded(d as nat, 20);
}

} // verus!
