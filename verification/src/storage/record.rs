//! Log record format: framing, record types, and typed encode/decode.
//!
//! Each record on disk is
//!
//! ```text
//! [u32 len LE][u32 crc32c LE][u8 type][payload]
//! ```
//!
//! where `len` counts the bytes after the 8-byte header (the type byte and the
//! payload) and the checksum covers exactly those bytes. The set of record
//! types is frozen: changing it takes a new format version.
use vstd::prelude::*;
use vstd::string::*;

use crate::bytes::{copy_range, get_u32, get_u64, put_slice, put_u32, put_u64};
use crate::storage::crc32c::crc32c;
use crate::text::push_padded;
use crate::bytes;
use crate::storage::crc32c;
use crate::text;

verus! {

/// Maximum size (in bytes) of a single record's body (type byte and payload).
///
/// A declared length above it is rejected as [`DecodeError::BadLength`].
pub const MAX_RECORD_BYTES: u32 = 67_108_864;

/// The kind of a log record.
#[derive(Clone, Copy, Debug, PartialEq, Eq, Structural)]
pub enum RecordType {
    /// A replicated log entry.
    Entry,
    /// A hard-state (term/vote/commit) record.
    HardState,
    /// A META record: allocated, but not decoded.
    Meta,
}

/// Errors that can occur when decoding a log record.
#[derive(Clone, Copy, Debug, PartialEq, Eq)]
pub enum DecodeError {
    /// The buffer is too short to contain a complete record header or body.
    TooShort,
    /// The `len` field exceeds [`MAX_RECORD_BYTES`] or does not match the
    /// buffer's size.
    BadLength,
    /// The checksum does not match the body.
    ChecksumMismatch {
        /// The checksum stored in the record header.
        expected: u32,
        /// The checksum computed over the body.
        actual: u32,
    },
    /// The type byte does not correspond to any [`RecordType`].
    UnknownRecordType(u8),
    /// The record type is known but not decoded.
    UnsupportedRecordType(RecordType),
    /// Bytes remain after the record that do not form a valid next record.
    TrailingBytes,
}

/// The byte that stands for a record type on disk.
pub open spec fn type_byte(t: RecordType) -> u8 {
    match t {
        RecordType::Entry => 1,
        RecordType::HardState => 2,
        RecordType::Meta => 3,
    }
}

/// The record type that a byte stands for.
pub open spec fn type_of_byte(b: u8) -> Option<RecordType> {
    if b == 1 {
        Some(RecordType::Entry)
    } else if b == 2 {
        Some(RecordType::HardState)
    } else if b == 3 {
        Some(RecordType::Meta)
    } else {
        None
    }
}

impl TryFrom<u8> for RecordType {
    type Error = DecodeError;

    fn try_from(value: u8) -> (r: Result<Self, Self::Error>) {
        if value == 1 {
            Ok(RecordType::Entry)
        } else if value == 2 {
            Ok(RecordType::HardState)
        } else if value == 3 {
            Ok(RecordType::Meta)
        } else {
            Err(DecodeError::UnknownRecordType(value))
        }
    }
}

impl vstd::std_specs::convert::TryFromSpecImpl<u8> for RecordType {
    open spec fn obeys_try_from_spec() -> bool {
        true
    }

    open spec fn try_from_spec(value: u8) -> Result<Self, DecodeError> {
        match type_of_byte(value) {
            Some(t) => Ok(t),
            None => Err(DecodeError::UnknownRecordType(value)),
        }
    }
}

impl From<RecordType> for u8 {
    fn from(value: RecordType) -> (r: u8) {
        match value {
            RecordType::Entry => 1,
            RecordType::HardState => 2,
            RecordType::Meta => 3,
        }
    }
}

impl vstd::std_specs::convert::FromSpecImpl<RecordType> for u8 {
    open spec fn obeys_from_spec() -> bool {
        true
    }

    open spec fn from_spec(value: RecordType) -> u8 {
        type_byte(value)
    }
}

/// A checksum as it appears in messages: `0x` and eight hexadecimal digits.
pub open spec fn checksum_text(x: u32) -> Seq<char> {
    "0x"@ + text::padded(x as nat, 16, 8)
}

/// Append a checksum in message form.
pub fn push_checksum(s: &mut String, x: u32)
    ensures
        final(s)@ == old(s)@ + checksum_text(x),
{
    s.append("0x");
    push_padded(s, x as u64, 16, 8);
    assert(s@ =~= old(s)@ + checksum_text(x));
}

impl DecodeError {
    /// The text of [`DecodeError::message`].
    pub open spec fn text(self) -> Seq<char> {
        match self {
            DecodeError::TooShort => "buffer too short for a complete record"@,
            DecodeError::BadLength => "record length field is implausible"@,
            DecodeError::ChecksumMismatch { expected, actual } => "checksum mismatch: expected "@
                + checksum_text(expected) + ", got "@ + checksum_text(actual),
            DecodeError::UnknownRecordType(b) => "unknown record type byte: 0x"@ + text::padded(
                b as nat,
                16,
                2,
            ),
            DecodeError::UnsupportedRecordType(t) => "record type "@ + (match t {
                RecordType::Entry => "Entry"@,
                RecordType::HardState => "HardState"@,
                RecordType::Meta => "Meta"@,
            }) + " is not yet supported for decoding"@,
            DecodeError::TrailingBytes => "trailing bytes after record do not form a valid record"@,
        }
    }

    /// A description of the error.
    pub fn message(&self) -> (s: String)
        ensures
            s@ == self.text(),
    {
        let mut s = String::new();
        match self {
            DecodeError::TooShort => s.append("buffer too short for a complete record"),
            DecodeError::BadLength => s.append("record length field is implausible"),
            DecodeError::ChecksumMismatch { expected, actual } => {
                s.append("checksum mismatch: expected ");
                push_checksum(&mut s, *expected);
                s.append(", got ");
                push_checksum(&mut s, *actual);
            },
            DecodeError::UnknownRecordType(b) => {
                s.append("unknown record type byte: 0x");
                push_padded(&mut s, *b as u64, 16, 2);
            },
            DecodeError::UnsupportedRecordType(t) => {
                s.append("record type ");
                match t {
                    RecordType::Entry => s.append("Entry"),
                    RecordType::HardState => s.append("HardState"),
                    RecordType::Meta => s.append("Meta"),
                }
                s.append(" is not yet supported for decoding");
            },
            DecodeError::TrailingBytes => s.append(
                "trailing bytes after record do not form a valid record",
            ),
        }
        assert(s@ =~= self.text());
        s
    }
}

// ---------------------------------------------------------------------------
// Records
// ---------------------------------------------------------------------------
/// The bytes of a record whose body is `body`.
pub open spec fn framed(body: Seq<u8>) -> Seq<u8> {
    bytes::u32_bytes(body.len() as u32) + bytes::u32_bytes(crc32c::crc32c_of(body)) + body
}

/// The bytes of a record.
pub open spec fn record_bytes(t: RecordType, payload: Seq<u8>) -> Seq<u8> {
    framed(seq![type_byte(t)] + payload)
}

/// What a buffer that should hold exactly one record decodes to.
pub open spec fn decoded_record(buf: Seq<u8>) -> Result<(RecordType, Seq<u8>), DecodeError> {
    let len = bytes::u32_at(buf, 0);
    let stored = bytes::u32_at(buf, 4);
    let body = buf.subrange(8, buf.len() as int);
    if buf.len() < 8 {
        Err(DecodeError::TooShort)
    } else if buf.len() != 8 + len || len > MAX_RECORD_BYTES {
        Err(DecodeError::BadLength)
    } else if len < 1 {
        Err(DecodeError::TooShort)
    } else if crc32c::crc32c_of(body) != stored {
        Err(DecodeError::ChecksumMismatch { expected: stored, actual: crc32c::crc32c_of(body) })
    } else {
        match type_of_byte(body[0]) {
            None => Err(DecodeError::UnknownRecordType(body[0])),
            Some(RecordType::Meta) => Err(DecodeError::UnsupportedRecordType(RecordType::Meta)),
            Some(t) => Ok((t, body.subrange(1, body.len() as int))),
        }
    }
}

/// Encode a record from its type and payload bytes.
pub fn encode_record(record_type: RecordType, payload: &[u8]) -> (buf: Vec<u8>)
    requires
        payload@.len() < u32::MAX,
    ensures
        buf@ == record_bytes(record_type, payload@),
{
    let mut body: Vec<u8> = Vec::new();
    body.push(u8::from(record_type));
    put_slice(&mut body, payload);
    assert(body@ =~= seq![type_byte(record_type)] + payload@);
    let crc: u32 = crc32c(&body);
    let mut buf: Vec<u8> = Vec::new();
    put_u32(&mut buf, body.len() as u32);
    put_u32(&mut buf, crc);
    put_slice(&mut buf, &body);
    assert(buf@ =~= framed(body@));
    buf
}

/// Decode a single record from a buffer that holds exactly one.
pub fn decode_record(buf: &[u8]) -> (r: Result<(RecordType, Vec<u8>), DecodeError>)
    ensures
        match r {
            Ok(v) => decoded_record(buf@) == Ok::<(RecordType, Seq<u8>), DecodeError>((v.0, v.1@)),
            Err(e) => decoded_record(buf@) == Err::<(RecordType, Seq<u8>), DecodeError>(e),
        },
{
    if buf.len() < 8 {
        return Err(DecodeError::TooShort);
    }
    let len: u32 = get_u32(buf, 0);
    let stored: u32 = get_u32(buf, 4);
    if (buf.len() - 8) as u64 != len as u64 {
        return Err(DecodeError::BadLength);
    }
    if len > MAX_RECORD_BYTES {
        return Err(DecodeError::BadLength);
    }
    if len < 1 {
        return Err(DecodeError::TooShort);
    }
    let body = vstd::slice::slice_subrange(buf, 8, buf.len());
    let actual: u32 = crc32c(body);
    if actual != stored {
        return Err(DecodeError::ChecksumMismatch { expected: stored, actual });
    }
    let record_type = match RecordType::try_from(body[0]) {
        Ok(t) => t,
        Err(e) => {
            return Err(e);
        },
    };
    if record_type == RecordType::Meta {
        return Err(DecodeError::UnsupportedRecordType(record_type));
    }
    let payload = copy_range(body, 1, body.len());
    Ok((record_type, payload))
}

// ---------------------------------------------------------------------------
// Log entries
// ---------------------------------------------------------------------------
/// The payload of an entry record: `[u64 index][u64 term][u8 type][data]`.
pub open spec fn entry_bytes(index: u64, term: u64, entry_type: u8, data: Seq<u8>) -> Seq<u8> {
    bytes::u64_bytes(index) + bytes::u64_bytes(term) + seq![entry_type] + data
}

/// What an entry payload decodes to.
pub open spec fn decoded_entry(payload: Seq<u8>) -> Result<(u64, u64, u8, Seq<u8>), DecodeError> {
    if payload.len() < 17 {
        Err(DecodeError::TooShort)
    } else {
        Ok(
            (
                bytes::u64_at(payload, 0),
                bytes::u64_at(payload, 8),
                payload[16],
                payload.subrange(17, payload.len() as int),
            ),
        )
    }
}

/// Encode a log entry payload.
pub fn encode_entry(index: u64, term: u64, entry_type: u8, data: &[u8]) -> (buf: Vec<u8>)
    ensures
        buf@ == entry_bytes(index, term, entry_type, data@),
{
    let mut buf: Vec<u8> = Vec::new();
    put_u64(&mut buf, index);
    put_u64(&mut buf, term);
    buf.push(entry_type);
    put_slice(&mut buf, data);
    assert(buf@ =~= entry_bytes(index, term, entry_type, data@));
    buf
}

/// Decode a log entry payload.
pub fn decode_entry(payload: &[u8]) -> (r: Result<(u64, u64, u8, Vec<u8>), DecodeError>)
    ensures
        match r {
            Ok(v) => decoded_entry(payload@) == Ok::<(u64, u64, u8, Seq<u8>), DecodeError>(
                (v.0, v.1, v.2, v.3@),
            ),
            Err(e) => decoded_entry(payload@) == Err::<(u64, u64, u8, Seq<u8>), DecodeError>(e),
        },
{
    if payload.len() < 17 {
        return Err(DecodeError::TooShort);
    }
    let index: u64 = get_u64(payload, 0);
    let term: u64 = get_u64(payload, 8);
    let entry_type: u8 = payload[16];
    let data = copy_range(payload, 17, payload.len());
    Ok((index, term, entry_type, data))
}

// ---------------------------------------------------------------------------
// Hard state
// ---------------------------------------------------------------------------
/// The payload of a hard-state record:
/// `[u64 term][u8 has_vote][u64 vote][u64 commit]`, the vote zeroed when absent.
pub open spec fn hard_state_bytes(term: u64, vote: Option<u64>, commit: u64) -> Seq<u8> {
    bytes::u64_bytes(term) + (match vote {
        Some(v) => seq![1u8] + bytes::u64_bytes(v),
        None => seq![0u8] + bytes::u64_bytes(0),
    }) + bytes::u64_bytes(commit)
}

/// What a hard-state payload decodes to.
pub open spec fn decoded_hard_state(payload: Seq<u8>) -> Result<
    (u64, Option<u64>, u64),
    DecodeError,
> {
    if payload.len() < 25 {
        Err(DecodeError::TooShort)
    } else {
        Ok(
            (
                bytes::u64_at(payload, 0),
                if payload[8] == 1 {
                    Some(bytes::u64_at(payload, 9))
                } else {
                    None
                },
                bytes::u64_at(payload, 17),
            ),
        )
    }
}

/// Encode a hard-state payload.
pub fn encode_hard_state(term: u64, vote: Option<u64>, commit: u64) -> (buf: Vec<u8>)
    ensures
        buf@ == hard_state_bytes(term, vote, commit),
{
    let mut buf: Vec<u8> = Vec::new();
    put_u64(&mut buf, term);
    match vote {
        Some(v) => {
            buf.push(1);
            put_u64(&mut buf, v);
        },
        None => {
            buf.push(0);
            put_u64(&mut buf, 0);
        },
    }
    put_u64(&mut buf, commit);
    assert(buf@ =~= hard_state_bytes(term, vote, commit));
    buf
}

/// Decode a hard-state payload.
pub fn decode_hard_state(payload: &[u8]) -> (r: Result<(u64, Option<u64>, u64), DecodeError>)
    ensures
        r == decoded_hard_state(payload@),
{
    if payload.len() < 25 {
        return Err(DecodeError::TooShort);
    }
    let term: u64 = get_u64(payload, 0);
    let vote = if payload[8] == 1 {
        Some(get_u64(payload, 9))
    } else {
        None
    };
    let commit: u64 = get_u64(payload, 17);
    Ok((term, vote, commit))
}

// ---------------------------------------------------------------------------
// Membership
// ---------------------------------------------------------------------------
/// The ids of a list, one after the other.
pub open spec fn all_ids(ids: Seq<u64>) -> Seq<u8>
    decreases ids.len(),
{
    if ids.len() == 0 {
        Seq::empty()
    } else {
        all_ids(ids.drop_last()) + bytes::u64_bytes(ids.last())
    }
}

/// A length-prefixed id list: `[u32 count][u64 id]...`.
pub open spec fn id_list_bytes(ids: Seq<u64>) -> Seq<u8> {
    bytes::u32_bytes(ids.len() as u32) + all_ids(ids)
}

/// The id list that stands at `offset`, and the offset just past it; `None` if
/// the bytes end before the list does.
pub open spec fn id_list_at(s: Seq<u8>, offset: int) -> Option<(Seq<u64>, int)> {
    let count = bytes::u32_at(s, offset);
    if offset + 4 > s.len() || offset + 4 + 8 * count > s.len() {
        None
    } else {
        Some(
            (
                Seq::new(count as nat, |i: int| bytes::u64_at(s, offset + 4 + 8 * i)),
                offset + 4 + 8 * count,
            ),
        )
    }
}

/// The payload of the membership file:
/// `[u64 conf_change_index][voters][learners]`.
pub open spec fn conf_state_bytes(index: u64, voters: Seq<u64>, learners: Seq<u64>) -> Seq<u8> {
    bytes::u64_bytes(index) + id_list_bytes(voters) + id_list_bytes(learners)
}

/// What a membership payload decodes to. Bytes after the learners are ignored.
pub open spec fn decoded_conf_state(payload: Seq<u8>) -> Result<
    (u64, Seq<u64>, Seq<u64>),
    DecodeError,
> {
    if payload.len() < 8 {
        Err(DecodeError::TooShort)
    } else {
        match id_list_at(payload, 8) {
            None => Err(DecodeError::TooShort),
            Some((voters, next)) => match id_list_at(payload, next) {
                None => Err(DecodeError::TooShort),
                Some((learners, _)) => Ok((bytes::u64_at(payload, 0), voters, learners)),
            },
        }
    }
}

/// Append a length-prefixed id list.
pub fn put_id_list(buf: &mut Vec<u8>, ids: &[u64])
    requires
        ids@.len() <= u32::MAX,
    ensures
        final(buf)@ == old(buf)@ + id_list_bytes(ids@),
{
    put_u32(buf, ids.len() as u32);
    let ghost start = buf@;
    let mut i: usize = 0;
    assert(buf@ =~= start + all_ids(ids@.subrange(0, 0)));
    while i < ids.len()
        invariant
            i <= ids@.len(),
            buf@ == start + all_ids(ids@.subrange(0, i as int)),
        decreases ids@.len() - i,
    {
        let ghost next = ids@.subrange(0, i + 1);
        assert(next.drop_last() =~= ids@.subrange(0, i as int));
        assert(next.last() == ids@[i as int]);
        let ghost before = buf@;
        put_u64(buf, ids[i]);
        assert(buf@ =~= start + all_ids(next));
        i = i + 1;
    }
    assert(ids@.subrange(0, ids@.len() as int) =~= ids@);
    assert(buf@ =~= old(buf)@ + id_list_bytes(ids@));
}

/// Read the length-prefixed id list at `offset`.
///
/// Returns the ids and the offset just past the list, or `None` if the buffer
/// ends before the list does.
pub fn read_id_list(buf: &[u8], offset: usize) -> (r: Option<(Vec<u64>, usize)>)
    requires
        offset <= buf@.len(),
    ensures
        match r {
            Some(v) => id_list_at(buf@, offset as int) == Some((v.0@, v.1 as int)) && v.1
                <= buf@.len(),
            None => id_list_at(buf@, offset as int) is None,
        },
{
    let total: usize = buf.len();
    if total - offset < 4 {
        return None;
    }
    let count: u32 = get_u32(buf, offset);
    let start: usize = offset + 4;
    if (total - start) / 8 < count as usize {
        return None;
    }
    let mut ids: Vec<u64> = Vec::new();
    let mut cursor: usize = start;
    let mut i: u32 = 0;
    while i < count
        invariant
            i <= count,
            total == buf@.len(),
            start + 8 * count <= total,
            cursor == start + 8 * i,
            ids@.len() == i,
            forall|k: int| 0 <= k < i ==> #[trigger] ids@[k] == bytes::u64_at(buf@, start + 8 * k),
        decreases count - i,
    {
        ids.push(get_u64(buf, cursor));
        cursor = cursor + 8;
        i = i + 1;
    }
    assert(ids@ =~= Seq::new(count as nat, |k: int| bytes::u64_at(buf@, offset + 4 + 8 * k)));
    Some((ids, cursor))
}

/// Encode a membership payload: the configuration and the log index of the
/// change that produced it.
pub fn encode_conf_state(conf_change_index: u64, voters: &[u64], learners: &[u64]) -> (buf: Vec<u8>)
    requires
        voters@.len() <= u32::MAX,
        learners@.len() <= u32::MAX,
    ensures
        buf@ == conf_state_bytes(conf_change_index, voters@, learners@),
{
    let mut buf: Vec<u8> = Vec::new();
    put_u64(&mut buf, conf_change_index);
    put_id_list(&mut buf, voters);
    put_id_list(&mut buf, learners);
    assert(buf@ =~= conf_state_bytes(conf_change_index, voters@, learners@));
    buf
}

/// Decode a membership payload.
pub fn decode_conf_state(payload: &[u8]) -> (r: Result<(u64, Vec<u64>, Vec<u64>), DecodeError>)
    ensures
        match r {
            Ok(v) => decoded_conf_state(payload@) == Ok::<(u64, Seq<u64>, Seq<u64>), DecodeError>(
                (v.0, v.1@, v.2@),
            ),
            Err(e) => decoded_conf_state(payload@) == Err::<(u64, Seq<u64>, Seq<u64>), DecodeError>(
                e,
            ),
        },
{
    if payload.len() < 8 {
        return Err(DecodeError::TooShort);
    }
    let index: u64 = get_u64(payload, 0);
    match read_id_list(payload, 8) {
        None => Err(DecodeError::TooShort),
        Some((voters, next)) => match read_id_list(payload, next) {
            None => Err(DecodeError::TooShort),
            Some((learners, _)) => Ok((index, voters, learners)),
        },
    }
}

// ---------------------------------------------------------------------------
// Laws
// ---------------------------------------------------------------------------
/// Where the parts of a framed body stand.
pub proof fn lemma_framed_layout(body: Seq<u8>)
    requires
        body.len() <= u32::MAX,
    ensures
        framed(body).len() == 8 + body.len(),
        bytes::u32_at(framed(body), 0) == body.len(),
        bytes::u32_at(framed(body), 4) == crc32c::crc32c_of(body),
        framed(body).subrange(8, framed(body).len() as int) == body,
{
    let len = body.len() as u32;
    let crc = crc32c::crc32c_of(body);
    let f = framed(body);
    bytes::lemma_u32_bytes(len);
    bytes::lemma_u32_bytes(crc);
    assert(f.subrange(0, 4) =~= bytes::u32_bytes(len));
    assert(f.subrange(4, 8) =~= bytes::u32_bytes(crc));
    assert(f.subrange(8, f.len() as int) =~= body);
}

/// Decoding an encoded record gives back its type and payload.
pub proof fn law_record_round_trip(t: RecordType, payload: Seq<u8>)
    requires
        t != RecordType::Meta,
        1 + payload.len() <= MAX_RECORD_BYTES,
    ensures
        decoded_record(record_bytes(t, payload)) == Ok::<(RecordType, Seq<u8>), DecodeError>(
            (t, payload),
        ),
{
    let body = seq![type_byte(t)] + payload;
    lemma_framed_layout(body);
    assert(body.subrange(1, body.len() as int) =~= payload);
}

/// Every proper prefix of an encoded record is rejected.
pub proof fn law_truncated_record_is_rejected(t: RecordType, payload: Seq<u8>, cut: int)
    requires
        1 + payload.len() <= u32::MAX,
        0 <= cut < record_bytes(t, payload).len(),
    ensures
        decoded_record(record_bytes(t, payload).subrange(0, cut)) == Err::<
            (RecordType, Seq<u8>),
            DecodeError,
        >(if cut < 8 {
            DecodeError::TooShort
        } else {
            DecodeError::BadLength
        }),
{
    let body = seq![type_byte(t)] + payload;
    let whole = framed(body);
    lemma_framed_layout(body);
    if cut >= 8 {
        assert(whole.subrange(0, cut).subrange(0, 4) =~= whole.subrange(0, 4));
    }
}

/// An encoded record followed by anything is rejected.
pub proof fn law_trailing_bytes_are_rejected(t: RecordType, payload: Seq<u8>, tail: Seq<u8>)
    requires
        1 + payload.len() <= u32::MAX,
        tail.len() > 0,
    ensures
        decoded_record(record_bytes(t, payload) + tail) == Err::<
            (RecordType, Seq<u8>),
            DecodeError,
        >(DecodeError::BadLength),
{
    let body = seq![type_byte(t)] + payload;
    let whole = framed(body);
    lemma_framed_layout(body);
    assert((whole + tail).subrange(0, 4) =~= whole.subrange(0, 4));
}

/// A record with one byte of its body changed fails its checksum.
pub proof fn law_corrupt_body_is_rejected(t: RecordType, payload: Seq<u8>, i: int, byte: u8)
    requires
        1 + payload.len() <= MAX_RECORD_BYTES,
        8 <= i < record_bytes(t, payload).len(),
        byte != record_bytes(t, payload)[i],
    ensures
        decoded_record(record_bytes(t, payload).update(i, byte)) matches Err(
            DecodeError::ChecksumMismatch { expected, actual },
        ) && expected != actual,
{
    let body = seq![type_byte(t)] + payload;
    let whole = framed(body);
    let broken = whole.update(i, byte);
    lemma_framed_layout(body);
    assert(broken.subrange(0, 4) =~= whole.subrange(0, 4));
    assert(broken.subrange(4, 8) =~= whole.subrange(4, 8));
    assert(broken.subrange(8, broken.len() as int) =~= body.update(i - 8, byte));
    crc32c::law_one_byte_corruption_changes_checksum(body, i - 8, byte);
}

/// Decoding an encoded entry gives back its fields.
pub proof fn law_entry_round_trip(index: u64, term: u64, entry_type: u8, data: Seq<u8>)
    ensures
        decoded_entry(entry_bytes(index, term, entry_type, data)) == Ok::<
            (u64, u64, u8, Seq<u8>),
            DecodeError,
        >((index, term, entry_type, data)),
{
    let p = entry_bytes(index, term, entry_type, data);
    bytes::lemma_u64_bytes(index);
    bytes::lemma_u64_bytes(term);
    assert(p.subrange(0, 8) =~= bytes::u64_bytes(index));
    assert(p.subrange(8, 16) =~= bytes::u64_bytes(term));
    assert(p[16] == entry_type);
    assert(p.subrange(17, p.len() as int) =~= data);
}

/// Decoding an encoded hard state gives back its fields.
pub proof fn law_hard_state_round_trip(term: u64, vote: Option<u64>, commit: u64)
    ensures
        decoded_hard_state(hard_state_bytes(term, vote, commit)) == Ok::<
            (u64, Option<u64>, u64),
            DecodeError,
        >((term, vote, commit)),
{
    let p = hard_state_bytes(term, vote, commit);
    let v: u64 = match vote {
        Some(v) => v,
        None => 0,
    };
    bytes::lemma_u64_bytes(term);
    bytes::lemma_u64_bytes(v);
    bytes::lemma_u64_bytes(commit);
    assert(p.subrange(0, 8) =~= bytes::u64_bytes(term));
    assert(p.subrange(9, 17) =~= bytes::u64_bytes(v));
    assert(p.subrange(17, 25) =~= bytes::u64_bytes(commit));
}

/// The length of a run of ids, and each id where it stands in a larger buffer.
pub proof fn lemma_all_ids_layout(ids: Seq<u64>, before: Seq<u8>, after: Seq<u8>)
    ensures
        all_ids(ids).len() == 8 * ids.len(),
        forall|i: int|
            0 <= i < ids.len() ==> #[trigger] bytes::u64_at(
                before + all_ids(ids) + after,
                before.len() + 8 * i,
            ) == ids[i],
    decreases ids.len(),
{
    if ids.len() > 0 {
        let last = bytes::u64_bytes(ids.last());
        let init = all_ids(ids.drop_last());
        lemma_all_ids_layout(ids.drop_last(), before, last + after);
        bytes::lemma_u64_bytes(ids.last());
        let whole = before + all_ids(ids) + after;
        assert(whole =~= before + init + (last + after));
        assert forall|i: int| 0 <= i < ids.len() implies #[trigger] bytes::u64_at(
            whole,
            before.len() + 8 * i,
        ) == ids[i] by {
            if i < ids.len() - 1 {
                assert(bytes::u64_at(before + init + (last + after), before.len() + 8 * i)
                    == ids.drop_last()[i]);
            } else {
                assert(whole.subrange(before.len() + 8 * i, before.len() + 8 * i + 8) =~= last);
            }
        }
    }
}

/// An id list that stands in a buffer is read back from there.
pub proof fn lemma_id_list_at(before: Seq<u8>, ids: Seq<u64>, after: Seq<u8>)
    requires
        ids.len() <= u32::MAX,
    ensures
        id_list_bytes(ids).len() == 4 + 8 * ids.len(),
        id_list_at(before + id_list_bytes(ids) + after, before.len() as int) == Some(
            (ids, (before.len() + 4 + 8 * ids.len()) as int),
        ),
{
    let head = bytes::u32_bytes(ids.len() as u32);
    let whole = before + id_list_bytes(ids) + after;
    bytes::lemma_u32_bytes(ids.len() as u32);
    lemma_all_ids_layout(ids, before + head, after);
    assert(whole =~= (before + head) + all_ids(ids) + after);
    assert(whole.subrange(before.len() as int, before.len() as int + 4) =~= head);
    let read = Seq::new(ids.len(), |i: int| bytes::u64_at(whole, before.len() + 4 + 8 * i));
    assert forall|i: int| 0 <= i < ids.len() implies read[i] == ids[i] by {
        assert(bytes::u64_at(whole, (before + head).len() + 8 * i) == ids[i]);
    }
    assert(read =~= ids);
}

/// Decoding an encoded membership gives back the index and both lists.
pub proof fn law_conf_state_round_trip(index: u64, voters: Seq<u64>, learners: Seq<u64>)
    requires
        voters.len() <= u32::MAX,
        learners.len() <= u32::MAX,
    ensures
        decoded_conf_state(conf_state_bytes(index, voters, learners)) == Ok::<
            (u64, Seq<u64>, Seq<u64>),
            DecodeError,
        >((index, voters, learners)),
{
    lemma_conf_state_followed(index, voters, learners, Seq::empty());
    assert(conf_state_bytes(index, voters, learners) + Seq::<u8>::empty() =~= conf_state_bytes(
        index,
        voters,
        learners,
    ));
}

/// An encoded membership decodes the same whatever follows it.
pub proof fn lemma_conf_state_followed(
    index: u64,
    voters: Seq<u64>,
    learners: Seq<u64>,
    after: Seq<u8>,
)
    requires
        voters.len() <= u32::MAX,
        learners.len() <= u32::MAX,
    ensures
        conf_state_bytes(index, voters, learners).len() == 16 + 8 * voters.len() + 8
            * learners.len(),
        decoded_conf_state(conf_state_bytes(index, voters, learners) + after) == Ok::<
            (u64, Seq<u64>, Seq<u64>),
            DecodeError,
        >((index, voters, learners)),
{
    let head = bytes::u64_bytes(index);
    let vs = id_list_bytes(voters);
    let ls = id_list_bytes(learners);
    let p = conf_state_bytes(index, voters, learners) + after;
    bytes::lemma_u64_bytes(index);
    lemma_id_list_at(head, voters, ls + after);
    lemma_id_list_at(head + vs, learners, after);
    assert(p =~= head + vs + (ls + after));
    assert(p =~= (head + vs) + ls + after);
    assert(p.subrange(0, 8) =~= head);
}

/// Every proper prefix of an encoded membership is rejected.
pub proof fn law_truncated_conf_state_is_rejected(
    index: u64,
    voters: Seq<u64>,
    learners: Seq<u64>,
    cut: int,
)
    requires
        voters.len() <= u32::MAX,
        learners.len() <= u32::MAX,
        0 <= cut < conf_state_bytes(index, voters, learners).len(),
    ensures
        decoded_conf_state(conf_state_bytes(index, voters, learners).subrange(0, cut)) == Err::<
            (u64, Seq<u64>, Seq<u64>),
            DecodeError,
        >(DecodeError::TooShort),
{
    let p = conf_state_bytes(index, voters, learners);
    let q = p.subrange(0, cut);
    let head = bytes::u64_bytes(index);
    let vs = id_list_bytes(voters);
    let ls = id_list_bytes(learners);
    bytes::lemma_u64_bytes(index);
    lemma_id_list_at(head, voters, ls);
    lemma_id_list_at(head + vs, learners, Seq::empty());
    assert(p =~= head + vs + ls);
    assert(p =~= (head + vs) + ls + Seq::<u8>::empty());
    let next = 8 + 4 + 8 * voters.len() as int;
    if cut >= 12 {
        assert(q.subrange(8, 12) =~= p.subrange(8, 12));
    }
    if cut >= next + 4 {
        assert(q.subrange(next, next + 4) =~= p.subrange(next, next + 4));
    }
}

/// A record that is accepted is the one encoding of what it decodes to.
pub proof fn law_accepted_record_is_its_encoding(buf: Seq<u8>)
    requires
        decoded_record(buf) is Ok,
    ensures
        decoded_record(buf) matches Ok((t, payload)) && buf == record_bytes(t, payload) && t
            != RecordType::Meta && 1 + payload.len() <= MAX_RECORD_BYTES,
{
    let (t, payload) = decoded_record(buf).unwrap();
    let body = buf.subrange(8, buf.len() as int);
    bytes::lemma_u32_read(buf, 0);
    bytes::lemma_u32_read(buf, 4);
    assert(body =~= seq![type_byte(t)] + payload);
    assert(buf =~= buf.subrange(0, 4) + buf.subrange(4, 8) + body);
}

/// An entry that is accepted is the one encoding of what it decodes to.
pub proof fn law_accepted_entry_is_its_encoding(payload: Seq<u8>)
    requires
        decoded_entry(payload) is Ok,
    ensures
        decoded_entry(payload) matches Ok((index, term, entry_type, data)) && payload
            == entry_bytes(index, term, entry_type, data),
{
    bytes::lemma_u64_read(payload, 0);
    bytes::lemma_u64_read(payload, 8);
    let (index, term, entry_type, data) = decoded_entry(payload).unwrap();
    assert(payload =~= payload.subrange(0, 8) + payload.subrange(8, 16) + seq![entry_type] + data);
}

/// The ids read off a buffer encode to the bytes they were read from.
proof fn lemma_all_ids_read(s: Seq<u8>, offset: int, n: nat)
    requires
        0 <= offset,
        offset + 8 * n <= s.len(),
    ensures
        all_ids(Seq::new(n, |i: int| bytes::u64_at(s, offset + 8 * i))) == s.subrange(
            offset,
            offset + 8 * n,
        ),
    decreases n,
{
    let ids = Seq::new(n, |i: int| bytes::u64_at(s, offset + 8 * i));
    if n == 0 {
        assert(all_ids(ids) =~= s.subrange(offset, offset));
    } else {
        let m = (n - 1) as nat;
        let at = offset + 8 * m;
        lemma_all_ids_read(s, offset, m);
        assert(ids.drop_last() =~= Seq::new(m, |i: int| bytes::u64_at(s, offset + 8 * i)));
        bytes::lemma_u64_read(s, at);
        assert(s.subrange(offset, at) + s.subrange(at, at + 8) =~= s.subrange(
            offset,
            offset + 8 * n,
        ));
    }
}

/// A list that is read off a buffer encodes to the bytes it was read from.
pub proof fn lemma_id_list_read(s: Seq<u8>, offset: int)
    requires
        0 <= offset,
        id_list_at(s, offset) is Some,
    ensures
        id_list_at(s, offset) matches Some((ids, next)) && offset + 4 <= next <= s.len()
            && ids.len() <= u32::MAX && id_list_bytes(ids) == s.subrange(offset, next),
{
    let count = bytes::u32_at(s, offset);
    let (ids, next) = id_list_at(s, offset).unwrap();
    bytes::lemma_u32_read(s, offset);
    lemma_all_ids_read(s, offset + 4, count as nat);
    assert(ids =~= Seq::new(count as nat, |i: int| bytes::u64_at(s, (offset + 4) + 8 * i)));
    assert(s.subrange(offset, offset + 4) + s.subrange(offset + 4, next) =~= s.subrange(
        offset,
        next,
    ));
}

/// A list reads the same off any buffer that agrees up to its end.
pub proof fn lemma_id_list_agrees(s: Seq<u8>, t: Seq<u8>, offset: int, upto: int)
    requires
        0 <= offset,
        0 <= upto <= s.len(),
        upto <= t.len(),
        s.subrange(0, upto) == t.subrange(0, upto),
        id_list_at(s, offset) matches Some((_, next)) && next <= upto,
    ensures
        id_list_at(t, offset) == id_list_at(s, offset),
{
    let (ids, next) = id_list_at(s, offset).unwrap();
    let count = bytes::u32_at(s, offset);
    assert(s.subrange(0, upto).subrange(offset, offset + 4) =~= s.subrange(offset, offset + 4));
    assert(t.subrange(0, upto).subrange(offset, offset + 4) =~= t.subrange(offset, offset + 4));
    let other = Seq::new(count as nat, |i: int| bytes::u64_at(t, offset + 4 + 8 * i));
    assert forall|i: int| 0 <= i < count implies ids[i] == other[i] by {
        let at = offset + 4 + 8 * i;
        assert(s.subrange(0, upto).subrange(at, at + 8) =~= s.subrange(at, at + 8));
        assert(t.subrange(0, upto).subrange(at, at + 8) =~= t.subrange(at, at + 8));
    }
    assert(ids =~= other);
}

} // verus!
