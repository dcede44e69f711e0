//! The META file: the identity of a data directory.
//!
//! ```text
//! [u32 magic][u32 format_version][u32 crc32c]
//! [u16 cluster_id_len][cluster_id][u16 node_id_len][node_id]
//! [u64 created_at_millis]
//! [u64 snapshot_index][u64 snapshot_term]      optional
//! ```
//!
//! The checksum covers everything after the 12-byte header. The snapshot
//! pointer is an extension: a file that ends after the creation time has none.
//! The file is replaced atomically: written beside itself, synced, renamed, and
//! the directory synced.
use vstd::prelude::*;
use vstd::string::*;
use vstd::utf8::*;

use crate::bytes::{copy_range, get_u16, get_u32, get_u64, put_slice, put_u16, put_u32, put_u64};
use crate::storage::crc32c::crc32c;
use crate::storage::record::push_checksum;
use crate::bytes;
use crate::storage::crc32c;
use crate::storage::record;

verus! {

/// The current format major version.
pub const FORMAT_VERSION: u32 = 1;

/// The magic number that a META file starts with (`"ARAM"` in ASCII).
pub const META_MAGIC: u32 = 0x4152_414D;

/// The identity of a data directory.
#[derive(Debug, PartialEq, Eq)]
pub struct Meta {
    /// The cluster identifier.
    pub cluster_id: String,
    /// The node identifier.
    pub node_id: String,
    /// The format version the directory was created with.
    pub format_version: u32,
    /// The creation time in milliseconds since the Unix epoch.
    pub created_at: u64,
    /// The index of the effective snapshot (0: none).
    pub snapshot_index: u64,
    /// The term of that snapshot (0: none).
    pub snapshot_term: u64,
}

/// A data directory's identity as a mathematical value.
#[verifier::ext_equal]
pub struct MetaModel {
    pub cluster_id: Seq<char>,
    pub node_id: Seq<char>,
    pub format_version: u32,
    pub created_at: u64,
    pub snapshot_index: u64,
    pub snapshot_term: u64,
}

impl View for Meta {
    type V = MetaModel;

    open spec fn view(&self) -> MetaModel {
        MetaModel {
            cluster_id: self.cluster_id@,
            node_id: self.node_id@,
            format_version: self.format_version,
            created_at: self.created_at,
            snapshot_index: self.snapshot_index,
            snapshot_term: self.snapshot_term,
        }
    }
}

impl Clone for Meta {
    fn clone(&self) -> (r: Self)
        ensures
            r@ == self@,
    {
        Meta {
            cluster_id: self.cluster_id.clone(),
            node_id: self.node_id.clone(),
            format_version: self.format_version,
            created_at: self.created_at,
            snapshot_index: self.snapshot_index,
            snapshot_term: self.snapshot_term,
        }
    }
}

/// Errors from the META file.
#[derive(Clone, Debug, PartialEq, Eq)]
pub enum MetaError {
    /// A low-level I/O failure, as reported by the environment.
    Io(String),
    /// The file does not start with the expected magic number.
    BadMagic,
    /// The checksum does not match.
    ChecksumMismatch {
        /// The stored checksum.
        expected: u32,
        /// The computed checksum.
        actual: u32,
    },
    /// The file is too short to hold a META blob.
    TooShort,
    /// A string field runs past the end of the file, or is not UTF-8.
    TruncatedField,
}

impl MetaError {
    /// The text of [`MetaError::message`].
    pub open spec fn text(self) -> Seq<char> {
        match self {
            MetaError::Io(err) => "META I/O error: "@ + err@,
            MetaError::BadMagic => "META file has an invalid magic number"@,
            MetaError::ChecksumMismatch { expected, actual } =>
                "META checksum mismatch: expected "@ + record::checksum_text(expected) + ", got "@
                    + record::checksum_text(actual),
            MetaError::TooShort => "META file is too short"@,
            MetaError::TruncatedField => "META file has a truncated field"@,
        }
    }

    /// A description of the error.
    pub fn message(&self) -> (s: String)
        ensures
            s@ == self.text(),
    {
        let mut s = String::new();
        match self {
            MetaError::Io(err) => {
                s.append("META I/O error: ");
                s.append(err.as_str());
            },
            MetaError::BadMagic => s.append("META file has an invalid magic number"),
            MetaError::ChecksumMismatch { expected, actual } => {
                s.append("META checksum mismatch: expected ");
                push_checksum(&mut s, *expected);
                s.append(", got ");
                push_checksum(&mut s, *actual);
            },
            MetaError::TooShort => s.append("META file is too short"),
            MetaError::TruncatedField => s.append("META file has a truncated field"),
        }
        assert(s@ =~= self.text());
        s
    }
}

/// `dir` and `name` joined by a single separator; `name` alone in the empty
/// directory.
pub open spec fn joined_path(dir: Seq<char>, name: Seq<char>) -> Seq<char> {
    if dir.len() == 0 {
        name
    } else if dir.last() == '/' {
        dir + name
    } else {
        dir + "/"@ + name
    }
}

/// The path of the file `name` in the directory `dir`.
pub fn join_path(dir: &str, name: &str) -> (path: String)
    ensures
        path@ == joined_path(dir@, name@),
{
    let mut path = dir.to_owned();
    let n: usize = dir.unicode_len();
    if n > 0 && dir.get_char(n - 1) != '/' {
        path.append("/");
    }
    path.append(name);
    assert(path@ =~= joined_path(dir@, name@));
    path
}

/// The path of the META file within a data directory.
pub fn meta_path(data_dir: &str) -> (path: String)
    ensures
        path@ == joined_path(data_dir@, "META"@),
{
    join_path(data_dir, "META")
}

// ---------------------------------------------------------------------------
// Contents
// ---------------------------------------------------------------------------
/// A string with its length in front.
pub open spec fn string_field(s: Seq<char>) -> Seq<u8> {
    bytes::u16_bytes(encode_utf8(s).len() as u16) + encode_utf8(s)
}

/// The part of a META file that its checksum covers.
pub open spec fn meta_payload(m: MetaModel) -> Seq<u8> {
    string_field(m.cluster_id) + string_field(m.node_id) + bytes::u64_bytes(m.created_at) + bytes::u64_bytes(
        m.snapshot_index,
    ) + bytes::u64_bytes(m.snapshot_term)
}

/// The bytes of a META file with the given version and payload.
pub open spec fn meta_file(format_version: u32, payload: Seq<u8>) -> Seq<u8> {
    bytes::u32_bytes(META_MAGIC) + bytes::u32_bytes(format_version) + bytes::u32_bytes(crc32c::crc32c_of(payload)) + payload
}

/// The bytes of a META file.
pub open spec fn meta_bytes(m: MetaModel) -> Seq<u8> {
    meta_file(m.format_version, meta_payload(m))
}

/// Whether an identifier fits its length field.
pub open spec fn id_fits(s: Seq<char>) -> bool {
    encode_utf8(s).len() <= u16::MAX
}

/// What a payload with a matching checksum decodes to.
pub open spec fn decoded_meta_payload(format_version: u32, payload: Seq<u8>) -> Result<
    MetaModel,
    MetaError,
> {
    let cluster_len = bytes::u16_at(payload, 0) as int;
    let node_at = 2 + cluster_len;
    let node_len = bytes::u16_at(payload, node_at) as int;
    let created_at = node_at + 2 + node_len;
    let pointer = created_at + 8;
    let cluster = payload.subrange(2, node_at);
    let node = payload.subrange(node_at + 2, created_at);
    if payload.len() < 12 || payload.len() < 2 + cluster_len + 2 + 8 || !valid_utf8(cluster)
        || payload.len() < node_at + 2 + node_len + 8 || !valid_utf8(node) {
        Err(MetaError::TruncatedField)
    } else {
        Ok(
            MetaModel {
                cluster_id: decode_utf8(cluster),
                node_id: decode_utf8(node),
                format_version,
                created_at: bytes::u64_at(payload, created_at),
                snapshot_index: if payload.len() >= pointer + 16 {
                    bytes::u64_at(payload, pointer)
                } else {
                    0
                },
                snapshot_term: if payload.len() >= pointer + 16 {
                    bytes::u64_at(payload, pointer + 8)
                } else {
                    0
                },
            },
        )
    }
}

/// What a META file decodes to.
pub open spec fn decoded_meta(buf: Seq<u8>) -> Result<MetaModel, MetaError> {
    let payload = buf.subrange(12, buf.len() as int);
    if buf.len() < 24 {
        Err(MetaError::TooShort)
    } else if bytes::u32_at(buf, 0) != META_MAGIC {
        Err(MetaError::BadMagic)
    } else if crc32c::crc32c_of(payload) != bytes::u32_at(buf, 8) {
        Err(MetaError::ChecksumMismatch { expected: bytes::u32_at(buf, 8), actual: crc32c::crc32c_of(payload) })
    } else {
        decoded_meta_payload(bytes::u32_at(buf, 4), payload)
    }
}

/// Calls `String::from_utf8`: a string of the given bytes exactly when they are
/// valid UTF-8, holding the characters they encode.
#[verifier::external_body]
fn utf8_string(bytes: Vec<u8>) -> (r: Option<String>)
    ensures
        r is Some <==> valid_utf8(bytes@),
        r matches Some(s) ==> s@ == decode_utf8(bytes@),
{
    String::from_utf8(bytes).ok()
}

fn put_string_field(buf: &mut Vec<u8>, s: &String)
    requires
        id_fits(s@),
    ensures
        final(buf)@ == old(buf)@ + string_field(s@),
{
    let bytes = s.as_str().as_bytes();
    put_u16(buf, bytes.len() as u16);
    put_slice(buf, bytes);
    assert(buf@ =~= old(buf)@ + string_field(s@));
}

/// Encode a META file.
pub fn encode_meta(meta: &Meta) -> (buf: Vec<u8>)
    requires
        id_fits(meta.cluster_id@),
        id_fits(meta.node_id@),
    ensures
        buf@ == meta_bytes(meta@),
{
    let mut payload: Vec<u8> = Vec::new();
    put_string_field(&mut payload, &meta.cluster_id);
    put_string_field(&mut payload, &meta.node_id);
    put_u64(&mut payload, meta.created_at);
    put_u64(&mut payload, meta.snapshot_index);
    put_u64(&mut payload, meta.snapshot_term);
    assert(payload@ =~= meta_payload(meta@));
    let crc: u32 = crc32c(&payload);
    let mut buf: Vec<u8> = Vec::new();
    put_u32(&mut buf, META_MAGIC);
    put_u32(&mut buf, meta.format_version);
    put_u32(&mut buf, crc);
    put_slice(&mut buf, &payload);
    assert(buf@ =~= meta_bytes(meta@));
    buf
}

fn decode_meta_payload(format_version: u32, payload: &[u8]) -> (r: Result<Meta, MetaError>)
    requires
        payload@.len() >= 12,
    ensures
        match r {
            Ok(m) => decoded_meta_payload(format_version, payload@) == Ok::<MetaModel, MetaError>(
                m@,
            ),
            Err(e) => decoded_meta_payload(format_version, payload@) == Err::<MetaModel, MetaError>(
                e,
            ),
        },
{
    let total: usize = payload.len();
    let cluster_len: usize = get_u16(payload, 0) as usize;
    if total - 12 < cluster_len {
        return Err(MetaError::TruncatedField);
    }
    let node_at: usize = 2 + cluster_len;
    let cluster_id = match utf8_string(copy_range(payload, 2, node_at)) {
        None => {
            return Err(MetaError::TruncatedField);
        },
        Some(s) => s,
    };
    let node_len: usize = get_u16(payload, node_at) as usize;
    if total - node_at - 10 < node_len {
        return Err(MetaError::TruncatedField);
    }
    let created_at: usize = node_at + 2 + node_len;
    let node_id = match utf8_string(copy_range(payload, node_at + 2, created_at)) {
        None => {
            return Err(MetaError::TruncatedField);
        },
        Some(s) => s,
    };
    let pointer: usize = created_at + 8;
    let (snapshot_index, snapshot_term): (u64, u64) = if total - pointer >= 16 {
        (get_u64(payload, pointer), get_u64(payload, pointer + 8))
    } else {
        (0, 0)
    };
    let meta = Meta {
        cluster_id,
        node_id,
        format_version,
        created_at: get_u64(payload, created_at),
        snapshot_index,
        snapshot_term,
    };
    Ok(meta)
}

/// Decode a META file.
pub fn decode_meta(buf: &[u8]) -> (r: Result<Meta, MetaError>)
    ensures
        match r {
            Ok(m) => decoded_meta(buf@) == Ok::<MetaModel, MetaError>(m@),
            Err(e) => decoded_meta(buf@) == Err::<MetaModel, MetaError>(e),
        },
{
    if buf.len() < 24 {
        return Err(MetaError::TooShort);
    }
    if get_u32(buf, 0) != META_MAGIC {
        return Err(MetaError::BadMagic);
    }
    let format_version: u32 = get_u32(buf, 4);
    let stored: u32 = get_u32(buf, 8);
    let payload = vstd::slice::slice_subrange(buf, 12, buf.len());
    let actual: u32 = crc32c(payload);
    if actual != stored {
        return Err(MetaError::ChecksumMismatch { expected: stored, actual });
    }
    decode_meta_payload(format_version, payload)
}

// ---------------------------------------------------------------------------
// Laws
// ---------------------------------------------------------------------------
proof fn lemma_meta_file(format_version: u32, payload: Seq<u8>)
    requires
        payload.len() >= 12,
    ensures
        decoded_meta(meta_file(format_version, payload)) == decoded_meta_payload(
            format_version,
            payload,
        ),
        meta_file(format_version, payload).len() == 12 + payload.len(),
{
    let f = meta_file(format_version, payload);
    bytes::lemma_u32_bytes(META_MAGIC);
    bytes::lemma_u32_bytes(format_version);
    bytes::lemma_u32_bytes(crc32c::crc32c_of(payload));
    assert(f.subrange(0, 4) =~= bytes::u32_bytes(META_MAGIC));
    assert(f.subrange(4, 8) =~= bytes::u32_bytes(format_version));
    assert(f.subrange(8, 12) =~= bytes::u32_bytes(crc32c::crc32c_of(payload)));
    assert(f.subrange(12, f.len() as int) =~= payload);
}

proof fn lemma_meta_payload_fields(m: MetaModel, after: Seq<u8>)
    requires
        id_fits(m.cluster_id),
        id_fits(m.node_id),
    ensures
        ({
            let p = string_field(m.cluster_id) + string_field(m.node_id) + bytes::u64_bytes(m.created_at)
                + after;
            let pointer = 12 + encode_utf8(m.cluster_id).len() + encode_utf8(m.node_id).len() as int;
            &&& p.len() == pointer + after.len()
            &&& p.len() >= 12
            &&& p.subrange(pointer, p.len() as int) == after
            &&& decoded_meta_payload(m.format_version, p) matches Ok(d) && d == (MetaModel {
                snapshot_index: if after.len() >= 16 {
                    bytes::u64_at(p, pointer)
                } else {
                    0
                },
                snapshot_term: if after.len() >= 16 {
                    bytes::u64_at(p, pointer + 8)
                } else {
                    0
                },
                ..m
            })
        }),
{
    let c = encode_utf8(m.cluster_id);
    let n = encode_utf8(m.node_id);
    let p = string_field(m.cluster_id) + string_field(m.node_id) + bytes::u64_bytes(m.created_at) + after;
    bytes::lemma_u16_bytes(c.len() as u16);
    bytes::lemma_u16_bytes(n.len() as u16);
    bytes::lemma_u64_bytes(m.created_at);
    vstd::utf8::encode_utf8_valid_utf8(m.cluster_id);
    vstd::utf8::encode_utf8_valid_utf8(m.node_id);
    vstd::utf8::encode_utf8_decode_utf8(m.cluster_id);
    vstd::utf8::encode_utf8_decode_utf8(m.node_id);
    let node_at = 2 + c.len() as int;
    let created_at = node_at + 2 + n.len();
    assert(p.subrange(0, 2) =~= bytes::u16_bytes(c.len() as u16));
    assert(p.subrange(2, node_at) =~= c);
    assert(p.subrange(node_at, node_at + 2) =~= bytes::u16_bytes(n.len() as u16));
    assert(p.subrange(node_at + 2, created_at) =~= n);
    assert(p.subrange(created_at, created_at + 8) =~= bytes::u64_bytes(m.created_at));
    assert(p.subrange(created_at + 8, p.len() as int) =~= after);
}

/// Decoding an encoded META file gives back the identity.
pub proof fn law_meta_round_trip(m: MetaModel)
    requires
        id_fits(m.cluster_id),
        id_fits(m.node_id),
    ensures
        decoded_meta(meta_bytes(m)) == Ok::<MetaModel, MetaError>(m),
{
    let after = bytes::u64_bytes(m.snapshot_index) + bytes::u64_bytes(m.snapshot_term);
    let p = string_field(m.cluster_id) + string_field(m.node_id) + bytes::u64_bytes(m.created_at) + after;
    bytes::lemma_u64_bytes(m.snapshot_index);
    bytes::lemma_u64_bytes(m.snapshot_term);
    lemma_meta_payload_fields(m, after);
    assert(meta_payload(m) =~= p);
    lemma_meta_file(m.format_version, p);
    let pointer = 12 + encode_utf8(m.cluster_id).len() + encode_utf8(m.node_id).len() as int;
    assert(p.subrange(pointer, pointer + 8) =~= bytes::u64_bytes(m.snapshot_index)) by {
        assert(p.subrange(pointer, p.len() as int).subrange(0, 8) =~= bytes::u64_bytes(m.snapshot_index));
        assert(p.subrange(pointer, pointer + 8) =~= p.subrange(pointer, p.len() as int).subrange(
            0,
            8,
        ));
    }
    assert(p.subrange(pointer + 8, pointer + 16) =~= bytes::u64_bytes(m.snapshot_term)) by {
        assert(p.subrange(pointer, p.len() as int).subrange(8, 16) =~= bytes::u64_bytes(m.snapshot_term));
        assert(p.subrange(pointer + 8, pointer + 16) =~= p.subrange(
            pointer,
            p.len() as int,
        ).subrange(8, 16));
    }
}

/// A META file that ends after the creation time decodes as "no snapshot".
pub proof fn law_meta_without_pointer(m: MetaModel)
    requires
        id_fits(m.cluster_id),
        id_fits(m.node_id),
        m.snapshot_index == 0,
        m.snapshot_term == 0,
    ensures
        decoded_meta(
            meta_file(
                m.format_version,
                string_field(m.cluster_id) + string_field(m.node_id) + bytes::u64_bytes(m.created_at),
            ),
        ) == Ok::<MetaModel, MetaError>(m),
{
    let p = string_field(m.cluster_id) + string_field(m.node_id) + bytes::u64_bytes(m.created_at);
    lemma_meta_payload_fields(m, Seq::empty());
    assert(p + Seq::<u8>::empty() =~= p);
    lemma_meta_file(m.format_version, p);
}

/// A META file with one byte after the header changed is rejected.
pub proof fn law_corrupt_meta_is_rejected(m: MetaModel, i: int, byte: u8)
    requires
        id_fits(m.cluster_id),
        id_fits(m.node_id),
        12 <= i < meta_bytes(m).len(),
        byte != meta_bytes(m)[i],
    ensures
        decoded_meta(meta_bytes(m).update(i, byte)) matches Err(
            MetaError::ChecksumMismatch { expected, actual },
        ) && expected != actual,
{
    let payload = meta_payload(m);
    let whole = meta_bytes(m);
    let broken = whole.update(i, byte);
    let after = bytes::u64_bytes(m.snapshot_index) + bytes::u64_bytes(m.snapshot_term);
    lemma_meta_payload_fields(m, after);
    assert(payload =~= string_field(m.cluster_id) + string_field(m.node_id) + bytes::u64_bytes(
        m.created_at,
    ) + after);
    lemma_meta_file(m.format_version, payload);
    bytes::lemma_u32_bytes(META_MAGIC);
    bytes::lemma_u32_bytes(m.format_version);
    bytes::lemma_u32_bytes(crc32c::crc32c_of(payload));
    assert(broken.subrange(0, 4) =~= bytes::u32_bytes(META_MAGIC));
    assert(broken.subrange(8, 12) =~= bytes::u32_bytes(crc32c::crc32c_of(payload)));
    assert(broken.subrange(12, broken.len() as int) =~= payload.update(i - 12, byte));
    crc32c::law_one_byte_corruption_changes_checksum(payload, i - 12, byte);
}

} // verus!
