//! Where each field of a durable file stands, and what is said of a broken one.
//! Numbers are stored lowest byte first.
use vstd::prelude::*;

use crate::storage::membership::Damage;
use crate::storage::meta::{MetaError, MetaModel};
use crate::storage::record::{DecodeError, RecordType};
use crate::storage::snapshot::SnapshotError;
use crate::types::{ConfModel, EntryModel, EntryType, SnapshotModel};
use crate::bytes;
use crate::storage::crc32c;
use crate::storage::membership;
use crate::storage::meta;
use crate::storage::record;
use crate::storage::replay;
use crate::storage::segment;
use crate::storage::snapshot;
use crate::storage::wal;
use crate::text;

verus! {

// ---------------------------------------------------------------------------
// Records
// ---------------------------------------------------------------------------
/// A record is the length of its body, the checksum of its body, and its body: a byte
/// for its type, 1 for an entry, 2 for a hard state, 3 for an identity, then the
/// payload.
pub proof fn law_record_layout(t: RecordType, payload: Seq<u8>)
    requires
        payload.len() < u32::MAX,
    ensures
        ({
            let r = record::record_bytes(t, payload);
            let n = r.len() as int;
            &&& n == 9 + payload.len()
            &&& bytes::le_value(r.subrange(0, 4)) == 1 + payload.len()
            &&& bytes::le_value(r.subrange(4, 8)) == crc32c::crc32c_of(r.subrange(8, n))
            &&& t == RecordType::Entry ==> r[8] == 1
            &&& t == RecordType::HardState ==> r[8] == 2
            &&& t == RecordType::Meta ==> r[8] == 3
            &&& r.subrange(9, n) == payload
        }),
{
    let body = seq![record::type_byte(t)] + payload;
    let r = record::record_bytes(t, payload);
    let crc = crc32c::crc32c_of(body);
    bytes::lemma_u32_bytes(body.len() as u32);
    bytes::lemma_u32_bytes(crc);
    assert(r.subrange(0, 4) =~= bytes::u32_bytes(body.len() as u32));
    assert(r.subrange(4, 8) =~= bytes::u32_bytes(crc));
    assert(r.subrange(8, r.len() as int) =~= body);
    assert(r.subrange(9, r.len() as int) =~= payload);
}

/// What is said of bytes that are no record: they are too short for its header or its
/// type, they are not as long as they say or longer than a record may be, their checksum
/// does not match, or their type is none that a log holds. In this order.
pub proof fn law_broken_record_is_told_apart(buf: Seq<u8>)
    requires
        buf.len() >= 8,
    ensures
        ({
            let len = bytes::le_value(buf.subrange(0, 4));
            let stored = bytes::le_value(buf.subrange(4, 8));
            let body = buf.subrange(8, buf.len() as int);
            let r = record::decoded_record(buf);
            &&& buf.len() != 8 + len || len > 67_108_864 ==> r is Err && r->Err_0
                == DecodeError::BadLength
            &&& buf.len() == 8 && len == 0 ==> r is Err && r->Err_0 == DecodeError::TooShort
            &&& buf.len() == 8 + len && 1 <= len <= 67_108_864 ==> {
                &&& crc32c::crc32c_of(body) != stored ==> r is Err && r->Err_0 == (
                DecodeError::ChecksumMismatch {
                    expected: stored as u32,
                    actual: crc32c::crc32c_of(body),
                })
                &&& crc32c::crc32c_of(body) == stored ==> {
                    &&& buf[8] == 1 ==> r is Ok && r->Ok_0 == (
                        RecordType::Entry,
                        body.subrange(1, body.len() as int),
                    )
                    &&& buf[8] == 2 ==> r is Ok && r->Ok_0 == (
                        RecordType::HardState,
                        body.subrange(1, body.len() as int),
                    )
                    &&& buf[8] == 3 ==> r is Err && r->Err_0 == DecodeError::UnsupportedRecordType(
                        RecordType::Meta,
                    )
                    &&& buf[8] == 0 || buf[8] > 3 ==> r is Err && r->Err_0
                        == DecodeError::UnknownRecordType(buf[8])
                }
            }
        }),
{
    bytes::lemma_pow256_widths();
    bytes::lemma_le_value_bound(buf.subrange(0, 4));
    bytes::lemma_le_value_bound(buf.subrange(4, 8));
}

/// Bytes that are too short for a header are no record, and a payload that is too short
/// for its fields is neither an entry nor a hard state.
pub proof fn law_short_bytes_are_told(buf: Seq<u8>)
    ensures
        buf.len() < 8 ==> record::decoded_record(buf) is Err && record::decoded_record(buf)->Err_0
            == DecodeError::TooShort,
        buf.len() < 17 <==> record::decoded_entry(buf) is Err,
        buf.len() < 25 <==> record::decoded_hard_state(buf) is Err,
        buf.len() < 17 ==> record::decoded_entry(buf)->Err_0 == DecodeError::TooShort,
        buf.len() < 25 ==> record::decoded_hard_state(buf)->Err_0 == DecodeError::TooShort,
{
}

/// An entry's payload is its index, its term, a byte for its kind, and its data.
pub proof fn law_entry_layout(index: u64, term: u64, kind: u8, data: Seq<u8>)
    ensures
        ({
            let p = record::entry_bytes(index, term, kind, data);
            &&& p.len() == 17 + data.len()
            &&& bytes::le_value(p.subrange(0, 8)) == index
            &&& bytes::le_value(p.subrange(8, 16)) == term
            &&& p[16] == kind
            &&& p.subrange(17, p.len() as int) == data
        }),
{
    let p = record::entry_bytes(index, term, kind, data);
    bytes::lemma_u64_bytes(index);
    bytes::lemma_u64_bytes(term);
    assert(p.subrange(0, 8) =~= bytes::u64_bytes(index));
    assert(p.subrange(8, 16) =~= bytes::u64_bytes(term));
    assert(p.subrange(17, p.len() as int) =~= data);
}

/// A hard state's payload is its term, whether there is a vote, the vote, and the commit
/// index.
pub proof fn law_hard_state_layout(term: u64, vote: Option<u64>, commit: u64)
    ensures
        ({
            let p = record::hard_state_bytes(term, vote, commit);
            &&& p.len() == 25
            &&& bytes::le_value(p.subrange(0, 8)) == term
            &&& vote is None ==> p[8] == 0 && bytes::le_value(p.subrange(9, 17)) == 0
            &&& vote is Some ==> p[8] == 1 && bytes::le_value(p.subrange(9, 17)) == vote->0
            &&& bytes::le_value(p.subrange(17, 25)) == commit
        }),
{
    let p = record::hard_state_bytes(term, vote, commit);
    let v = match vote {
        Some(v) => v,
        None => 0,
    };
    bytes::lemma_u64_bytes(term);
    bytes::lemma_u64_bytes(v);
    bytes::lemma_u64_bytes(commit);
    assert(p.subrange(0, 8) =~= bytes::u64_bytes(term));
    assert(p.subrange(9, 17) =~= bytes::u64_bytes(v));
    assert(p.subrange(17, 25) =~= bytes::u64_bytes(commit));
}

/// Each kind of entry has a byte of its own, 0 for a command; a byte that stands for
/// none is read as a command.
pub proof fn law_entry_kinds(t: EntryType, b: u8)
    ensures
        replay::entry_type_of(replay::entry_type_byte(t)) == t,
        replay::entry_type_byte(EntryType::Entry) == 0,
        replay::entry_type_byte(EntryType::ConfChange) == 1,
        replay::entry_type_byte(EntryType::ConfChangeV2) == 2,
        b > 2 ==> replay::entry_type_of(b) == EntryType::Entry,
{
}

// ---------------------------------------------------------------------------
// Files
// ---------------------------------------------------------------------------
proof fn lemma_seal(body: Seq<u8>)
    ensures
        ({
            let s = snapshot::sealed(body);
            &&& s.len() == body.len() + 4
            &&& s.subrange(0, body.len() as int) == body
            &&& bytes::le_value(s.subrange(body.len() as int, s.len() as int))
                == crc32c::crc32c_of(body)
        }),
{
    let s = snapshot::sealed(body);
    bytes::lemma_u32_bytes(crc32c::crc32c_of(body));
    assert(s.subrange(0, body.len() as int) =~= body);
    assert(s.subrange(body.len() as int, s.len() as int) =~= bytes::u32_bytes(
        crc32c::crc32c_of(body),
    ));
}

/// A snapshot file starts with its mark and its version, the index and the term; it ends
/// with the data and the checksum of all before it.
pub proof fn law_snapshot_file_layout(s: SnapshotModel)
    ensures
        ({
            let f = snapshot::snapshot_bytes(s);
            let n = f.len() as int;
            &&& n >= 24 + s.data.len() + 4
            &&& bytes::le_value(f.subrange(0, 4)) == 0x4152_4153
            &&& bytes::le_value(f.subrange(4, 8)) == 1
            &&& bytes::le_value(f.subrange(8, 16)) == s.index
            &&& bytes::le_value(f.subrange(16, 24)) == s.term
            &&& f.subrange(n - 4 - s.data.len(), n - 4) == s.data
            &&& bytes::le_value(f.subrange(n - 4, n)) == crc32c::crc32c_of(f.subrange(0, n - 4))
        }),
{
    let body = snapshot::snapshot_body(s);
    let f = snapshot::snapshot_bytes(s);
    let n = f.len() as int;
    lemma_seal(body);
    bytes::lemma_u32_bytes(0x4152_4153);
    bytes::lemma_u32_bytes(1);
    bytes::lemma_u64_bytes(s.index);
    bytes::lemma_u64_bytes(s.term);
    assert(f.subrange(0, 4) =~= bytes::u32_bytes(0x4152_4153));
    assert(f.subrange(4, 8) =~= bytes::u32_bytes(1));
    assert(f.subrange(8, 16) =~= bytes::u64_bytes(s.index));
    assert(f.subrange(16, 24) =~= bytes::u64_bytes(s.term));
    assert(f.subrange(n - 4 - s.data.len(), n - 4) =~= s.data);
}

/// A snapshot file whose checksum does not match is told by both checksums; one that
/// matches but is of another version or has another mark is told as such.
pub proof fn law_broken_snapshot_file_is_told_apart(f: Seq<u8>)
    requires
        f.len() >= 12,
    ensures
        ({
            let n = f.len() as int;
            let body = f.subrange(0, n - 4);
            let stored = bytes::le_value(f.subrange(n - 4, n));
            let r = snapshot::decoded_snapshot(f);
            &&& crc32c::crc32c_of(body) != stored ==> r is Err && r->Err_0 == (
            SnapshotError::ChecksumMismatch {
                expected: stored as u32,
                actual: crc32c::crc32c_of(body),
            })
            &&& crc32c::crc32c_of(body) == stored && bytes::le_value(f.subrange(0, 4))
                != 0x4152_4153 ==> r is Err && r->Err_0 == SnapshotError::BadMagic
            &&& crc32c::crc32c_of(body) == stored && bytes::le_value(f.subrange(0, 4))
                == 0x4152_4153 && bytes::le_value(f.subrange(4, 8)) != 1 ==> r is Err && r->Err_0
                == (SnapshotError::BadFormatVersion {
                found: bytes::le_value(f.subrange(4, 8)) as u32,
            })
        }),
{
    let n = f.len() as int;
    let body = f.subrange(0, n - 4);
    bytes::lemma_pow256_widths();
    bytes::lemma_le_value_bound(f.subrange(n - 4, n));
    bytes::lemma_le_value_bound(f.subrange(0, 4));
    bytes::lemma_le_value_bound(f.subrange(4, 8));
    assert(body.subrange(0, 4) =~= f.subrange(0, 4));
    assert(body.subrange(4, 8) =~= f.subrange(4, 8));
}

/// A membership file starts with its mark and its version and the index of the change;
/// it ends with the checksum of all before it.
pub proof fn law_membership_file_layout(index: u64, conf: ConfModel)
    ensures
        ({
            let f = membership::membership_bytes(index, conf);
            let n = f.len() as int;
            &&& n >= 28
            &&& bytes::le_value(f.subrange(0, 4)) == 0x534D_5241
            &&& bytes::le_value(f.subrange(4, 8)) == 1
            &&& bytes::le_value(f.subrange(8, 16)) == index
            &&& bytes::le_value(f.subrange(n - 4, n)) == crc32c::crc32c_of(f.subrange(0, n - 4))
        }),
{
    let body = membership::membership_body(index, conf);
    let f = membership::membership_bytes(index, conf);
    lemma_seal(body);
    bytes::lemma_u32_bytes(0x534D_5241);
    bytes::lemma_u32_bytes(1);
    bytes::lemma_u64_bytes(index);
    bytes::lemma_u32_bytes(conf.voters.len() as u32);
    bytes::lemma_u32_bytes(conf.learners.len() as u32);
    assert(f.subrange(0, 4) =~= bytes::u32_bytes(0x534D_5241));
    assert(f.subrange(4, 8) =~= bytes::u32_bytes(1));
    assert(f.subrange(8, 16) =~= bytes::u64_bytes(index));
}

/// What is said of a membership file that is none: it is too short, has another mark or
/// another version, or its checksum does not match. In this order.
pub proof fn law_broken_membership_file_is_told_apart(f: Seq<u8>)
    requires
        f.len() <= u64::MAX,
    ensures
        ({
            let r = membership::decoded_membership(f);
            &&& f.len() < 28 ==> r is Err && r->Err_0 == (Damage::TooShort { len: f.len() as u64 })
            &&& f.len() >= 28 ==> {
                let n = f.len() as int;
                let mark = bytes::le_value(f.subrange(0, 4));
                let version = bytes::le_value(f.subrange(4, 8));
                let stored = bytes::le_value(f.subrange(n - 4, n));
                let computed = crc32c::crc32c_of(f.subrange(0, n - 4));
                &&& mark != 0x534D_5241 ==> r is Err && r->Err_0 == (Damage::BadMagic {
                    found: mark as u32,
                })
                &&& mark == 0x534D_5241 && version != 1 ==> r is Err && r->Err_0 == (
                Damage::BadVersion { found: version as u32 })
                &&& mark == 0x534D_5241 && version == 1 && computed != stored ==> r is Err
                    && r->Err_0 == (Damage::Crc { computed, stored: stored as u32 })
            }
        }),
{
    if f.len() >= 28 {
        let n = f.len() as int;
        bytes::lemma_pow256_widths();
        bytes::lemma_le_value_bound(f.subrange(0, 4));
        bytes::lemma_le_value_bound(f.subrange(4, 8));
        bytes::lemma_le_value_bound(f.subrange(n - 4, n));
    }
}

/// An identity file starts with its mark, its version and the checksum of all behind
/// that; it ends with when it was made and where its snapshot is.
pub proof fn law_identity_file_layout(m: MetaModel)
    ensures
        ({
            let f = meta::meta_bytes(m);
            let n = f.len() as int;
            &&& n >= 12 + 4 + 24
            &&& bytes::le_value(f.subrange(0, 4)) == 0x4152_414D
            &&& bytes::le_value(f.subrange(4, 8)) == m.format_version
            &&& bytes::le_value(f.subrange(8, 12)) == crc32c::crc32c_of(f.subrange(12, n))
            &&& bytes::le_value(f.subrange(n - 24, n - 16)) == m.created_at
            &&& bytes::le_value(f.subrange(n - 16, n - 8)) == m.snapshot_index
            &&& bytes::le_value(f.subrange(n - 8, n)) == m.snapshot_term
        }),
{
    let p = meta::meta_payload(m);
    let f = meta::meta_bytes(m);
    let n = f.len() as int;
    bytes::lemma_u32_bytes(0x4152_414D);
    bytes::lemma_u32_bytes(m.format_version);
    bytes::lemma_u32_bytes(crc32c::crc32c_of(p));
    bytes::lemma_u64_bytes(m.created_at);
    bytes::lemma_u64_bytes(m.snapshot_index);
    bytes::lemma_u64_bytes(m.snapshot_term);
    bytes::lemma_u16_bytes(vstd::utf8::encode_utf8(m.cluster_id).len() as u16);
    bytes::lemma_u16_bytes(vstd::utf8::encode_utf8(m.node_id).len() as u16);
    assert(f.subrange(0, 4) =~= bytes::u32_bytes(0x4152_414D));
    assert(f.subrange(4, 8) =~= bytes::u32_bytes(m.format_version));
    assert(f.subrange(8, 12) =~= bytes::u32_bytes(crc32c::crc32c_of(p)));
    assert(f.subrange(12, n) =~= p);
    assert(f.subrange(n - 24, n - 16) =~= bytes::u64_bytes(m.created_at));
    assert(f.subrange(n - 16, n - 8) =~= bytes::u64_bytes(m.snapshot_index));
    assert(f.subrange(n - 8, n) =~= bytes::u64_bytes(m.snapshot_term));
}

/// An identity file that is too short, has another mark, or whose checksum does not
/// match is told as such, in this order.
pub proof fn law_broken_identity_file_is_told_apart(f: Seq<u8>)
    ensures
        f.len() < 24 ==> meta::decoded_meta(f) is Err && meta::decoded_meta(f)->Err_0
            == MetaError::TooShort,
        f.len() >= 24 ==> {
            let payload = f.subrange(12, f.len() as int);
            let stored = bytes::le_value(f.subrange(8, 12));
            let r = meta::decoded_meta(f);
            &&& bytes::le_value(f.subrange(0, 4)) != 0x4152_414D ==> r is Err && r->Err_0
                == MetaError::BadMagic
            &&& bytes::le_value(f.subrange(0, 4)) == 0x4152_414D && crc32c::crc32c_of(payload)
                != stored ==> r is Err && r->Err_0 == (MetaError::ChecksumMismatch {
                expected: stored as u32,
                actual: crc32c::crc32c_of(payload),
            })
            &&& r matches Ok(m) ==> m.format_version == bytes::le_value(f.subrange(4, 8))
        },
{
    if f.len() >= 24 {
        bytes::lemma_pow256_widths();
        bytes::lemma_le_value_bound(f.subrange(0, 4));
        bytes::lemma_le_value_bound(f.subrange(4, 8));
        bytes::lemma_le_value_bound(f.subrange(8, 12));
    }
}

// ---------------------------------------------------------------------------
// Names and sizes
// ---------------------------------------------------------------------------
/// A segment's name holds its first index in twenty digits.
pub proof fn law_segment_name_layout(first_index: u64)
    ensures
        ({
            let name = segment::segment_name_chars(first_index);
            &&& name.len() == 28
            &&& name.subrange(0, 4) == "wal-"@
            &&& text::parsed(name.subrange(4, 24)) == Some(first_index as nat)
            &&& name.subrange(24, 28) == ".log"@
        }),
{
    segment::lemma_segment_name_parts(first_index);
}

/// A path has its directory in front, its name at the end, and one separator between
/// them; in no directory it is the name.
pub proof fn law_path_is_directory_and_name(dir: Seq<char>, name: Seq<char>)
    ensures
        dir.len() == 0 ==> meta::joined_path(dir, name) == name,
        dir.len() > 0 ==> {
            let path = meta::joined_path(dir, name);
            let n = path.len() - name.len();
            &&& path.subrange(n, path.len() as int) == name
            &&& path.subrange(0, dir.len() as int) == dir
            &&& dir.last() == '/' ==> n == dir.len()
            &&& dir.last() != '/' ==> n == dir.len() + 1 && path[n - 1] == '/'
        },
{
    reveal_strlit("/");
    let path = meta::joined_path(dir, name);
    if dir.len() > 0 {
        let n = path.len() - name.len();
        assert(path.subrange(n, path.len() as int) =~= name);
        assert(path.subrange(0, dir.len() as int) =~= dir);
    }
}

/// The checksum takes in one byte after the other: each is mixed into the register,
/// which is then shifted by eight places. The register starts with all ones and ends
/// inverted.
pub proof fn law_checksum_takes_byte_after_byte(crc: u32, s: Seq<u8>, b: u8)
    ensures
        crc32c::crc_fold(crc, Seq::empty()) == crc,
        crc32c::crc_fold(crc, s.push(b)) == crc32c::crc_bits8(
            crc32c::crc_fold(crc, s) ^ (b as u32),
        ),
        crc32c::crc32c_of(s) == crc32c::crc_fold(0xFFFF_FFFFu32, s) ^ 0xFFFF_FFFFu32,
{
    assert(s.push(b).drop_last() =~= s);
}

/// The sizes of files add up, to the largest number there is at most.
pub proof fn law_sizes_add_up(sizes: Seq<u64>, size: u64)
    ensures
        wal::capped_total(Seq::empty()) == 0,
        ({
            let before = wal::capped_total(sizes);
            let after = wal::capped_total(sizes.push(size));
            &&& before + size <= u64::MAX ==> after == before + size
            &&& before + size > u64::MAX ==> after == u64::MAX
        }),
{
    assert(sizes.push(size).drop_last() =~= sizes);
}

/// How much data entries hold together is what each of them holds; a read that is
/// limited gives as many entries from the front as fit the limit, and no more would.
pub proof fn law_limited_read_is_the_longest_that_fits(
    es: Seq<EntryModel>,
    e: EntryModel,
    limit: u64,
    n: int,
    k: int,
)
    requires
        wal::longest_fitting(es, limit, n),
        n < k <= es.len(),
    ensures
        wal::data_total(Seq::empty()) == 0,
        wal::data_total(es.push(e)) == wal::data_total(es) + e.data.len(),
        wal::data_total(es.subrange(0, n)) <= limit,
        wal::data_total(es.subrange(0, k)) > limit,
{
    assert(es.push(e).drop_last() =~= es);
    lemma_data_grows(es, n + 1, k);
}

proof fn lemma_data_grows(es: Seq<EntryModel>, a: int, b: int)
    requires
        0 <= a <= b <= es.len(),
    ensures
        wal::data_total(es.subrange(0, a)) <= wal::data_total(es.subrange(0, b)),
    decreases b - a,
{
    if a < b {
        lemma_data_grows(es, a, b - 1);
        assert(es.subrange(0, b).drop_last() =~= es.subrange(0, b - 1));
    }
}

proof fn lemma_records_shift(a: Seq<u8>, b: Seq<u8>, k: int)
    requires
        0 <= k,
    ensures
        segment::complete_records(a + b, a.len() + k) == segment::complete_records(b, k),
    decreases b.len() - k,
{
    if k + 8 <= b.len() {
        let n = a.len() as int;
        assert((a + b).subrange(n + k, n + k + 4) =~= b.subrange(k, k + 4));
        let len = bytes::u32_at(b, k) as int;
        let end = k + 8 + len;
        if len >= 1 && end <= b.len() {
            assert((a + b).subrange(n + k, n + end) =~= b.subrange(k, end));
            lemma_records_shift(a, b, end);
        }
    }
}

/// A record at the front of a segment is read as it was written, and the rest of the
/// segment after it; a last one that was cut short is left out.
pub proof fn law_written_records_are_read(
    t: RecordType,
    payload: Seq<u8>,
    rest: Seq<u8>,
    n: int,
)
    requires
        payload.len() < 67_108_864,
        t != RecordType::Meta,
        0 <= n < 9 + payload.len(),
    ensures
        segment::complete_records(record::record_bytes(t, payload) + rest, 0) == (
        match segment::complete_records(rest, 0) {
            Some(more) => Some(seq![(t, payload)] + more),
            None => None,
        }),
        segment::complete_records(record::record_bytes(t, payload).subrange(0, n), 0) == Some(
            Seq::<(RecordType, Seq<u8>)>::empty(),
        ),
{
    let r = record::record_bytes(t, payload);
    law_record_layout(t, payload);
    record::law_record_round_trip(t, payload);
    let all = r + rest;
    assert(all.subrange(0, 4) =~= r.subrange(0, 4));
    assert(all.subrange(0, r.len() as int) =~= r);
    lemma_records_shift(r, rest, 0);
    let cut = r.subrange(0, n);
    if n >= 8 {
        assert(cut.subrange(0, 4) =~= r.subrange(0, 4));
    }
}

} // verus!
