//! The membership file: the configuration that the last applied membership
//! change produced.
//!
//! ```text
//! [u32 magic][u32 format_version][u64 conf_change_index]
//! [u32 voters_len][u64 voters...][u32 learners_len][u64 learners...]
//! [u32 crc32c]        over every byte before this field
//! ```
//!
//! The file is replaced atomically, so a crash leaves either the previous or
//! the new membership. A missing file is normal (no change was applied yet); a
//! file that is there and does not decode is damage, never "absent".
use vstd::prelude::*;
use vstd::string::*;

use crate::bytes::{get_u32, put_slice, put_u32};
use crate::storage::crc32c::crc32c;
use crate::storage::record::{decode_conf_state, encode_conf_state, push_checksum, DecodeError};

use crate::text::push_decimal;
use crate::types::{ConfModel, ConfState, LogIndex};
use crate::bytes;
use crate::storage::crc32c;
use crate::storage::record;
use crate::storage::snapshot;
use crate::text;

verus! {

/// The magic number that a membership file starts with.
pub const MEMBERSHIP_MAGIC: u32 = 0x534D_5241;

/// The format version of the membership file.
pub const MEMBERSHIP_FORMAT_VERSION: u32 = 1;

/// What is wrong with a membership file.
#[derive(Clone, Copy, Debug, PartialEq, Eq)]
pub enum Damage {
    /// Fewer bytes than the smallest membership file.
    TooShort { len: u64 },
    /// The file does not start with the magic number.
    BadMagic { found: u32 },
    /// The format version is not supported.
    BadVersion { found: u32 },
    /// The checksum does not match.
    Crc { computed: u32, stored: u32 },
    /// The member tables do not decode.
    Tables { error: DecodeError },
}

/// A membership-file read or write failure.
#[derive(Clone, Debug, PartialEq, Eq)]
pub enum MembershipError {
    /// The underlying filesystem operation failed, as reported by the
    /// environment.
    Io(String),
    /// The file exists but is not a valid membership file.
    Corrupt(Damage),
}

impl Damage {
    /// The text of [`Damage::message`].
    pub open spec fn text(self) -> Seq<char> {
        match self {
            Damage::TooShort { len } => text::decimal(len as nat)
                + " bytes is too short for a membership file"@,
            Damage::BadMagic { found } => "bad magic "@ + record::checksum_text(found),
            Damage::BadVersion { found } => "unsupported version "@ + text::decimal(found as nat)
                + " (expected "@ + text::decimal(MEMBERSHIP_FORMAT_VERSION as nat) + ")"@,
            Damage::Crc { computed, stored } => "crc mismatch (computed "@ + record::checksum_text(computed)
                + ", stored "@ + record::checksum_text(stored) + ")"@,
            Damage::Tables { error } => error.text(),
        }
    }

    /// A description of the damage.
    pub fn message(&self) -> (s: String)
        ensures
            s@ == self.text(),
    {
        let mut s = String::new();
        match self {
            Damage::TooShort { len } => {
                push_decimal(&mut s, *len);
                s.append(" bytes is too short for a membership file");
            },
            Damage::BadMagic { found } => {
                s.append("bad magic ");
                push_checksum(&mut s, *found);
            },
            Damage::BadVersion { found } => {
                s.append("unsupported version ");
                push_decimal(&mut s, *found as u64);
                s.append(" (expected ");
                push_decimal(&mut s, MEMBERSHIP_FORMAT_VERSION as u64);
                s.append(")");
            },
            Damage::Crc { computed, stored } => {
                s.append("crc mismatch (computed ");
                push_checksum(&mut s, *computed);
                s.append(", stored ");
                push_checksum(&mut s, *stored);
                s.append(")");
            },
            Damage::Tables { error } => {
                s = error.message();
            },
        }
        assert(s@ =~= self.text());
        s
    }
}

impl MembershipError {
    /// The text of [`MembershipError::message`].
    pub open spec fn text(self) -> Seq<char> {
        match self {
            MembershipError::Io(err) => "membership file I/O error: "@ + err@,
            MembershipError::Corrupt(damage) => "corrupt membership file: "@ + damage.text(),
        }
    }

    /// A description of the error.
    pub fn message(&self) -> (s: String)
        ensures
            s@ == self.text(),
    {
        let mut s = String::new();
        match self {
            MembershipError::Io(err) => {
                s.append("membership file I/O error: ");
                s.append(err.as_str());
            },
            MembershipError::Corrupt(damage) => {
                s.append("corrupt membership file: ");
                let detail = damage.message();
                s.append(detail.as_str());
            },
        }
        assert(s@ =~= self.text());
        s
    }
}

/// Everything in a membership file before the checksum.
pub open spec fn membership_body(index: u64, conf: ConfModel) -> Seq<u8> {
    bytes::u32_bytes(MEMBERSHIP_MAGIC) + bytes::u32_bytes(MEMBERSHIP_FORMAT_VERSION) + record::conf_state_bytes(
        index,
        conf.voters,
        conf.learners,
    )
}

/// The bytes of a membership file.
pub open spec fn membership_bytes(index: u64, conf: ConfModel) -> Seq<u8> {
    snapshot::sealed(membership_body(index, conf))
}

/// What a membership file decodes to.
pub open spec fn decoded_membership(buf: Seq<u8>) -> Result<(u64, ConfModel), Damage> {
    let body = buf.subrange(0, buf.len() - 4);
    let stored = bytes::u32_at(buf, buf.len() - 4);
    if buf.len() < 28 {
        Err(Damage::TooShort { len: buf.len() as u64 })
    } else if bytes::u32_at(buf, 0) != MEMBERSHIP_MAGIC {
        Err(Damage::BadMagic { found: bytes::u32_at(buf, 0) })
    } else if bytes::u32_at(buf, 4) != MEMBERSHIP_FORMAT_VERSION {
        Err(Damage::BadVersion { found: bytes::u32_at(buf, 4) })
    } else if crc32c::crc32c_of(body) != stored {
        Err(Damage::Crc { computed: crc32c::crc32c_of(body), stored })
    } else {
        match record::decoded_conf_state(buf.subrange(8, buf.len() - 4)) {
            Err(error) => Err(Damage::Tables { error }),
            Ok((index, voters, learners)) => Ok((index, ConfModel { voters, learners })),
        }
    }
}

/// Encode a membership file.
pub fn encode_membership(conf_change_index: LogIndex, conf_state: &ConfState) -> (buf: Vec<u8>)
    requires
        conf_state.voters@.len() <= u32::MAX,
        conf_state.learners@.len() <= u32::MAX,
    ensures
        buf@ == membership_bytes(conf_change_index, conf_state@),
{
    let mut buf: Vec<u8> = Vec::new();
    put_u32(&mut buf, MEMBERSHIP_MAGIC);
    put_u32(&mut buf, MEMBERSHIP_FORMAT_VERSION);
    let tables = encode_conf_state(conf_change_index, &conf_state.voters, &conf_state.learners);
    put_slice(&mut buf, &tables);
    assert(buf@ =~= membership_body(conf_change_index, conf_state@));
    let crc: u32 = crc32c(&buf);
    put_u32(&mut buf, crc);
    buf
}

fn decode_membership(buf: &[u8]) -> (r: Result<(LogIndex, ConfState), Damage>)
    ensures
        match r {
            Ok(v) => decoded_membership(buf@) == Ok::<(u64, ConfModel), Damage>((v.0, v.1@)),
            Err(e) => decoded_membership(buf@) == Err::<(u64, ConfModel), Damage>(e),
        },
{
    if buf.len() < 28 {
        return Err(Damage::TooShort { len: buf.len() as u64 });
    }
    let magic: u32 = get_u32(buf, 0);
    if magic != MEMBERSHIP_MAGIC {
        return Err(Damage::BadMagic { found: magic });
    }
    let version: u32 = get_u32(buf, 4);
    if version != MEMBERSHIP_FORMAT_VERSION {
        return Err(Damage::BadVersion { found: version });
    }
    let at: usize = buf.len() - 4;
    let computed: u32 = crc32c(vstd::slice::slice_subrange(buf, 0, at));
    let stored: u32 = get_u32(buf, at);
    if computed != stored {
        return Err(Damage::Crc { computed, stored });
    }
    match decode_conf_state(vstd::slice::slice_subrange(buf, 8, at)) {
        Err(error) => Err(Damage::Tables { error }),
        Ok((index, voters, learners)) => Ok((index, ConfState { voters, learners })),
    }
}

/// Read the durable membership from the contents of its file, `None` where
/// there is no such file.
pub fn read_membership(file: Option<&[u8]>) -> (r: Result<
    Option<(LogIndex, ConfState)>,
    MembershipError,
>)
    ensures
        match file {
            None => r matches Ok(v) && v is None,
            Some(buf) => match decoded_membership(buf@) {
                Ok((index, conf)) => r matches Ok(Some(v)) && v.0 == index && v.1@ == conf,
                Err(damage) => r == Err::<Option<(LogIndex, ConfState)>, MembershipError>(
                    MembershipError::Corrupt(damage),
                ),
            },
        },
{
    match file {
        None => Ok(None),
        Some(buf) => match decode_membership(buf) {
            Ok(v) => Ok(Some(v)),
            Err(damage) => Err(MembershipError::Corrupt(damage)),
        },
    }
}

// ---------------------------------------------------------------------------
// Laws
// ---------------------------------------------------------------------------
/// Reading a written membership file gives it back.
pub proof fn law_membership_round_trip(index: u64, conf: ConfModel)
    requires
        conf.voters.len() <= u32::MAX,
        conf.learners.len() <= u32::MAX,
    ensures
        decoded_membership(membership_bytes(index, conf)) == Ok::<(u64, ConfModel), Damage>(
            (index, conf),
        ),
{
    let tables = record::conf_state_bytes(index, conf.voters, conf.learners);
    let body = membership_body(index, conf);
    let buf = snapshot::sealed(body);
    snapshot::lemma_sealed(body);
    bytes::lemma_u32_bytes(MEMBERSHIP_MAGIC);
    bytes::lemma_u32_bytes(MEMBERSHIP_FORMAT_VERSION);
    record::lemma_conf_state_followed(index, conf.voters, conf.learners, Seq::empty());
    assert(tables + Seq::<u8>::empty() =~= tables);
    assert(buf.subrange(0, 4) =~= bytes::u32_bytes(MEMBERSHIP_MAGIC));
    assert(buf.subrange(4, 8) =~= bytes::u32_bytes(MEMBERSHIP_FORMAT_VERSION));
    assert(buf.subrange(8, buf.len() - 4) =~= tables);
}

/// A membership file with one byte changed, wherever it stands, is damage, never
/// absence, and the damage says what was hit.
pub proof fn law_corrupt_membership_is_damage(index: u64, conf: ConfModel, i: int, byte: u8)
    requires
        conf.voters.len() <= u32::MAX,
        conf.learners.len() <= u32::MAX,
        0 <= i < membership_bytes(index, conf).len(),
        byte != membership_bytes(index, conf)[i],
    ensures
        match decoded_membership(membership_bytes(index, conf).update(i, byte)) {
            Ok(_) => false,
            Err(Damage::BadMagic { found }) => i < 4 && found != MEMBERSHIP_MAGIC,
            Err(Damage::BadVersion { found }) => 4 <= i < 8 && found != MEMBERSHIP_FORMAT_VERSION,
            Err(Damage::Crc { computed, stored }) => 8 <= i && computed != stored,
            Err(_) => false,
        },
{
    let body = membership_body(index, conf);
    let whole = snapshot::sealed(body);
    let broken = whole.update(i, byte);
    snapshot::lemma_sealed(body);
    bytes::lemma_u32_bytes(MEMBERSHIP_MAGIC);
    bytes::lemma_u32_bytes(MEMBERSHIP_FORMAT_VERSION);
    record::lemma_conf_state_followed(index, conf.voters, conf.learners, Seq::empty());
    assert(whole.subrange(0, 4) =~= bytes::u32_bytes(MEMBERSHIP_MAGIC));
    assert(whole.subrange(4, 8) =~= bytes::u32_bytes(MEMBERSHIP_FORMAT_VERSION));
    if i < 4 {
        bytes::lemma_u32_changed(whole, 0, i, byte);
    } else {
        assert(broken.subrange(0, 4) =~= whole.subrange(0, 4));
        if i < 8 {
            bytes::lemma_u32_changed(whole, 4, i, byte);
        } else {
            assert(broken.subrange(4, 8) =~= whole.subrange(4, 8));
            snapshot::lemma_sealed_byte_changed(body, i, byte);
        }
    }
}

/// A membership file that was cut short is damage, never absence.
pub proof fn law_truncated_membership_is_damage(index: u64, conf: ConfModel, cut: int)
    requires
        conf.voters.len() <= u32::MAX,
        conf.learners.len() <= u32::MAX,
        0 <= cut < membership_bytes(index, conf).len(),
    ensures
        decoded_membership(membership_bytes(index, conf).subrange(0, cut)) is Err,
{
    let tables = record::conf_state_bytes(index, conf.voters, conf.learners);
    let body = membership_body(index, conf);
    let whole = snapshot::sealed(body);
    let short = whole.subrange(0, cut);
    snapshot::lemma_sealed(body);
    bytes::lemma_u32_bytes(MEMBERSHIP_MAGIC);
    bytes::lemma_u32_bytes(MEMBERSHIP_FORMAT_VERSION);
    if cut >= 28 {
        assert(short.subrange(8, cut - 4) =~= tables.subrange(0, cut - 12));
        record::law_truncated_conf_state_is_rejected(index, conf.voters, conf.learners, cut - 12);
    }
}

} // verus!
