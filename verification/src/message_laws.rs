//! What an error says to whoever reads it: what happened, with every number and every
//! detail in its place.
use vstd::prelude::*;

use crate::client::ErrorModel;
use crate::consensus::conf_change::ConfChangeFault;
use crate::consensus::node::NodeError;
use crate::profile::ProfileError;
use crate::runtime::cycle::SnapshotFault;
use crate::state_machine::kv::KvError;
use crate::storage::membership::Damage;
use crate::storage::membership::MembershipError;
use crate::storage::meta::MetaError;
use crate::storage::record::{DecodeError, RecordType};
use crate::storage::segment::SegmentError;
use crate::storage::snapshot::SnapshotError;
use crate::types::Fault;
use crate::client::handle;
use crate::runtime::requests;
use crate::storage::record;
use crate::storage::segment;
use crate::text;
use crate::types;

verus! {

/// A client error says what happened, with the numbers and the words that come with it.
pub proof fn law_client_errors_say_what_happened(e: ErrorModel)
    ensures
        e matches ErrorModel::NotLeader(Some((node, address)))
            ==> e.text() == "not leader (hint: "@ + node + " at "@ + address + ")"@,
        e matches ErrorModel::NotLeader(None) ==> e.text() == "not leader (hint: none)"@,
        e is QuorumUnavailable ==> e.text() == "quorum unavailable"@,
        e is Timeout ==> e.text() == "operation timed out (result unknown)"@,
        e is Busy ==> e.text() == "busy (proposal or read queue full)"@,
        e matches ErrorModel::InvalidArgument(detail) ==> e.text() == "invalid argument: "@
            + detail,
        e is SessionExpired ==> e.text() == "session expired (result unknown)"@,
        e is SessionTableFull ==> e.text() == "session table full"@,
        e is ConfChangePending ==> e.text() == "configuration change pending"@,
        e is LeaderRemovalRequiresTransfer ==> e.text() == "leader removal requires transfer"@,
        e matches ErrorModel::LearnerNotCaughtUp { behind, threshold }
            ==> e.text() == "learner not caught up (behind "@ + text::decimal(behind as nat)
            + " entries, threshold "@ + text::decimal(threshold as nat) + ")"@,
        e is ClusterIdMismatch ==> e.text() == "cluster id mismatch"@,
        e is ShuttingDown ==> e.text() == "node is shutting down"@,
        e is DataDirLocked ==> e.text() == "data directory is locked"@,
        e matches ErrorModel::Unrecoverable(detail) ==> e.text() == "unrecoverable: "@ + detail,
{
}

/// A storage fault says what is wrong and where, each number in its place.
pub proof fn law_storage_faults_say_what_and_where(e: Fault)
    ensures
        e matches Fault::Meta(error) ==> e.text() == "failed to read META: "@ + error.text(),
        e is MetaMissing ==> e.text() == "force-recovery: cannot read META: there is none"@,
        e matches Fault::RewriteMeta(error) ==> e.text() == "force-recovery: cannot read META: "@
            + error.text(),
        e is RewriteNodeIdMismatch
            ==> e.text() == "force-recovery: data dir node_id does not match"@,
        e is ClusterIdMismatch ==> e.text() == "META cluster_id mismatch"@,
        e is NodeIdMismatch ==> e.text() == "META node_id mismatch"@,
        e matches Fault::FormatVersionMismatch { version }
            ==> e.text() == "META format_version mismatch: expected "@ + text::decimal(1)
            + ", got "@ + text::decimal(version as nat),
        e matches Fault::TornSegment { segment, offset }
            ==> e.text() == "structural tear in non-last segment "@
            + segment::segment_name_chars(segment) + " at byte offset "@
            + text::decimal(offset as nat),
        e matches Fault::TornCommitted { last, commit }
            ==> e.text() == "structural tear after index "@ + text::decimal(last as nat)
            + " (within committed window commit="@ + text::decimal(commit as nat)
            + "): cannot auto-truncate committed data"@,
        e matches Fault::CorruptRecord { segment, offset, error }
            ==> e.text() == "corrupt record in segment "@ + segment::segment_name_chars(segment)
            + " at byte offset "@ + text::decimal(offset as nat) + ": "@ + error.text(),
        e matches Fault::CorruptPayload { segment, offset, error }
            ==> e.text() == "corrupt payload in segment "@ + segment::segment_name_chars(segment)
            + " at byte offset "@ + text::decimal(offset as nat) + ": "@ + error.text(),
        e matches Fault::SnapshotMissing { snapshot_index, first }
            ==> e.text() == "META names a snapshot at index "@
            + text::decimal(snapshot_index as nat)
            + " but no valid snapshot file could be loaded and the WAL starts at index "@
            + text::decimal(first as nat),
        e matches Fault::IndexGap { last, found } ==> e.text() == "log index gap: "@
            + types::gap_text(last, found),
        e matches Fault::SnapshotGap { compacted_to, first }
            ==> e.text() == "gap between the snapshot (index "@
            + text::decimal(compacted_to as nat) + ") and the first retained entry (index "@
            + text::decimal(first as nat) + ")"@,
        e matches Fault::CommitBeyondLog { commit, last } ==> e.text() == "hard_state.commit ("@
            + text::decimal(commit as nat) + ") > last_entry_index ("@ + text::decimal(last as nat)
            + ") after replay"@,
        e matches Fault::AppendCompacted { index, compacted_to }
            ==> e.text() == "append at index "@ + text::decimal(index as nat)
            + " is at or below the compaction watermark "@ + text::decimal(compacted_to as nat),
        e matches Fault::AppendCommitted { index, commit }
            ==> e.text() == "append would overwrite committed entries: first="@
            + text::decimal(index as nat) + ", commit="@ + text::decimal(commit as nat),
        e matches Fault::AppendGap { last, found } ==> e.text() == "append continuity violation: "@
            + types::gap_text(last, found),
        e matches Fault::RecordTooLarge { index, size } ==> e.text() == "entry at index "@
            + text::decimal(index as nat) + " produces a record of "@ + text::decimal(size as nat)
            + " bytes, exceeding MAX_RECORD_BYTES ("@ + text::decimal(67_108_864) + ")"@,
        e matches Fault::EntryMissing { index } ==> e.text() == "entry "@
            + text::decimal(index as nat) + " is not in the segments"@,
        e matches Fault::StaleSnapshot { index, compacted_to }
            ==> e.text() == "installed snapshot at "@ + text::decimal(index as nat)
            + " is older than the local watermark "@ + text::decimal(compacted_to as nat),
        e matches Fault::SnapshotIndexExhausted { index }
            ==> e.text() == "nothing can follow a snapshot at "@ + text::decimal(index as nat),
        e matches Fault::CompactBeyondLog { compact_to, last } ==> e.text() == "compact_to ("@
            + text::decimal(compact_to as nat) + ") > last_index ("@ + text::decimal(last as nat)
            + ")"@,
        e matches Fault::CompactBeyondSnapshot { compact_to, snapshot_index }
            ==> e.text() == "compact_to ("@ + text::decimal(compact_to as nat)
            + ") is beyond the snapshot index ("@ + text::decimal(snapshot_index as nat) + ")"@,
        e is CompactWithoutSnapshot ==> e.text() == "compact called with no durable snapshot"@,
        e is EmptyClusterId ==> e.text() == "force-recovery: cluster_id must be non-empty"@,
        e is TermExhausted ==> e.text() == "there is no term after the last"@,
{
}

/// What does not decode says what was expected and what was found.
pub proof fn law_decode_errors_say_what_was_found(e: DecodeError)
    ensures
        e is TooShort ==> e.text() == "buffer too short for a complete record"@,
        e is BadLength ==> e.text() == "record length field is implausible"@,
        e matches DecodeError::ChecksumMismatch { expected, actual }
            ==> e.text() == "checksum mismatch: expected "@ + record::checksum_text(expected)
            + ", got "@ + record::checksum_text(actual),
        e matches DecodeError::UnknownRecordType(b) ==> e.text() == "unknown record type byte: 0x"@
            + text::padded(b as nat, 16, 2),
        e matches DecodeError::UnsupportedRecordType(t) ==> e.text() == "record type "@
            + (match t {
                RecordType::Entry => "Entry"@,
                RecordType::HardState => "HardState"@,
                RecordType::Meta => "Meta"@,
            })
            + " is not yet supported for decoding"@,
        e is TrailingBytes
            ==> e.text() == "trailing bytes after record do not form a valid record"@,
{
}

/// So does an identity file.
pub proof fn law_identity_errors_say_what_was_found(e: MetaError)
    ensures
        e matches MetaError::Io(err) ==> e.text() == "META I/O error: "@ + err@,
        e is BadMagic ==> e.text() == "META file has an invalid magic number"@,
        e matches MetaError::ChecksumMismatch { expected, actual }
            ==> e.text() == "META checksum mismatch: expected "@ + record::checksum_text(expected)
            + ", got "@ + record::checksum_text(actual),
        e is TooShort ==> e.text() == "META file is too short"@,
        e is TruncatedField ==> e.text() == "META file has a truncated field"@,
{
}

/// So does a snapshot file.
pub proof fn law_snapshot_errors_say_what_was_found(e: SnapshotError)
    ensures
        e is TooShort ==> e.text() == "snapshot file is too short"@,
        e is BadMagic ==> e.text() == "snapshot file has an invalid magic number"@,
        e matches SnapshotError::BadFormatVersion { found }
            ==> e.text() == "snapshot format_version "@ + text::decimal(found as nat)
            + " != supported "@ + text::decimal(1),
        e matches SnapshotError::ChecksumMismatch { expected, actual }
            ==> e.text() == "snapshot checksum mismatch: expected "@
            + record::checksum_text(expected) + ", got "@ + record::checksum_text(actual),
        e is Truncated ==> e.text() == "snapshot file has a truncated field"@,
{
}

/// So does a membership file.
pub proof fn law_membership_damage_says_what_was_found(e: Damage)
    ensures
        e matches Damage::TooShort { len } ==> e.text() == text::decimal(len as nat)
            + " bytes is too short for a membership file"@,
        e matches Damage::BadMagic { found } ==> e.text() == "bad magic "@
            + record::checksum_text(found),
        e matches Damage::BadVersion { found } ==> e.text() == "unsupported version "@
            + text::decimal(found as nat) + " (expected "@ + text::decimal(1) + ")"@,
        e matches Damage::Crc { computed, stored } ==> e.text() == "crc mismatch (computed "@
            + record::checksum_text(computed) + ", stored "@ + record::checksum_text(stored)
            + ")"@,
        e matches Damage::Tables { error } ==> e.text() == error.text(),
{
}

/// A membership error passes on the damage or the words of the environment.
pub proof fn law_membership_errors_pass_on_the_damage(e: MembershipError)
    ensures
        e matches MembershipError::Io(err) ==> e.text() == "membership file I/O error: "@ + err@,
        e matches MembershipError::Corrupt(damage) ==> e.text() == "corrupt membership file: "@
            + damage.text(),
{
}

/// A segment error passes on what was found.
pub proof fn law_segment_errors_pass_on_what_was_found(e: SegmentError)
    ensures
        e matches SegmentError::Io(err) ==> e.text() == "segment I/O error: "@ + err@,
        e matches SegmentError::Decode(err) ==> e.text() == "segment decode error: "@ + err.text(),
        e matches SegmentError::InvalidName(name) ==> e.text() == "invalid segment file name: "@
            + name@,
{
}

/// A refused entry is named by its index.
pub proof fn law_machine_errors_name_the_entry(e: KvError)
    ensures
        e is MalformedCommand ==> e.text() == "malformed command"@,
        e is MalformedSnapshot ==> e.text() == "malformed snapshot"@,
        e matches KvError::IndexViolation { index } ==> e.text() == "index ordering violation at "@
            + text::decimal(index as nat),
{
}

/// An entry that is no membership change says what it is instead.
pub proof fn law_change_faults_say_what_was_found(e: ConfChangeFault)
    ensures
        e matches ConfChangeFault::Undecodable { detail }
            ==> e.text() == "ConfChange decode failed: "@ + detail@,
        e matches ConfChangeFault::UndecodableV2 { detail }
            ==> e.text() == "ConfChangeV2 decode failed: "@ + detail@,
        e matches ConfChangeFault::NotSingleStep { changes } ==> e.text() == "ConfChangeV2 with "@
            + text::decimal(changes as nat) + " changes is not single-step"@,
        e is NormalEntry ==> e.text() == "conf_change_identity called with a normal entry"@,
{
}

/// A node error passes on the words of whatever failed, and says what that was.
pub proof fn law_node_errors_pass_on_the_words(e: NodeError)
    ensures
        e matches NodeError::Raft(detail) ==> e.text() == detail@,
        e matches NodeError::Transport(detail) ==> e.text() == detail@,
        e matches NodeError::Codec(detail) ==> e.text() == "codec error: "@ + detail@,
        e matches NodeError::Storage(detail) ==> e.text() == "storage error: "@ + detail@,
        e matches NodeError::StateMachine(detail) ==> e.text() == "state machine error: "@
            + detail@,
{
}

/// A refused profile tells the timings that do not fit each other.
pub proof fn law_profile_errors_tell_both_timings(e: ProfileError)
    ensures
        e matches ProfileError::UnknownProfile { value } ==> e.text() == "unknown profile `"@
            + value@ + "` (expected `lan` or `wan`)"@,
        e is HeartbeatNotPositive ==> e.text() == "heartbeat_interval_ms must be > 0"@,
        e matches ProfileError::ElectionTooShort { heartbeat, election }
            ==> e.text() == "election_timeout_ms ("@ + text::decimal(election as nat)
            + ") must be >= 5 * heartbeat_interval_ms ("@ + text::decimal(heartbeat as nat) + ")"@,
        e is RpcNotPositive ==> e.text() == "rpc_timeout_ms must be > 0"@,
        e matches ProfileError::RpcTooLong { rpc, election } ==> e.text() == "rpc_timeout_ms ("@
            + text::decimal(rpc as nat) + ") must be < election_timeout_ms ("@
            + text::decimal(election as nat) + ")"@,
{
}

/// A local snapshot that could not be taken says what failed.
pub proof fn law_snapshot_faults_say_what_failed(e: SnapshotFault)
    ensures
        e is TaskStopped ==> e.text() == "the apply task stopped while serializing a snapshot"@,
        e matches SnapshotFault::Serialize(d) ==> e.text() == "state machine snapshot failed: "@
            + d@,
        e matches SnapshotFault::Term { index, detail }
            ==> e.text() == "cannot resolve the term at "@ + text::decimal(index as nat) + ": "@
            + detail@,
        e matches SnapshotFault::Membership(d)
            ==> e.text() == "cannot read the applied membership: "@ + d@,
        e matches SnapshotFault::Create(d) ==> e.text() == "snapshot creation failed: "@ + d@,
{
}

/// A hole says which index was expected, and which was found.
pub proof fn law_hole_says_what_was_expected(last: u64, found: u64)
    ensures
        last < u64::MAX ==> types::gap_text(last, found) == "expected "@ + text::decimal(
            (last + 1) as nat,
        ) + ", got "@ + text::decimal(found as nat),
        last == u64::MAX ==> types::gap_text(last, found) == "expected none, got "@
            + text::decimal(
            found as nat,
        ),
{
}

/// A checksum is told in eight hexadecimal digits.
pub proof fn law_checksum_is_told_in_hexadecimal(x: u32)
    ensures
        record::checksum_text(x) == "0x"@ + text::padded(x as nat, 16, 8),
        record::checksum_text(x).len() == 10,
{
    reveal_strlit("0x");
    text::lemma_padded_len(x as nat, 16, 8);
}

/// A node that is no learner is told by its id.
pub proof fn law_stranger_is_told_by_its_id(id: u64)
    ensures
        requests::no_learner(id) == "node "@ + text::decimal(id as nat)
            + " is not a learner in the applied configuration; add it first with add_learner"@,
{
}

/// A length that is too much is told with the limit and its name.
pub proof fn law_length_is_told_with_its_limit(
    what: Seq<char>,
    len: nat,
    knob: Seq<char>,
    limit: u64,
)
    ensures
        handle::too_long(what, len, knob, limit) == what + " of "@ + text::decimal(len)
            + " bytes exceeds "@ + knob + " ("@ + text::decimal(limit as nat) + ")"@,
{
}

} // verus!
