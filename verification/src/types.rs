//! The values the log, the state machine and the consensus layer exchange.
use vstd::prelude::*;
use vstd::string::*;

use crate::storage::meta::{MetaError, FORMAT_VERSION};
use crate::storage::record::{DecodeError, MAX_RECORD_BYTES};
use crate::storage::segment;
use crate::storage::segment::segment_name;
use crate::text;
use crate::text::push_decimal;

verus! {

/// A position in the replicated log; the first entry is at 1.
pub type LogIndex = u64;

/// An election term.
pub type Term = u64;

/// A consensus participant; 0 stands for "none".
pub type RaftId = u64;

/// Milliseconds on a monotonic clock.
pub type Timestamp = u64;

/// What a log entry carries.
#[derive(Clone, Copy, Debug, PartialEq, Eq, Structural)]
pub enum EntryType {
    /// A state-machine command.
    Entry,
    /// A single membership change.
    ConfChange,
    /// A membership change in the multi-change encoding.
    ConfChangeV2,
}

/// One replicated log entry.
#[derive(Debug, PartialEq, Eq)]
pub struct LogEntry {
    pub index: LogIndex,
    pub term: Term,
    pub entry_type: EntryType,
    pub data: Vec<u8>,
}

/// A log entry as a mathematical value.
#[verifier::ext_equal]
pub struct EntryModel {
    pub index: u64,
    pub term: u64,
    pub entry_type: EntryType,
    pub data: Seq<u8>,
}

impl View for LogEntry {
    type V = EntryModel;

    open spec fn view(&self) -> EntryModel {
        EntryModel {
            index: self.index,
            term: self.term,
            entry_type: self.entry_type,
            data: self.data@,
        }
    }
}

impl Clone for LogEntry {
    fn clone(&self) -> (r: Self)
        ensures
            r@ == self@,
    {
        let data = self.data.clone();
        assert(data@ =~= self.data@);
        LogEntry { index: self.index, term: self.term, entry_type: self.entry_type, data }
    }
}

/// The entries of a sequence as mathematical values.
pub open spec fn entry_models(entries: Seq<LogEntry>) -> Seq<EntryModel> {
    Seq::new(entries.len(), |i: int| entries[i]@)
}

/// The durable election state of a node.
#[derive(Clone, Copy, Debug, PartialEq, Eq)]
pub struct HardState {
    pub term: Term,
    pub vote: Option<RaftId>,
    pub commit: LogIndex,
}

/// The hard state of a node that has seen nothing.
pub open spec fn initial_hard_state() -> HardState {
    HardState { term: 0, vote: None, commit: 0 }
}

impl Default for HardState {
    fn default() -> (r: Self)
        ensures
            r == initial_hard_state(),
    {
        HardState { term: 0, vote: None, commit: 0 }
    }
}

/// A membership configuration.
#[derive(Debug, PartialEq, Eq)]
pub struct ConfState {
    pub voters: Vec<RaftId>,
    pub learners: Vec<RaftId>,
}

/// A membership configuration as a mathematical value.
#[verifier::ext_equal]
pub struct ConfModel {
    pub voters: Seq<u64>,
    pub learners: Seq<u64>,
}

impl View for ConfState {
    type V = ConfModel;

    open spec fn view(&self) -> ConfModel {
        ConfModel { voters: self.voters@, learners: self.learners@ }
    }
}

/// The configuration without members.
pub open spec fn empty_conf() -> ConfModel {
    ConfModel { voters: Seq::empty(), learners: Seq::empty() }
}

/// Copy a list of ids.
pub fn copy_ids(ids: &Vec<u64>) -> (r: Vec<u64>)
    ensures
        r@ == ids@,
{
    let r = ids.clone();
    assert(r@ =~= ids@);
    r
}

/// Copy a byte string.
pub fn copy_bytes(data: &Vec<u8>) -> (r: Vec<u8>)
    ensures
        r@ == data@,
{
    let r = data.clone();
    assert(r@ =~= data@);
    r
}

impl Clone for ConfState {
    fn clone(&self) -> (r: Self)
        ensures
            r@ == self@,
    {
        ConfState { voters: copy_ids(&self.voters), learners: copy_ids(&self.learners) }
    }
}

impl Default for ConfState {
    fn default() -> (r: Self)
        ensures
            r@ == empty_conf(),
    {
        ConfState { voters: Vec::new(), learners: Vec::new() }
    }
}

/// What a snapshot covers, and the membership it was taken under.
#[derive(Debug, PartialEq, Eq)]
pub struct SnapshotMeta {
    pub index: LogIndex,
    pub term: Term,
    pub conf_state: ConfState,
}

/// A serialized state machine with what it covers.
#[derive(Debug, PartialEq, Eq)]
pub struct Snapshot {
    pub meta: SnapshotMeta,
    pub data: Vec<u8>,
}

/// A snapshot as a mathematical value.
#[verifier::ext_equal]
pub struct SnapshotModel {
    pub index: u64,
    pub term: u64,
    pub conf: ConfModel,
    pub data: Seq<u8>,
}

impl View for Snapshot {
    type V = SnapshotModel;

    open spec fn view(&self) -> SnapshotModel {
        SnapshotModel {
            index: self.meta.index,
            term: self.meta.term,
            conf: self.meta.conf_state@,
            data: self.data@,
        }
    }
}

impl Clone for SnapshotMeta {
    fn clone(&self) -> (r: Self)
        ensures
            r.index == self.index,
            r.term == self.term,
            r.conf_state@ == self.conf_state@,
    {
        SnapshotMeta { index: self.index, term: self.term, conf_state: self.conf_state.clone() }
    }
}

impl Clone for Snapshot {
    fn clone(&self) -> (r: Self)
        ensures
            r@ == self@,
    {
        Snapshot { meta: self.meta.clone(), data: copy_bytes(&self.data) }
    }
}

/// What consensus reads at start: the hard state and the membership.
#[derive(Debug, PartialEq, Eq)]
pub struct RaftState {
    pub hard_state: HardState,
    pub conf_state: ConfState,
}

/// The cluster identity of a node.
#[derive(Clone, Debug, PartialEq, Eq, PartialOrd, Ord, Hash)]
pub struct NodeId {
    pub name: String,
}

impl NodeId {
    /// A node id with the given name.
    pub fn new(name: &str) -> (r: NodeId)
        ensures
            r.name@ == name@,
    {
        NodeId { name: name.to_owned() }
    }

    /// The name.
    pub fn as_str(&self) -> (s: &str)
        ensures
            s@ == self.name@,
    {
        self.name.as_str()
    }

    /// A copy of this id.
    pub fn copy(&self) -> (r: NodeId)
        ensures
            r.name@ == self.name@,
    {
        NodeId { name: self.name.clone() }
    }
}

/// Why durable storage cannot go on.
#[derive(Clone, Debug, PartialEq, Eq)]
pub enum Fault {
    /// The META file cannot be decoded.
    Meta(MetaError),
    /// There is no META file to rewrite.
    MetaMissing,
    /// The META file to rewrite cannot be decoded.
    RewriteMeta(MetaError),
    /// The META file to rewrite belongs to another node.
    RewriteNodeIdMismatch,
    /// The META file belongs to another cluster.
    ClusterIdMismatch,
    /// The META file belongs to another node.
    NodeIdMismatch,
    /// The META file has another format version.
    FormatVersionMismatch { version: u32 },
    /// A segment other than the last ends inside a record.
    TornSegment { segment: u64, offset: u64 },
    /// The last segment ends inside a record that may be committed.
    TornCommitted { last: LogIndex, commit: LogIndex },
    /// A complete record does not decode.
    CorruptRecord { segment: u64, offset: u64, error: DecodeError },
    /// A complete record's payload does not decode.
    CorruptPayload { segment: u64, offset: u64, error: DecodeError },
    /// META names a snapshot, none loads, and the log does not start at 1.
    SnapshotMissing { snapshot_index: LogIndex, first: LogIndex },
    /// The log has a hole.
    IndexGap { last: LogIndex, found: LogIndex },
    /// Nothing covers the entries between the snapshot and the log.
    SnapshotGap { compacted_to: LogIndex, first: LogIndex },
    /// The commit index is beyond the end of the log.
    CommitBeyondLog { commit: LogIndex, last: LogIndex },
    /// An append at or below the compaction watermark.
    AppendCompacted { index: LogIndex, compacted_to: LogIndex },
    /// An append that would overwrite committed entries.
    AppendCommitted { index: LogIndex, commit: LogIndex },
    /// An append that would leave a hole, or one past the last index there is.
    AppendGap { last: LogIndex, found: LogIndex },
    /// An entry whose record would exceed the record size limit.
    RecordTooLarge { index: LogIndex, size: u64 },
    /// The entry that truncation keeps is not in the segments.
    EntryMissing { index: LogIndex },
    /// An installed snapshot older than the compaction watermark.
    StaleSnapshot { index: LogIndex, compacted_to: LogIndex },
    /// A snapshot at the last index there is: nothing could follow it.
    SnapshotIndexExhausted { index: LogIndex },
    /// Compaction past the end of the log.
    CompactBeyondLog { compact_to: LogIndex, last: LogIndex },
    /// Compaction past the snapshot.
    CompactBeyondSnapshot { compact_to: LogIndex, snapshot_index: LogIndex },
    /// Compaction without a snapshot.
    CompactWithoutSnapshot,
    /// A recovery rewrite to an empty cluster id.
    EmptyClusterId,
    /// A recovery rewrite past the last term there is.
    TermExhausted,
}

/// How a gap is described: what index was due after `last`, and which was found.
pub open spec fn gap_text(last: u64, found: u64) -> Seq<char> {
    if last < u64::MAX {
        "expected "@ + text::decimal((last + 1) as nat) + ", got "@ + text::decimal(found as nat)
    } else {
        "expected none, got "@ + text::decimal(found as nat)
    }
}

fn push_gap(s: &mut String, last: u64, found: u64)
    ensures
        final(s)@ == old(s)@ + gap_text(last, found),
{
    if last < u64::MAX {
        s.append("expected ");
        push_decimal(s, last + 1);
        s.append(", got ");
    } else {
        s.append("expected none, got ");
    }
    push_decimal(s, found);
    assert(s@ =~= old(s)@ + gap_text(last, found));
}

impl Fault {
    /// The text of [`Fault::message`].
    pub open spec fn text(self) -> Seq<char> {
        match self {
            Fault::Meta(error) => "failed to read META: "@
                + error.text(),
            Fault::MetaMissing => "force-recovery: cannot read META: there is none"@,
            Fault::RewriteMeta(error) => "force-recovery: cannot read META: "@
                + error.text(),
            Fault::RewriteNodeIdMismatch => "force-recovery: data dir node_id does not match"@,
            Fault::ClusterIdMismatch => "META cluster_id mismatch"@,
            Fault::NodeIdMismatch => "META node_id mismatch"@,
            Fault::FormatVersionMismatch { version } => "META format_version mismatch: expected "@
                + text::decimal(FORMAT_VERSION as nat)
                + ", got "@
                + text::decimal(version as nat),
            Fault::TornSegment { segment, offset } => "structural tear in non-last segment "@
                + segment::segment_name_chars(segment)
                + " at byte offset "@
                + text::decimal(offset as nat),
            Fault::TornCommitted { last, commit } => "structural tear after index "@
                + text::decimal(last as nat)
                + " (within committed window commit="@
                + text::decimal(commit as nat)
                + "): cannot auto-truncate committed data"@,
            Fault::CorruptRecord { segment, offset, error } => "corrupt record in segment "@
                + segment::segment_name_chars(segment)
                + " at byte offset "@
                + text::decimal(offset as nat)
                + ": "@
                + error.text(),
            Fault::CorruptPayload { segment, offset, error } => "corrupt payload in segment "@
                + segment::segment_name_chars(segment)
                + " at byte offset "@
                + text::decimal(offset as nat)
                + ": "@
                + error.text(),
            Fault::SnapshotMissing { snapshot_index, first } => "META names a snapshot at index "@
                + text::decimal(snapshot_index as nat)
                + " but no valid snapshot file could be loaded and the WAL starts at index "@
                + text::decimal(first as nat),
            Fault::IndexGap { last, found } => "log index gap: "@
                + gap_text(last, found),
            Fault::SnapshotGap { compacted_to, first } => "gap between the snapshot (index "@
                + text::decimal(compacted_to as nat)
                + ") and the first retained entry (index "@
                + text::decimal(first as nat)
                + ")"@,
            Fault::CommitBeyondLog { commit, last } => "hard_state.commit ("@
                + text::decimal(commit as nat)
                + ") > last_entry_index ("@
                + text::decimal(last as nat)
                + ") after replay"@,
            Fault::AppendCompacted { index, compacted_to } => "append at index "@
                + text::decimal(index as nat)
                + " is at or below the compaction watermark "@
                + text::decimal(compacted_to as nat),
            Fault::AppendCommitted { index, commit } => "append would overwrite committed entries: first="@
                + text::decimal(index as nat)
                + ", commit="@
                + text::decimal(commit as nat),
            Fault::AppendGap { last, found } => "append continuity violation: "@
                + gap_text(last, found),
            Fault::RecordTooLarge { index, size } => "entry at index "@
                + text::decimal(index as nat)
                + " produces a record of "@
                + text::decimal(size as nat)
                + " bytes, exceeding MAX_RECORD_BYTES ("@
                + text::decimal(MAX_RECORD_BYTES as nat)
                + ")"@,
            Fault::EntryMissing { index } => "entry "@
                + text::decimal(index as nat)
                + " is not in the segments"@,
            Fault::StaleSnapshot { index, compacted_to } => "installed snapshot at "@
                + text::decimal(index as nat)
                + " is older than the local watermark "@
                + text::decimal(compacted_to as nat),
            Fault::SnapshotIndexExhausted { index } => "nothing can follow a snapshot at "@
                + text::decimal(index as nat),
            Fault::CompactBeyondLog { compact_to, last } => "compact_to ("@
                + text::decimal(compact_to as nat)
                + ") > last_index ("@
                + text::decimal(last as nat)
                + ")"@,
            Fault::CompactBeyondSnapshot { compact_to, snapshot_index } => "compact_to ("@
                + text::decimal(compact_to as nat)
                + ") is beyond the snapshot index ("@
                + text::decimal(snapshot_index as nat)
                + ")"@,
            Fault::CompactWithoutSnapshot => "compact called with no durable snapshot"@,
            Fault::EmptyClusterId => "force-recovery: cluster_id must be non-empty"@,
            Fault::TermExhausted => "there is no term after the last"@,
        }
    }

    /// A description of the fault.
    pub fn message(&self) -> (s: String)
        ensures
            s@ == self.text(),
    {
        let mut s = String::new();
        match self {
            Fault::Meta(error) => {
                s.append("failed to read META: ");
                s.append(error.message().as_str());
            },
            Fault::MetaMissing => s.append("force-recovery: cannot read META: there is none"),
            Fault::RewriteMeta(error) => {
                s.append("force-recovery: cannot read META: ");
                s.append(error.message().as_str());
            },
            Fault::RewriteNodeIdMismatch => s.append(
                "force-recovery: data dir node_id does not match",
            ),
            Fault::ClusterIdMismatch => s.append("META cluster_id mismatch"),
            Fault::NodeIdMismatch => s.append("META node_id mismatch"),
            Fault::FormatVersionMismatch { version } => {
                s.append("META format_version mismatch: expected ");
                push_decimal(&mut s, FORMAT_VERSION as u64);
                s.append(", got ");
                push_decimal(&mut s, *version as u64);
            },
            Fault::TornSegment { segment, offset } => {
                s.append("structural tear in non-last segment ");
                s.append(segment_name(*segment).as_str());
                s.append(" at byte offset ");
                push_decimal(&mut s, *offset);
            },
            Fault::TornCommitted { last, commit } => {
                s.append("structural tear after index ");
                push_decimal(&mut s, *last);
                s.append(" (within committed window commit=");
                push_decimal(&mut s, *commit);
                s.append("): cannot auto-truncate committed data");
            },
            Fault::CorruptRecord { segment, offset, error } => {
                s.append("corrupt record in segment ");
                s.append(segment_name(*segment).as_str());
                s.append(" at byte offset ");
                push_decimal(&mut s, *offset);
                s.append(": ");
                s.append(error.message().as_str());
            },
            Fault::CorruptPayload { segment, offset, error } => {
                s.append("corrupt payload in segment ");
                s.append(segment_name(*segment).as_str());
                s.append(" at byte offset ");
                push_decimal(&mut s, *offset);
                s.append(": ");
                s.append(error.message().as_str());
            },
            Fault::SnapshotMissing { snapshot_index, first } => {
                s.append("META names a snapshot at index ");
                push_decimal(&mut s, *snapshot_index);
                s.append(" but no valid snapshot file could be loaded and the WAL starts at index ");
                push_decimal(&mut s, *first);
            },
            Fault::IndexGap { last, found } => {
                s.append("log index gap: ");
                push_gap(&mut s, *last, *found);
            },
            Fault::SnapshotGap { compacted_to, first } => {
                s.append("gap between the snapshot (index ");
                push_decimal(&mut s, *compacted_to);
                s.append(") and the first retained entry (index ");
                push_decimal(&mut s, *first);
                s.append(")");
            },
            Fault::CommitBeyondLog { commit, last } => {
                s.append("hard_state.commit (");
                push_decimal(&mut s, *commit);
                s.append(") > last_entry_index (");
                push_decimal(&mut s, *last);
                s.append(") after replay");
            },
            Fault::AppendCompacted { index, compacted_to } => {
                s.append("append at index ");
                push_decimal(&mut s, *index);
                s.append(" is at or below the compaction watermark ");
                push_decimal(&mut s, *compacted_to);
            },
            Fault::AppendCommitted { index, commit } => {
                s.append("append would overwrite committed entries: first=");
                push_decimal(&mut s, *index);
                s.append(", commit=");
                push_decimal(&mut s, *commit);
            },
            Fault::AppendGap { last, found } => {
                s.append("append continuity violation: ");
                push_gap(&mut s, *last, *found);
            },
            Fault::RecordTooLarge { index, size } => {
                s.append("entry at index ");
                push_decimal(&mut s, *index);
                s.append(" produces a record of ");
                push_decimal(&mut s, *size);
                s.append(" bytes, exceeding MAX_RECORD_BYTES (");
                push_decimal(&mut s, MAX_RECORD_BYTES as u64);
                s.append(")");
            },
            Fault::EntryMissing { index } => {
                s.append("entry ");
                push_decimal(&mut s, *index);
                s.append(" is not in the segments");
            },
            Fault::StaleSnapshot { index, compacted_to } => {
                s.append("installed snapshot at ");
                push_decimal(&mut s, *index);
                s.append(" is older than the local watermark ");
                push_decimal(&mut s, *compacted_to);
            },
            Fault::SnapshotIndexExhausted { index } => {
                s.append("nothing can follow a snapshot at ");
                push_decimal(&mut s, *index);
            },
            Fault::CompactBeyondLog { compact_to, last } => {
                s.append("compact_to (");
                push_decimal(&mut s, *compact_to);
                s.append(") > last_index (");
                push_decimal(&mut s, *last);
                s.append(")");
            },
            Fault::CompactBeyondSnapshot { compact_to, snapshot_index } => {
                s.append("compact_to (");
                push_decimal(&mut s, *compact_to);
                s.append(") is beyond the snapshot index (");
                push_decimal(&mut s, *snapshot_index);
                s.append(")");
            },
            Fault::CompactWithoutSnapshot => s.append("compact called with no durable snapshot"),
            Fault::EmptyClusterId => s.append("force-recovery: cluster_id must be non-empty"),
            Fault::TermExhausted => s.append("there is no term after the last"),
        }
        assert(s@ =~= self.text());
        s
    }
}

/// Errors from durable storage.
#[derive(Clone, Debug, PartialEq, Eq)]
pub enum StorageError {
    /// A low-level I/O failure, as reported by the environment.
    Io(String),
    /// The requested entries are not in the log.
    Compacted,
    /// Stored data is damaged.
    Corruption {
        /// What is damaged.
        detail: String,
    },
    /// The store cannot go on without an operator.
    Unrecoverable(Fault),
}

} // verus!
