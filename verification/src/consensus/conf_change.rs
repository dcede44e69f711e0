//! The identity of a membership change: its kind and its target.
use vstd::prelude::*;
use vstd::string::*;

use crate::text::push_decimal;
use crate::types::{EntryType, RaftId};
use crate::text;

verus! {

/// What a membership change does to its target.
#[derive(Clone, Copy, Debug, PartialEq, Eq, Structural)]
pub enum ChangeKind {
    /// Make it a voter.
    AddNode,
    /// Take it out.
    RemoveNode,
    /// Make it a learner.
    AddLearnerNode,
}

/// One membership change.
#[derive(Clone, Copy, Debug, PartialEq, Eq, Structural)]
pub struct Change {
    pub kind: ChangeKind,
    pub node_id: RaftId,
}

/// Why an entry has no membership change to speak of.
#[derive(Clone, Debug, PartialEq, Eq)]
pub enum ConfChangeFault {
    /// The payload is not a `ConfChange`.
    Undecodable {
        /// What the decoder said.
        detail: String,
    },
    /// The payload is not a `ConfChangeV2`.
    UndecodableV2 {
        /// What the decoder said.
        detail: String,
    },
    /// The payload holds other than one change.
    NotSingleStep {
        /// How many it holds.
        changes: u64,
    },
    /// The entry carries a command.
    NormalEntry,
}

impl ConfChangeFault {
    /// The text of [`ConfChangeFault::message`].
    pub open spec fn text(self) -> Seq<char> {
        match self {
            ConfChangeFault::Undecodable { detail } => "ConfChange decode failed: "@ + detail@,
            ConfChangeFault::UndecodableV2 { detail } => "ConfChangeV2 decode failed: "@ + detail@,
            ConfChangeFault::NotSingleStep { changes } => "ConfChangeV2 with "@ + text::decimal(
                changes as nat,
            ) + " changes is not single-step"@,
            ConfChangeFault::NormalEntry => "conf_change_identity called with a normal entry"@,
        }
    }

    /// A description of the fault.
    pub fn message(&self) -> (s: String)
        ensures
            s@ == self.text(),
    {
        let mut s = String::new();
        match self {
            ConfChangeFault::Undecodable { detail } => {
                s.append("ConfChange decode failed: ");
                s.append(detail.as_str());
            },
            ConfChangeFault::UndecodableV2 { detail } => {
                s.append("ConfChangeV2 decode failed: ");
                s.append(detail.as_str());
            },
            ConfChangeFault::NotSingleStep { changes } => {
                s.append("ConfChangeV2 with ");
                push_decimal(&mut s, *changes);
                s.append(" changes is not single-step");
            },
            ConfChangeFault::NormalEntry => s.append(
                "conf_change_identity called with a normal entry",
            ),
        }
        assert(s@ =~= self.text());
        s
    }
}

/// What bytes decode to as a `ConfChange` message: a change, or the decoder's words
/// for why they do not decode.
pub uninterp spec fn parsed_change(data: Seq<u8>) -> Result<Change, Seq<char>>;

/// What bytes decode to as a `ConfChangeV2` message: a list of changes, or the
/// decoder's words for why they do not decode.
pub uninterp spec fn parsed_changes(data: Seq<u8>) -> Result<Seq<Change>, Seq<char>>;

/// `ConfChange::parse_from_bytes`: the bytes decode to the change that
/// [`parsed_change`] names, or the decoder refuses them with the words that it
/// names.
#[verifier::external_body]
fn parse_change(data: &[u8]) -> (r: Result<Change, String>)
    ensures
        match r {
            Ok(change) => parsed_change(data@) == Ok::<Change, Seq<char>>(change),
            Err(words) => parsed_change(data@) == Err::<Change, Seq<char>>(words@),
        },
{
    let parsed = <raft::eraftpb::ConfChange as protobuf::Message>::parse_from_bytes(data);
    let cc = parsed.map_err(|e| format!("{e}"))?;
    let kind = match cc.get_change_type() {
        raft::eraftpb::ConfChangeType::AddNode => ChangeKind::AddNode,
        raft::eraftpb::ConfChangeType::RemoveNode => ChangeKind::RemoveNode,
        raft::eraftpb::ConfChangeType::AddLearnerNode => ChangeKind::AddLearnerNode,
    };
    Ok(Change { kind, node_id: cc.get_node_id() })
}

/// `ConfChangeV2::parse_from_bytes`: the bytes decode to the list of changes
/// that [`parsed_changes`] names, or the decoder refuses them with the words that
/// it names.
#[verifier::external_body]
fn parse_changes(data: &[u8]) -> (r: Result<Vec<Change>, String>)
    ensures
        match r {
            Ok(changes) => parsed_changes(data@) == Ok::<Seq<Change>, Seq<char>>(changes@),
            Err(words) => parsed_changes(data@) == Err::<Seq<Change>, Seq<char>>(words@),
        },
{
    let parsed = <raft::eraftpb::ConfChangeV2 as protobuf::Message>::parse_from_bytes(data);
    let cc = parsed.map_err(|e| format!("{e}"))?;
    Ok(cc.get_changes().iter().map(|c| Change {
        kind: match c.get_change_type() {
            raft::eraftpb::ConfChangeType::AddNode => ChangeKind::AddNode,
            raft::eraftpb::ConfChangeType::RemoveNode => ChangeKind::RemoveNode,
            raft::eraftpb::ConfChangeType::AddLearnerNode => ChangeKind::AddLearnerNode,
        },
        node_id: c.get_node_id(),
    }).collect())
}

/// The one change of a list; membership changes are made one at a time.
pub fn single_step(changes: &Vec<Change>) -> (r: Result<Change, ConfChangeFault>)
    ensures
        match r {
            Ok(change) => changes@ == seq![change],
            Err(fault) => changes@.len() != 1 && fault == (ConfChangeFault::NotSingleStep {
                changes: changes@.len() as u64,
            }),
        },
{
    let n: usize = changes.len();
    if n != 1 {
        return Err(ConfChangeFault::NotSingleStep { changes: n as u64 });
    }
    let change = changes[0];
    assert(changes@ =~= seq![change]);
    Ok(change)
}

/// The change that a committed entry carries.
pub fn conf_change_identity(entry_type: EntryType, data: &[u8]) -> (r: Result<
    Change,
    ConfChangeFault,
>)
    ensures
        match entry_type {
            EntryType::ConfChange => match parsed_change(data@) {
                Ok(change) => r == Ok::<Change, ConfChangeFault>(change),
                Err(words) => r matches Err(ConfChangeFault::Undecodable { detail }) && detail@
                    == words,
            },
            EntryType::ConfChangeV2 => match parsed_changes(data@) {
                Ok(changes) => if changes.len() == 1 {
                    r == Ok::<Change, ConfChangeFault>(changes[0])
                } else {
                    r == Err::<Change, ConfChangeFault>(
                        ConfChangeFault::NotSingleStep { changes: changes.len() as u64 },
                    )
                },
                Err(words) => r matches Err(ConfChangeFault::UndecodableV2 { detail }) && detail@
                    == words,
            },
            EntryType::Entry => r == Err::<Change, ConfChangeFault>(ConfChangeFault::NormalEntry),
        },
{
    match entry_type {
        EntryType::ConfChange => match parse_change(data) {
            Ok(change) => Ok(change),
            Err(detail) => Err(ConfChangeFault::Undecodable { detail }),
        },
        EntryType::ConfChangeV2 => match parse_changes(data) {
            Ok(changes) => single_step(&changes),
            Err(detail) => Err(ConfChangeFault::UndecodableV2 { detail }),
        },
        EntryType::Entry => Err(ConfChangeFault::NormalEntry),
    }
}

/// The change that an entry carries, where it carries one that decodes.
pub open spec fn identity(entry_type: EntryType, data: Seq<u8>) -> Option<Change> {
    match entry_type {
        EntryType::ConfChange => match parsed_change(data) {
            Ok(change) => Some(change),
            Err(_) => None,
        },
        EntryType::ConfChangeV2 => match parsed_changes(data) {
            Ok(changes) => if changes.len() == 1 {
                Some(changes[0])
            } else {
                None
            },
            Err(_) => None,
        },
        EntryType::Entry => None,
    }
}

} // verus!
