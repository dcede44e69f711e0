//! The client's side: the error model, and the handle that prepares requests
//! and chases the leader.
//!
//! | condition | `put` / `delete` | `get` | `get_stale` |
//! |---|---|---|---|
//! | invalid argument | `InvalidArgument` | `InvalidArgument` | `InvalidArgument` |
//! | not the leader | `NotLeader` | `NotLeader` | served |
//! | no quorum | `QuorumUnavailable` | `QuorumUnavailable` | served |
//! | queue full | `Busy` | `Busy` | `Busy` |
//! | wait over | `Timeout` | `Timeout` | served |
//! | session table | `SessionTableFull`, `SessionExpired` | - | - |
//! | shutting down | `ShuttingDown` | `ShuttingDown` | `ShuttingDown` |
//! | fatal | `Unrecoverable` | `Unrecoverable` | `Unrecoverable` |
pub mod handle;
pub mod handle_laws;

use vstd::prelude::*;
use vstd::string::*;

use crate::text::push_decimal;
use crate::types::NodeId;
use crate::text;

verus! {

/// Where the leader is thought to be: its identity and its address.
pub type LeaderHint = Option<(NodeId, String)>;

/// A leader hint as a mathematical value.
pub type HintModel = Option<(Seq<char>, Seq<char>)>;

/// The value of a leader hint.
pub open spec fn hint_model(hint: LeaderHint) -> HintModel {
    match hint {
        Some((node, address)) => Some((node.name@, address@)),
        None => None,
    }
}

/// Copy a leader hint.
pub fn copy_hint(hint: &LeaderHint) -> (r: LeaderHint)
    ensures
        hint_model(r) == hint_model(*hint),
{
    match hint {
        Some((node, address)) => Some((node.copy(), address.clone())),
        None => None,
    }
}

/// Errors of client operations.
#[derive(Clone, Debug, PartialEq, Eq)]
pub enum ArachneError {
    /// This node is not the leader; the hint may be stale.
    NotLeader {
        /// Where the leader is thought to be.
        leader_hint: LeaderHint,
    },
    /// No leader is known, or a quorum cannot be reached.
    QuorumUnavailable,
    /// A bounded wait is over; whether the operation took effect is unknown.
    Timeout,
    /// A queue is full; nothing was done.
    Busy,
    /// An argument is out of bounds; nothing was proposed.
    InvalidArgument(String),
    /// The session has expired; whether the operation took effect is unknown.
    SessionExpired,
    /// The session table is full; existing sessions are unaffected.
    SessionTableFull,
    /// A membership change or a leadership transfer is already under way.
    ConfChangePending,
    /// A leader is removed only after leadership has moved.
    LeaderRemovalRequiresTransfer,
    /// A learner may not vote yet.
    LearnerNotCaughtUp {
        /// How many entries the learner is behind.
        behind: u64,
        /// How many it may be.
        threshold: u64,
    },
    /// A peer belongs to another cluster.
    ClusterIdMismatch,
    /// The node is shutting down.
    ShuttingDown,
    /// The data directory is locked by another process.
    DataDirLocked,
    /// The node cannot go on.
    Unrecoverable(String),
}

/// An error as a mathematical value.
#[verifier::ext_equal]
pub enum ErrorModel {
    NotLeader(HintModel),
    QuorumUnavailable,
    Timeout,
    Busy,
    InvalidArgument(Seq<char>),
    SessionExpired,
    SessionTableFull,
    ConfChangePending,
    LeaderRemovalRequiresTransfer,
    LearnerNotCaughtUp { behind: u64, threshold: u64 },
    ClusterIdMismatch,
    ShuttingDown,
    DataDirLocked,
    Unrecoverable(Seq<char>),
}

impl View for ArachneError {
    type V = ErrorModel;

    open spec fn view(&self) -> ErrorModel {
        match *self {
            ArachneError::NotLeader { leader_hint } => ErrorModel::NotLeader(
                hint_model(leader_hint),
            ),
            ArachneError::QuorumUnavailable => ErrorModel::QuorumUnavailable,
            ArachneError::Timeout => ErrorModel::Timeout,
            ArachneError::Busy => ErrorModel::Busy,
            ArachneError::InvalidArgument(detail) => ErrorModel::InvalidArgument(detail@),
            ArachneError::SessionExpired => ErrorModel::SessionExpired,
            ArachneError::SessionTableFull => ErrorModel::SessionTableFull,
            ArachneError::ConfChangePending => ErrorModel::ConfChangePending,
            ArachneError::LeaderRemovalRequiresTransfer => ErrorModel::LeaderRemovalRequiresTransfer,
            ArachneError::LearnerNotCaughtUp { behind, threshold } => ErrorModel::LearnerNotCaughtUp {
                behind,
                threshold,
            },
            ArachneError::ClusterIdMismatch => ErrorModel::ClusterIdMismatch,
            ArachneError::ShuttingDown => ErrorModel::ShuttingDown,
            ArachneError::DataDirLocked => ErrorModel::DataDirLocked,
            ArachneError::Unrecoverable(detail) => ErrorModel::Unrecoverable(detail@),
        }
    }
}

impl ErrorModel {
    /// The text of [`ArachneError::message`].
    pub open spec fn text(self) -> Seq<char> {
        match self {
            ErrorModel::NotLeader(Some((node, address))) => "not leader (hint: "@ + node + " at "@
                + address + ")"@,
            ErrorModel::NotLeader(None) => "not leader (hint: none)"@,
            ErrorModel::QuorumUnavailable => "quorum unavailable"@,
            ErrorModel::Timeout => "operation timed out (result unknown)"@,
            ErrorModel::Busy => "busy (proposal or read queue full)"@,
            ErrorModel::InvalidArgument(detail) => "invalid argument: "@ + detail,
            ErrorModel::SessionExpired => "session expired (result unknown)"@,
            ErrorModel::SessionTableFull => "session table full"@,
            ErrorModel::ConfChangePending => "configuration change pending"@,
            ErrorModel::LeaderRemovalRequiresTransfer => "leader removal requires transfer"@,
            ErrorModel::LearnerNotCaughtUp { behind, threshold } => "learner not caught up (behind "@
                + text::decimal(behind as nat) + " entries, threshold "@ + text::decimal(
                threshold as nat,
            ) + ")"@,
            ErrorModel::ClusterIdMismatch => "cluster id mismatch"@,
            ErrorModel::ShuttingDown => "node is shutting down"@,
            ErrorModel::DataDirLocked => "data directory is locked"@,
            ErrorModel::Unrecoverable(detail) => "unrecoverable: "@ + detail,
        }
    }
}

impl ArachneError {
    /// A description of the error.
    pub fn message(&self) -> (s: String)
        ensures
            s@ == self@.text(),
    {
        let mut s = String::new();
        match self {
            ArachneError::NotLeader { leader_hint } => match leader_hint {
                Some((node, address)) => {
                    s.append("not leader (hint: ");
                    s.append(node.as_str());
                    s.append(" at ");
                    s.append(address.as_str());
                    s.append(")");
                },
                None => s.append("not leader (hint: none)"),
            },
            ArachneError::QuorumUnavailable => s.append("quorum unavailable"),
            ArachneError::Timeout => s.append("operation timed out (result unknown)"),
            ArachneError::Busy => s.append("busy (proposal or read queue full)"),
            ArachneError::InvalidArgument(detail) => {
                s.append("invalid argument: ");
                s.append(detail.as_str());
            },
            ArachneError::SessionExpired => s.append("session expired (result unknown)"),
            ArachneError::SessionTableFull => s.append("session table full"),
            ArachneError::ConfChangePending => s.append("configuration change pending"),
            ArachneError::LeaderRemovalRequiresTransfer => s.append(
                "leader removal requires transfer",
            ),
            ArachneError::LearnerNotCaughtUp { behind, threshold } => {
                s.append("learner not caught up (behind ");
                push_decimal(&mut s, *behind);
                s.append(" entries, threshold ");
                push_decimal(&mut s, *threshold);
                s.append(")");
            },
            ArachneError::ClusterIdMismatch => s.append("cluster id mismatch"),
            ArachneError::ShuttingDown => s.append("node is shutting down"),
            ArachneError::DataDirLocked => s.append("data directory is locked"),
            ArachneError::Unrecoverable(detail) => {
                s.append("unrecoverable: ");
                s.append(detail.as_str());
            },
        }
        assert(s@ =~= self@.text());
        s
    }
}

} // verus!
