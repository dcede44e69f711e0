//! Arachne: the deterministic core of a replicated, strongly consistent
//! key-value store.
//!
//! At most one node leads at any time, a write takes effect once a quorum has
//! made it durable, and without a quorum every linearizable operation fails.
//!
//! | operation | semantics |
//! |---|---|
//! | `put`, `delete` | linearizable write, answered once applied |
//! | `get` | linearizable read, confirmed by a quorum |
//! | `get_stale` | read of the node's own state; may be stale |
//!
//! Nothing here performs input or output. The log answers with the file
//! operations to perform, the node with the messages, proposals and answers to
//! send; both take what they need to know of their surroundings as plain values.
use vstd::prelude::*;

pub mod bytes;
pub mod client;
pub mod consensus;
pub mod fault_injection;
pub mod ids;
pub mod message_laws;
pub mod metrics;
pub mod profile;
pub mod runtime;
pub mod state_machine;
pub mod storage;
pub mod text;
pub mod types;

pub use crate::client::handle::Handle;
pub use crate::client::ArachneError;
pub use crate::metrics::Metrics;
pub use crate::profile::{Profile, ProfileConfig, ProfileError};
pub use crate::runtime::{Command, Runtime, RuntimeConfig};
pub use crate::state_machine::{ApplyOutcome, KvStateMachine};
pub use crate::types::{
    ConfState, EntryType, HardState, LogEntry, LogIndex, NodeId, RaftId, RaftState, Snapshot,
    SnapshotMeta, StorageError, Term, Timestamp,
};

verus! {

/// The version of this library.
pub fn version() -> (v: &'static str)
    ensures
        v@ == "0.1.0"@,
{
    "0.1.0"
}

} // verus!
