//! What the node decides around the raft core.
//!
//! * [`node`]: how a node is set up, and the rules it decides by.
//! * [`conf_change`]: what a membership change is.
//! * [`inbound`]: what becomes of a message from another node.
//! * [`pipeline`]: nothing is sent before it is durable; [`pipeline_laws`]: what is
//!   handed on, and when.
//! * [`raft_storage`]: what the raft core is told of durable storage.
//! * [`storage_laws`]: what is made durable for it, and who is a member.
pub mod conf_change;
pub mod inbound;
pub mod node;
pub mod pipeline;
pub mod pipeline_laws;
pub mod raft_storage;
pub mod storage_laws;

pub use crate::consensus::conf_change::conf_change_identity;
pub use crate::consensus::node::{learner_caught_up, NodeError, RaftNodeConfig};
pub use crate::consensus::pipeline::{CommittedEntry, StepOutcome};
pub use crate::consensus::raft_storage::RaftStorage;
