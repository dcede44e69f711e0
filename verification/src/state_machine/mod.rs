//! State machines for the replicated log.
//!
//! * [`kv`]: keys and values with a table of sessions; [`kv_laws`]: what commands
//!   and snapshots come to, whole or not.
//! * [`sorted`]: the ordered maps it is made of.
pub mod kv;
pub mod kv_laws;
pub mod sorted;

pub use crate::state_machine::kv::{ApplyOutcome, KvError, KvStateMachine};
