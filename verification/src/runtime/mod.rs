//! The node's own logic, apart from the channels, timers and threads that carry
//! it.
//!
//! * [`command`]: requests and answers.
//! * [`state`]: the state of a node and what it observes; [`state_laws`]: what it
//!   starts with, knows and shows.
//! * [`requests`]: what a request comes to; [`request_laws`]: what it is owed.
//! * [`waiting`]: requests that wait, and how each is answered once;
//!   [`waiting_laws`]: when, and with what.
//! * [`session`]: how long sessions live; [`session_laws`]: to the millisecond.
//! * [`dispatch`]: handing committed work on in log order; [`dispatch_laws`]: what
//!   goes first, and what is noted of it.
//! * [`apply`]: applying it; [`apply_laws`]: entry by entry.
//! * [`cycle`]: what happens once per cycle; [`cycle_laws`]: what it comes to.
pub mod apply;
pub mod apply_laws;
pub mod command;
pub mod cycle;
pub mod cycle_laws;
pub mod dispatch;
pub mod dispatch_laws;
pub mod request_laws;
pub mod requests;
pub mod session;
pub mod session_laws;
pub mod state;
pub mod state_laws;
pub mod waiting;
pub mod waiting_laws;

pub use crate::runtime::command::Command;
pub use crate::runtime::state::{Runtime, RuntimeConfig};
