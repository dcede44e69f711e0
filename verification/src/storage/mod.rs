//! Durable storage: the log, the snapshots, and the identity of a node.
//!
//! * [`record`]: how records are framed and checked.
//! * [`segment`]: the files that hold the log.
//! * [`meta`]: the identity of the cluster and the node.
//! * [`membership`]: the membership that the last change produced.
//! * [`snapshot`]: snapshot files.
//! * [`crc32c`]: the checksum of all of them.
//! * [`replay`]: reading the log back.
//! * [`wal`]: the log; every change is a list of file operations to perform.
//! * [`wal_model`]: the log as a mathematical value.
//! * [`wal_laws`]: what holds of the log as a whole.
//! * [`log_laws`]: what each of its operations comes to.
//! * [`open_laws`]: what opening a directory comes to.
//! * [`format_laws`]: where each field of a file stands.
pub mod crc32c;
pub mod format_laws;
pub mod log_laws;
pub mod membership;
pub mod meta;
pub mod open_laws;
pub mod record;
pub mod replay;
pub mod segment;
pub mod snapshot;
pub mod wal;
pub mod wal_laws;
pub mod wal_model;

pub use crate::storage::meta::{Meta, MetaError, FORMAT_VERSION};
pub use crate::storage::record::{
    decode_entry, decode_hard_state, decode_record, encode_entry, encode_hard_state, encode_record,
    DecodeError, RecordType, MAX_RECORD_BYTES,
};
pub use crate::storage::segment::{
    parse_segment_name, segment_name, segment_path, Segment, SegmentError, DEFAULT_SEGMENT_BYTES,
};
pub use crate::storage::wal::{ForceRecoveryReport, WalConfig, WalOptions, WalStorage};
pub use crate::storage::wal_model::{FsyncPolicy, StorageStats};
