//! Presets and their validation.
use arachne::storage::FsyncPolicy;
use arachne::{Profile, ProfileConfig, ProfileError};

const KB: u64 = 1024;
const MB: u64 = 1024 * 1024;

#[test]
fn lan_preset_matches_propsol_section7() {
    let c = Profile::Lan.config();
    assert_eq!(c.heartbeat_interval_ms, 100);
    assert_eq!(c.election_timeout_ms, 1000);
    assert_eq!(c.rpc_timeout_ms, 500);
    assert_eq!(c.max_inflight_bytes, 4 * MB);
    assert_eq!(c.max_inflight_msgs, 256);
    assert_eq!(c.snapshot_threshold_bytes, 64 * MB);
    assert_eq!(c.wal_trailing_keep_bytes, c.snapshot_threshold_bytes);
    assert_eq!(c.wal_segment_bytes, 128 * MB);
    assert_eq!(c.read_index_timeout_ms, 2 * c.election_timeout_ms);
    assert_eq!(c.proposal_queue_bytes, 64 * MB);
    assert_eq!(c.session_ttl_ms, 60_000);
    assert_eq!(c.session_grace_period_ms, 60_000);
    assert_eq!(c.max_sessions, 10_000);
    assert_eq!(c.max_value_bytes, MB);
    assert_eq!(c.max_key_bytes, 4 * KB);
    assert_eq!(c.snapshot_transfer_rate_bps, 32 * MB);
    assert_eq!(c.fsync_policy, FsyncPolicy::Always);
}

#[test]
fn wan_preset_matches_propsol_section7() {
    let c = Profile::Wan.config();
    assert_eq!(c.heartbeat_interval_ms, 500);
    assert_eq!(c.election_timeout_ms, 2500);
    assert_eq!(c.rpc_timeout_ms, 2000);
    assert_eq!(c.max_inflight_bytes, MB);
    assert_eq!(c.max_inflight_msgs, 256);
    assert_eq!(c.snapshot_threshold_bytes, 16 * MB);
    assert_eq!(c.wal_trailing_keep_bytes, c.snapshot_threshold_bytes);
    assert_eq!(c.wal_segment_bytes, 128 * MB);
    assert_eq!(c.read_index_timeout_ms, 5000);
    assert_eq!(c.proposal_queue_bytes, 64 * MB);
    assert_eq!(c.session_ttl_ms, 60_000);
    assert_eq!(c.session_grace_period_ms, 60_000);
    assert_eq!(c.max_sessions, 10_000);
    assert_eq!(c.max_value_bytes, MB);
    assert_eq!(c.max_key_bytes, 4 * KB);
    assert_eq!(c.snapshot_transfer_rate_bps, 8 * MB);
    assert_eq!(c.fsync_policy, FsyncPolicy::Always);
}

#[test]
fn both_presets_pass_validation() {
    assert!(Profile::Lan.config().validate().is_ok(), "Lan must be valid");
    assert!(Profile::Wan.config().validate().is_ok(), "Wan must be valid");
}

#[test]
fn individual_fields_can_be_overridden() {
    let tuned = ProfileConfig {
        heartbeat_interval_ms: 50,
        ..Profile::Lan.config()
    };
    assert_eq!(tuned.heartbeat_interval_ms, 50);
    // Untouched fields keep their preset values.
    assert_eq!(tuned.election_timeout_ms, 1000);
}

#[test]
fn parse_name_is_case_insensitive() {
    assert_eq!(Profile::parse_name("lan"), Ok(Profile::Lan));
    assert_eq!(Profile::parse_name("WAN"), Ok(Profile::Wan));
    assert_eq!(Profile::parse_name("  wan "), Ok(Profile::Wan));
}

#[test]
fn parse_name_rejects_unknown() {
    assert_eq!(
        Profile::parse_name("mars"),
        Err(ProfileError::UnknownProfile {
            value: "mars".to_string()
        })
    );
}

#[test]
fn rejects_zero_heartbeat() {
    let c = ProfileConfig {
        heartbeat_interval_ms: 0,
        ..Profile::Lan.config()
    };
    assert_eq!(c.validate(), Err(ProfileError::HeartbeatNotPositive));
}

#[test]
fn rejects_election_shorter_than_5x_heartbeat() {
    let c = ProfileConfig {
        heartbeat_interval_ms: 1000,
        election_timeout_ms: 4000, // < 5 * 1000
        ..Profile::Lan.config()
    };
    assert!(matches!(
        c.validate(),
        Err(ProfileError::ElectionTooShort { .. })
    ));
}

#[test]
fn rejects_rpc_at_or_above_election() {
    let c = ProfileConfig {
        rpc_timeout_ms: 2500,
        ..Profile::Wan.config()
    };
    assert!(matches!(
        c.validate(),
        Err(ProfileError::RpcTooLong { .. })
    ));
}

#[test]
fn rejects_zero_rpc() {
    let c = ProfileConfig {
        rpc_timeout_ms: 0,
        ..Profile::Lan.config()
    };
    assert_eq!(c.validate(), Err(ProfileError::RpcNotPositive));
}

#[test]
fn an_unknown_name_is_reported_trimmed_and_lowered() {
    assert_eq!(
        Profile::parse_name("\u{3000}\t Mars \n"),
        Err(ProfileError::UnknownProfile {
            value: "mars".to_string()
        })
    );
    assert_eq!(Profile::parse_name("\u{a0}LaN\u{2003}"), Ok(Profile::Lan));
}

#[test]
fn the_election_bound_is_inclusive() {
    let base = Profile::Lan.config();
    let at = ProfileConfig {
        heartbeat_interval_ms: 200,
        ..base
    };
    assert_eq!(at.validate(), Ok(()));
    let above = ProfileConfig {
        heartbeat_interval_ms: 201,
        ..base
    };
    assert_eq!(
        above.validate(),
        Err(ProfileError::ElectionTooShort {
            heartbeat: 201,
            election: 1000
        })
    );
    let huge = ProfileConfig {
        heartbeat_interval_ms: u64::MAX,
        election_timeout_ms: u64::MAX,
        ..base
    };
    assert!(huge.validate().is_err());
}

#[test]
fn profile_errors_say_what_is_wrong() {
    assert_eq!(
        ProfileError::ElectionTooShort {
            heartbeat: 3,
            election: 4
        }
        .message(),
        "election_timeout_ms (4) must be >= 5 * heartbeat_interval_ms (3)"
    );
    assert_eq!(
        ProfileError::RpcTooLong {
            rpc: 9,
            election: 8
        }
        .message(),
        "rpc_timeout_ms (9) must be < election_timeout_ms (8)"
    );
    assert_eq!(
        ProfileError::UnknownProfile {
            value: "x".to_string()
        }
        .message(),
        "unknown profile `x` (expected `lan` or `wan`)"
    );
}
