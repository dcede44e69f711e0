//! Gauges and counters.
use arachne::Metrics;

#[test]
fn renders_every_gauge_with_help_and_type() {
    let mut m = Metrics::new();
    m.set_term(3);
    m.set_leader_id(1);
    m.set_commit_index(7);
    m.set_applied_index(6);
    m.set_is_leader(true);
    m.set_dropped_sends(4);
    m.inc_read_index_timeout();
    m.inc_read_index_timeout();
    m.set_read_index_pending(5);
    m.set_wal_bytes(4096);
    m.set_snapshot_last(12, 1024);
    m.inc_snapshots_created();
    m.inc_snapshots_installed();
    m.inc_snapshots_installed();
    m.set_apply_backlog(7, 2048);
    m.inc_proposal_busy();
    m.inc_snapshot_slow();
    let text = m.render();
    for name in [
        "arachne_term",
        "arachne_leader_id",
        "arachne_commit_index",
        "arachne_applied_index",
        "arachne_is_leader",
        "arachne_dropped_sends",
        "arachne_read_index_timeout_total",
        "arachne_read_index_pending",
        "arachne_wal_bytes",
        "arachne_snapshot_last_duration_ms",
        "arachne_snapshot_last_size_bytes",
        "arachne_snapshots_created_total",
        "arachne_snapshots_installed_total",
        "arachne_apply_lag",
        "arachne_apply_backlog_bytes",
        "arachne_proposal_busy_total",
        "arachne_snapshot_slow_total",
    ] {
        assert!(text.contains(name), "missing {name}");
    }
    assert!(text.contains("# TYPE arachne_term gauge"));
    assert!(text.contains("arachne_term 3"));
    assert!(text.contains("arachne_is_leader 1"));
    assert!(text.contains("arachne_dropped_sends 4"));
    assert!(text.contains("# TYPE arachne_read_index_timeout_total counter"));
    assert!(text.contains("arachne_read_index_timeout_total 2"));
    assert!(text.contains("# TYPE arachne_read_index_pending gauge"));
    assert!(text.contains("arachne_read_index_pending 5"));
    assert!(text.contains("# TYPE arachne_wal_bytes gauge"));
    assert!(text.contains("arachne_wal_bytes 4096"));
    assert!(text.contains("arachne_snapshot_last_duration_ms 12"));
    assert!(text.contains("arachne_snapshot_last_size_bytes 1024"));
    assert!(text.contains("# TYPE arachne_snapshots_created_total counter"));
    assert!(text.contains("arachne_snapshots_created_total 1"));
    assert!(text.contains("arachne_snapshots_installed_total 2"));
    assert!(text.contains("arachne_apply_lag 7"));
    assert!(text.contains("arachne_apply_backlog_bytes 2048"));
    assert!(text.contains("arachne_proposal_busy_total 1"));
    assert!(text.contains("# TYPE arachne_snapshot_slow_total counter"));
    assert!(text.contains("arachne_snapshot_slow_total 1"));
    assert_eq!(m.apply_lag(), 7);
    assert_eq!(m.apply_backlog_bytes(), 2048);
    assert_eq!(m.proposal_busy_total(), 1);
    assert_eq!(m.wal_bytes(), 4096);
    assert!(m.is_leader());
    assert_eq!(m.leader_id(), 1);
    assert_eq!(m.dropped_sends(), 4);
}

#[test]
fn defaults_are_zero() {
    let text = Metrics::new().render();
    assert!(text.contains("arachne_term 0"));
    assert!(text.contains("arachne_is_leader 0"));
    assert!(text.contains("arachne_dropped_sends 0"));
}

#[test]
fn is_ready_tracks_leader_known() {
    let mut m = Metrics::new();
    assert!(!m.is_ready(), "no leader yet");
    m.set_leader_id(2);
    assert!(m.is_ready(), "a leader is now known");
}

#[test]
fn one_sample_reads_exactly() {
    let mut m = Metrics::new();
    m.set_term(18_446_744_073_709_551_615);
    assert!(m.render().starts_with(
        "# HELP arachne_term Current raft term.\n# TYPE arachne_term gauge\n\
         arachne_term 18446744073709551615\n# HELP arachne_leader_id"
    ));
    assert_eq!(m.render().lines().count(), 3 * 17);
}

#[test]
fn each_sample_is_rendered_once_with_its_kind() {
    let text = Metrics::new().render();
    let kinds: Vec<(&str, &str)> = text
        .lines()
        .filter_map(|line| line.strip_prefix("# TYPE "))
        .filter_map(|line| line.split_once(' '))
        .collect();
    assert_eq!(kinds.len(), 17);
    for (i, (name, kind)) in kinds.iter().enumerate() {
        assert_eq!(*kind == "counter", name.ends_with("_total"), "{name}");
        assert!(kinds[..i].iter().all(|(other, _)| other != name), "{name}");
    }
}
