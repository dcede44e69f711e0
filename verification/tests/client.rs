//! Errors, argument checks and the chase for the leader.
use arachne::client::handle::{
    client_id, Chase, Failure, Handle, NextStep, Redirects, MAX_REDIRECTS,
};
use arachne::consensus::conf_change::ChangeKind;
use arachne::{ArachneError, Command, KvStateMachine, NodeId, Profile, ProfileConfig};

fn handle() -> Handle {
    Handle::new_local(NodeId::new("n2"), 0, 77, &Profile::Lan.config())
}

fn with_peers(names: &[&str]) -> Handle {
    let mut h = handle();
    for (i, name) in names.iter().enumerate() {
        h.register_peer(NodeId::new(name), i as u64 + 1);
    }
    h
}

fn order(h: &Handle) -> Vec<String> {
    h.target_order().iter().map(|n| n.as_str().to_string()).collect()
}

fn hint(name: &str) -> ArachneError {
    ArachneError::NotLeader {
        leader_hint: Some((NodeId::new(name), "127.0.0.1:7002".to_string())),
    }
}

#[test]
fn every_variant_is_a_std_error_with_display() {
    let leader = (NodeId::new("n2"), "127.0.0.1:7002".to_string());
    for e in [
        ArachneError::NotLeader {
            leader_hint: Some(leader),
        },
        ArachneError::NotLeader { leader_hint: None },
        ArachneError::QuorumUnavailable,
        ArachneError::Timeout,
        ArachneError::Busy,
        ArachneError::InvalidArgument("too big".into()),
        ArachneError::SessionExpired,
        ArachneError::SessionTableFull,
        ArachneError::ConfChangePending,
        ArachneError::LeaderRemovalRequiresTransfer,
        ArachneError::ClusterIdMismatch,
        ArachneError::ShuttingDown,
        ArachneError::DataDirLocked,
        ArachneError::Unrecoverable("corrupt".into()),
    ] {
        assert!(!e.message().is_empty(), "{e:?} must display");
    }
}

#[test]
fn variant_names_are_distinct() {
    let variants = vec![
        ArachneError::NotLeader { leader_hint: None },
        ArachneError::QuorumUnavailable,
        ArachneError::Timeout,
        ArachneError::Busy,
        ArachneError::InvalidArgument(String::new()),
        ArachneError::SessionExpired,
        ArachneError::SessionTableFull,
        ArachneError::ConfChangePending,
        ArachneError::LeaderRemovalRequiresTransfer,
        ArachneError::ClusterIdMismatch,
        ArachneError::ShuttingDown,
        ArachneError::DataDirLocked,
        ArachneError::Unrecoverable(String::new()),
    ];
    let mut seen = std::collections::BTreeSet::new();
    for v in &variants {
        assert!(seen.insert(format!("{v:?}")), "duplicate variant name");
    }
    assert_eq!(seen.len(), 13, "the full variant list must be present");
}

#[test]
fn messages_are_exact() {
    assert_eq!(
        ArachneError::Timeout.message(),
        "operation timed out (result unknown)"
    );
    assert_eq!(
        ArachneError::LearnerNotCaughtUp {
            behind: 300,
            threshold: 128
        }
        .message(),
        "learner not caught up (behind 300 entries, threshold 128)"
    );
    assert_eq!(hint("n3").message(), "not leader (hint: n3 at 127.0.0.1:7002)");
    assert_eq!(
        ArachneError::Unrecoverable("corrupt".into()).message(),
        "unrecoverable: corrupt"
    );
}

#[test]
fn a_put_is_numbered_and_encoded() {
    let mut h = handle();
    let first = h.put(b"k", b"v").unwrap();
    assert_eq!(
        first,
        Command::Propose {
            cmd: KvStateMachine::encode_put(77, 1, b"k", b"v"),
            client_id: 77,
            seq_no: 1
        }
    );
    let second = h.delete(b"k").unwrap();
    assert_eq!(
        second,
        Command::Propose {
            cmd: KvStateMachine::encode_delete(77, 2, b"k"),
            client_id: 77,
            seq_no: 2
        }
    );
}

#[test]
fn too_long_arguments_take_no_sequence_number() {
    let profile = ProfileConfig {
        max_key_bytes: 4,
        max_value_bytes: 5,
        ..Profile::Lan.config()
    };
    let mut h = Handle::new_local(NodeId::new("n1"), 0, 1, &profile);
    assert_eq!(
        h.put(b"12345", b"v"),
        Err(ArachneError::InvalidArgument(
            "key of 5 bytes exceeds max_key_bytes (4)".into()
        ))
    );
    assert_eq!(
        h.put(b"1234", b"123456"),
        Err(ArachneError::InvalidArgument(
            "value of 6 bytes exceeds max_value_bytes (5)".into()
        ))
    );
    assert!(h.delete(b"12345").is_err());
    assert!(h.get(b"12345").is_err());
    assert!(h.get_stale(b"12345").is_err());
    match h.put(b"1234", b"12345").unwrap() {
        Command::Propose { seq_no, .. } => assert_eq!(seq_no, 1),
        other => panic!("expected a proposal, got {other:?}"),
    }
}

#[test]
fn reads_name_their_key() {
    let h = handle();
    assert_eq!(h.get(b"k"), Ok(Command::Read { key: b"k".to_vec() }));
    assert_eq!(h.get_stale(b"k"), Ok(Command::GetStale { key: b"k".to_vec() }));
}

#[test]
fn membership_requests() {
    assert_eq!(
        Handle::add_learner(4),
        Command::ConfChange {
            kind: ChangeKind::AddLearnerNode,
            node_id: 4
        }
    );
    assert_eq!(
        Handle::promote_learner(4),
        Command::ConfChange {
            kind: ChangeKind::AddNode,
            node_id: 4
        }
    );
    assert_eq!(
        Handle::remove_member(4),
        Command::ConfChange {
            kind: ChangeKind::RemoveNode,
            node_id: 4
        }
    );
    assert_eq!(
        Handle::transfer_leader(4),
        Command::TransferLeader { target: Some(4) }
    );
    assert_eq!(
        Handle::after_removal(&Err(ArachneError::LeaderRemovalRequiresTransfer)),
        Some(Command::TransferLeader { target: None })
    );
    assert_eq!(Handle::after_removal(&Ok(())), None);
    assert_eq!(Handle::after_removal(&Err(ArachneError::Busy)), None);
}

#[test]
fn timeouts_come_from_the_profile() {
    let h = handle();
    assert_eq!(h.timeout_ms, 1000);
    // Two waits for a read index, and one election timeout.
    assert_eq!(h.read_timeout_ms, 2 * 2000 + 1000);
    let zero = ProfileConfig {
        election_timeout_ms: 0,
        read_index_timeout_ms: 0,
        ..Profile::Lan.config()
    };
    let h = Handle::new_local(NodeId::new("n1"), 0, 1, &zero);
    assert_eq!((h.timeout_ms, h.read_timeout_ms), (1, 3));
    assert_eq!(Handle::remaining(100, 40), Ok(60));
    assert_eq!(Handle::remaining(100, 100), Err(ArachneError::Timeout));
}

#[test]
fn client_ids_differ_by_process_and_by_handle() {
    assert_eq!(client_id(1, 0), 1 << 32);
    assert_eq!(client_id(1, 5), (1 << 32) | 5);
    assert_ne!(client_id(1, 0), client_id(2, 0));
}

#[test]
fn one_s_own_node_comes_first_and_the_others_by_name() {
    let h = with_peers(&["n3", "n1", "n2", "n10"]);
    assert_eq!(order(&h), ["n2", "n1", "n10", "n3"]);
    assert_eq!(h.handle_for(&NodeId::new("n10")), Some(4));
    assert_eq!(h.handle_for(&NodeId::new("n2")), Some(0));
    assert_eq!(h.handle_for(&NodeId::new("n9")), None);
}

#[test]
fn a_refusal_leads_to_the_named_node() {
    let h = with_peers(&["n1", "n3"]);
    let mut chase = Chase::new(&h, Redirects::Follow);
    assert_eq!(chase.target().as_str(), "n2");
    assert_eq!(chase.after(Failure::Answer(hint("n3"))), NextStep::Retry);
    assert_eq!(chase.target().as_str(), "n3");
    // An unknown leader: the next in order.
    assert_eq!(chase.after(Failure::Answer(hint("n9"))), NextStep::Retry);
    assert_eq!(chase.target().as_str(), "n2");
}

#[test]
fn only_so_many_refusals_are_followed() {
    let h = with_peers(&["n1", "n3"]);
    let mut chase = Chase::new(&h, Redirects::Follow);
    for _ in 0..MAX_REDIRECTS {
        let next = if chase.target().as_str() == "n3" { "n1" } else { "n3" };
        assert_eq!(chase.after(Failure::Answer(hint(next))), NextStep::Retry);
    }
    assert_eq!(
        chase.after(Failure::Answer(hint("n2"))),
        NextStep::Stop(ArachneError::Timeout)
    );
}

#[test]
fn a_refusal_without_progress_is_no_quorum() {
    let h = with_peers(&["n1"]);
    let mut chase = Chase::new(&h, Redirects::Follow);
    assert_eq!(
        chase.after(Failure::Answer(ArachneError::NotLeader { leader_hint: None })),
        NextStep::Stop(ArachneError::QuorumUnavailable)
    );
    let mut chase = Chase::new(&h, Redirects::Follow);
    assert_eq!(
        chase.after(Failure::Answer(hint("n2"))),
        NextStep::Stop(ArachneError::QuorumUnavailable)
    );
    // Alone, there is nobody to go on to.
    let mut chase = Chase::new(&handle(), Redirects::Follow);
    assert_eq!(
        chase.after(Failure::Answer(hint("n9"))),
        NextStep::Stop(ArachneError::QuorumUnavailable)
    );
}

#[test]
fn a_single_shot_hands_the_hint_on() {
    let h = with_peers(&["n1", "n3"]);
    let mut chase = Chase::new(&h, Redirects::SingleShot);
    assert_eq!(
        chase.after(Failure::Answer(hint("n3"))),
        NextStep::Stop(hint("n3"))
    );
}

#[test]
fn gone_peers_are_passed_over_until_none_is_left() {
    let h = with_peers(&["n1", "n3"]);
    let mut chase = Chase::new(&h, Redirects::Follow);
    assert_eq!(chase.after(Failure::Answer(hint("n1"))), NextStep::Retry);
    assert_eq!(
        chase.after(Failure::Delivery(ArachneError::ShuttingDown)),
        NextStep::Retry
    );
    assert_eq!(chase.target().as_str(), "n3");
    assert_eq!(
        chase.after(Failure::Delivery(ArachneError::ShuttingDown)),
        NextStep::Stop(ArachneError::QuorumUnavailable)
    );
}

#[test]
fn one_s_own_node_shutting_down_ends_the_chase() {
    let h = with_peers(&["n1", "n3"]);
    let mut chase = Chase::new(&h, Redirects::Follow);
    assert_eq!(
        chase.after(Failure::Delivery(ArachneError::ShuttingDown)),
        NextStep::Stop(ArachneError::ShuttingDown)
    );
    let mut chase = Chase::new(&h, Redirects::Follow);
    assert_eq!(
        chase.after(Failure::Delivery(ArachneError::Timeout)),
        NextStep::Stop(ArachneError::Timeout)
    );
    let mut chase = Chase::new(&h, Redirects::Follow);
    assert_eq!(
        chase.after(Failure::Answer(ArachneError::Busy)),
        NextStep::Stop(ArachneError::Busy)
    );
}
