//! Setting a node up, membership changes, and the cycle that persists before it
//! sends.
use std::collections::VecDeque;

use arachne::consensus::conf_change::{
    conf_change_identity, single_step, Change, ChangeKind, ConfChangeFault,
};
use arachne::consensus::inbound::{admit_inbound, decide, Inbound};
use arachne::consensus::node::{
    admit_conf_change, core_config, learner_caught_up, learner_progress, name_of, plan_node, route,
    NodeError, RaftNodeConfig, ReadMode,
};
use arachne::consensus::pipeline::{
    CommittedEntry, Envelope, Finish, Flush, Pipeline, ReadState, ReadyParts, Submitted,
    MAX_IN_FLIGHT_READIES,
};
use arachne::consensus::raft_storage::{map_error, RaftFault, RaftHardState, RaftStorage};
use arachne::ids::sorted_ids;
use arachne::storage::wal::{DataDir, DiskOp, WalConfig, WalOptions, WalStorage};
use arachne::types::Fault;
use arachne::{
    ConfState, EntryType, HardState, LogEntry, NodeId, Profile, Snapshot, SnapshotMeta, StorageError,
};
use protobuf::Message;
use raft::eraftpb::{
    ConfChange, ConfChangeSingle, ConfChangeType, ConfChangeV2, Message as RaftMessage, MessageType,
};

#[test]
fn promotion_requires_an_online_caught_up_learner() {
    // Caught up and answering.
    assert!(learner_caught_up(0, true, 128));
    assert!(
        learner_caught_up(128, true, 128),
        "the threshold is inclusive"
    );
    // Online but too far behind.
    assert!(!learner_caught_up(129, true, 128));
    // Never answered: not promotable however short the log is.
    assert!(!learner_caught_up(0, false, 128));
    assert!(!learner_caught_up(0, false, u64::MAX));
    // A zero threshold still allows an exactly-caught-up learner.
    assert!(learner_caught_up(0, true, 0));
    assert!(!learner_caught_up(1, true, 0));
}

#[test]
fn raft_node_config_default_matches_original_hardcoded_values() {
    let c = RaftNodeConfig::default();
    assert_eq!(c.election_tick, 10);
    assert_eq!(c.heartbeat_tick, 1);
    assert_eq!(c.max_size_per_msg, 1_048_576);
    assert_eq!(c.max_inflight_msgs, 256);
}

#[test]
fn raft_node_config_from_profile_derives_ticks() {
    // 1000 / 100 = 10 ticks.
    let lan = RaftNodeConfig::from_profile(&Profile::Lan.config());
    assert_eq!(lan.heartbeat_tick, 1);
    assert_eq!(lan.election_tick, 10);
    assert_eq!(lan.max_size_per_msg, 4 * 1024 * 1024);
    assert_eq!(lan.max_inflight_msgs, 256);

    // 2500 / 500 = 5 ticks.
    let wan = RaftNodeConfig::from_profile(&Profile::Wan.config());
    assert_eq!(wan.heartbeat_tick, 1);
    assert_eq!(wan.election_tick, 5);
    assert_eq!(wan.max_size_per_msg, 1024 * 1024);
    assert_eq!(wan.max_inflight_msgs, 256);
}

fn encoded(kind: ConfChangeType, node_id: u64) -> Vec<u8> {
    let mut cc = ConfChange::default();
    cc.set_change_type(kind);
    cc.set_node_id(node_id);
    cc.write_to_bytes().expect("encode")
}

fn encoded_v2(changes: &[(ConfChangeType, u64)]) -> Vec<u8> {
    let mut cc = ConfChangeV2::default();
    for (kind, node_id) in changes {
        let mut single = ConfChangeSingle::default();
        single.set_change_type(*kind);
        single.set_node_id(*node_id);
        cc.mut_changes().push(single);
    }
    cc.write_to_bytes().expect("encode")
}

#[test]
fn a_change_is_known_by_its_kind_and_target() {
    for (raft, kind) in [
        (ConfChangeType::AddNode, ChangeKind::AddNode),
        (ConfChangeType::RemoveNode, ChangeKind::RemoveNode),
        (ConfChangeType::AddLearnerNode, ChangeKind::AddLearnerNode),
    ] {
        let expected = Change { kind, node_id: 42 };
        assert_eq!(
            conf_change_identity(EntryType::ConfChange, &encoded(raft, 42)),
            Ok(expected)
        );
        assert_eq!(
            conf_change_identity(EntryType::ConfChangeV2, &encoded_v2(&[(raft, 42)])),
            Ok(expected)
        );
    }
}

#[test]
fn several_changes_at_once_are_refused() {
    let two = encoded_v2(&[(ConfChangeType::AddNode, 1), (ConfChangeType::AddNode, 2)]);
    let err = conf_change_identity(EntryType::ConfChangeV2, &two).unwrap_err();
    assert_eq!(err, ConfChangeFault::NotSingleStep { changes: 2 });
    assert_eq!(err.message(), "ConfChangeV2 with 2 changes is not single-step");
    assert_eq!(
        conf_change_identity(EntryType::ConfChangeV2, &[]),
        Err(ConfChangeFault::NotSingleStep { changes: 0 })
    );
    let one = Change {
        kind: ChangeKind::AddNode,
        node_id: 9,
    };
    assert_eq!(single_step(&vec![one]), Ok(one));
}

#[test]
fn an_undecodable_change_is_refused() {
    let garbage = [0xFFu8, 0xFF, 0xFF];
    let err = conf_change_identity(EntryType::ConfChange, &garbage).unwrap_err();
    assert!(matches!(err, ConfChangeFault::Undecodable { .. }));
    assert!(err.message().starts_with("ConfChange decode failed: "));
    assert!(err.message().len() > "ConfChange decode failed: ".len());
    let err = conf_change_identity(EntryType::ConfChangeV2, &garbage).unwrap_err();
    assert!(matches!(err, ConfChangeFault::UndecodableV2 { .. }));
    assert_eq!(
        conf_change_identity(EntryType::Entry, b"put"),
        Err(ConfChangeFault::NormalEntry)
    );
}

#[test]
fn a_change_is_applied_once() {
    let data = encoded(ConfChangeType::AddLearnerNode, 4);
    assert_eq!(admit_conf_change(7, 7, EntryType::ConfChange, &data), Ok(None));
    assert_eq!(
        admit_conf_change(8, 7, EntryType::ConfChange, &data),
        Ok(Some(Change {
            kind: ChangeKind::AddLearnerNode,
            node_id: 4
        }))
    );
    assert_eq!(
        admit_conf_change(8, 7, EntryType::ConfChangeV2, &[]),
        Err(NodeError::Codec(
            "ConfChangeV2 with 0 changes is not single-step".into()
        ))
    );
    match admit_conf_change(8, 7, EntryType::ConfChange, &[0xFF, 0xFF]) {
        Err(NodeError::Codec(words)) => assert!(words.starts_with("ConfChange decode failed: ")),
        other => panic!("expected a refusal, got {other:?}"),
    }
    // What is behind is not looked at.
    assert_eq!(admit_conf_change(1, 7, EntryType::Entry, b"put"), Ok(None));
}

#[test]
fn a_new_cluster_starts_with_all_its_members_as_voters() {
    let config = RaftNodeConfig::default();
    let conf = plan_node(2, &vec![3, 1, 3], 0, &config).unwrap();
    assert_eq!(conf.voters, [1, 2, 3]);
    assert!(conf.learners.is_empty());
}

#[test]
fn a_joining_node_starts_as_a_learner() {
    let config = RaftNodeConfig {
        join_as_learner: true,
        ..RaftNodeConfig::default()
    };
    let conf = plan_node(4, &vec![2, 1], 0, &config).unwrap();
    assert_eq!((conf.voters, conf.learners), (vec![1, 2], vec![4]));
}

#[test]
fn explicit_voters_decide() {
    let config = RaftNodeConfig {
        bootstrap_voters: Some(vec![5, 1]),
        ..RaftNodeConfig::default()
    };
    let conf = plan_node(4, &vec![2], 0, &config).unwrap();
    assert_eq!((conf.voters, conf.learners), (vec![1, 5], vec![]));
}

#[test]
fn impossible_settings_are_refused() {
    let config = RaftNodeConfig::default();
    assert_eq!(
        plan_node(0, &vec![], 0, &config),
        Err(NodeError::Raft("node id must be non-zero".into()))
    );
    for (config, words) in [
        (
            RaftNodeConfig {
                heartbeat_tick: 0,
                ..RaftNodeConfig::default()
            },
            "heartbeat tick must greater than 0",
        ),
        (
            RaftNodeConfig {
                election_tick: 1,
                ..RaftNodeConfig::default()
            },
            "election tick must be greater than heartbeat tick",
        ),
        (
            RaftNodeConfig {
                max_inflight_msgs: 0,
                ..RaftNodeConfig::default()
            },
            "max inflight messages must be greater than 0",
        ),
    ] {
        assert_eq!(
            plan_node(1, &vec![], 0, &config),
            Err(NodeError::Raft(words.into()))
        );
    }
}

#[test]
fn the_raft_core_asks_a_quorum() {
    let core = core_config(7, 3, &RaftNodeConfig::default());
    assert_eq!((core.id, core.applied), (7, 3));
    assert_eq!((core.election_tick, core.heartbeat_tick), (10, 1));
    assert!(core.check_quorum && core.pre_vote);
    assert_eq!(core.reads, ReadMode::Quorum);
}

#[test]
fn the_presets_suit_the_raft_core() {
    for profile in [Profile::Lan, Profile::Wan] {
        let config = RaftNodeConfig::from_profile(&profile.config());
        assert!(plan_node(1, &vec![2, 3], 0, &config).is_ok());
    }
}

#[test]
fn ids_are_sorted_once_each() {
    assert_eq!(sorted_ids(&vec![9, 1, 9, 4, 1]), [1, 4, 9]);
    assert!(sorted_ids(&vec![]).is_empty());
}

#[test]
fn progress_counts_what_is_missing() {
    assert_eq!(learner_progress(10, 0), (10, false));
    assert_eq!(learner_progress(10, 4), (6, true));
    assert_eq!(learner_progress(10, 12), (0, true));
}

#[test]
fn messages_go_to_known_others_only() {
    let peers = vec![(2, NodeId::new("b")), (3, NodeId::new("c"))];
    assert_eq!(route(&peers, 1, 3).unwrap().as_str(), "c");
    assert!(route(&peers, 1, 1).is_none());
    assert!(route(&peers, 1, 9).is_none());
    assert_eq!(name_of(&peers, 2).unwrap().as_str(), "b");
}

fn message(to: u64) -> Envelope {
    Envelope {
        to,
        bytes: vec![to as u8],
    }
}

fn committed(index: u64) -> CommittedEntry {
    CommittedEntry {
        index,
        entry_type: EntryType::Entry,
        data: vec![],
    }
}

fn ready(number: u64) -> ReadyParts {
    ReadyParts {
        number,
        immediate: vec![message(1)],
        persisted: vec![message(2)],
        committed: VecDeque::from(vec![committed(number)]),
        read_states: vec![ReadState {
            context: vec![7],
            index: number,
        }],
        snapshot: None,
    }
}

#[test]
fn a_durable_cycle_sends_everything_when_it_finishes() {
    let mut p = Pipeline::new();
    assert_eq!(p.finish_persisted(Flush::Landed), Finish::Waiting);
    assert!(p.submit_ready(ready(1), Submitted::Durable).is_empty());
    assert!(p.is_persisting());
    match p.finish_persisted(Flush::InFlight) {
        Finish::Done(done) => {
            assert_eq!(done.number, 1);
            assert_eq!(done.messages, [message(1), message(2)]);
            assert_eq!(done.outcome.committed.len(), 1);
            assert_eq!(done.outcome.read_states[0].index, 1);
        }
        other => panic!("expected a finished cycle, got {other:?}"),
    }
    assert!(!p.is_persisting());
}

#[test]
fn an_offloaded_cycle_waits_for_its_flush() {
    let mut p = Pipeline::new();
    assert_eq!(p.submit_ready(ready(1), Submitted::Offloaded(9)), [message(1)]);
    assert_eq!(p.submit_ready(ready(2), Submitted::Durable), []);
    assert_eq!(p.front_token(), Some(9));
    // The second cycle is durable but not the oldest.
    assert_eq!(p.finish_persisted(Flush::InFlight), Finish::Waiting);
    assert_eq!(
        p.finish_persisted(Flush::Failed("disk".into())),
        Finish::Failed("offloaded flush failed: disk (durability cannot be claimed)".into())
    );
    match p.finish_persisted(Flush::Landed) {
        Finish::Done(done) => {
            assert_eq!(done.number, 1);
            assert_eq!(done.messages, [message(2)]);
        }
        other => panic!("expected a finished cycle, got {other:?}"),
    }
    assert_eq!(p.front_token(), None);
}

#[test]
fn only_so_many_cycles_are_in_flight() {
    let mut p = Pipeline::new();
    for i in 0..MAX_IN_FLIGHT_READIES {
        assert!(p.has_room());
        p.submit_ready(ready(i as u64), Submitted::Offloaded(i as u64));
    }
    assert!(!p.has_room());
    p.count_dropped_send();
    assert_eq!(p.dropped_sends, 1);
}

#[test]
fn a_snapshot_supersedes_the_entries_it_covers() {
    let mut p = Pipeline::new();
    let parts = ReadyParts {
        committed: VecDeque::from(vec![committed(4), committed(5), committed(6)]),
        snapshot: Some(Snapshot {
            meta: SnapshotMeta {
                index: 5,
                term: 1,
                conf_state: ConfState::default(),
            },
            data: vec![],
        }),
        ..ready(1)
    };
    p.submit_ready(parts, Submitted::Durable);
    match p.finish_persisted(Flush::Landed) {
        Finish::Done(done) => {
            let left: Vec<u64> = done.outcome.committed.iter().map(|e| e.index).collect();
            assert_eq!(left, [6]);
            assert_eq!(done.outcome.snapshot.unwrap().meta.index, 5);
        }
        other => panic!("expected a finished cycle, got {other:?}"),
    }
}

#[test]
fn hard_state_vote_none_maps_to_zero() {
    let raft_hs = RaftStorage::to_raft_hard_state(&HardState {
        term: 1,
        vote: None,
        commit: 0,
    });
    assert_eq!(raft_hs.vote, 0);
    let seam_hs = RaftStorage::to_seam_hard_state(&raft_hs);
    assert_eq!(seam_hs.vote, None);
}

#[test]
fn a_hard_state_comes_back() {
    let hs = HardState {
        term: 5,
        vote: Some(7),
        commit: 3,
    };
    let raft_hs = RaftStorage::to_raft_hard_state(&hs);
    assert_eq!(
        raft_hs,
        RaftHardState {
            term: 5,
            vote: 7,
            commit: 3
        }
    );
    assert_eq!(RaftStorage::to_seam_hard_state(&raft_hs), hs);
}

#[test]
fn fail_start_errors_map_to_unavailable() {
    assert_eq!(
        map_error(StorageError::Corruption {
            detail: "bad crc".into()
        }),
        RaftFault::Unavailable
    );
    assert_eq!(
        map_error(StorageError::Unrecoverable(Fault::MetaMissing)),
        RaftFault::Unavailable
    );
}

#[test]
fn io_error_maps_to_raft_io() {
    assert_eq!(
        map_error(StorageError::Io("disk full".into())),
        RaftFault::Io("disk full".into())
    );
    assert_eq!(map_error(StorageError::Compacted), RaftFault::Compacted);
}

/// A log over nothing, its file operations left unperformed.
fn empty_log() -> WalStorage {
    let dir = DataDir {
        segments: vec![],
        snapshots: vec![],
        meta: None,
    };
    let opts = WalOptions {
        cluster_id: "c".into(),
        node_id: "n".into(),
        config: WalConfig::default(),
        created_at_millis: 0,
    };
    WalStorage::open(&dir, &opts).1.expect("a new log opens")
}

fn entry(index: u64, term: u64, data: &[u8]) -> LogEntry {
    LogEntry {
        index,
        term,
        entry_type: EntryType::Entry,
        data: data.to_vec(),
    }
}

fn snapshot_at(index: u64, voters: Vec<u64>, learners: Vec<u64>) -> Snapshot {
    Snapshot {
        meta: SnapshotMeta {
            index,
            term: 1,
            conf_state: ConfState { voters, learners },
        },
        data: b"payload".to_vec(),
    }
}

#[test]
fn entry_round_trip_through_raft_view() {
    let mut store = RaftStorage::new(empty_log());
    let (_, appended) = store.append(&vec![entry(1, 1, b"a"), entry(2, 2, b"b")], &vec![]);
    appended.expect("append must succeed");

    let got = store
        .entries(1, 3, Some(u64::MAX))
        .expect("range [1,3) is retained");
    assert_eq!(got.len(), 2);
    assert_eq!(got[0].index, 1);
    assert_eq!(got[0].term, 1);
    assert_eq!(got[0].data, b"a");
    assert_eq!(got[0].entry_type, EntryType::Entry);
    assert_eq!(got[1].index, 2);
    assert_eq!(got[1].term, 2);
    assert_eq!(got[1].data, b"b");

    assert_eq!(store.first_index(), 1);
    assert_eq!(store.last_index(), 2);
    assert_eq!(store.term(1).unwrap(), 1);
    assert_eq!(store.term(2).unwrap(), 2);
}

#[test]
fn hard_state_and_conf_state_round_trip() {
    let mut inner = empty_log();
    inner
        .install_snapshot(&snapshot_at(3, vec![1, 2, 3], vec![4]), &vec![], &vec![])
        .1
        .expect("a newer snapshot installs");
    inner.set_hard_state(HardState {
        term: 5,
        vote: Some(7),
        commit: 3,
    });
    let store = RaftStorage::new(inner);

    let state = store.initial_state();
    assert_eq!(state.hard_state.term, 5);
    assert_eq!(state.hard_state.vote, 7);
    assert_eq!(state.hard_state.commit, 3);
    assert_eq!(state.conf_state.voters, [1, 2, 3]);
    assert_eq!(state.conf_state.learners, [4]);
}

#[test]
fn compacted_range_maps_to_raft_compacted() {
    let store = RaftStorage::new(empty_log());
    // An empty log: first=1, last=0, so [1,2) is outside the retained window.
    assert_eq!(store.entries(1, 2, Some(u64::MAX)), Err(RaftFault::Compacted));
}

#[test]
fn no_snapshot_maps_to_temporarily_unavailable() {
    let store = RaftStorage::new(empty_log());
    assert_eq!(
        store.snapshot(),
        Err(RaftFault::SnapshotTemporarilyUnavailable)
    );
}

#[test]
fn the_newest_membership_wins() {
    let bootstrap = ConfState {
        voters: vec![9],
        learners: vec![],
    };
    let mut store = RaftStorage::with_conf_state(empty_log(), bootstrap);
    assert_eq!(store.initial_state().conf_state.voters, [9]);
    assert_eq!(store.conf_change_index(), 0);
    store.note_membership(
        5,
        ConfState {
            voters: vec![1, 2],
            learners: vec![3],
        },
    );
    assert_eq!(store.conf_change_index(), 5);
    assert_eq!(store.initial_state().conf_state.voters, [1, 2]);
    assert_eq!(store.initial_state().conf_state.learners, [3]);
}

#[test]
fn a_membership_at_or_below_the_snapshot_is_ignored() {
    let members = |voters: &[u64]| ConfState {
        voters: voters.to_vec(),
        learners: vec![],
    };
    let mut store = RaftStorage::with_conf_state(empty_log(), members(&[9]));
    store.inner.save_snapshot(
        &Snapshot {
            meta: SnapshotMeta {
                index: 5,
                term: 1,
                conf_state: members(&[1, 2, 3]),
            },
            data: vec![],
        },
        &vec![],
    );
    for (index, expected) in [(4, [1, 2, 3]), (5, [1, 2, 3]), (6, [4, 5, 6])] {
        store.note_membership(index, members(&[4, 5, 6]));
        assert_eq!(store.initial_state().conf_state.voters, expected, "change at {index}");
    }
}

#[test]
fn a_cycle_persists_its_hard_state_after_its_entries() {
    let mut store = RaftStorage::new(empty_log());
    let hs = HardState {
        term: 2,
        vote: Some(1),
        commit: 1,
    };
    let (ops, result) =
        store.persist_ready_records(&vec![entry(1, 2, b"a")], Some(hs.clone()), &vec![]);
    result.expect("persists");
    assert_eq!(store.last_index(), 1);
    assert_eq!(
        store.initial_state().hard_state,
        RaftStorage::to_raft_hard_state(&hs)
    );
    let writes = ops
        .iter()
        .filter(|op| matches!(op, DiskOp::WriteSegment { .. }))
        .count();
    assert_eq!(writes, 2);
    assert!(matches!(
        ops.last(),
        Some(DiskOp::NotifySynced { .. } | DiskOp::SyncSegment { .. })
    ));
}

// ---- messages from other nodes ----

fn raft_message(kind: MessageType) -> RaftMessage {
    let mut message = RaftMessage::default();
    message.set_msg_type(kind);
    message.set_from(9);
    message.set_to(1);
    message.set_term(4);
    message
}

#[test]
fn a_message_is_taken_from_the_peer_that_the_transport_names() {
    let bytes = raft_message(MessageType::MsgHeartbeat)
        .write_to_bytes()
        .expect("encodes");
    for streamed in [false, true] {
        assert_eq!(admit_inbound(2, &bytes, streamed), Ok(Inbound::Step { from: 2 }));
    }
}

#[test]
fn a_streamed_snapshot_is_held_back() {
    let mut message = raft_message(MessageType::MsgSnapshot);
    message.mut_snapshot().mut_metadata().set_index(8);
    message.mut_snapshot().mut_metadata().set_term(3);
    let bytes = message.write_to_bytes().expect("encodes");
    assert_eq!(
        admit_inbound(2, &bytes, true),
        Ok(Inbound::Hold {
            from: 2,
            index: 8,
            term: 3
        })
    );
    assert_eq!(admit_inbound(2, &bytes, false), Ok(Inbound::Step { from: 2 }));
    assert_eq!(
        decide(7, Some((8, 3)), true),
        Inbound::Hold {
            from: 7,
            index: 8,
            term: 3
        }
    );
    assert_eq!(decide(7, None, true), Inbound::Step { from: 7 });
}

#[test]
fn bytes_that_are_no_message_are_refused() {
    let bytes = [0xff, 0xff, 0xff];
    let words = RaftMessage::parse_from_bytes(&bytes)
        .expect_err("no message")
        .to_string();
    assert_eq!(admit_inbound(2, &bytes, false), Err(NodeError::Codec(words)));
}

#[test]
fn raft_message_round_trips_through_transport_message() {
    let mut msg = RaftMessage::default();
    msg.set_msg_type(MessageType::MsgAppend);
    msg.set_to(2);
    msg.set_from(1);
    msg.set_term(3);
    msg.set_index(10);
    msg.set_commit(9);

    let bytes = msg.write_to_bytes().expect("encode must succeed");
    assert_eq!(admit_inbound(1, &bytes, false), Ok(Inbound::Step { from: 1 }));
    let mut back = RaftMessage::default();
    back.merge_from_bytes(&bytes).expect("decode must succeed");
    assert_eq!(back.get_msg_type(), MessageType::MsgAppend);
    assert_eq!(back.get_to(), 2);
    assert_eq!(back.get_from(), 1);
    assert_eq!(back.get_term(), 3);
    assert_eq!(back.get_index(), 10);
    assert_eq!(back.get_commit(), 9);
}
