//! A node: what requests come to, how committed work is handed on and applied, and
//! how every waiting request is answered.
use std::collections::VecDeque;

use arachne::consensus::conf_change::{Change, ChangeKind};
use arachne::consensus::node::NodeError;
use arachne::consensus::pipeline::{CommittedEntry, ReadState};
use arachne::runtime::apply::{
    entry_size, ApplyBatch, ApplyProgress, ApplyTask, Schedule, Source, Work,
    ENTRY_FRAMING_BYTES, READ_BURST,
};
use arachne::runtime::command::{Answer, Reply};
use arachne::runtime::cycle::{
    Event, FetchEnd, PollStep, SnapshotFault, SnapshotPoll, SnapshotStep,
    SNAPSHOT_DURATION_BUDGET_MS, WAL_SAMPLE_INTERVAL_MS,
};
use arachne::runtime::dispatch::PumpNext;
use arachne::runtime::requests::Action;
use arachne::runtime::session::{SessionBand, Sessions};
use arachne::runtime::state::NodeView;
use arachne::runtime::waiting::{token_bytes, token_of, Channel, MAX_PENDING_READS};
use arachne::state_machine::sorted::SessionKey;
use arachne::storage::snapshot::encode_snapshot;
use arachne::{
    ArachneError, Command, ConfState, EntryType, HardState, KvStateMachine, NodeId, Profile, ProfileConfig,
    Runtime, RuntimeConfig, Snapshot, SnapshotMeta,
};
use protobuf::Message;
use raft::eraftpb::{ConfChange, ConfChangeType};

const ROOM: Channel = Channel::Open(64);

fn config(profile: ProfileConfig) -> RuntimeConfig {
    RuntimeConfig {
        self_raft_id: 1,
        self_node_id: NodeId::new("n1"),
        peers: vec![(2, NodeId::new("n2")), (3, NodeId::new("n3"))],
        addresses: vec![(NodeId::new("n2"), "127.0.0.1:7002".to_string())],
        profile,
        promote_lag_entries: 128,
    }
}

fn node_with(profile: ProfileConfig) -> (Runtime, ApplyTask) {
    Runtime::new(config(profile), Ok(None), HardState::default(), 0).expect("a new node starts")
}

fn node() -> (Runtime, ApplyTask) {
    node_with(Profile::Lan.config())
}

/// What a node sees while `leader` leads.
fn view(leader: u64, now: u64) -> NodeView {
    NodeView {
        leader_id: leader,
        now,
        clock: Some(now),
        conf: Ok(ConfState {
            voters: vec![1, 2, 3],
            learners: vec![4],
        }),
        last_index: Some(1000),
        matched: vec![(2, 990), (4, 900)],
    }
}

fn propose(client_id: u64, seq_no: u64) -> Command {
    Command::Propose {
        cmd: KvStateMachine::encode_put(client_id, seq_no, b"k", b"v"),
        client_id,
        seq_no,
    }
}

fn session(client_id: u64, seq_no: u64) -> SessionKey {
    SessionKey { client_id, seq_no }
}

fn failed(error: ArachneError) -> Action {
    Action::Answer(Reply::Failed(error))
}

fn not_leader_2() -> ArachneError {
    ArachneError::NotLeader {
        leader_hint: Some((NodeId::new("n2"), "127.0.0.1:7002".to_string())),
    }
}

fn command_entry(index: u64, client_id: u64, seq_no: u64) -> CommittedEntry {
    CommittedEntry {
        index,
        entry_type: EntryType::Entry,
        data: KvStateMachine::encode_put(client_id, seq_no, b"k", b"v"),
    }
}

fn change_entry(index: u64, node_id: u64) -> CommittedEntry {
    let mut cc = ConfChange::default();
    cc.set_change_type(ConfChangeType::AddLearnerNode);
    cc.set_node_id(node_id);
    CommittedEntry {
        index,
        entry_type: EntryType::ConfChange,
        data: cc.write_to_bytes().expect("encode"),
    }
}

fn progress(applied_index: u64, applied_bytes_total: u64) -> ApplyProgress {
    ApplyProgress {
        applied_index,
        applied_bytes_total,
        failed: None,
        sessions: 0,
    }
}

fn answer(ticket: u64, reply: Reply) -> Answer {
    Answer { ticket, reply }
}

// ---- starting ----

#[test]
fn an_unreadable_snapshot_stops_the_start() {
    match Runtime::new(config(Profile::Lan.config()), Err("disk".into()), HardState::default(), 0) {
        Err(e) => {
            assert_eq!(
                e,
                NodeError::Storage("cannot read the durable snapshot: disk".into())
            )
        }
        Ok(_) => panic!("expected a refusal"),
    }
}

#[test]
fn a_node_starts_from_its_snapshot() {
    let mut sm = KvStateMachine::new();
    for index in 1..=4 {
        sm.apply(index, &KvStateMachine::encode_put(1, index, b"k", b"v"))
            .expect("applies");
    }
    let snapshot = Snapshot {
        meta: SnapshotMeta {
            index: 4,
            term: 1,
            conf_state: ConfState::default(),
        },
        data: sm.snapshot(),
    };
    let hard_state = HardState {
        term: 3,
        vote: None,
        commit: 6,
    };
    let (node, task) =
        Runtime::new(config(Profile::Lan.config()), Ok(Some(snapshot)), hard_state, 0)
            .expect("starts");
    assert_eq!(node.applied_index(), 4);
    assert_eq!(node.metrics.applied_index(), 4);
    assert_eq!(node.metrics.commit_index(), 6);
    assert_eq!(node.metrics.apply_lag(), 2);
    assert_eq!(node.metrics.term, 3);
    assert!(!node.metrics.is_leader());
    assert_eq!(task.serve_read(&b"k".to_vec()), Some(b"v".to_vec()));
    assert_eq!(node.node_id().as_str(), "n1");
}

// ---- requests ----

#[test]
fn followers_refuse_and_say_who_leads() {
    let (mut node, _) = node();
    let seen = view(2, 0);
    for command in [
        propose(7, 1),
        Command::Read { key: b"k".to_vec() },
        Command::TransferLeader { target: None },
        Command::ConfChange {
            kind: ChangeKind::RemoveNode,
            node_id: 3,
        },
    ] {
        assert_eq!(
            node.handle_command(1, command, &seen, ROOM),
            failed(not_leader_2())
        );
    }
    // A node that leads names itself.
    let mut own = config(Profile::Lan.config());
    own.addresses
        .push((NodeId::new("n1"), "127.0.0.1:7001".to_string()));
    let (mut leader, _) =
        Runtime::new(own, Ok(None), HardState::default(), 0).expect("a new node starts");
    assert_eq!(
        leader.handle_command(1, Command::LeaderHint, &view(1, 0), ROOM),
        Action::Answer(Reply::Hint(Some((
            NodeId::new("n1"),
            "127.0.0.1:7001".to_string()
        ))))
    );
    // A leader whose address is not known is no hint.
    assert_eq!(
        node.handle_command(1, Command::LeaderHint, &view(3, 0), ROOM),
        Action::Answer(Reply::Hint(None))
    );
    assert_eq!(
        node.handle_command(1, Command::LeaderHint, &view(0, 0), ROOM),
        Action::Answer(Reply::Hint(None))
    );
}

#[test]
fn a_proposal_is_answered_once_applied() {
    let (mut node, mut task) = node();
    let seen = view(1, 10);
    let Action::Propose(cmd) = node.handle_command(5, propose(7, 1), &seen, ROOM) else {
        panic!("a leader proposes");
    };
    assert_eq!(cmd, KvStateMachine::encode_put(7, 1, b"k", b"v"));
    assert_eq!(node.proposal_result(5, session(7, 1), true, &seen), None);

    let pumped = node.stage_committed(
        None,
        VecDeque::from(vec![command_entry(1, 7, 1)]),
        ROOM,
        Some(10),
    );
    assert_eq!(pumped.next, PumpNext::Idle);
    assert_eq!(pumped.batches.len(), 1);
    // Not applied yet: no answer.
    assert!(node.settle(&vec![], &seen, ROOM).answers.is_empty());

    for batch in pumped.batches {
        assert!(task.handle(batch));
    }
    assert_eq!(node.absorb_progress(&task.progress()), None);
    assert_eq!(node.applied_index(), 1);
    assert_eq!(node.apply_backlog_bytes(), 0);
    assert_eq!(
        node.settle(&vec![], &seen, ROOM).answers,
        [answer(5, Reply::Done)]
    );
    assert!(node.settle(&vec![], &seen, ROOM).answers.is_empty());
}

#[test]
fn a_proposal_is_answered_by_its_own_entry() {
    let (mut node, _) = node();
    let seen = view(1, 0);
    node.proposal_result(5, session(7, 2), true, &seen);
    node.stage_committed(
        None,
        VecDeque::from(vec![command_entry(1, 7, 1), command_entry(2, 8, 2)]),
        ROOM,
        Some(0),
    );
    node.absorb_progress(&progress(2, 0));
    assert!(node.settle(&vec![], &seen, ROOM).answers.is_empty());
    assert_eq!(node.waiting.proposals[0].index, None);
    node.stage_committed(
        None,
        VecDeque::from(vec![command_entry(3, 7, 2)]),
        ROOM,
        Some(0),
    );
    assert_eq!(node.waiting.proposals[0].index, Some(3));
}

#[test]
fn a_dropped_proposal_is_refused() {
    let (mut node, _) = node();
    assert_eq!(
        node.proposal_result(5, session(7, 1), false, &view(2, 0)),
        Some(Reply::Failed(not_leader_2()))
    );
}

#[test]
fn a_proposal_that_waits_too_long_times_out() {
    let (mut node, _) = node();
    node.proposal_result(5, session(7, 1), true, &view(1, 10));
    let timeout = node.settings.propose_timeout_ms;
    assert!(node
        .settle(&vec![], &view(1, 10 + timeout - 1), ROOM)
        .answers
        .is_empty());
    assert_eq!(
        node.settle(&vec![], &view(1, 10 + timeout), ROOM).answers,
        [answer(5, Reply::Failed(ArachneError::Timeout))]
    );
}

#[test]
fn a_lost_leadership_is_no_verdict_on_a_proposal() {
    let (mut node, mut task) = node();
    node.proposal_result(5, session(7, 1), true, &view(1, 10));
    assert!(node.settle(&vec![], &view(2, 11), ROOM).answers.is_empty());
    // Its entry may still commit under the next leader.
    let pumped = node.stage_committed(
        None,
        VecDeque::from(vec![command_entry(1, 7, 1)]),
        ROOM,
        Some(11),
    );
    for batch in pumped.batches {
        task.handle(batch);
    }
    node.absorb_progress(&task.progress());
    assert_eq!(
        node.settle(&vec![], &view(2, 12), ROOM).answers,
        [answer(5, Reply::Done)]
    );
}

#[test]
fn too_large_a_backlog_is_busy() {
    let profile = ProfileConfig {
        proposal_queue_bytes: 10,
        ..Profile::Lan.config()
    };
    let (mut node, _) = node_with(profile);
    let seen = view(1, 0);
    node.stage_committed(
        None,
        VecDeque::from(vec![command_entry(1, 7, 1)]),
        ROOM,
        Some(0),
    );
    assert_eq!(
        node.handle_command(5, propose(7, 2), &seen, ROOM),
        failed(ArachneError::Busy)
    );
    assert_eq!(node.metrics.proposal_busy_total(), 1);
}

#[test]
fn one_membership_change_at_a_time() {
    let (mut node, _) = node();
    let seen = view(1, 0);
    let command = || Command::ConfChange {
        kind: ChangeKind::AddLearnerNode,
        node_id: 5,
    };
    let change = Change {
        kind: ChangeKind::AddLearnerNode,
        node_id: 5,
    };
    assert_eq!(
        node.handle_command(1, command(), &seen, ROOM),
        Action::ProposeChange(change)
    );
    assert_eq!(node.conf_change_result(1, change, true, &seen), None);
    assert_eq!(
        node.handle_command(2, command(), &seen, ROOM),
        failed(ArachneError::ConfChangePending)
    );
}

#[test]
fn promotion_is_gated_and_a_leader_is_not_removed() {
    let (mut node, _) = node();
    let promote = |node_id| Command::ConfChange {
        kind: ChangeKind::AddNode,
        node_id,
    };
    let mut seen = view(1, 0);
    assert_eq!(
        node.handle_command(1, promote(4), &seen, ROOM),
        Action::ProposeChange(Change {
            kind: ChangeKind::AddNode,
            node_id: 4
        })
    );
    seen.last_index = Some(1100);
    assert_eq!(
        node.handle_command(1, promote(4), &seen, ROOM),
        failed(ArachneError::LearnerNotCaughtUp {
            behind: 200,
            threshold: 128
        })
    );
    match node.handle_command(1, promote(9), &seen, ROOM) {
        Action::Answer(Reply::Failed(ArachneError::InvalidArgument(text))) => {
            assert!(text.starts_with("node 9 is not a learner"))
        }
        other => panic!("expected a refusal, got {other:?}"),
    }
    assert_eq!(
        node.handle_command(
            1,
            Command::ConfChange {
                kind: ChangeKind::RemoveNode,
                node_id: 1
            },
            &seen,
            ROOM
        ),
        failed(ArachneError::LeaderRemovalRequiresTransfer)
    );
}

#[test]
fn leadership_moves_to_the_lowest_other_voter() {
    let (mut node, _) = node();
    let seen = view(1, 0);
    assert_eq!(node.choose_transferee(&seen), Ok(2));
    assert_eq!(
        node.handle_command(1, Command::TransferLeader { target: None }, &seen, ROOM),
        Action::Transfer(2)
    );
    assert_eq!(
        node.handle_command(2, Command::TransferLeader { target: None }, &seen, ROOM),
        failed(ArachneError::ConfChangePending)
    );
    // Done once the target leads.
    assert_eq!(
        node.settle(&vec![], &view(2, 1), ROOM).answers,
        [answer(1, Reply::Done)]
    );
    let mut alone = view(1, 0);
    alone.conf = Ok(ConfState {
        voters: vec![1],
        learners: vec![],
    });
    assert_eq!(
        node.choose_transferee(&alone),
        Err(ArachneError::LeaderRemovalRequiresTransfer)
    );
}

#[test]
fn membership_is_answered_at_once() {
    let (mut node, _) = node();
    let mut seen = view(2, 0);
    assert_eq!(
        node.handle_command(1, Command::Membership, &seen, ROOM),
        Action::Answer(Reply::Members(ConfState {
            voters: vec![1, 2, 3],
            learners: vec![4]
        }))
    );
    seen.conf = Err("gone".into());
    assert_eq!(
        node.handle_command(1, Command::Membership, &seen, ROOM),
        failed(ArachneError::Unrecoverable(
            "reading the membership failed: gone".into()
        ))
    );
}

#[test]
fn a_stale_read_needs_room_only() {
    let (mut node, _) = node();
    let command = || Command::GetStale { key: b"k".to_vec() };
    let seen = view(2, 0);
    assert_eq!(
        node.handle_command(1, command(), &seen, Channel::Open(1)),
        Action::ServeRead(b"k".to_vec())
    );
    assert_eq!(
        node.handle_command(1, command(), &seen, Channel::Open(0)),
        failed(ArachneError::Busy)
    );
    assert_eq!(
        node.handle_command(1, command(), &seen, Channel::Closed),
        failed(ArachneError::ShuttingDown)
    );
}

// ---- linearizable reads ----

#[test]
fn tokens_come_back() {
    assert_eq!(token_bytes(258), [0, 0, 0, 0, 0, 0, 1, 2]);
    assert_eq!(token_of(&token_bytes(u64::MAX)), Some(u64::MAX));
    assert_eq!(token_of(&vec![1, 2, 3]), None);
}

#[test]
fn a_read_waits_for_its_round_and_for_its_index() {
    let (mut node, _) = node();
    let seen = view(1, 0);
    let Action::ReadIndex(token) =
        node.handle_command(9, Command::Read { key: b"k".to_vec() }, &seen, ROOM)
    else {
        panic!("a leader starts a round");
    };
    let confirmed = vec![ReadState {
        context: token_bytes(token),
        index: 3,
    }];
    // Confirmed at 3, applied only to 2.
    node.absorb_progress(&progress(2, 0));
    let settled = node.settle(&confirmed, &seen, ROOM);
    assert!(settled.serve.is_empty() && settled.answers.is_empty());
    node.absorb_progress(&progress(3, 0));
    let settled = node.settle(&vec![], &seen, ROOM);
    assert_eq!(settled.serve, [(9, b"k".to_vec())]);
    assert_eq!(settled.channel, Channel::Open(63));
}

#[test]
fn a_read_round_is_tried_twice() {
    let (mut node, _) = node();
    let wait = node.settings.read_index_timeout_ms;
    node.handle_command(9, Command::Read { key: b"k".to_vec() }, &view(1, 0), ROOM);
    let settled = node.settle(&vec![], &view(1, wait), ROOM);
    assert_eq!(settled.rounds.len(), 1);
    assert!(settled.answers.is_empty());
    let settled = node.settle(&vec![], &view(1, 2 * wait), ROOM);
    assert_eq!(
        settled.answers,
        [answer(9, Reply::Failed(ArachneError::Timeout))]
    );
    assert!(node
        .metrics
        .render()
        .contains("arachne_read_index_timeout_total 1\n"));
}

#[test]
fn only_so_many_reads_wait() {
    let (mut node, _) = node();
    let seen = view(1, 0);
    for ticket in 0..MAX_PENDING_READS as u64 {
        assert!(matches!(
            node.handle_command(ticket, Command::Read { key: vec![] }, &seen, ROOM),
            Action::ReadIndex(_)
        ));
    }
    assert_eq!(
        node.handle_command(1, Command::Read { key: vec![] }, &seen, ROOM),
        failed(ArachneError::Busy)
    );
}

// ---- sessions ----

#[test]
fn a_session_lives_then_is_in_grace_then_is_fresh() {
    let mut sessions = Sessions::new(100, 50, 10);
    let s = session(1, 1);
    assert_eq!(sessions.session_band(Some(0), s), SessionBand::Fresh);
    sessions.note_session(Some(1000), s);
    assert_eq!(sessions.session_band(Some(1100), s), SessionBand::Live);
    assert_eq!(sessions.session_band(Some(1101), s), SessionBand::Grace);
    assert_eq!(sessions.session_band(Some(1150), s), SessionBand::Grace);
    assert_eq!(sessions.session_band(Some(1151), s), SessionBand::Fresh);
    assert_eq!(sessions.session_band(None, s), SessionBand::Live);
}

#[test]
fn a_sweep_leaves_the_others_as_they_are() {
    let mut sessions = Sessions::new(100, 50, 10);
    sessions.note_session(Some(0), session(1, 1));
    sessions.note_session(Some(60), session(2, 1));
    // Past the first window: session 1 is swept, 2 is in its grace window.
    sessions.note_session(Some(170), session(3, 1));
    assert_eq!(sessions.last_used.len(), 2);
    assert_eq!(
        sessions.session_band(Some(170), session(1, 1)),
        SessionBand::Fresh
    );
    assert_eq!(
        sessions.session_band(Some(170), session(2, 1)),
        SessionBand::Grace
    );
}

#[test]
fn a_retry_in_the_grace_window_is_refused() {
    let profile = ProfileConfig {
        session_ttl_ms: 100,
        session_grace_period_ms: 50,
        ..Profile::Lan.config()
    };
    let (mut node, _) = node_with(profile);
    node.sessions.note_session(Some(1000), session(7, 1));
    assert_eq!(
        node.handle_command(1, propose(7, 1), &view(1, 1120), ROOM),
        failed(ArachneError::SessionExpired)
    );
    assert!(matches!(
        node.handle_command(1, propose(7, 1), &view(1, 1050), ROOM),
        Action::Propose(_)
    ));
}

#[test]
fn a_full_table_spares_live_sessions() {
    let profile = ProfileConfig {
        max_sessions: 1,
        ..Profile::Lan.config()
    };
    let (mut node, _) = node_with(profile);
    node.sessions.note_session(Some(0), session(7, 1));
    node.absorb_progress(&ApplyProgress {
        sessions: 1,
        ..progress(1, 0)
    });
    let seen = view(1, 1);
    assert_eq!(
        node.handle_command(1, propose(8, 1), &seen, ROOM),
        failed(ArachneError::SessionTableFull)
    );
    assert!(matches!(
        node.handle_command(1, propose(7, 1), &seen, ROOM),
        Action::Propose(_)
    ));
}

#[test]
fn only_what_is_past_its_grace_is_collected() {
    let profile = ProfileConfig {
        session_ttl_ms: 100,
        session_grace_period_ms: 50,
        ..Profile::Lan.config()
    };
    let (mut node, _) = node_with(profile);
    node.sessions.note_session(Some(0), session(1, 1));
    node.sessions.note_session(Some(100), session(2, 1));
    assert_eq!(node.maybe_collect_sessions(&view(2, 151)), None);
    let due = node.maybe_collect_sessions(&view(1, 151)).expect("due");
    assert_eq!(due, [session(1, 1)]);
    // Not twice within one time to live.
    assert_eq!(node.maybe_collect_sessions(&view(1, 152)), None);
    node.sessions_collected(&due);
    assert_eq!(node.sessions.last_used.len(), 1);
}

// ---- handing committed work on ----

#[test]
fn a_change_waits_for_what_precedes_it() {
    let (mut node, mut task) = node();
    let seen = view(1, 0);
    let change = Change {
        kind: ChangeKind::AddLearnerNode,
        node_id: 5,
    };
    node.conf_change_result(3, change, true, &seen);
    let pumped = node.stage_committed(
        None,
        VecDeque::from(vec![
            command_entry(1, 7, 1),
            change_entry(2, 5),
            command_entry(3, 7, 2),
        ]),
        ROOM,
        Some(0),
    );
    // The change is not reached before entry 1 is applied.
    assert_eq!(pumped.next, PumpNext::Idle);
    assert_eq!(pumped.batches.len(), 1);
    assert_eq!(pumped.batches[0].entries.len(), 1);
    for batch in pumped.batches {
        task.handle(batch);
    }
    node.absorb_progress(&task.progress());
    let pumped = node.pump_committed(ROOM, Some(0));
    assert_eq!(pumped.next, PumpNext::Change(change_entry(2, 5)));
    // The applied state steps over the change's index.
    assert_eq!(pumped.batches[0].entries, [(2, vec![])]);
    node.conf_change_applied(2);
    assert_eq!(
        node.settle(&vec![], &seen, ROOM).answers,
        [answer(3, Reply::Done)]
    );
    let pumped = node.pump_committed(ROOM, Some(0));
    assert_eq!(pumped.batches.len(), 1);
    assert_eq!(pumped.batches[0].entries[0].0, 3);
}

#[test]
fn a_full_channel_defers_and_a_closed_one_stops() {
    let (mut node, _) = node();
    node.proposal_result(5, session(7, 1), true, &view(1, 0));
    let pumped = node.stage_committed(
        None,
        VecDeque::from(vec![command_entry(1, 7, 1)]),
        Channel::Open(0),
        Some(0),
    );
    assert!(pumped.batches.is_empty());
    assert!(node.deferred.is_some());
    let pumped = node.pump_committed(Channel::Open(1), Some(0));
    assert_eq!(pumped.batches.len(), 1);
    assert!(node.deferred.is_none());

    let pumped = node.stage_committed(
        None,
        VecDeque::from(vec![command_entry(2, 7, 2)]),
        Channel::Closed,
        Some(0),
    );
    assert_eq!(pumped.next, PumpNext::Stopped);
    assert_eq!(
        pumped.answers,
        [answer(
            5,
            Reply::Failed(ArachneError::Unrecoverable(
                "the apply task stopped".into()
            ))
        )]
    );
}

#[test]
fn the_backlog_counts_what_is_queued() {
    let (mut node, _) = node();
    let entry = command_entry(1, 7, 1);
    let size = entry_size(&entry.data);
    assert_eq!(size, entry.data.len() as u64 + ENTRY_FRAMING_BYTES);
    node.stage_committed(None, VecDeque::from(vec![entry]), ROOM, Some(0));
    assert_eq!(node.apply_backlog_bytes(), size);
    node.absorb_progress(&progress(1, size));
    assert_eq!(node.apply_backlog_bytes(), 0);
}

#[test]
fn a_failed_change_or_apply_answers_everything() {
    let (mut node, _) = node();
    node.proposal_result(5, session(7, 1), true, &view(1, 0));
    assert_eq!(
        node.conf_change_failed(&"no".to_string()),
        [answer(
            5,
            Reply::Failed(ArachneError::Unrecoverable(
                "applying a ConfChange failed: no".into()
            ))
        )]
    );
    node.proposal_result(6, session(7, 2), true, &view(1, 0));
    let answers = node
        .absorb_progress(&ApplyProgress {
            failed: Some("bad entry".into()),
            ..progress(1, 0)
        })
        .expect("a failure ends the node");
    assert_eq!(answers.len(), 1);
    assert_eq!(answers[0].ticket, 6);
}

// ---- applying ----

#[test]
fn a_malformed_entry_is_the_last() {
    let (_, mut task) = node();
    let good = KvStateMachine::encode_put(1, 1, b"k", b"v");
    assert!(!task.handle(ApplyBatch {
        snapshot: None,
        entries: vec![(1, good.clone()), (2, vec![0xFF]), (3, good)],
    }));
    assert!(task.failed.is_some());
    assert_eq!(task.progress().applied_index, 1);
    assert!(task.progress().failed.is_some());
}

#[test]
fn progress_is_published_when_it_changes() {
    let (_, mut task) = node();
    let before = task.progress();
    assert_eq!(task.publish(&before), None);
    task.handle(ApplyBatch {
        snapshot: None,
        entries: vec![(1, KvStateMachine::encode_put(1, 1, b"k", b"v"))],
    });
    let after = task.publish(&before).expect("something was applied");
    assert_eq!(after.applied_index, 1);
    assert_eq!(task.publish(&after.copy()), None);
    let (index, bytes) = task.serialize();
    assert_eq!(index, 1);
    let mut restored = KvStateMachine::new();
    restored.restore(&bytes).expect("restores");
    assert_eq!(restored.get(&b"k".to_vec()), Some(b"v".to_vec()));
}

#[test]
fn a_snapshot_and_the_tail_rebuild_the_state() {
    let put = |index: u64| {
        let key = [index as u8];
        (index, KvStateMachine::encode_put(1, index, &key, b"v"))
    };
    let (_, mut straight) = node();
    assert!(straight.handle(ApplyBatch {
        snapshot: None,
        entries: vec![put(1), put(2)],
    }));
    let (index, data) = straight.serialize();
    assert!(straight.handle(ApplyBatch {
        snapshot: None,
        entries: vec![put(3)],
    }));
    let (_, mut rebuilt) = node();
    assert!(rebuilt.handle(ApplyBatch {
        snapshot: Some(Snapshot {
            meta: SnapshotMeta {
                index,
                term: 1,
                conf_state: ConfState::default(),
            },
            data,
        }),
        entries: vec![put(3)],
    }));
    assert_eq!(rebuilt.serialize(), straight.serialize());
}

#[test]
fn reads_go_first_but_not_for_ever() {
    let mut schedule = Schedule::new();
    for _ in 0..READ_BURST {
        assert_eq!(schedule.next_work(Source::Item, Source::Item), Work::Read);
    }
    assert_eq!(schedule.next_work(Source::Item, Source::Item), Work::Apply);
    assert_eq!(schedule.next_work(Source::Item, Source::Item), Work::Read);
    let mut schedule = Schedule::new();
    assert_eq!(schedule.next_work(Source::Empty, Source::Empty), Work::Wait);
    assert_eq!(schedule.next_work(Source::Closed, Source::Item), Work::Apply);
    assert_eq!(schedule.next_work(Source::Empty, Source::Closed), Work::Stop);
}

// ---- snapshots ----

#[test]
fn a_snapshot_is_taken_when_the_log_has_grown() {
    let profile = ProfileConfig {
        snapshot_threshold_bytes: 100,
        ..Profile::Lan.config()
    };
    let (mut node, _) = node_with(profile);
    node.absorb_progress(&progress(4, 99));
    assert_eq!(node.maybe_snapshot(0, &None, ROOM), SnapshotStep::Idle);
    node.absorb_progress(&progress(5, 100));
    assert_eq!(node.maybe_snapshot(0, &None, ROOM), SnapshotStep::Request);
    assert_eq!(node.maybe_snapshot(0, &None, ROOM), SnapshotStep::Idle);
    assert_eq!(node.poll_snapshot(&SnapshotPoll::Pending), PollStep::Idle);
    assert_eq!(node.poll_snapshot(&SnapshotPoll::Ready), PollStep::Create);
    assert!(!node.snapshot_taken(5, 33, SNAPSHOT_DURATION_BUDGET_MS));
    assert_eq!(node.snapshot_index, 5);
    assert_eq!(node.maybe_snapshot(0, &None, ROOM), SnapshotStep::Idle);
    assert!(node.snapshot_taken(6, 33, SNAPSHOT_DURATION_BUDGET_MS + 1));
    let text = node.metrics.render();
    assert!(text.contains("arachne_snapshots_created_total 2\n"));
    assert!(text.contains("arachne_snapshot_slow_total 1\n"));
}

#[test]
fn the_log_is_sized_now_and_then() {
    let (mut node, _) = node();
    assert!(!node.wal_sample_due(WAL_SAMPLE_INTERVAL_MS - 1));
    assert!(node.wal_sample_due(WAL_SAMPLE_INTERVAL_MS));
    node.maybe_snapshot(WAL_SAMPLE_INTERVAL_MS, &Some(Ok(77)), ROOM);
    assert_eq!(node.metrics.wal_bytes(), 77);
    assert!(!node.wal_sample_due(WAL_SAMPLE_INTERVAL_MS + 1));
}

#[test]
fn a_failed_snapshot_stops_the_node() {
    let (mut node, _) = node();
    node.proposal_result(5, session(7, 1), true, &view(1, 0));
    for (fault, text) in [
        (
            SnapshotFault::TaskStopped,
            "the apply task stopped while serializing a snapshot",
        ),
        (
            SnapshotFault::Serialize("e".into()),
            "state machine snapshot failed: e",
        ),
        (
            SnapshotFault::Term {
                index: 9,
                detail: "e".into(),
            },
            "cannot resolve the term at 9: e",
        ),
        (
            SnapshotFault::Membership("e".into()),
            "cannot read the applied membership: e",
        ),
        (
            SnapshotFault::Create("e".into()),
            "snapshot creation failed: e",
        ),
    ] {
        assert_eq!(fault.message(), text);
    }
    assert_eq!(
        node.snapshot_failed(&SnapshotFault::Create("e".into())),
        [answer(
            5,
            Reply::Failed(ArachneError::Unrecoverable(
                "snapshot creation failed: e".into()
            ))
        )]
    );
}

#[test]
fn a_fetched_snapshot_is_installed_unless_superseded() {
    let (mut node, _) = node();
    assert_eq!(node.fetch_file_name(2, 7), "arachne-snapshot-2-7-1.fetch");
    let start = node.start_snapshot_fetch(2, 7);
    assert_eq!(start.replaced, None);
    assert_eq!(start.source.unwrap().as_str(), "n2");
    let start = node.start_snapshot_fetch(3, 9);
    assert_eq!(start.replaced, Some((2, 7)));
    let bytes = encode_snapshot(&Snapshot {
        meta: SnapshotMeta {
            index: 9,
            term: 1,
            conf_state: ConfState::default(),
        },
        data: b"state".to_vec(),
    });
    assert_eq!(
        node.finish_snapshot_fetch(2, 7, Some(&bytes)),
        FetchEnd::Superseded
    );
    assert_eq!(
        node.finish_snapshot_fetch(3, 9, Some(&bytes)),
        FetchEnd::Install(b"state".to_vec())
    );
    assert!(node.fetched_snapshot_stepped(&Ok(())).is_empty());
    assert!(node
        .metrics
        .render()
        .contains("arachne_snapshots_installed_total 1\n"));
    node.start_snapshot_fetch(3, 9);
    assert_eq!(node.finish_snapshot_fetch(3, 9, None), FetchEnd::Failed);
    assert_eq!(node.start_snapshot_fetch(8, 9).source, None);
}

// ---- stopping ----

#[test]
fn stopping_answers_everything_once() {
    let (mut node, _) = node();
    let seen = view(1, 0);
    node.proposal_result(1, session(7, 1), true, &seen);
    node.conf_change_result(
        2,
        Change {
            kind: ChangeKind::RemoveNode,
            node_id: 3,
        },
        true,
        &seen,
    );
    node.handle_command(3, Command::TransferLeader { target: Some(2) }, &seen, ROOM);
    node.handle_command(4, Command::Read { key: vec![] }, &seen, ROOM);
    assert_eq!(node.on_event(&Event::Tick), None);
    let answers = node.on_event(&Event::Stop).expect("stops");
    let mut tickets: Vec<u64> = answers.iter().map(|a| a.ticket).collect();
    tickets.sort();
    assert_eq!(tickets, [1, 2, 3, 4]);
    for a in &answers {
        assert_eq!(
            a.reply,
            Reply::Failed(ArachneError::Unrecoverable("runtime stopped".into()))
        );
    }
    assert_eq!(node.on_event(&Event::CommandsClosed), Some(vec![]));
    assert_eq!(node.on_event(&Event::ProgressClosed(None)), Some(vec![]));
}

#[test]
fn a_failed_step_is_the_end() {
    let (mut node, _) = node();
    node.refresh_metrics(4, 9, 1, 2);
    assert!(node.metrics.is_leader());
    node.proposal_result(1, session(7, 1), true, &view(1, 0));
    assert_eq!(
        node.step_failed(&"x".to_string()),
        [answer(
            1,
            Reply::Failed(ArachneError::Unrecoverable("raft step failed: x".into()))
        )]
    );
    assert!(!node.metrics.is_leader());
}

#[test]
fn metrics_show_the_node() {
    let (mut node, _) = node();
    node.absorb_progress(&progress(6, 0));
    node.refresh_metrics(3, 9, 2, 5);
    assert_eq!(node.metrics.apply_lag(), 3);
    assert_eq!(node.metrics.leader_id(), 2);
    assert_eq!(node.metrics.dropped_sends(), 5);
    assert!(!node.metrics.is_leader());
    assert!(node.metrics.is_ready());
}

#[test]
fn messages_are_known_by_their_sender() {
    let (node, _) = node();
    assert_eq!(node.settings.route_inbound(&NodeId::new("n3")), Some(3));
    assert_eq!(node.settings.route_inbound(&NodeId::new("n9")), None);
}

#[test]
fn a_stopped_node_says_why() {
    let (mut fresh, _) = node();
    assert_eq!(fresh.stop_error(), ArachneError::ShuttingDown);
    let _ = fresh.on_event(&Event::Stop);
    assert_eq!(fresh.stop_error(), ArachneError::ShuttingDown);

    let (mut failed, _) = node();
    let _ = failed.step_failed(&"disk".to_string());
    let _ = failed.on_event(&Event::ProgressClosed(None));
    assert_eq!(
        failed.stop_error(),
        ArachneError::Unrecoverable("raft step failed: disk".to_string())
    );
}
