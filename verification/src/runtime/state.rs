//! The state of a node, and what it observes of its surroundings.
use std::collections::VecDeque;

use vstd::prelude::*;
use vstd::string::*;

use crate::client::{ArachneError, ErrorModel, HintModel, LeaderHint};
use crate::consensus::node::{at_least_one, name_of, NodeError};
use crate::consensus::pipeline::{CommittedEntry, CommittedModel};
use crate::metrics::Metrics;
use crate::profile::ProfileConfig;
use crate::runtime::apply::{ApplyBatch, ApplyTask, BatchModel, TaskModel};
use crate::runtime::command::Answer;
use crate::runtime::session::{Sessions, SessionsModel};
use crate::runtime::waiting::{Waiting, WaitingModel};
use crate::state_machine::kv::KvStateMachine;
use crate::text::{push_decimal, same_text};
use crate::types::{ConfModel, ConfState, HardState, LogIndex, NodeId, RaftId, Snapshot};
use crate::client;
use crate::consensus::node;
use crate::consensus::pipeline;
use crate::metrics;
use crate::runtime::apply;
use crate::runtime::command;
use crate::runtime::waiting;
use crate::state_machine::kv;
use crate::text;

verus! {

/// What a node is started with.
pub struct RuntimeConfig {
    /// This node's id.
    pub self_raft_id: RaftId,
    /// This node's name.
    pub self_node_id: NodeId,
    /// The other members it starts with.
    pub peers: Vec<(RaftId, NodeId)>,
    /// Where members are reached.
    pub addresses: Vec<(NodeId, String)>,
    /// The tuning.
    pub profile: ProfileConfig,
    /// How many entries a learner may be behind when it is promoted.
    pub promote_lag_entries: u64,
}

/// What does not change while a node runs.
pub struct Settings {
    pub raft_id: RaftId,
    pub node: NodeId,
    pub peers: Vec<(RaftId, NodeId)>,
    pub addresses: Vec<(NodeId, String)>,
    /// Committed bytes that may wait to be applied.
    pub proposal_queue_bytes: u64,
    /// How many entries a learner may be behind when it is promoted.
    pub promote_lag_entries: u64,
    /// How long a read waits for a round, and for the index to be applied.
    pub read_index_timeout_ms: u64,
    /// How long a proposal waits.
    pub propose_timeout_ms: u64,
    /// Log growth that triggers a snapshot; 0: never.
    pub snapshot_threshold_bytes: u64,
    /// Milliseconds between ticks.
    pub tick_ms: u64,
}

/// A node.
pub struct Runtime {
    pub settings: Settings,
    pub metrics: Metrics,
    /// The requests that wait.
    pub waiting: Waiting,
    /// The sessions, while this node leads.
    pub sessions: Sessions,
    /// Committed entries that were not handed on yet, in log order.
    pub committed_queue: VecDeque<CommittedEntry>,
    /// A batch that the channel had no room for.
    pub deferred: Option<ApplyBatch>,
    /// The applied index.
    pub applied_index: LogIndex,
    /// Bytes applied.
    pub applied_bytes_total: u64,
    /// Bytes handed on to be applied.
    pub sent_bytes_total: u64,
    /// Sessions in the state machine's table.
    pub live_sessions: u64,
    /// Whether a local snapshot is being serialized.
    pub snapshot_wait: bool,
    /// When the log was last sized.
    pub last_wal_sample: u64,
    /// Bytes applied at the last snapshot.
    pub applied_bytes_at_snapshot: u64,
    /// The index of the last snapshot.
    pub snapshot_index: LogIndex,
    /// The snapshot that is being fetched: its sender and its index.
    pub snapshot_fetch: Option<(RaftId, LogIndex)>,
    /// Why the node stopped for good, once it has.
    pub fatal: Option<String>,
}

/// A node as a mathematical value.
#[verifier::ext_equal]
pub struct RuntimeModel {
    pub settings: Settings,
    pub metrics: Metrics,
    pub waiting: WaitingModel,
    pub sessions: SessionsModel,
    pub queue: Seq<CommittedModel>,
    pub deferred: Option<BatchModel>,
    pub applied_index: u64,
    pub applied_bytes: u64,
    pub sent_bytes: u64,
    pub live_sessions: u64,
    pub snapshot_wait: bool,
    pub last_wal_sample: u64,
    pub bytes_at_snapshot: u64,
    pub snapshot_index: u64,
    pub fetch: Option<(u64, u64)>,
    pub fatal: Option<Seq<char>>,
}

/// The value of an optional batch.
pub open spec fn batch_model(b: Option<ApplyBatch>) -> Option<BatchModel> {
    match b {
        Some(batch) => Some(batch@),
        None => None,
    }
}

impl View for Runtime {
    type V = RuntimeModel;

    open spec fn view(&self) -> RuntimeModel {
        RuntimeModel {
            settings: self.settings,
            metrics: self.metrics,
            waiting: self.waiting@,
            sessions: self.sessions@,
            queue: pipeline::committed_models(self.committed_queue@),
            deferred: batch_model(self.deferred),
            applied_index: self.applied_index,
            applied_bytes: self.applied_bytes_total,
            sent_bytes: self.sent_bytes_total,
            live_sessions: self.live_sessions,
            snapshot_wait: self.snapshot_wait,
            last_wal_sample: self.last_wal_sample,
            bytes_at_snapshot: self.applied_bytes_at_snapshot,
            snapshot_index: self.snapshot_index,
            fetch: self.snapshot_fetch,
            fatal: apply::text_model(self.fatal),
        }
    }
}

impl RuntimeModel {
    /// The node's invariant.
    pub open spec fn wf(self) -> bool {
        &&& self.waiting.wf()
        &&& self.sessions.wf()
    }

    /// Bytes that are committed but not applied.
    pub open spec fn backlog(self) -> u64 {
        if self.sent_bytes >= self.applied_bytes {
            (self.sent_bytes - self.applied_bytes) as u64
        } else {
            0
        }
    }
}

/// What a node observes when it decides.
pub struct NodeView {
    /// The leader's id; 0 when none is known.
    pub leader_id: RaftId,
    /// The time, in milliseconds.
    pub now: u64,
    /// The time on the clock that sessions are measured by, if there is one.
    pub clock: Option<u64>,
    /// The applied membership, or why it cannot be read.
    pub conf: Result<ConfState, String>,
    /// The last index of the durable log, if it can be read.
    pub last_index: Option<LogIndex>,
    /// How far each tracked member has matched the log.
    pub matched: Vec<(RaftId, LogIndex)>,
}

/// An observation as a mathematical value.
#[verifier::ext_equal]
pub struct ViewModel {
    pub leader_id: u64,
    pub now: u64,
    pub clock: Option<u64>,
    pub conf: Result<ConfModel, Seq<char>>,
    pub last_index: Option<u64>,
    pub matched: Seq<(u64, u64)>,
}

impl View for NodeView {
    type V = ViewModel;

    open spec fn view(&self) -> ViewModel {
        ViewModel {
            leader_id: self.leader_id,
            now: self.now,
            clock: self.clock,
            conf: match self.conf {
                Ok(conf) => Ok(conf@),
                Err(e) => Err(e@),
            },
            last_index: self.last_index,
            matched: self.matched@,
        }
    }
}

// ---------------------------------------------------------------------------
// Where the leader is
// ---------------------------------------------------------------------------
/// Where a node is reached.
pub open spec fn address_of(addresses: Seq<(NodeId, String)>, name: Seq<char>) -> Option<Seq<char>>
    decreases addresses.len(),
{
    if addresses.len() == 0 {
        None
    } else if addresses[0].0@ == name {
        Some(addresses[0].1@)
    } else {
        address_of(addresses.drop_first(), name)
    }
}

fn find_address(addresses: &Vec<(NodeId, String)>, name: &NodeId) -> (r: Option<String>)
    ensures
        apply::text_model(r) == address_of(addresses@, name@),
{
    let n: usize = addresses.len();
    let mut i: usize = 0;
    assert(addresses@.subrange(0, n as int) =~= addresses@);
    while i < n
        invariant
            i <= n,
            n == addresses@.len(),
            address_of(addresses@, name@) == address_of(
                addresses@.subrange(i as int, n as int),
                name@,
            ),
        decreases n - i,
    {
        assert(addresses@.subrange(i as int, n as int).drop_first() =~= addresses@.subrange(
            i + 1,
            n as int,
        ));
        if same_text(addresses[i].0.as_str(), name.as_str()) {
            return Some(addresses[i].1.clone());
        }
        i = i + 1;
    }
    None
}

/// The name of the node with a raft id: this node itself, or a peer.
pub open spec fn member_name(s: Settings, id: u64) -> Option<Seq<char>> {
    if id == s.raft_id {
        Some(s.node@)
    } else {
        node::named(s.peers@, id)
    }
}

/// Where the leader is thought to be: nowhere unless it is known, is this node
/// or a peer, and has an address.
pub open spec fn hinted(s: Settings, leader: u64) -> HintModel {
    if leader == 0 {
        None
    } else {
        match member_name(s, leader) {
            None => None,
            Some(name) => match address_of(s.addresses@, name) {
                None => None,
                Some(address) => Some((name, address)),
            },
        }
    }
}

impl Settings {
    /// Where the leader is thought to be.
    pub fn hint(&self, leader: RaftId) -> (r: LeaderHint)
        ensures
            client::hint_model(r) == hinted(*self, leader),
    {
        if leader == 0 {
            return None;
        }
        let name = if leader == self.raft_id {
            Some(self.node.copy())
        } else {
            name_of(&self.peers, leader)
        };
        match name {
            None => None,
            Some(name) => match find_address(&self.addresses, &name) {
                None => None,
                Some(address) => Some((name, address)),
            },
        }
    }
}

/// The id that belongs to a name.
pub open spec fn id_of(peers: Seq<(RaftId, NodeId)>, name: Seq<char>) -> Option<u64>
    decreases peers.len(),
{
    if peers.len() == 0 {
        None
    } else if peers[0].1@ == name {
        Some(peers[0].0)
    } else {
        id_of(peers.drop_first(), name)
    }
}

impl Settings {
    /// The id of the peer that a message came from; a message from anybody else
    /// is dropped.
    pub fn route_inbound(&self, from: &NodeId) -> (r: Option<RaftId>)
        ensures
            r == id_of(self.peers@, from@),
    {
        let peers = &self.peers;
        let n: usize = peers.len();
        let mut i: usize = 0;
        assert(peers@.subrange(0, n as int) =~= peers@);
        while i < n
            invariant
                i <= n,
                n == peers@.len(),
                peers@ == self.peers@,
                id_of(peers@, from@) == id_of(peers@.subrange(i as int, n as int), from@),
            decreases n - i,
        {
            assert(peers@.subrange(i as int, n as int).drop_first() =~= peers@.subrange(
                i + 1,
                n as int,
            ));
            if same_text(peers[i].1.as_str(), from.as_str()) {
                return Some(peers[i].0);
            }
            i = i + 1;
        }
        None
    }
}

// ---------------------------------------------------------------------------
// Starting and stopping
// ---------------------------------------------------------------------------
/// The settings that a configuration comes to.
pub open spec fn settings_of(c: RuntimeConfig, s: Settings) -> bool {
    &&& s.raft_id == c.self_raft_id
    &&& s.node == c.self_node_id
    &&& s.peers == c.peers
    &&& s.addresses == c.addresses
    &&& s.proposal_queue_bytes == c.profile.proposal_queue_bytes
    &&& s.promote_lag_entries == c.promote_lag_entries
    &&& s.read_index_timeout_ms == node::max(c.profile.read_index_timeout_ms, 1)
    &&& s.propose_timeout_ms == node::max(c.profile.election_timeout_ms, 1)
    &&& s.snapshot_threshold_bytes == c.profile.snapshot_threshold_bytes
    &&& s.tick_ms == node::max(c.profile.heartbeat_interval_ms, 1)
}

/// A node that has just started, with a state machine restored up to `applied`
/// from a snapshot at `snapshot_index`. Its metrics show what it starts with; it
/// knows no leader yet.
pub open spec fn started(
    settings: Settings,
    profile: ProfileConfig,
    applied: u64,
    snapshot_index: u64,
    hard_state: HardState,
    now: u64,
) -> RuntimeModel {
    let blank = RuntimeModel {
        settings,
        metrics: metrics::zero_metrics(),
        waiting: waiting::nothing_waits(0),
        sessions: SessionsModel {
            ttl_ms: profile.session_ttl_ms,
            grace_ms: profile.session_grace_period_ms,
            max_sessions: profile.max_sessions,
            used: Seq::empty(),
            next_sweep: 0,
            next_gc: 0,
        },
        queue: Seq::empty(),
        deferred: None,
        applied_index: applied,
        applied_bytes: 0,
        sent_bytes: 0,
        live_sessions: 0,
        snapshot_wait: false,
        last_wal_sample: now,
        bytes_at_snapshot: 0,
        snapshot_index,
        fetch: None,
        fatal: None,
    };
    RuntimeModel {
        metrics: refreshed(blank, hard_state.term, hard_state.commit, 0, 0),
        ..blank
    }
}

impl Runtime {
    /// Start a node: rebuild the applied state from the durable snapshot, if
    /// there is one, before any entry is delivered. `hard_state` is the durable
    /// one.
    pub fn new(
        config: RuntimeConfig,
        snapshot: Result<Option<Snapshot>, String>,
        hard_state: HardState,
        now: u64,
    ) -> (r: Result<(Runtime, ApplyTask), NodeError>)
        ensures
            match snapshot {
                Err(e) => r matches Err(NodeError::Storage(detail)) && detail@
                    == "cannot read the durable snapshot: "@ + e@,
                Ok(None) => r matches Ok(v) && settings_of(config, v.0.settings) && v.0@ == started(
                    v.0.settings,
                    config.profile,
                    0,
                    0,
                    hard_state,
                    now,
                ) && v.1@ == (TaskModel { sm: kv::new_state(), bytes: 0, failed: None }),
                Ok(Some(s)) => {
                    let (sm, ok) = kv::restored(kv::new_state(), s.data@);
                    if ok {
                        r matches Ok(v) && settings_of(config, v.0.settings) && v.0@ == started(
                            v.0.settings,
                            config.profile,
                            sm.applied,
                            s.meta.index,
                            hard_state,
                            now,
                        ) && v.1@ == (TaskModel { sm, bytes: 0, failed: None })
                    } else {
                        r matches Err(NodeError::StateMachine(detail)) && detail@
                            == "cannot restore the state machine from the snapshot at "@
                            + text::decimal(s.meta.index as nat) + ": "@
                            + kv::KvError::MalformedSnapshot.text()
                    }
                },
            },
            r matches Ok(v) ==> v.0@.wf() && v.1@.sm.wf() && v.0@.metrics.applied_index
                == v.0@.applied_index,
    {
        let mut sm = KvStateMachine::new();
        let mut snapshot_index: u64 = 0;
        match snapshot {
            Err(e) => {
                let mut s = String::new();
                s.append("cannot read the durable snapshot: ");
                s.append(e.as_str());
                assert(s@ =~= "cannot read the durable snapshot: "@ + e@);
                return Err(NodeError::Storage(s));
            },
            Ok(None) => {},
            Ok(Some(found)) => {
                snapshot_index = found.meta.index;
                match sm.restore(found.data.as_slice()) {
                    Ok(_) => {},
                    Err(e) => {
                        let mut s = String::new();
                        s.append("cannot restore the state machine from the snapshot at ");
                        push_decimal(&mut s, found.meta.index);
                        s.append(": ");
                        let why = e.message();
                        s.append(why.as_str());
                        assert(s@ =~= "cannot restore the state machine from the snapshot at "@
                            + text::decimal(found.meta.index as nat) + ": "@ + e.text());
                        return Err(NodeError::StateMachine(s));
                    },
                }
            },
        }
        let profile = config.profile;
        let settings = Settings {
            raft_id: config.self_raft_id,
            node: config.self_node_id,
            peers: config.peers,
            addresses: config.addresses,
            proposal_queue_bytes: profile.proposal_queue_bytes,
            promote_lag_entries: config.promote_lag_entries,
            read_index_timeout_ms: at_least_one(profile.read_index_timeout_ms),
            propose_timeout_ms: at_least_one(profile.election_timeout_ms),
            snapshot_threshold_bytes: profile.snapshot_threshold_bytes,
            tick_ms: at_least_one(profile.heartbeat_interval_ms),
        };
        let mut runtime = Runtime {
            settings,
            metrics: Metrics::new(),
            waiting: Waiting::new(),
            sessions: Sessions::new(
                profile.session_ttl_ms,
                profile.session_grace_period_ms,
                profile.max_sessions,
            ),
            committed_queue: VecDeque::new(),
            deferred: None,
            applied_index: sm.applied_index(),
            applied_bytes_total: 0,
            sent_bytes_total: 0,
            live_sessions: 0,
            snapshot_wait: false,
            last_wal_sample: now,
            applied_bytes_at_snapshot: 0,
            snapshot_index,
            snapshot_fetch: None,
            fatal: None,
        };
        runtime.refresh_metrics(hard_state.term, hard_state.commit, 0, 0);
        assert(runtime@ =~= started(
            runtime.settings,
            profile,
            sm@.applied,
            snapshot_index,
            hard_state,
            now,
        ));
        Ok((runtime, ApplyTask::new(sm)))
    }

    /// This node's name.
    pub fn node_id(&self) -> (r: &NodeId)
        ensures
            *r == self.settings.node,
    {
        &self.settings.node
    }

    /// The applied index.
    pub fn applied_index(&self) -> (r: LogIndex)
        ensures
            r == self@.applied_index,
    {
        self.applied_index
    }

    /// Bytes that are committed but not applied.
    pub fn apply_backlog_bytes(&self) -> (r: u64)
        ensures
            r == self@.backlog(),
    {
        self.sent_bytes_total.saturating_sub(self.applied_bytes_total)
    }

    /// Answer everything that waits with the same failure.
    pub fn fail_all_pending(&mut self, message: &String) -> (answers: Vec<Answer>)
        ensures
            final(self)@ == (RuntimeModel {
                waiting: waiting::nothing_waits(old(self)@.waiting.next_token),
                ..old(self)@
            }),
            command::answer_models(answers@) == old(self)@.waiting.all_failed(message@),
            old(self)@.wf() ==> final(self)@.wf(),
    {
        let ghost m = self@;
        let mut answers: Vec<Answer> = Vec::new();
        assert(command::answer_models(answers@) =~= Seq::empty());
        self.waiting.fail_all_pending(message, &mut answers);
        assert(command::answer_models(answers@) =~= m.waiting.all_failed(message@));
        answers
    }

    /// Stop for good: answer everything that waits, and lead no more. The reason
    /// of the first such stop stays.
    pub fn fail_stop(&mut self, message: &String) -> (answers: Vec<Answer>)
        ensures
            final(self)@ == stopped(old(self)@, message@),
            command::answer_models(answers@) == old(self)@.waiting.all_failed(message@),
            old(self)@.wf() ==> final(self)@.wf(),
    {
        let answers = self.fail_all_pending(message);
        self.metrics.set_is_leader(false);
        if self.fatal.is_none() {
            self.fatal = Some(message.clone());
        }
        answers
    }

    /// What a request is answered once this node has stopped.
    pub fn stop_error(&self) -> (e: ArachneError)
        ensures
            e@ == stop_answer(self@),
    {
        match &self.fatal {
            Some(reason) => ArachneError::Unrecoverable(reason.clone()),
            None => ArachneError::ShuttingDown,
        }
    }

    /// Record the gauges.
    pub fn refresh_metrics(
        &mut self,
        term: u64,
        commit: LogIndex,
        leader_id: RaftId,
        dropped_sends: u64,
    )
        ensures
            final(self)@ == (RuntimeModel {
                metrics: refreshed(old(self)@, term, commit, leader_id, dropped_sends),
                ..old(self)@
            }),
    {
        let reads: usize = self.waiting.reads.len();
        self.metrics.set_term(term);
        self.metrics.set_commit_index(commit);
        self.metrics.set_applied_index(self.applied_index);
        let backlog: u64 = self.apply_backlog_bytes();
        self.metrics.set_apply_backlog(commit.saturating_sub(self.applied_index), backlog);
        self.metrics.set_leader_id(leader_id);
        self.metrics.set_is_leader(leader_id == self.settings.raft_id);
        self.metrics.set_dropped_sends(dropped_sends);
        self.metrics.set_read_index_pending(reads as u64);
    }
}

/// A node that has stopped for good.
pub open spec fn stopped(m: RuntimeModel, reason: Seq<char>) -> RuntimeModel {
    RuntimeModel {
        waiting: waiting::nothing_waits(m.waiting.next_token),
        metrics: Metrics { is_leader: 0, ..m.metrics },
        fatal: match m.fatal {
            Some(first) => Some(first),
            None => Some(reason),
        },
        ..m
    }
}

/// What a request is answered once a node has stopped: why, if it stopped for
/// good, and that it is shutting down otherwise.
pub open spec fn stop_answer(m: RuntimeModel) -> ErrorModel {
    match m.fatal {
        Some(reason) => ErrorModel::Unrecoverable(reason),
        None => ErrorModel::ShuttingDown,
    }
}

/// A node that stopped for good answers every later request with the reason of its
/// first stop, whatever stops it again.
pub proof fn law_fatal_stop_is_final(m: RuntimeModel, first: Seq<char>, later: Seq<char>)
    requires
        m.fatal is None,
    ensures
        stop_answer(m) == ErrorModel::ShuttingDown,
        stop_answer(stopped(m, first)) == ErrorModel::Unrecoverable(first),
        stop_answer(stopped(stopped(m, first), later)) == ErrorModel::Unrecoverable(first),
{
}

/// The gauges of a node.
pub open spec fn refreshed(
    m: RuntimeModel,
    term: u64,
    commit: u64,
    leader_id: u64,
    dropped_sends: u64,
) -> Metrics {
    Metrics {
        term,
        commit_index: commit,
        applied_index: m.applied_index,
        apply_lag: if commit >= m.applied_index {
            (commit - m.applied_index) as u64
        } else {
            0
        },
        apply_backlog_bytes: m.backlog(),
        leader_id,
        is_leader: if leader_id == m.settings.raft_id {
            1
        } else {
            0
        },
        dropped_sends,
        read_index_pending: m.waiting.reads.len() as u64,
        ..m.metrics
    }
}

} // verus!
