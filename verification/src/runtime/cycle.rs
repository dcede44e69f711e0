//! What a node does once per cycle: it settles what waits, collects sessions,
//! takes snapshots, and decides whether to go on.
use vstd::prelude::*;
use vstd::string::*;
use vstd::multiset::*;

use crate::consensus::node::name_of;
use crate::consensus::pipeline::ReadState;
use crate::metrics::Metrics;
use crate::runtime::command::{Answer, AnswerModel};
use crate::runtime::state::{NodeView, Runtime, RuntimeModel, ViewModel};
use crate::runtime::waiting::{Channel, ReadContext, ReadModel, WaitingModel};
use crate::state_machine::sorted::SessionKey;
use crate::storage::snapshot::decode_snapshot;
use crate::text::push_decimal;
use crate::types::{LogIndex, NodeId, RaftId};
use crate::consensus::node;
use crate::consensus::pipeline;
use crate::metrics;
use crate::runtime::command;
use crate::runtime::requests;
use crate::runtime::session;
use crate::runtime::state;
use crate::runtime::waiting;
use crate::storage::snapshot;
use crate::text;

verus! {

/// Milliseconds between two sizings of the log.
pub const WAL_SAMPLE_INTERVAL_MS: u64 = 1_000;

/// Milliseconds that taking a snapshot may cost before it counts as slow.
pub const SNAPSHOT_DURATION_BUDGET_MS: u64 = 1_000;

/// How many waiting events are folded into one cycle.
pub const CYCLE_BURST: usize = 64;

// ---------------------------------------------------------------------------
// Settling what waits
// ---------------------------------------------------------------------------
/// A counter after several more events.
pub open spec fn bumped_by(v: u64, n: nat) -> u64
    decreases n,
{
    if n == 0 {
        v
    } else {
        metrics::bumped(bumped_by(v, (n - 1) as nat))
    }
}

/// What settling comes to.
#[verifier::ext_equal]
pub struct SettledModel {
    pub node: RuntimeModel,
    pub answers: Seq<AnswerModel>,
    pub serve: Seq<(u64, Seq<u8>)>,
    pub rounds: Seq<u64>,
    pub channel: Channel,
}

/// What reads are resolved against.
pub open spec fn read_context(m: RuntimeModel, v: ViewModel) -> ReadContext {
    ReadContext {
        leads: requests::leads(m, v),
        hint: state::hinted(m.settings, v.leader_id),
        applied: m.applied_index,
        now: v.now,
        deadline: requests::read_deadline(m, v.now),
    }
}

/// Settling: confirmed reads are noted, then transfers, reads, membership
/// changes and proposals are answered as far as they can be.
pub open spec fn settled(
    m: RuntimeModel,
    states: Seq<(Seq<u8>, u64)>,
    v: ViewModel,
    reads: Channel,
) -> SettledModel {
    let hint = state::hinted(m.settings, v.leader_id);
    let me = m.settings.raft_id;
    let noted = waiting::all_confirmed(
        m.waiting.reads,
        states,
        requests::read_deadline(m, v.now),
    );
    let out = waiting::resolved(noted, m.waiting.next_token, reads, read_context(m, v));
    let first = WaitingModel {
        transfers: waiting::still_moving(m.waiting.transfers, me, v.leader_id, v.now, hint),
        reads: out.kept,
        next_token: out.next_token,
        ..m.waiting
    };
    let (last, replies) = first.replied(m.applied_index, v.now);
    SettledModel {
        node: RuntimeModel {
            waiting: last,
            metrics: Metrics {
                read_index_timeout_total: bumped_by(
                    m.metrics.read_index_timeout_total,
                    out.timeouts,
                ),
                ..m.metrics
            },
            ..m
        },
        answers: waiting::transfer_answers(m.waiting.transfers, me, v.leader_id, v.now, hint)
            + out.answers + replies,
        serve: out.serve,
        rounds: out.rounds,
        channel: out.channel,
    }
}

/// What settling comes to.
pub struct Settled {
    /// The answers.
    pub answers: Vec<Answer>,
    /// The reads that the applied state can serve: request and key.
    pub serve: Vec<(u64, Vec<u8>)>,
    /// The tokens of the read rounds to start.
    pub rounds: Vec<u64>,
    /// The room left in the channel to the applied state.
    pub channel: Channel,
}

proof fn lemma_confirmed_len(s: Seq<ReadModel>, states: Seq<(Seq<u8>, u64)>, deadline: u64)
    ensures
        waiting::all_confirmed(s, states, deadline).len() == s.len(),
        waiting::read_tickets(waiting::all_confirmed(s, states, deadline))
            == waiting::read_tickets(s),
    decreases states.len(),
{
    if states.len() > 0 {
        let before = waiting::all_confirmed(s, states.drop_last(), deadline);
        lemma_confirmed_len(s, states.drop_last(), deadline);
        if let Some(token) = waiting::context_token(states.last().0) {
            waiting::lemma_first_where(before, waiting::has_token(token));
            if let Some(i) = waiting::first_where(before, waiting::has_token(token)) {
                let r = ReadModel {
                    read_index: Some(states.last().1),
                    deadline,
                    ..before[i]
                };
                lemma_update_keeps_tickets(before, i, r);
            }
        }
    }
}

proof fn lemma_update_keeps_tickets(s: Seq<ReadModel>, i: int, r: ReadModel)
    requires
        0 <= i < s.len(),
        r.ticket == s[i].ticket,
    ensures
        waiting::read_tickets(s.update(i, r)) == waiting::read_tickets(s),
    decreases s.len(),
{
    let t = s.update(i, r);
    if i == s.len() - 1 {
        assert(t.drop_last() =~= s.drop_last());
    } else {
        lemma_update_keeps_tickets(s.drop_last(), i, r);
        assert(t.drop_last() =~= s.drop_last().update(i, r));
    }
}

impl Runtime {
    /// Settle what waits.
    pub fn settle(&mut self, states: &Vec<ReadState>, view: &NodeView, reads: Channel) -> (r:
        Settled)
        requires
            old(self)@.wf(),
            old(self)@.waiting.next_token + old(self)@.waiting.reads.len() <= u64::MAX,
        ensures
            ({
                let out = settled(
                    old(self)@,
                    pipeline::read_models(states@),
                    view@,
                    reads,
                );
                &&& final(self)@ == out.node
                &&& command::answer_models(r.answers@) == out.answers
                &&& waiting::serve_models(r.serve@) == out.serve
                &&& r.rounds@ == out.rounds
                &&& r.channel == out.channel
            }),
            final(self)@.wf(),
    {
        let ghost m = self@;
        let ghost goal = settled(m, pipeline::read_models(states@), view@, reads);
        let hint = self.settings.hint(view.leader_id);
        let deadline: u64 = view.now.saturating_add(self.settings.read_index_timeout_ms);
        proof {
            lemma_confirmed_len(m.waiting.reads, pipeline::read_models(states@), deadline);
        }
        self.waiting.record_read_states(states, deadline);
        let mut answers: Vec<Answer> = Vec::new();
        assert(command::answer_models(answers@) =~= Seq::empty());
        self.waiting.resolve_transfers(
            self.settings.raft_id,
            view.leader_id,
            view.now,
            &hint,
            &mut answers,
        );
        let ghost moved = command::answer_models(answers@);
        let mut resolved = self.waiting.resolve_reads(
            view.leader_id == self.settings.raft_id,
            &hint,
            self.applied_index,
            view.now,
            deadline,
            reads,
        );
        let ghost from_reads = command::answer_models(resolved.answers@);
        answers.append(&mut resolved.answers);
        assert(command::answer_models(answers@) =~= moved + from_reads);
        let ghost total = m.metrics.read_index_timeout_total;
        let ghost waiting_now = self@.waiting;
        let mut i: u64 = 0;
        while i < resolved.timeouts
            invariant
                i <= resolved.timeouts,
                self@.metrics == (Metrics {
                    read_index_timeout_total: bumped_by(total, i as nat),
                    ..m.metrics
                }),
                self@ == (RuntimeModel {
                    metrics: self@.metrics,
                    waiting: self@.waiting,
                    ..m
                }),
                self@.waiting == waiting_now,
            decreases resolved.timeouts - i,
        {
            self.metrics.inc_read_index_timeout();
            i = i + 1;
        }
        let applied: u64 = self.applied_index;
        self.waiting.reply_pendings(applied, view.now, &mut answers);
        assert(command::answer_models(answers@) =~= goal.answers);
        assert(self@ =~= goal.node);
        Settled {
            answers,
            serve: resolved.serve,
            rounds: resolved.rounds,
            channel: resolved.channel,
        }
    }
}

/// Settling answers each request once: what waited before waits still, is
/// answered, or is handed on to be served, one of the three.
pub proof fn law_settling_answers_once(
    m: RuntimeModel,
    states: Seq<(Seq<u8>, u64)>,
    v: ViewModel,
    reads: Channel,
)
    ensures
        ({
            let out = settled(m, states, v, reads);
            m.waiting.tickets() =~= out.node.waiting.tickets().add(
                waiting::answered(out.answers),
            ).add(waiting::serve_tickets(out.serve))
        }),
{
    let hint = state::hinted(m.settings, v.leader_id);
    let me = m.settings.raft_id;
    let deadline = requests::read_deadline(m, v.now);
    let noted = waiting::all_confirmed(m.waiting.reads, states, deadline);
    let c = read_context(m, v);
    let out = waiting::resolved(noted, m.waiting.next_token, reads, c);
    let a = waiting::transfer_answers(m.waiting.transfers, me, v.leader_id, v.now, hint);
    let b = waiting::pending_answers(m.waiting.changes, m.applied_index, v.now);
    let d = waiting::pending_answers(m.waiting.proposals, m.applied_index, v.now);
    lemma_confirmed_len(m.waiting.reads, states, deadline);
    waiting::law_transfer_answered_once(m.waiting.transfers, me, v.leader_id, v.now, hint);
    waiting::law_read_answered_once(noted, m.waiting.next_token, reads, c);
    waiting::law_pending_answered_once(m.waiting.changes, m.applied_index, v.now);
    waiting::law_pending_answered_once(m.waiting.proposals, m.applied_index, v.now);
    waiting::lemma_answered_concat(a, out.answers);
    waiting::lemma_answered_concat(b, d);
    waiting::lemma_answered_concat(a + out.answers, b + d);
}

// ---------------------------------------------------------------------------
// Collecting sessions
// ---------------------------------------------------------------------------
impl Runtime {
    /// The sessions whose removal is to be proposed now.
    pub fn maybe_collect_sessions(&mut self, view: &NodeView) -> (r: Option<Vec<SessionKey>>)
        requires
            old(self)@.wf(),
        ensures
            ({
                let leader = requests::leads(old(self)@, view@);
                let due = old(self)@.sessions.collection_due(view.clock, leader);
                &&& final(self)@ == (RuntimeModel {
                    sessions: old(self)@.sessions.considered(view.clock, leader),
                    ..old(self)@
                })
                &&& match r {
                    Some(sessions) => due && sessions@.len() > 0 && sessions@ == old(
                        self,
                    )@.sessions.collectable(view.clock->0),
                    None => due ==> old(self)@.sessions.collectable(view.clock->0).len() == 0,
                }
            }),
            final(self)@.wf(),
    {
        self.sessions.maybe_collect(view.clock, view.leader_id == self.settings.raft_id)
    }

    /// Take note that the removal of sessions was proposed.
    pub fn sessions_collected(&mut self, sessions: &Vec<SessionKey>)
        requires
            old(self)@.wf(),
        ensures
            final(self)@ == (RuntimeModel {
                sessions: session::SessionsModel {
                    used: session::forgotten(old(self)@.sessions.used, sessions@),
                    ..old(self)@.sessions
                },
                ..old(self)@
            }),
            final(self)@.wf(),
    {
        self.sessions.forget(sessions);
    }
}

// ---------------------------------------------------------------------------
// Local snapshots
// ---------------------------------------------------------------------------
/// Whether a local snapshot is due: the log has grown enough since the last one,
/// there is something newer to cover, and none is being taken.
pub open spec fn snapshot_due(m: RuntimeModel) -> bool {
    let grew = if m.applied_bytes >= m.bytes_at_snapshot {
        m.applied_bytes - m.bytes_at_snapshot
    } else {
        0
    };
    &&& m.settings.snapshot_threshold_bytes > 0
    &&& m.applied_index > m.snapshot_index
    &&& grew >= m.settings.snapshot_threshold_bytes
    &&& !m.snapshot_wait
}

/// What considering a snapshot comes to.
#[derive(Debug, PartialEq, Eq)]
pub enum SnapshotStep {
    /// Nothing to do.
    Idle,
    /// Ask for the applied state to be serialized.
    Request,
    /// The node stops, with these answers.
    Stopped(Vec<Answer>),
}

/// The node after the log was sized.
pub open spec fn sampled(m: RuntimeModel, now: u64, bytes: u64) -> RuntimeModel {
    RuntimeModel {
        last_wal_sample: now,
        metrics: Metrics { wal_bytes: bytes, ..m.metrics },
        ..m
    }
}

/// Why a local snapshot could not be taken.
#[derive(Clone, Debug, PartialEq, Eq)]
pub enum SnapshotFault {
    /// The state was not serialized: the other side is gone.
    TaskStopped,
    /// The state could not be serialized.
    Serialize(String),
    /// The term at its index could not be read.
    Term { index: LogIndex, detail: String },
    /// The membership could not be read.
    Membership(String),
    /// It could not be made durable.
    Create(String),
}

impl SnapshotFault {
    /// The text of [`SnapshotFault::message`].
    pub open spec fn text(self) -> Seq<char> {
        match self {
            SnapshotFault::TaskStopped => "the apply task stopped while serializing a snapshot"@,
            SnapshotFault::Serialize(e) => "state machine snapshot failed: "@ + e@,
            SnapshotFault::Term { index, detail } => "cannot resolve the term at "@ + text::decimal(
                index as nat,
            ) + ": "@ + detail@,
            SnapshotFault::Membership(e) => "cannot read the applied membership: "@ + e@,
            SnapshotFault::Create(e) => "snapshot creation failed: "@ + e@,
        }
    }

    /// A description of the fault.
    pub fn message(&self) -> (s: String)
        ensures
            s@ == self.text(),
    {
        let mut s = String::new();
        match self {
            SnapshotFault::TaskStopped => s.append(
                "the apply task stopped while serializing a snapshot",
            ),
            SnapshotFault::Serialize(e) => {
                s.append("state machine snapshot failed: ");
                s.append(e.as_str());
            },
            SnapshotFault::Term { index, detail } => {
                s.append("cannot resolve the term at ");
                push_decimal(&mut s, *index);
                s.append(": ");
                s.append(detail.as_str());
            },
            SnapshotFault::Membership(e) => {
                s.append("cannot read the applied membership: ");
                s.append(e.as_str());
            },
            SnapshotFault::Create(e) => {
                s.append("snapshot creation failed: ");
                s.append(e.as_str());
            },
        }
        assert(s@ =~= self.text());
        s
    }
}

/// How a serialization stands.
#[derive(Clone, Debug, PartialEq, Eq)]
pub enum SnapshotPoll {
    /// Not finished.
    Pending,
    /// Finished.
    Ready,
    /// It failed.
    Failed(SnapshotFault),
}

/// What a serialization comes to.
#[derive(Debug, PartialEq, Eq)]
pub enum PollStep {
    /// Nothing to do.
    Idle,
    /// Make the serialized state durable.
    Create,
    /// The node stops, with these answers.
    Stopped(Vec<Answer>),
}

/// The node after a local snapshot at `index` was made durable.
pub open spec fn taken(m: RuntimeModel, index: u64, size_bytes: u64, elapsed_ms: u64) -> RuntimeModel {
    RuntimeModel {
        snapshot_index: index,
        bytes_at_snapshot: m.applied_bytes,
        metrics: Metrics {
            snapshot_slow_total: if elapsed_ms > SNAPSHOT_DURATION_BUDGET_MS {
                metrics::bumped(m.metrics.snapshot_slow_total)
            } else {
                m.metrics.snapshot_slow_total
            },
            snapshot_last_duration_ms: elapsed_ms,
            snapshot_last_size_bytes: size_bytes,
            snapshots_created_total: metrics::bumped(m.metrics.snapshots_created_total),
            ..m.metrics
        },
        ..m
    }
}

impl Runtime {
    /// Whether it is time to size the log. Sizing walks the directory, so it is
    /// not done in every cycle.
    pub fn wal_sample_due(&self, now: u64) -> (r: bool)
        ensures
            r == (session::elapsed(self@.last_wal_sample, now) >= WAL_SAMPLE_INTERVAL_MS),
    {
        now.saturating_sub(self.last_wal_sample) >= WAL_SAMPLE_INTERVAL_MS
    }

    /// Consider a local snapshot. `log_bytes` is the size of the log, where it
    /// was sized in this cycle.
    pub fn maybe_snapshot(
        &mut self,
        now: u64,
        log_bytes: &Option<Result<u64, String>>,
        channel: Channel,
    ) -> (r: SnapshotStep)
        requires
            old(self)@.wf(),
        ensures
            final(self)@.wf(),
            match log_bytes {
                Some(Err(e)) => {
                    &&& final(self)@ == state::stopped(
                        (RuntimeModel { last_wal_sample: now, ..old(self)@ }),
                        "cannot size the durable log: "@ + e@,
                    )
                    &&& r matches SnapshotStep::Stopped(answers)
                    &&& command::answer_models(answers@) == old(self)@.waiting.all_failed(
                        "cannot size the durable log: "@ + e@,
                    )
                },
                _ => {
                    let m = match log_bytes {
                        Some(Ok(bytes)) => sampled(old(self)@, now, *bytes),
                        _ => old(self)@,
                    };
                    if !snapshot_due(m) || channel == Channel::Open(0) {
                        r is Idle && final(self)@ == m
                    } else if channel == Channel::Closed {
                        &&& final(self)@ == state::stopped(m, "the apply task stopped"@)
                        &&& r matches SnapshotStep::Stopped(answers)
                        &&& command::answer_models(answers@) == m.waiting.all_failed(
                            "the apply task stopped"@,
                        )
                    } else {
                        r is Request && final(self)@ == (RuntimeModel { snapshot_wait: true, ..m })
                    }
                },
            },
    {
        match log_bytes {
            None => {},
            Some(Ok(bytes)) => {
                self.last_wal_sample = now;
                self.metrics.set_wal_bytes(*bytes);
            },
            Some(Err(e)) => {
                self.last_wal_sample = now;
                let mut reason = String::new();
                reason.append("cannot size the durable log: ");
                reason.append(e.as_str());
                assert(reason@ =~= "cannot size the durable log: "@ + e@);
                return SnapshotStep::Stopped(self.fail_stop(&reason));
            },
        }
        let grew: u64 = self.applied_bytes_total.saturating_sub(self.applied_bytes_at_snapshot);
        if self.settings.snapshot_threshold_bytes == 0 || self.applied_index <= self.snapshot_index
            || grew < self.settings.snapshot_threshold_bytes || self.snapshot_wait {
            return SnapshotStep::Idle;
        }
        match channel {
            Channel::Open(room) => {
                if room > 0 {
                    self.snapshot_wait = true;
                    SnapshotStep::Request
                } else {
                    SnapshotStep::Idle
                }
            },
            Channel::Closed => {
                let mut reason = String::new();
                reason.append("the apply task stopped");
                assert(reason@ =~= "the apply task stopped"@);
                SnapshotStep::Stopped(self.fail_stop(&reason))
            },
        }
    }

    /// Take note of how a serialization stands.
    pub fn poll_snapshot(&mut self, poll: &SnapshotPoll) -> (r: PollStep)
        requires
            old(self)@.wf(),
        ensures
            final(self)@.wf(),
            if !old(self)@.snapshot_wait || poll is Pending {
                r is Idle && final(self)@ == old(self)@
            } else {
                let m = RuntimeModel { snapshot_wait: false, ..old(self)@ };
                match poll {
                    SnapshotPoll::Failed(fault) => {
                        &&& final(self)@ == state::stopped(m, fault.text())
                        &&& r matches PollStep::Stopped(answers)
                        &&& command::answer_models(answers@) == m.waiting.all_failed(fault.text())
                    },
                    _ => r is Create && final(self)@ == m,
                }
            },
    {
        if !self.snapshot_wait {
            return PollStep::Idle;
        }
        match poll {
            SnapshotPoll::Pending => PollStep::Idle,
            SnapshotPoll::Ready => {
                self.snapshot_wait = false;
                PollStep::Create
            },
            SnapshotPoll::Failed(fault) => {
                self.snapshot_wait = false;
                PollStep::Stopped(self.snapshot_failed(fault))
            },
        }
    }

    /// Stop because a local snapshot could not be taken.
    pub fn snapshot_failed(&mut self, fault: &SnapshotFault) -> (answers: Vec<Answer>)
        requires
            old(self)@.wf(),
        ensures
            final(self)@ == state::stopped(old(self)@, fault.text()),
            command::answer_models(answers@) == old(self)@.waiting.all_failed(fault.text()),
            final(self)@.wf(),
    {
        let reason = fault.message();
        self.fail_stop(&reason)
    }

    /// Take note that a local snapshot at `index` is durable; tell whether it
    /// took longer than it may.
    pub fn snapshot_taken(&mut self, index: LogIndex, size_bytes: u64, elapsed_ms: u64) -> (slow:
        bool)
        requires
            old(self)@.wf(),
        ensures
            final(self)@ == taken(old(self)@, index, size_bytes, elapsed_ms),
            slow == (elapsed_ms > SNAPSHOT_DURATION_BUDGET_MS),
            final(self)@.wf(),
    {
        let slow = elapsed_ms > SNAPSHOT_DURATION_BUDGET_MS;
        if slow {
            self.metrics.inc_snapshot_slow();
        }
        self.snapshot_index = index;
        self.applied_bytes_at_snapshot = self.applied_bytes_total;
        self.metrics.set_snapshot_last(elapsed_ms, size_bytes);
        self.metrics.inc_snapshots_created();
        slow
    }
}

/// A snapshot is not taken again before the log has grown: neither while one is
/// being taken nor right after one was.
pub proof fn law_snapshot_does_not_repeat(
    m: RuntimeModel,
    index: u64,
    size_bytes: u64,
    elapsed_ms: u64,
)
    ensures
        !snapshot_due(RuntimeModel { snapshot_wait: true, ..m }),
        !snapshot_due(taken(m, index, size_bytes, elapsed_ms)),
{
}

/// A snapshot is taken only where it covers more than the last one.
pub proof fn law_snapshot_covers_more(m: RuntimeModel)
    requires
        snapshot_due(m),
    ensures
        m.applied_index > m.snapshot_index,
        m.applied_bytes - m.bytes_at_snapshot >= m.settings.snapshot_threshold_bytes > 0,
{
}

// ---------------------------------------------------------------------------
// Snapshots from the leader
// ---------------------------------------------------------------------------
/// What to do about a snapshot whose bytes are to be fetched.
#[derive(Debug, PartialEq, Eq)]
pub struct FetchStart {
    /// The fetch in progress that it replaces: its sender and its index.
    pub replaced: Option<(RaftId, LogIndex)>,
    /// The node to fetch from; none if it is not known, and then the raft core
    /// is told that it failed.
    pub source: Option<NodeId>,
}

/// The text of the name of the file that a fetch writes.
pub open spec fn fetch_name(from: u64, index: u64, me: u64) -> Seq<char> {
    "arachne-snapshot-"@ + text::decimal(from as nat) + "-"@ + text::decimal(index as nat) + "-"@
        + text::decimal(me as nat) + ".fetch"@
}

/// What a finished fetch comes to.
#[derive(Debug, PartialEq, Eq)]
pub enum FetchEnd {
    /// Another fetch took its place: its bytes are dropped.
    Superseded,
    /// It failed: the raft core is told.
    Failed,
    /// The snapshot's data, to be handed to the raft core.
    Install(Vec<u8>),
}

impl Runtime {
    /// The name of the file that a fetch writes.
    pub fn fetch_file_name(&self, from: RaftId, index: LogIndex) -> (s: String)
        ensures
            s@ == fetch_name(from, index, self.settings.raft_id),
    {
        let mut s = String::new();
        s.append("arachne-snapshot-");
        push_decimal(&mut s, from);
        s.append("-");
        push_decimal(&mut s, index);
        s.append("-");
        push_decimal(&mut s, self.settings.raft_id);
        s.append(".fetch");
        assert(s@ =~= fetch_name(from, index, self.settings.raft_id));
        s
    }

    /// Start to fetch a snapshot. A newer one takes the place of one in
    /// progress.
    pub fn start_snapshot_fetch(&mut self, from: RaftId, index: LogIndex) -> (r: FetchStart)
        requires
            old(self)@.wf(),
        ensures
            r.replaced == old(self)@.fetch,
            match r.source {
                Some(name) => node::named(old(self)@.settings.peers@, from) == Some(name@),
                None => node::named(old(self)@.settings.peers@, from) is None,
            },
            final(self)@ == (RuntimeModel {
                fetch: if r.source is Some {
                    Some((from, index))
                } else {
                    None
                },
                ..old(self)@
            }),
            final(self)@.wf(),
    {
        let replaced = self.snapshot_fetch;
        let source = name_of(&self.settings.peers, from);
        self.snapshot_fetch = if source.is_some() {
            Some((from, index))
        } else {
            None
        };
        FetchStart { replaced, source }
    }

    /// Finish a fetch. `bytes` is the fetched file, or nothing where the
    /// transfer failed or the transport cannot fetch.
    pub fn finish_snapshot_fetch(
        &mut self,
        from: RaftId,
        index: LogIndex,
        bytes: Option<&[u8]>,
    ) -> (r: FetchEnd)
        requires
            old(self)@.wf(),
        ensures
            final(self)@.wf(),
            if old(self)@.fetch != Some((from, index)) {
                r is Superseded && final(self)@ == old(self)@
            } else {
                &&& final(self)@ == (RuntimeModel { fetch: None, ..old(self)@ })
                &&& match bytes {
                    None => r is Failed,
                    Some(file) => match snapshot::decoded_snapshot(file@) {
                        Ok(s) => r matches FetchEnd::Install(data) && data@ == s.data,
                        Err(_) => r is Failed,
                    },
                }
            },
    {
        let current = match self.snapshot_fetch {
            Some((f, i)) => f == from && i == index,
            None => false,
        };
        if !current {
            return FetchEnd::Superseded;
        }
        self.snapshot_fetch = None;
        match bytes {
            None => FetchEnd::Failed,
            Some(file) => match decode_snapshot(file) {
                Ok(s) => FetchEnd::Install(s.data),
                Err(_) => FetchEnd::Failed,
            },
        }
    }

    /// Take note of whether the raft core took a fetched snapshot. It could not
    /// go on otherwise: everything that waits is answered.
    pub fn fetched_snapshot_stepped(&mut self, result: &Result<(), String>) -> (answers: Vec<
        Answer,
    >)
        requires
            old(self)@.wf(),
        ensures
            final(self)@.wf(),
            match result {
                Ok(_) => {
                    &&& answers@.len() == 0
                    &&& final(self)@ == (RuntimeModel {
                        metrics: Metrics {
                            snapshots_installed_total: metrics::bumped(
                                old(self)@.metrics.snapshots_installed_total,
                            ),
                            ..old(self)@.metrics
                        },
                        ..old(self)@
                    })
                },
                Err(e) => {
                    &&& final(self)@ == (RuntimeModel {
                        waiting: waiting::nothing_waits(old(self)@.waiting.next_token),
                        ..old(self)@
                    })
                    &&& command::answer_models(answers@) == old(self)@.waiting.all_failed(
                        "stepping a fetched snapshot failed: "@ + e@,
                    )
                },
            },
    {
        match result {
            Ok(_) => {
                self.metrics.inc_snapshots_installed();
                Vec::new()
            },
            Err(e) => {
                let mut reason = String::new();
                reason.append("stepping a fetched snapshot failed: ");
                reason.append(e.as_str());
                assert(reason@ =~= "stepping a fetched snapshot failed: "@ + e@);
                self.fail_all_pending(&reason)
            },
        }
    }
}

// ---------------------------------------------------------------------------
// Going on or stopping
// ---------------------------------------------------------------------------
/// What wakes a node.
#[derive(Clone, Debug, PartialEq, Eq)]
pub enum Event {
    /// The owner asks it to stop.
    Stop,
    /// Time has passed.
    Tick,
    /// Work was applied.
    Progress,
    /// The task that applies is gone, for this reason if it left one.
    ProgressClosed(Option<String>),
    /// A flush landed.
    Durability,
    /// A request came.
    Command,
    /// No more requests will come.
    CommandsClosed,
    /// A message came.
    Inbound,
    /// No more messages will come.
    InboundClosed,
    /// A fetch finished.
    Fetched,
    /// No more fetches will finish.
    FetchesClosed,
}

impl Runtime {
    /// Stop because the raft core's cycle failed.
    pub fn step_failed(&mut self, detail: &String) -> (answers: Vec<Answer>)
        requires
            old(self)@.wf(),
        ensures
            final(self)@ == state::stopped(old(self)@, "raft step failed: "@ + detail@),
            command::answer_models(answers@) == old(self)@.waiting.all_failed(
                "raft step failed: "@ + detail@,
            ),
            final(self)@.wf(),
    {
        let mut reason = String::new();
        reason.append("raft step failed: ");
        reason.append(detail.as_str());
        assert(reason@ =~= "raft step failed: "@ + detail@);
        self.fail_stop(&reason)
    }
}

/// Why an event ends the node, if it does.
pub open spec fn end_reason(event: Event) -> Option<Seq<char>> {
    match event {
        Event::Stop => Some("runtime stopped"@),
        Event::CommandsClosed => Some("runtime stopped"@),
        Event::InboundClosed => Some("runtime stopped"@),
        Event::ProgressClosed(Some(reason)) => Some(reason@),
        Event::ProgressClosed(None) => Some("the apply task stopped"@),
        _ => None,
    }
}

impl Runtime {
    /// Decide whether an event ends the node; if it does, everything that waits
    /// is answered. Where the task that applies is gone, the node also leads no
    /// more.
    pub fn on_event(&mut self, event: &Event) -> (r: Option<Vec<Answer>>)
        requires
            old(self)@.wf(),
        ensures
            final(self)@.wf(),
            match end_reason(*event) {
                None => r is None && final(self)@ == old(self)@,
                Some(reason) => {
                    &&& r matches Some(answers)
                    &&& command::answer_models(answers@) == old(self)@.waiting.all_failed(reason)
                    &&& final(self)@ == if event is ProgressClosed {
                        state::stopped(old(self)@, reason)
                    } else {
                        RuntimeModel {
                            waiting: waiting::nothing_waits(old(self)@.waiting.next_token),
                            ..old(self)@
                        }
                    }
                },
            },
    {
        let mut reason = String::new();
        match event {
            Event::Stop => reason.append("runtime stopped"),
            Event::CommandsClosed => reason.append("runtime stopped"),
            Event::InboundClosed => reason.append("runtime stopped"),
            Event::ProgressClosed(Some(why)) => {
                reason.append(why.as_str());
                assert(reason@ =~= why@);
                return Some(self.fail_stop(&reason));
            },
            Event::ProgressClosed(None) => {
                reason.append("the apply task stopped");
                assert(reason@ =~= "the apply task stopped"@);
                return Some(self.fail_stop(&reason));
            },
            _ => {
                return None;
            },
        }
        assert(reason@ =~= "runtime stopped"@);
        Some(self.fail_all_pending(&reason))
    }
}

} // verus!
