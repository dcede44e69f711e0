//! What a request comes to: an answer at once, or something to do first.
use vstd::prelude::*;
use vstd::string::*;

use crate::client::{ArachneError, ErrorModel};
use crate::consensus::conf_change::{Change, ChangeKind};
use crate::consensus::node::{learner_caught_up, learner_progress};
use crate::metrics::Metrics;
use crate::runtime::command::{Command, CommandModel, Reply, ReplyModel};
use crate::runtime::session::SessionBand;
use crate::runtime::state::{NodeView, Runtime, RuntimeModel, ViewModel};
use crate::runtime::waiting::{
    Channel, Pending, PendingRead, PendingTransfer, ReadModel, WaitingModel, MAX_PENDING_READS,
};
use crate::state_machine::sorted::SessionKey;
use crate::text::push_decimal;
use crate::types::{LogIndex, RaftId};
use crate::client::handle;
use crate::consensus::node;
use crate::metrics;
use crate::runtime::state;
use crate::runtime::waiting;
use crate::text;

verus! {

/// What is to be done for a request.
#[derive(Debug, PartialEq, Eq)]
pub enum Action {
    /// Answer it.
    Answer(Reply),
    /// Propose a command; see [`Runtime::proposal_result`].
    Propose(Vec<u8>),
    /// Propose a membership change; see [`Runtime::conf_change_result`].
    ProposeChange(Change),
    /// Ask the raft core to move leadership; the request waits.
    Transfer(RaftId),
    /// Start a read round with this token; the request waits.
    ReadIndex(u64),
    /// Serve it from the applied state.
    ServeRead(Vec<u8>),
}

/// What is to be done, as a mathematical value.
#[verifier::ext_equal]
pub enum ActionModel {
    Answer(ReplyModel),
    Propose(Seq<u8>),
    ProposeChange(Change),
    Transfer(u64),
    ReadIndex(u64),
    ServeRead(Seq<u8>),
}

impl View for Action {
    type V = ActionModel;

    open spec fn view(&self) -> ActionModel {
        match *self {
            Action::Answer(reply) => ActionModel::Answer(reply@),
            Action::Propose(cmd) => ActionModel::Propose(cmd@),
            Action::ProposeChange(change) => ActionModel::ProposeChange(change),
            Action::Transfer(target) => ActionModel::Transfer(target),
            Action::ReadIndex(token) => ActionModel::ReadIndex(token),
            Action::ServeRead(key) => ActionModel::ServeRead(key@),
        }
    }
}

/// The refusal with an error.
pub open spec fn refusal(e: ErrorModel) -> ActionModel {
    ActionModel::Answer(ReplyModel::Failed(e))
}

/// The refusal of a node that does not lead.
pub open spec fn not_leader(m: RuntimeModel, v: ViewModel) -> ErrorModel {
    ErrorModel::NotLeader(state::hinted(m.settings, v.leader_id))
}

/// Whether this node leads.
pub open spec fn leads(m: RuntimeModel, v: ViewModel) -> bool {
    v.leader_id == m.settings.raft_id
}

/// When a wait that starts now is over.
pub open spec fn propose_deadline(m: RuntimeModel, v: ViewModel) -> u64 {
    handle::capped_add(v.now, m.settings.propose_timeout_ms)
}

/// When a read round that starts now is over.
pub open spec fn read_deadline(m: RuntimeModel, now: u64) -> u64 {
    handle::capped_add(now, m.settings.read_index_timeout_ms)
}

/// Why a proposal is turned away: this node does not lead; too much waits to be
/// applied; its session is in the grace window; or it would be one session too
/// many. In this order.
pub open spec fn proposal_fault(m: RuntimeModel, session: SessionKey, v: ViewModel) -> Option<
    ErrorModel,
> {
    let band = m.sessions.band(v.clock, session);
    if !leads(m, v) {
        Some(not_leader(m, v))
    } else if m.backlog() >= m.settings.proposal_queue_bytes {
        Some(ErrorModel::Busy)
    } else if band == SessionBand::Grace {
        Some(ErrorModel::SessionExpired)
    } else if band == SessionBand::Fresh && m.sessions.max_sessions > 0 && m.live_sessions
        >= m.sessions.max_sessions {
        Some(ErrorModel::SessionTableFull)
    } else {
        None
    }
}

/// The lowest id of a list other than one's own.
pub open spec fn lowest_other(ids: Seq<u64>, me: u64) -> Option<u64>
    decreases ids.len(),
{
    if ids.len() == 0 {
        None
    } else {
        let last = ids.last();
        match lowest_other(ids.drop_last(), me) {
            None => if last == me {
                None
            } else {
                Some(last)
            },
            Some(low) => if last != me && last < low {
                Some(last)
            } else {
                Some(low)
            },
        }
    }
}

fn find_lowest_other(ids: &Vec<u64>, me: u64) -> (r: Option<u64>)
    ensures
        r == lowest_other(ids@, me),
{
    let n: usize = ids.len();
    let mut low: Option<u64> = None;
    let mut i: usize = 0;
    while i < n
        invariant
            i <= n,
            n == ids@.len(),
            low == lowest_other(ids@.subrange(0, i as int), me),
        decreases n - i,
    {
        let ghost next = ids@.subrange(0, i + 1);
        assert(next.drop_last() =~= ids@.subrange(0, i as int));
        assert(next.last() == ids@[i as int]);
        let id: u64 = ids[i];
        if id != me {
            low = match low {
                None => Some(id),
                Some(l) => if id < l {
                    Some(id)
                } else {
                    Some(l)
                },
            };
        }
        i = i + 1;
    }
    assert(ids@.subrange(0, n as int) =~= ids@);
    low
}

/// Whom leadership goes to when no one is named: the lowest other voter.
pub open spec fn transferee(m: RuntimeModel, v: ViewModel) -> Result<u64, ErrorModel> {
    match v.conf {
        Err(e) => Err(ErrorModel::Unrecoverable("reading the voter set failed: "@ + e)),
        Ok(conf) => match lowest_other(conf.voters, m.settings.raft_id) {
            Some(id) => Ok(id),
            None => Err(ErrorModel::LeaderRemovalRequiresTransfer),
        },
    }
}

/// The match index of a tracked member.
pub open spec fn matched_of(s: Seq<(u64, u64)>, id: u64) -> Option<u64>
    decreases s.len(),
{
    if s.len() == 0 {
        None
    } else if s[0].0 == id {
        Some(s[0].1)
    } else {
        matched_of(s.drop_first(), id)
    }
}

fn find_matched(s: &Vec<(RaftId, LogIndex)>, id: RaftId) -> (r: Option<u64>)
    ensures
        r == matched_of(s@, id),
{
    let n: usize = s.len();
    let mut i: usize = 0;
    assert(s@.subrange(0, n as int) =~= s@);
    while i < n
        invariant
            i <= n,
            n == s@.len(),
            matched_of(s@, id) == matched_of(s@.subrange(i as int, n as int), id),
        decreases n - i,
    {
        assert(s@.subrange(i as int, n as int).drop_first() =~= s@.subrange(i + 1, n as int));
        if s[i].0 == id {
            return Some(s[i].1);
        }
        i = i + 1;
    }
    None
}

/// How far a member is behind and whether it ever answered; one that is not
/// tracked is as far behind as can be.
pub open spec fn progress_of(v: ViewModel, id: u64) -> (u64, bool) {
    match (v.last_index, matched_of(v.matched, id)) {
        (Some(last), Some(matched)) => node::progress(last, matched),
        _ => (u64::MAX, false),
    }
}

/// The text that a node is no learner.
pub open spec fn no_learner(id: u64) -> Seq<char> {
    "node "@ + text::decimal(id as nat)
        + " is not a learner in the applied configuration; add it first with add_learner"@
}

/// Why a membership change is turned away: this node does not lead; a leader
/// would be removed; who is to vote is no learner, or one that has not caught
/// up; or another change is under way. In this order.
pub open spec fn change_fault(m: RuntimeModel, change: Change, v: ViewModel) -> Option<ErrorModel> {
    let (behind, has_acked) = progress_of(v, change.node_id);
    if !leads(m, v) {
        Some(not_leader(m, v))
    } else if change.kind == ChangeKind::RemoveNode && change.node_id == m.settings.raft_id {
        Some(ErrorModel::LeaderRemovalRequiresTransfer)
    } else if change.kind == ChangeKind::AddNode && v.conf is Err {
        Some(ErrorModel::Unrecoverable("reading the membership failed: "@ + v.conf->Err_0))
    } else if change.kind == ChangeKind::AddNode && !v.conf->Ok_0.learners.contains(
        change.node_id,
    ) {
        Some(ErrorModel::InvalidArgument(no_learner(change.node_id)))
    } else if change.kind == ChangeKind::AddNode && !(has_acked && behind
        <= m.settings.promote_lag_entries) {
        Some(
            ErrorModel::LearnerNotCaughtUp { behind, threshold: m.settings.promote_lag_entries },
        )
    } else if m.waiting.changes.len() > 0 {
        Some(ErrorModel::ConfChangePending)
    } else {
        None
    }
}

/// What a request comes to, and the node after it.
pub open spec fn handled(
    m: RuntimeModel,
    ticket: u64,
    command: CommandModel,
    v: ViewModel,
    reads: Channel,
) -> (RuntimeModel, ActionModel) {
    match command {
        CommandModel::Propose { cmd, client_id, seq_no } => {
            match proposal_fault(m, SessionKey { client_id, seq_no }, v) {
                Some(e) => (
                    RuntimeModel {
                        metrics: if e == ErrorModel::Busy {
                            Metrics {
                                proposal_busy_total: metrics::bumped(
                                    m.metrics.proposal_busy_total,
                                ),
                                ..m.metrics
                            }
                        } else {
                            m.metrics
                        },
                        ..m
                    },
                    refusal(e),
                ),
                None => (m, ActionModel::Propose(cmd)),
            }
        },
        CommandModel::Membership => (
            m,
            match v.conf {
                Ok(conf) => ActionModel::Answer(ReplyModel::Members(conf)),
                Err(e) => refusal(
                    ErrorModel::Unrecoverable("reading the membership failed: "@ + e),
                ),
            },
        ),
        CommandModel::TransferLeader { target } => {
            if !leads(m, v) {
                (m, refusal(not_leader(m, v)))
            } else if m.waiting.transfers.len() > 0 {
                (m, refusal(ErrorModel::ConfChangePending))
            } else {
                match (target, transferee(m, v)) {
                    (None, Err(e)) => (m, refusal(e)),
                    (None, Ok(id)) => moving(m, ticket, id, v),
                    (Some(id), _) => moving(m, ticket, id, v),
                }
            }
        },
        CommandModel::ConfChange { kind, node_id } => {
            match change_fault(m, Change { kind, node_id }, v) {
                Some(e) => (m, refusal(e)),
                None => (m, ActionModel::ProposeChange(Change { kind, node_id })),
            }
        },
        CommandModel::GetStale { key } => (
            m,
            match reads {
                Channel::Open(room) => if room > 0 {
                    ActionModel::ServeRead(key)
                } else {
                    refusal(ErrorModel::Busy)
                },
                Channel::Closed => refusal(ErrorModel::ShuttingDown),
            },
        ),
        CommandModel::Read { key } => {
            if !leads(m, v) {
                (m, refusal(not_leader(m, v)))
            } else if m.waiting.reads.len() >= MAX_PENDING_READS {
                (m, refusal(ErrorModel::Busy))
            } else {
                (
                    RuntimeModel {
                        waiting: WaitingModel {
                            reads: m.waiting.reads.push(
                                ReadModel {
                                    token: m.waiting.next_token,
                                    key,
                                    ticket,
                                    deadline: read_deadline(m, v.now),
                                    read_index: None,
                                    attempts: 1,
                                },
                            ),
                            next_token: (m.waiting.next_token + 1) as u64,
                            ..m.waiting
                        },
                        ..m
                    },
                    ActionModel::ReadIndex(m.waiting.next_token),
                )
            }
        },
        CommandModel::LeaderHint => (
            m,
            ActionModel::Answer(ReplyModel::Hint(state::hinted(m.settings, v.leader_id))),
        ),
    }
}

/// A transfer that starts, and the node after it.
pub open spec fn moving(m: RuntimeModel, ticket: u64, target: u64, v: ViewModel) -> (
    RuntimeModel,
    ActionModel,
) {
    (
        RuntimeModel {
            waiting: WaitingModel {
                transfers: m.waiting.transfers.push(
                    PendingTransfer { target, ticket, deadline: propose_deadline(m, v) },
                ),
                ..m.waiting
            },
            ..m
        },
        ActionModel::Transfer(target),
    )
}

/// What the outcome of a proposal comes to: accepted, it waits for its entry;
/// dropped, this node no longer leads.
pub open spec fn proposed(
    m: RuntimeModel,
    ticket: u64,
    session: SessionKey,
    accepted: bool,
    v: ViewModel,
) -> (RuntimeModel, Option<ReplyModel>) {
    if accepted {
        (
            RuntimeModel {
                waiting: WaitingModel {
                    proposals: m.waiting.proposals.push(
                        Pending {
                            what: session,
                            ticket,
                            deadline: propose_deadline(m, v),
                            index: None,
                        },
                    ),
                    ..m.waiting
                },
                ..m
            },
            None,
        )
    } else {
        (m, Some(ReplyModel::Failed(not_leader(m, v))))
    }
}

/// What the outcome of a proposed membership change comes to.
pub open spec fn change_proposed(
    m: RuntimeModel,
    ticket: u64,
    change: Change,
    accepted: bool,
    v: ViewModel,
) -> (RuntimeModel, Option<ReplyModel>) {
    if accepted {
        (
            RuntimeModel {
                waiting: WaitingModel {
                    changes: m.waiting.changes.push(
                        Pending {
                            what: change,
                            ticket,
                            deadline: propose_deadline(m, v),
                            index: None,
                        },
                    ),
                    ..m.waiting
                },
                ..m
            },
            None,
        )
    } else {
        (m, Some(ReplyModel::Failed(not_leader(m, v))))
    }
}

/// A text in front of a detail.
fn with_detail(text: &str, detail: &String) -> (s: String)
    ensures
        s@ == text@ + detail@,
{
    let mut s = String::new();
    s.append(text);
    s.append(detail.as_str());
    assert(s@ =~= text@ + detail@);
    s
}

fn has_id(ids: &Vec<u64>, id: u64) -> (r: bool)
    ensures
        r == ids@.contains(id),
{
    let n: usize = ids.len();
    let mut i: usize = 0;
    while i < n
        invariant
            i <= n,
            n == ids@.len(),
            forall|k: int| 0 <= k < i ==> ids@[k] != id,
        decreases n - i,
    {
        if ids[i] == id {
            assert(ids@[i as int] == id);
            return true;
        }
        i = i + 1;
    }
    false
}

impl Runtime {
    fn refuse_not_leader(&self, view: &NodeView) -> (r: Reply)
        ensures
            r@ == ReplyModel::Failed(not_leader(self@, view@)),
    {
        Reply::Failed(
            ArachneError::NotLeader { leader_hint: self.settings.hint(view.leader_id) },
        )
    }

    /// Whom leadership goes to when no one is named.
    pub fn choose_transferee(&self, view: &NodeView) -> (r: Result<RaftId, ArachneError>)
        ensures
            match r {
                Ok(id) => transferee(self@, view@) == Ok::<u64, ErrorModel>(id),
                Err(e) => transferee(self@, view@) == Err::<u64, ErrorModel>(e@),
            },
    {
        match &view.conf {
            Err(e) => Err(
                ArachneError::Unrecoverable(with_detail("reading the voter set failed: ", e)),
            ),
            Ok(conf) => match find_lowest_other(&conf.voters, self.settings.raft_id) {
                Some(id) => Ok(id),
                None => Err(ArachneError::LeaderRemovalRequiresTransfer),
            },
        }
    }

    fn check_proposal(&self, session: SessionKey, view: &NodeView) -> (r: Option<ArachneError>)
        requires
            self@.wf(),
        ensures
            match r {
                Some(e) => proposal_fault(self@, session, view@) == Some(e@),
                None => proposal_fault(self@, session, view@) is None,
            },
    {
        if view.leader_id != self.settings.raft_id {
            return Some(
                ArachneError::NotLeader { leader_hint: self.settings.hint(view.leader_id) },
            );
        }
        if self.apply_backlog_bytes() >= self.settings.proposal_queue_bytes {
            return Some(ArachneError::Busy);
        }
        let band = self.sessions.session_band(view.clock, session);
        if band == SessionBand::Grace {
            return Some(ArachneError::SessionExpired);
        }
        if band == SessionBand::Fresh && self.sessions.max_sessions > 0 && self.live_sessions
            >= self.sessions.max_sessions {
            return Some(ArachneError::SessionTableFull);
        }
        None
    }

    fn check_change(&self, change: Change, view: &NodeView) -> (r: Option<ArachneError>)
        ensures
            match r {
                Some(e) => change_fault(self@, change, view@) == Some(e@),
                None => change_fault(self@, change, view@) is None,
            },
    {
        if view.leader_id != self.settings.raft_id {
            return Some(
                ArachneError::NotLeader { leader_hint: self.settings.hint(view.leader_id) },
            );
        }
        if change.kind == ChangeKind::RemoveNode && change.node_id == self.settings.raft_id {
            return Some(ArachneError::LeaderRemovalRequiresTransfer);
        }
        if change.kind == ChangeKind::AddNode {
            match &view.conf {
                Err(e) => {
                    return Some(
                        ArachneError::Unrecoverable(
                            with_detail("reading the membership failed: ", e),
                        ),
                    );
                },
                Ok(conf) => {
                    if !has_id(&conf.learners, change.node_id) {
                        let mut s = String::new();
                        s.append("node ");
                        push_decimal(&mut s, change.node_id);
                        s.append(
                            " is not a learner in the applied configuration; add it first with add_learner",
                        );
                        assert(s@ =~= no_learner(change.node_id));
                        return Some(ArachneError::InvalidArgument(s));
                    }
                },
            }
            let (behind, has_acked) = match view.last_index {
                None => (u64::MAX, false),
                Some(last) => match find_matched(&view.matched, change.node_id) {
                    None => (u64::MAX, false),
                    Some(matched) => learner_progress(last, matched),
                },
            };
            if !learner_caught_up(behind, has_acked, self.settings.promote_lag_entries) {
                return Some(
                    ArachneError::LearnerNotCaughtUp {
                        behind,
                        threshold: self.settings.promote_lag_entries,
                    },
                );
            }
        }
        if self.waiting.changes.len() > 0 {
            return Some(ArachneError::ConfChangePending);
        }
        None
    }

    fn start_transfer(&mut self, ticket: u64, target: RaftId, view: &NodeView) -> (r: Action)
        ensures
            final(self)@ == moving(old(self)@, ticket, target, view@).0,
            r@ == moving(old(self)@, ticket, target, view@).1,
    {
        let deadline: u64 = view.now.saturating_add(self.settings.propose_timeout_ms);
        self.waiting.transfers.push(PendingTransfer { target, ticket, deadline });
        Action::Transfer(target)
    }

    /// Take a request.
    pub fn handle_command(
        &mut self,
        ticket: u64,
        command: Command,
        view: &NodeView,
        reads: Channel,
    ) -> (r: Action)
        requires
            old(self)@.wf(),
            command is Read ==> old(self)@.waiting.next_token < u64::MAX,
        ensures
            final(self)@ == handled(old(self)@, ticket, command@, view@, reads).0,
            r@ == handled(old(self)@, ticket, command@, view@, reads).1,
            final(self)@.wf(),
    {
        let ghost m = self@;
        match command {
            Command::Propose { cmd, client_id, seq_no } => {
                let session = SessionKey { client_id, seq_no };
                match self.check_proposal(session, view) {
                    Some(e) => {
                        let busy = match &e {
                            ArachneError::Busy => true,
                            _ => false,
                        };
                        if busy {
                            self.metrics.inc_proposal_busy();
                        }
                        Action::Answer(Reply::Failed(e))
                    },
                    None => Action::Propose(cmd),
                }
            },
            Command::Membership => match &view.conf {
                Ok(conf) => Action::Answer(Reply::Members(conf.clone())),
                Err(e) => Action::Answer(
                    Reply::Failed(
                        ArachneError::Unrecoverable(
                            with_detail("reading the membership failed: ", e),
                        ),
                    ),
                ),
            },
            Command::TransferLeader { target } => {
                if view.leader_id != self.settings.raft_id {
                    return Action::Answer(self.refuse_not_leader(view));
                }
                if self.waiting.transfers.len() > 0 {
                    return Action::Answer(Reply::Failed(ArachneError::ConfChangePending));
                }
                match target {
                    Some(id) => self.start_transfer(ticket, id, view),
                    None => match self.choose_transferee(view) {
                        Err(e) => Action::Answer(Reply::Failed(e)),
                        Ok(id) => self.start_transfer(ticket, id, view),
                    },
                }
            },
            Command::ConfChange { kind, node_id } => {
                let change = Change { kind, node_id };
                match self.check_change(change, view) {
                    Some(e) => Action::Answer(Reply::Failed(e)),
                    None => Action::ProposeChange(change),
                }
            },
            Command::GetStale { key } => match reads {
                Channel::Open(room) => {
                    if room > 0 {
                        Action::ServeRead(key)
                    } else {
                        Action::Answer(Reply::Failed(ArachneError::Busy))
                    }
                },
                Channel::Closed => Action::Answer(Reply::Failed(ArachneError::ShuttingDown)),
            },
            Command::Read { key } => {
                if view.leader_id != self.settings.raft_id {
                    return Action::Answer(self.refuse_not_leader(view));
                }
                if self.waiting.reads.len() >= MAX_PENDING_READS {
                    return Action::Answer(Reply::Failed(ArachneError::Busy));
                }
                let token: u64 = self.waiting.next_token;
                let deadline: u64 = view.now.saturating_add(self.settings.read_index_timeout_ms);
                self.waiting.next_token = token + 1;
                let ghost before = m.waiting.reads;
                self.waiting.reads.push_back(
                    PendingRead { token, key, ticket, deadline, read_index: None, attempts: 1 },
                );
                assert(waiting::read_models(self.waiting.reads@) =~= handled(
                    m,
                    ticket,
                    CommandModel::Read { key: key@ },
                    view@,
                    reads,
                ).0.waiting.reads);
                Action::ReadIndex(token)
            },
            Command::LeaderHint => Action::Answer(
                Reply::Hint(self.settings.hint(view.leader_id)),
            ),
        }
    }

    /// Take note of whether a proposal was accepted.
    pub fn proposal_result(
        &mut self,
        ticket: u64,
        session: SessionKey,
        accepted: bool,
        view: &NodeView,
    ) -> (r: Option<Reply>)
        requires
            old(self)@.wf(),
        ensures
            final(self)@ == proposed(old(self)@, ticket, session, accepted, view@).0,
            match r {
                Some(reply) => proposed(old(self)@, ticket, session, accepted, view@).1 == Some(
                    reply@,
                ),
                None => proposed(old(self)@, ticket, session, accepted, view@).1 is None,
            },
            final(self)@.wf(),
    {
        if accepted {
            let deadline: u64 = view.now.saturating_add(self.settings.propose_timeout_ms);
            self.waiting.proposals.push(Pending { what: session, ticket, deadline, index: None });
            None
        } else {
            Some(self.refuse_not_leader(view))
        }
    }

    /// Take note of whether a membership change was accepted.
    pub fn conf_change_result(
        &mut self,
        ticket: u64,
        change: Change,
        accepted: bool,
        view: &NodeView,
    ) -> (r: Option<Reply>)
        requires
            old(self)@.wf(),
        ensures
            final(self)@ == change_proposed(old(self)@, ticket, change, accepted, view@).0,
            match r {
                Some(reply) => change_proposed(old(self)@, ticket, change, accepted, view@).1
                    == Some(reply@),
                None => change_proposed(old(self)@, ticket, change, accepted, view@).1 is None,
            },
            final(self)@.wf(),
    {
        if accepted {
            let deadline: u64 = view.now.saturating_add(self.settings.propose_timeout_ms);
            self.waiting.changes.push(Pending { what: change, ticket, deadline, index: None });
            None
        } else {
            Some(self.refuse_not_leader(view))
        }
    }
}

// ---------------------------------------------------------------------------
// Laws
// ---------------------------------------------------------------------------
/// A node that does not lead refuses what only a leader can do, says where the
/// leader is thought to be, and changes nothing; it serves stale reads, the
/// membership and the hint all the same.
pub proof fn law_followers_refuse(
    m: RuntimeModel,
    ticket: u64,
    command: CommandModel,
    v: ViewModel,
    reads: Channel,
)
    requires
        !leads(m, v),
    ensures
        handled(m, ticket, command, v, reads).0 == m,
        command is Propose || command is ConfChange || command is TransferLeader || command is Read
            ==> handled(m, ticket, command, v, reads).1 == refusal(not_leader(m, v)),
        match command {
            CommandModel::GetStale { key } => reads matches Channel::Open(room) && room > 0
                ==> handled(m, ticket, command, v, reads).1 == ActionModel::ServeRead(key),
            CommandModel::Membership => v.conf matches Ok(conf) ==> handled(
                m,
                ticket,
                command,
                v,
                reads,
            ).1 == ActionModel::Answer(ReplyModel::Members(conf)),
            CommandModel::LeaderHint => handled(m, ticket, command, v, reads).1
                == ActionModel::Answer(ReplyModel::Hint(state::hinted(m.settings, v.leader_id))),
            _ => true,
        },
{
}

/// A command is proposed only by a leader whose backlog is below its bound, and
/// never in the grace window of its session.
pub proof fn law_proposals_are_admitted(
    m: RuntimeModel,
    ticket: u64,
    cmd: Seq<u8>,
    session: SessionKey,
    v: ViewModel,
    reads: Channel,
)
    ensures
        ({
            let command = CommandModel::Propose {
                cmd,
                client_id: session.client_id,
                seq_no: session.seq_no,
            };
            let action = handled(m, ticket, command, v, reads).1;
            let band = m.sessions.band(v.clock, session);
            &&& action is Propose <==> {
                &&& leads(m, v)
                &&& m.backlog() < m.settings.proposal_queue_bytes
                &&& band != SessionBand::Grace
                &&& band == SessionBand::Fresh && m.sessions.max_sessions > 0 ==> m.live_sessions
                    < m.sessions.max_sessions
            }
            &&& action matches ActionModel::Propose(c) ==> c == cmd
        }),
{
    let key = SessionKey { client_id: session.client_id, seq_no: session.seq_no };
    assert(key == session);
}

/// A full session table turns away new sessions only: a live one goes on.
pub proof fn law_full_table_spares_live_sessions(
    m: RuntimeModel,
    session: SessionKey,
    v: ViewModel,
)
    requires
        m.sessions.band(v.clock, session) == SessionBand::Live,
    ensures
        proposal_fault(m, session, v) != Some(ErrorModel::SessionTableFull),
        proposal_fault(m, session, v) != Some(ErrorModel::SessionExpired),
{
}

/// A membership change is proposed only while no other is under way; once it is
/// accepted, it is the only one.
pub proof fn law_one_change_at_a_time(
    m: RuntimeModel,
    ticket: u64,
    kind: ChangeKind,
    node_id: u64,
    v: ViewModel,
    reads: Channel,
)
    ensures
        ({
            let (next, action) = handled(
                m,
                ticket,
                CommandModel::ConfChange { kind, node_id },
                v,
                reads,
            );
            action is ProposeChange ==> {
                &&& m.waiting.changes.len() == 0
                &&& change_proposed(
                    next,
                    ticket,
                    Change { kind, node_id },
                    true,
                    v,
                ).0.waiting.changes.len() == 1
            }
        }),
{
}

/// A leadership transfer starts only while no other is under way.
pub proof fn law_one_transfer_at_a_time(
    m: RuntimeModel,
    ticket: u64,
    target: Option<u64>,
    v: ViewModel,
    reads: Channel,
)
    ensures
        ({
            let (next, action) = handled(
                m,
                ticket,
                CommandModel::TransferLeader { target },
                v,
                reads,
            );
            &&& action is Transfer ==> m.waiting.transfers.len() == 0
                && next.waiting.transfers.len() == 1
            &&& leads(m, v) && m.waiting.transfers.len() > 0 ==> action == refusal(
                ErrorModel::ConfChangePending,
            )
        }),
{
}

/// A leader is never removed directly.
pub proof fn law_leader_is_not_removed(
    m: RuntimeModel,
    ticket: u64,
    v: ViewModel,
    reads: Channel,
)
    requires
        leads(m, v),
    ensures
        handled(
            m,
            ticket,
            CommandModel::ConfChange {
                kind: ChangeKind::RemoveNode,
                node_id: m.settings.raft_id,
            },
            v,
            reads,
        ) == (m, refusal(ErrorModel::LeaderRemovalRequiresTransfer)),
{
}

/// A node is let vote only if it is a learner that has answered and is close
/// enough behind.
pub proof fn law_promotion_is_gated(
    m: RuntimeModel,
    ticket: u64,
    node_id: u64,
    v: ViewModel,
    reads: Channel,
)
    requires
        handled(
            m,
            ticket,
            CommandModel::ConfChange { kind: ChangeKind::AddNode, node_id },
            v,
            reads,
        ).1 is ProposeChange,
    ensures
        v.conf matches Ok(conf) && conf.learners.contains(node_id),
        v.last_index is Some,
        matched_of(v.matched, node_id) matches Some(matched) && matched > 0 && v.last_index->0
            - matched <= m.settings.promote_lag_entries,
{
}

/// The lowest other id of a list is one of it, not one's own, and no other id is
/// lower.
pub proof fn lemma_lowest_other(ids: Seq<u64>, me: u64)
    ensures
        match lowest_other(ids, me) {
            Some(low) => ids.contains(low) && low != me && forall|i: int|
                0 <= i < ids.len() && ids[i] != me ==> low <= #[trigger] ids[i],
            None => forall|i: int| 0 <= i < ids.len() ==> #[trigger] ids[i] == me,
        },
    decreases ids.len(),
{
    if ids.len() > 0 {
        let init = ids.drop_last();
        lemma_lowest_other(init, me);
        assert(ids[ids.len() - 1] == ids.last());
        match lowest_other(ids, me) {
            Some(low) => {
                if low != ids.last() {
                    let k = choose|k: int| 0 <= k < init.len() && init[k] == low;
                    assert(ids[k] == low);
                }
                assert forall|i: int| 0 <= i < ids.len() && ids[i] != me implies low
                    <= #[trigger] ids[i] by {
                    if i < init.len() {
                        assert(init[i] == ids[i]);
                    }
                }
            },
            None => {
                assert forall|i: int| 0 <= i < ids.len() implies #[trigger] ids[i] == me by {
                    if i < init.len() {
                        assert(init[i] == ids[i]);
                    }
                }
            },
        }
    }
}

/// Without a named target leadership goes to the lowest other voter; it has
/// nowhere to go exactly where there is no other voter.
pub proof fn law_transferee_is_lowest_other_voter(m: RuntimeModel, v: ViewModel)
    requires
        v.conf is Ok,
    ensures
        match transferee(m, v) {
            Ok(id) => v.conf->Ok_0.voters.contains(id) && id != m.settings.raft_id && forall|i: int|
                0 <= i < v.conf->Ok_0.voters.len() && v.conf->Ok_0.voters[i] != m.settings.raft_id
                    ==> id <= #[trigger] v.conf->Ok_0.voters[i],
            Err(e) => e == ErrorModel::LeaderRemovalRequiresTransfer && forall|i: int|
                0 <= i < v.conf->Ok_0.voters.len() ==> #[trigger] v.conf->Ok_0.voters[i]
                    == m.settings.raft_id,
        },
{
    lemma_lowest_other(v.conf->Ok_0.voters, m.settings.raft_id);
}

/// A request is answered at once or waits from then on, never both; one that
/// asks for a proposal waits once that is accepted and is answered once it is
/// not.
pub proof fn law_request_is_answered_or_waits(
    m: RuntimeModel,
    ticket: u64,
    command: CommandModel,
    v: ViewModel,
    reads: Channel,
    accepted: bool,
)
    ensures
        ({
            let (next, action) = handled(m, ticket, command, v, reads);
            match action {
                ActionModel::Answer(_) => next.waiting == m.waiting,
                ActionModel::ServeRead(_) => next.waiting == m.waiting,
                ActionModel::Transfer(_) => next.waiting.tickets() =~= m.waiting.tickets().insert(
                    ticket,
                ),
                ActionModel::ReadIndex(_) => next.waiting.tickets() =~= m.waiting.tickets().insert(
                    ticket,
                ),
                ActionModel::Propose(_) => {
                    let (after, reply) = proposed(
                        next,
                        ticket,
                        SessionKey {
                            client_id: command->client_id,
                            seq_no: command->seq_no,
                        },
                        accepted,
                        v,
                    );
                    if accepted {
                        reply is None && after.waiting.tickets() =~= m.waiting.tickets().insert(
                            ticket,
                        )
                    } else {
                        reply is Some && after.waiting == m.waiting
                    }
                },
                ActionModel::ProposeChange(change) => {
                    let (after, reply) = change_proposed(next, ticket, change, accepted, v);
                    if accepted {
                        reply is None && after.waiting.tickets() =~= m.waiting.tickets().insert(
                            ticket,
                        )
                    } else {
                        reply is Some && after.waiting == m.waiting
                    }
                },
            }
        }),
{
    let (next, action) = handled(m, ticket, command, v, reads);
    match action {
        ActionModel::Transfer(_) => {
            assert(next.waiting.transfers.drop_last() =~= m.waiting.transfers);
        },
        ActionModel::ReadIndex(_) => {
            assert(next.waiting.reads.drop_last() =~= m.waiting.reads);
        },
        ActionModel::Propose(_) => {
            let session = SessionKey { client_id: command->client_id, seq_no: command->seq_no };
            let after = proposed(next, ticket, session, true, v).0;
            assert(after.waiting.proposals.drop_last() =~= m.waiting.proposals);
        },
        ActionModel::ProposeChange(change) => {
            let after = change_proposed(next, ticket, change, true, v).0;
            assert(after.waiting.changes.drop_last() =~= m.waiting.changes);
        },
        _ => {},
    }
}

} // verus!
