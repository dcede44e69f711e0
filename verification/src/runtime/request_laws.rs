//! What every request is owed: which action it comes to, for whom, and what it
//! leaves behind.
use vstd::prelude::*;

use crate::client::ErrorModel;
use crate::consensus::conf_change::{Change, ChangeKind};
use crate::metrics::Metrics;
use crate::runtime::command::{CommandModel, ReplyModel};
use crate::runtime::requests::{Action, ActionModel};
use crate::runtime::session::SessionBand;
use crate::runtime::state::{RuntimeModel, ViewModel};
use crate::runtime::waiting::{Channel, WaitingModel};
use crate::state_machine::sorted::SessionKey;
use crate::runtime::requests;
use crate::runtime::state;

verus! {

/// An action that turns a request away with an error.
pub open spec fn refuses(action: ActionModel, e: ErrorModel) -> bool {
    action == ActionModel::Answer(ReplyModel::Failed(e))
}

/// Whether `when` is `wait` milliseconds after `now`, or the end of time where
/// there is no such moment.
pub open spec fn is_due(when: u64, now: u64, wait: u64) -> bool {
    if now + wait <= u64::MAX {
        when == now + wait
    } else {
        when == u64::MAX
    }
}

/// Whether the first report on a member says that it has matched the log up to
/// `matched`.
pub open spec fn reported(v: ViewModel, id: u64, matched: u64) -> bool {
    exists|k: int|
        0 <= k < v.matched.len() && #[trigger] v.matched[k] == (id, matched) && forall|j: int|
            0 <= j < k ==> (#[trigger] v.matched[j]).0 != id
}

/// Whether nothing was reported on a member.
pub open spec fn unreported(v: ViewModel, id: u64) -> bool {
    forall|k: int| 0 <= k < v.matched.len() ==> (#[trigger] v.matched[k]).0 != id
}

/// Whether a member has answered and is close enough to the end of the log.
pub open spec fn caught_up(m: RuntimeModel, v: ViewModel, id: u64) -> bool {
    exists|matched: u64| #[trigger]
        reported(v, id, matched) && matched > 0 && v.last_index is Some && v.last_index->0
            <= matched + m.settings.promote_lag_entries
}

proof fn lemma_matched_of(s: Seq<(u64, u64)>, id: u64)
    ensures
        match requests::matched_of(s, id) {
            Some(matched) => exists|k: int|
                0 <= k < s.len() && #[trigger] s[k] == (id, matched) && forall|j: int|
                    0 <= j < k ==> (#[trigger] s[j]).0 != id,
            None => forall|k: int| 0 <= k < s.len() ==> (#[trigger] s[k]).0 != id,
        },
    decreases s.len(),
{
    if s.len() > 0 {
        let rest = s.drop_first();
        lemma_matched_of(rest, id);
        if s[0].0 == id {
            assert(s[0] == (id, s[0].1));
        } else {
            match requests::matched_of(rest, id) {
                Some(matched) => {
                    let k = choose|k: int|
                        0 <= k < rest.len() && #[trigger] rest[k] == (id, matched) && forall|j: int|
                            0 <= j < k ==> (#[trigger] rest[j]).0 != id;
                    assert(s[k + 1] == (id, matched));
                    assert forall|j: int| 0 <= j < k + 1 implies (#[trigger] s[j]).0 != id by {
                        if j > 0 {
                            assert(s[j] == rest[j - 1]);
                        }
                    }
                },
                None => {
                    assert forall|k: int| 0 <= k < s.len() implies (#[trigger] s[k]).0 != id by {
                        if k > 0 {
                            assert(s[k] == rest[k - 1]);
                        }
                    }
                },
            }
        }
    }
}

proof fn lemma_one_report(v: ViewModel, id: u64, a: u64, b: u64)
    requires
        reported(v, id, a),
        reported(v, id, b),
    ensures
        a == b,
{
    let i = choose|k: int|
        0 <= k < v.matched.len() && #[trigger] v.matched[k] == (id, a) && forall|j: int|
            0 <= j < k ==> (#[trigger] v.matched[j]).0 != id;
    let j = choose|k: int|
        0 <= k < v.matched.len() && #[trigger] v.matched[k] == (id, b) && forall|j: int|
            0 <= j < k ==> (#[trigger] v.matched[j]).0 != id;
    assert(v.matched[i].0 == id && v.matched[j].0 == id);
}

/// A membership change that is proposed is the one that was asked for: the same
/// kind, for the same node. It is proposed exactly where this node leads, no
/// other change is under way, and the change itself is in order: a leader is not
/// removed, and only a learner that has caught up is let vote. Asking changes
/// nothing yet.
pub proof fn law_change_is_proposed_as_asked(
    m: RuntimeModel,
    ticket: u64,
    kind: ChangeKind,
    node_id: u64,
    v: ViewModel,
    reads: Channel,
)
    ensures
        ({
            let (next, action) = requests::handled(
                m,
                ticket,
                CommandModel::ConfChange { kind, node_id },
                v,
                reads,
            );
            &&& next == m
            &&& action matches ActionModel::ProposeChange(c) ==> c.kind == kind && c.node_id
                == node_id
            &&& action is ProposeChange <==> {
                &&& v.leader_id == m.settings.raft_id
                &&& m.waiting.changes.len() == 0
                &&& kind == ChangeKind::RemoveNode ==> node_id != m.settings.raft_id
                &&& kind == ChangeKind::AddNode ==> v.conf is Ok && v.conf->Ok_0.learners.contains(
                    node_id,
                ) && caught_up(m, v, node_id)
            }
        }),
{
    lemma_matched_of(v.matched, node_id);
    match requests::matched_of(v.matched, node_id) {
        Some(matched) => {
            assert(reported(v, node_id, matched));
            if caught_up(m, v, node_id) {
                let other = choose|x: u64| #[trigger]
                    reported(v, node_id, x) && x > 0 && v.last_index is Some && v.last_index->0 <= x
                        + m.settings.promote_lag_entries;
                lemma_one_report(v, node_id, matched, other);
            }
        },
        None => {},
    }
}

/// Why a membership change is turned away. A node that does not lead says where
/// the leader is. A leader that would be removed asks for a transfer first, before
/// anything else is looked at. To be let vote, a node has to be a learner and has
/// to have caught up; how far it is behind is told, and one on which nothing is
/// known is as far behind as can be. Only then does a change under way count.
pub proof fn law_refused_changes_say_why(
    m: RuntimeModel,
    ticket: u64,
    kind: ChangeKind,
    node_id: u64,
    v: ViewModel,
    reads: Channel,
)
    ensures
        ({
            let action = requests::handled(
                m,
                ticket,
                CommandModel::ConfChange { kind, node_id },
                v,
                reads,
            ).1;
            let leader = v.leader_id == m.settings.raft_id;
            let removes_itself = kind == ChangeKind::RemoveNode && node_id == m.settings.raft_id;
            &&& !leader ==> refuses(
                action,
                ErrorModel::NotLeader(state::hinted(m.settings, v.leader_id)),
            )
            &&& leader && removes_itself ==> refuses(
                action,
                ErrorModel::LeaderRemovalRequiresTransfer,
            )
            &&& leader && kind == ChangeKind::AddNode ==> match v.conf {
                Err(e) => refuses(
                    action,
                    ErrorModel::Unrecoverable("reading the membership failed: "@ + e),
                ),
                Ok(conf) => if !conf.learners.contains(node_id) {
                    refuses(action, ErrorModel::InvalidArgument(requests::no_learner(node_id)))
                } else {
                    !caught_up(m, v, node_id) ==> {
                        &&& action is Answer && action->Answer_0 is Failed
                        &&& action->Answer_0->Failed_0 matches ErrorModel::LearnerNotCaughtUp {
                            behind,
                            threshold,
                        }
                        &&& threshold == m.settings.promote_lag_entries
                        &&& unreported(v, node_id) || v.last_index is None ==> behind == u64::MAX
                        &&& forall|matched: u64| #[trigger]
                            reported(v, node_id, matched) && v.last_index is Some ==> behind == (
                            if matched >= v.last_index->0 {
                                0
                            } else {
                                v.last_index->0 - matched
                            })
                    }
                },
            }
            &&& leader && !removes_itself && m.waiting.changes.len() > 0 && (kind
                == ChangeKind::AddNode ==> v.conf is Ok && v.conf->Ok_0.learners.contains(node_id)
                && caught_up(m, v, node_id)) ==> refuses(action, ErrorModel::ConfChangePending)
        }),
{
    lemma_matched_of(v.matched, node_id);
    match requests::matched_of(v.matched, node_id) {
        Some(matched) => {
            assert(reported(v, node_id, matched));
            assert forall|x: u64| #[trigger] reported(v, node_id, x) implies x == matched by {
                lemma_one_report(v, node_id, matched, x);
            }
        },
        None => {},
    }
}

/// A leader with no transfer under way that is asked to move leadership to a node
/// asks the raft core to move it to exactly that node, and waits for exactly that
/// node to lead; nothing else changes.
pub proof fn law_transfer_goes_to_the_named_node(
    m: RuntimeModel,
    ticket: u64,
    target: u64,
    v: ViewModel,
    reads: Channel,
)
    requires
        v.leader_id == m.settings.raft_id,
        m.waiting.transfers.len() == 0,
    ensures
        ({
            let (next, action) = requests::handled(
                m,
                ticket,
                CommandModel::TransferLeader { target: Some(target) },
                v,
                reads,
            );
            &&& action matches ActionModel::Transfer(to) && to == target
            &&& next.waiting.transfers.len() == 1
            &&& next.waiting.transfers[0].target == target
            &&& next.waiting.transfers[0].ticket == ticket
            &&& is_due(
                next.waiting.transfers[0].deadline,
                v.now,
                m.settings.propose_timeout_ms,
            )
            &&& next == (RuntimeModel {
                waiting: WaitingModel { transfers: next.waiting.transfers, ..m.waiting },
                ..m
            })
        }),
{
}

/// A leader that is asked to step down in favour of nobody in particular moves
/// leadership to a voter other than itself, the one with the lowest id, and waits
/// for that one. Where there is no other voter, or the voters cannot be read, it
/// says so and changes nothing.
pub proof fn law_unnamed_transfer_goes_to_another_voter(
    m: RuntimeModel,
    ticket: u64,
    v: ViewModel,
    reads: Channel,
)
    requires
        v.leader_id == m.settings.raft_id,
        m.waiting.transfers.len() == 0,
    ensures
        ({
            let (next, action) = requests::handled(
                m,
                ticket,
                CommandModel::TransferLeader { target: None },
                v,
                reads,
            );
            match v.conf {
                Err(e) => next == m && refuses(
                    action,
                    ErrorModel::Unrecoverable("reading the voter set failed: "@ + e),
                ),
                Ok(conf) => if exists|i: int|
                    0 <= i < conf.voters.len() && #[trigger] conf.voters[i] != m.settings.raft_id {
                    &&& action matches ActionModel::Transfer(to)
                    &&& conf.voters.contains(to)
                    &&& to != m.settings.raft_id
                    &&& forall|i: int|
                        0 <= i < conf.voters.len() && conf.voters[i] != m.settings.raft_id ==> to
                            <= #[trigger] conf.voters[i]
                    &&& next.waiting.transfers.len() == 1
                    &&& next.waiting.transfers[0].target == to
                    &&& next.waiting.transfers[0].ticket == ticket
                    &&& is_due(
                        next.waiting.transfers[0].deadline,
                        v.now,
                        m.settings.propose_timeout_ms,
                    )
                    &&& next == (RuntimeModel {
                        waiting: WaitingModel { transfers: next.waiting.transfers, ..m.waiting },
                        ..m
                    })
                } else {
                    next == m && refuses(action, ErrorModel::LeaderRemovalRequiresTransfer)
                },
            }
        }),
{
    if let Ok(conf) = v.conf {
        requests::law_transferee_is_lowest_other_voter(m, v);
        requests::lemma_lowest_other(conf.voters, m.settings.raft_id);
    }
}

/// A transfer that cannot start is refused and changes nothing: by a node that
/// does not lead, with where the leader is; by a leader that already moves
/// leadership, whoever is named.
pub proof fn law_refused_transfers_say_why(
    m: RuntimeModel,
    ticket: u64,
    target: Option<u64>,
    v: ViewModel,
    reads: Channel,
)
    ensures
        ({
            let (next, action) = requests::handled(
                m,
                ticket,
                CommandModel::TransferLeader { target },
                v,
                reads,
            );
            &&& v.leader_id != m.settings.raft_id ==> next == m && refuses(
                action,
                ErrorModel::NotLeader(state::hinted(m.settings, v.leader_id)),
            )
            &&& v.leader_id == m.settings.raft_id && m.waiting.transfers.len() > 0 ==> next == m
                && refuses(action, ErrorModel::ConfChangePending)
        }),
{
}

/// A linearizable read that a leader takes starts a round with a token that no
/// other read has had, and waits for that round under its own key and ticket, with
/// no index yet. Only when 4096 already wait is it turned away
/// as too much; a node that does not lead turns it away in any case.
pub proof fn law_read_starts_a_round_of_its_own(
    m: RuntimeModel,
    ticket: u64,
    key: Seq<u8>,
    v: ViewModel,
    reads: Channel,
)
    requires
        m.waiting.wf(),
        m.waiting.next_token < u64::MAX,
    ensures
        ({
            let (next, action) = requests::handled(
                m,
                ticket,
                CommandModel::Read { key },
                v,
                reads,
            );
            if v.leader_id != m.settings.raft_id {
                next == m && refuses(
                    action,
                    ErrorModel::NotLeader(state::hinted(m.settings, v.leader_id)),
                )
            } else if m.waiting.reads.len() >= 4096 {
                next == m && refuses(action, ErrorModel::Busy)
            } else {
                let r = next.waiting.reads.last();
                &&& action matches ActionModel::ReadIndex(token)
                &&& r.token == token
                &&& forall|i: int|
                    0 <= i < m.waiting.reads.len() ==> (#[trigger] m.waiting.reads[i]).token
                        != token
                &&& next.waiting.next_token > token
                &&& r.key == key
                &&& r.ticket == ticket
                &&& r.read_index is None
                &&& r.attempts == 1
                &&& is_due(r.deadline, v.now, m.settings.read_index_timeout_ms)
                &&& next.waiting.reads == m.waiting.reads.push(r)
                &&& next.waiting.wf()
                &&& next == (RuntimeModel {
                    waiting: WaitingModel {
                        reads: next.waiting.reads,
                        next_token: next.waiting.next_token,
                        ..m.waiting
                    },
                    ..m
                })
            }
        }),
{
}

/// A stale read is served by any node, leader or not, under its own key, as long
/// as there is room; without room it is too much, and without anyone to serve it
/// the node is shutting down. Membership and leader hint are told by any node as
/// it sees them. None of these changes anything.
pub proof fn law_any_node_tells_what_it_sees(
    m: RuntimeModel,
    ticket: u64,
    command: CommandModel,
    v: ViewModel,
    reads: Channel,
)
    ensures
        ({
            let (next, action) = requests::handled(m, ticket, command, v, reads);
            match command {
                CommandModel::GetStale { key } => {
                    &&& next == m
                    &&& reads is Open && reads->0 > 0 ==> action == ActionModel::ServeRead(key)
                    &&& reads == Channel::Open(0) ==> refuses(action, ErrorModel::Busy)
                    &&& reads == Channel::Closed ==> refuses(action, ErrorModel::ShuttingDown)
                },
                CommandModel::Membership => {
                    &&& next == m
                    &&& v.conf matches Ok(conf) ==> action == ActionModel::Answer(
                        ReplyModel::Members(conf),
                    )
                    &&& v.conf matches Err(e) ==> refuses(
                        action,
                        ErrorModel::Unrecoverable("reading the membership failed: "@ + e),
                    )
                },
                CommandModel::LeaderHint => {
                    &&& next == m
                    &&& action == ActionModel::Answer(
                        ReplyModel::Hint(state::hinted(m.settings, v.leader_id)),
                    )
                },
                _ => true,
            }
        }),
{
}

/// A proposal goes to the raft core as it came, or is turned away with the first
/// reason that applies: this node does not lead; more bytes wait to be applied
/// than may; the session is in its grace window; it is a new session and the table
/// is full. Only the second is counted, and nothing else changes either way.
pub proof fn law_refused_proposals_say_why(
    m: RuntimeModel,
    ticket: u64,
    cmd: Seq<u8>,
    session: SessionKey,
    v: ViewModel,
    reads: Channel,
)
    ensures
        ({
            let (next, action) = requests::handled(
                m,
                ticket,
                CommandModel::Propose {
                    cmd,
                    client_id: session.client_id,
                    seq_no: session.seq_no,
                },
                v,
                reads,
            );
            let band = m.sessions.band(v.clock, session);
            let too_much = m.sent_bytes - m.applied_bytes >= m.settings.proposal_queue_bytes
                || m.settings.proposal_queue_bytes == 0;
            if v.leader_id != m.settings.raft_id {
                next == m && refuses(
                    action,
                    ErrorModel::NotLeader(state::hinted(m.settings, v.leader_id)),
                )
            } else if too_much {
                &&& refuses(action, ErrorModel::Busy)
                &&& m.metrics.proposal_busy_total < u64::MAX
                    ==> next.metrics.proposal_busy_total == m.metrics.proposal_busy_total + 1
                &&& next == (RuntimeModel {
                    metrics: Metrics {
                        proposal_busy_total: next.metrics.proposal_busy_total,
                        ..m.metrics
                    },
                    ..m
                })
            } else if band == SessionBand::Grace {
                next == m && refuses(action, ErrorModel::SessionExpired)
            } else if band == SessionBand::Fresh && m.sessions.max_sessions > 0 && m.live_sessions
                >= m.sessions.max_sessions {
                next == m && refuses(action, ErrorModel::SessionTableFull)
            } else {
                next == m && action == ActionModel::Propose(cmd)
            }
        }),
{
    let key = SessionKey { client_id: session.client_id, seq_no: session.seq_no };
    assert(key == session);
}

/// A proposal that the raft core took waits, behind those that already did, for an
/// entry of its own session, under its own ticket and without an index yet. One
/// that it did not take is refused with where the leader is. The same holds of a
/// membership change.
pub proof fn law_accepted_proposals_wait(
    m: RuntimeModel,
    ticket: u64,
    session: SessionKey,
    change: Change,
    v: ViewModel,
)
    ensures
        ({
            let (next, reply) = requests::proposed(m, ticket, session, true, v);
            let p = next.waiting.proposals.last();
            &&& reply is None
            &&& p.what == session && p.ticket == ticket && p.index is None
            &&& is_due(p.deadline, v.now, m.settings.propose_timeout_ms)
            &&& next == (RuntimeModel {
                waiting: WaitingModel { proposals: m.waiting.proposals.push(p), ..m.waiting },
                ..m
            })
        }),
        ({
            let (next, reply) = requests::change_proposed(m, ticket, change, true, v);
            let p = next.waiting.changes.last();
            &&& reply is None
            &&& p.what == change && p.ticket == ticket && p.index is None
            &&& is_due(p.deadline, v.now, m.settings.propose_timeout_ms)
            &&& next == (RuntimeModel {
                waiting: WaitingModel { changes: m.waiting.changes.push(p), ..m.waiting },
                ..m
            })
        }),
        requests::proposed(m, ticket, session, false, v) == (
            m,
            Some(
                ReplyModel::Failed(
                    ErrorModel::NotLeader(state::hinted(m.settings, v.leader_id)),
                ),
            ),
        ),
        requests::change_proposed(m, ticket, change, false, v) == (
            m,
            Some(
                ReplyModel::Failed(
                    ErrorModel::NotLeader(state::hinted(m.settings, v.leader_id)),
                ),
            ),
        ),
{
}

/// An action is seen with all it says: whom leadership goes to, which change is proposed,
/// which round is started.
pub proof fn law_action_is_seen_in_full(a: Action)
    ensures
        a matches Action::Answer(reply) ==> a@ == ActionModel::Answer(reply@),
        a matches Action::Propose(cmd) ==> a@ == ActionModel::Propose(cmd@),
        a matches Action::ProposeChange(change) ==> a@ == ActionModel::ProposeChange(change),
        a matches Action::Transfer(target) ==> a@ == ActionModel::Transfer(target),
        a matches Action::ReadIndex(token) ==> a@ == ActionModel::ReadIndex(token),
        a matches Action::ServeRead(key) ==> a@ == ActionModel::ServeRead(key@),
{
}

} // verus!
