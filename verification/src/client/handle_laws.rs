//! What is refused before it is sent, and whom a request goes to next.
use vstd::prelude::*;

use crate::client::handle::{ChaseModel, Redirects};
use crate::client::{ArachneError, ErrorModel, HintModel, LeaderHint};
use crate::profile::ProfileConfig;
use crate::client;
use crate::client::handle;

verus! {

/// A key or a value is refused exactly where it is longer than may be, the key first,
/// and the refusal tells both lengths.
pub proof fn law_arguments_are_refused_by_length(
    key: Seq<u8>,
    value: Seq<u8>,
    key_limit: u64,
    value_limit: u64,
)
    ensures
        handle::key_fault(key, key_limit) is None <==> key.len() <= key_limit,
        key.len() > key_limit ==> handle::key_fault(key, key_limit) == Some(
            ErrorModel::InvalidArgument(
                handle::too_long("key"@, key.len(), "max_key_bytes"@, key_limit),
            ),
        ) && handle::put_fault(key, value, key_limit, value_limit) == handle::key_fault(
            key,
            key_limit,
        ),
        handle::put_fault(key, value, key_limit, value_limit) is None <==> key.len() <= key_limit
            && value.len() <= value_limit,
        key.len() <= key_limit && value.len() > value_limit ==> handle::put_fault(
            key,
            value,
            key_limit,
            value_limit,
        ) == Some(
            ErrorModel::InvalidArgument(
                handle::too_long("value"@, value.len(), "max_value_bytes"@, value_limit),
            ),
        ),
{
}

/// Three refusals are followed, or none at all.
pub proof fn law_three_refusals_are_followed(r: Redirects)
    ensures
        r == Redirects::Follow ==> r.budget() == 3,
        r == Redirects::SingleShot ==> r.budget() == 0,
{
}

/// A read may take two waits for a read index and an election, none shorter than a
/// millisecond.
pub proof fn law_read_may_take_two_waits_and_an_election(profile: ProfileConfig)
    ensures
        ({
            let wait = if profile.read_index_timeout_ms == 0 {
                1
            } else {
                profile.read_index_timeout_ms as int
            };
            let election = if profile.election_timeout_ms == 0 {
                1
            } else {
                profile.election_timeout_ms as int
            };
            &&& 2 * wait + election <= u64::MAX ==> handle::read_budget(profile) == 2 * wait
                + election
            &&& 2 * wait + election > u64::MAX ==> handle::read_budget(profile) == u64::MAX
        }),
{
}

/// A request that reached a node and failed there for any other reason than leadership
/// has failed, for that reason.
pub proof fn law_other_failures_are_final(m: ChaseModel, e: ErrorModel)
    requires
        e !is NotLeader,
    ensures
        handle::after_answer(m, e) == (m, Some(e)),
{
}

/// A refusal that names a leader is followed, once more each time: to that leader where
/// it is known, and otherwise to the next node in order. Where that would be the same
/// node again, no quorum is there; where no more may be followed, the time is over. A
/// refusal that names nobody means that no quorum is there. A request that follows none
/// fails with the refusal as it is.
pub proof fn law_refusals_are_followed(m: ChaseModel, hint: HintModel)
    requires
        m.wf(),
    ensures
        ({
            let e = ErrorModel::NotLeader(hint);
            let (next, end) = handle::after_answer(m, e);
            let after = if m.pos + 1 == m.order.len() {
                0
            } else {
                m.pos + 1
            };
            &&& m.max_redirects == 0 ==> next == m && end == Some(e)
            &&& m.max_redirects > 0 && hint is None ==> next == m && end == Some(
                ErrorModel::QuorumUnavailable,
            )
            &&& m.max_redirects > 0 && hint is Some ==> {
                let leader = (hint->0).0;
                let known = m.order.contains(leader);
                let stays = if known {
                    m.order[m.pos] == leader && forall|j: int|
                        0 <= j < m.pos ==> #[trigger] m.order[j] != leader
                } else {
                    m.order.len() == 1
                };
                &&& stays ==> next == m && end == Some(ErrorModel::QuorumUnavailable)
                &&& !stays && m.redirects == m.max_redirects ==> next == m && end == Some(
                    ErrorModel::Timeout,
                )
                &&& !stays && m.redirects < m.max_redirects ==> {
                    &&& end is None
                    &&& next.redirects == m.redirects + 1
                    &&& known ==> next.order[next.pos] == leader
                    &&& !known ==> next.pos == after
                    &&& next == (ChaseModel { pos: next.pos, redirects: next.redirects, ..m })
                }
            }
        }),
{
    if hint is Some {
        let leader = (hint->0).0;
        handle::lemma_place_of(m.order, leader);
        vstd::arithmetic::div_mod::lemma_small_mod(m.pos as nat, m.order.len());
        if m.pos + 1 < m.order.len() {
            vstd::arithmetic::div_mod::lemma_small_mod((m.pos + 1) as nat, m.order.len());
        } else {
            vstd::arithmetic::div_mod::lemma_mod_self_0(m.order.len() as int);
        }
    }
}

/// A node other than one's own that is gone is passed over for the next in order, until
/// none of the others is left: then no quorum is there. Whatever else keeps a request
/// from getting through, and one's own node being gone, is final.
pub proof fn law_gone_nodes_are_passed_over(m: ChaseModel, e: ErrorModel)
    requires
        m.wf(),
    ensures
        ({
            let (next, end) = handle::after_delivery_failure(m, e);
            let gone = e == ErrorModel::ShuttingDown && m.order[m.pos] != m.order[0];
            let after = if m.pos + 1 == m.order.len() {
                0
            } else {
                m.pos + 1
            };
            &&& !gone ==> next == m && end == Some(e)
            &&& gone ==> next.unreachable == m.unreachable + 1
            &&& gone && m.unreachable + 2 >= m.order.len() ==> end == Some(
                ErrorModel::QuorumUnavailable,
            ) && next.pos == m.pos
            &&& gone && m.unreachable + 2 < m.order.len() ==> end is None && next.pos == after
            &&& next == (ChaseModel { pos: next.pos, unreachable: next.unreachable, ..m })
        }),
{
    if m.pos + 1 < m.order.len() {
        vstd::arithmetic::div_mod::lemma_small_mod((m.pos + 1) as nat, m.order.len());
    } else {
        vstd::arithmetic::div_mod::lemma_mod_self_0(m.order.len() as int);
    }
}

/// An error is seen with all it says: the hint, the numbers, the words.
pub proof fn law_error_is_seen_in_full(e: ArachneError)
    ensures
        e matches ArachneError::NotLeader { leader_hint } ==> e@ == ErrorModel::NotLeader(
            client::hint_model(leader_hint),
        ),
        e matches ArachneError::InvalidArgument(detail) ==> e@ == ErrorModel::InvalidArgument(
            detail@,
        ),
        e matches ArachneError::Unrecoverable(detail) ==> e@ == ErrorModel::Unrecoverable(detail@),
        e matches ArachneError::LearnerNotCaughtUp { behind, threshold } ==> e@ == (
        ErrorModel::LearnerNotCaughtUp { behind, threshold }),
        e is QuorumUnavailable <==> e@ is QuorumUnavailable,
        e is Timeout <==> e@ is Timeout,
        e is Busy <==> e@ is Busy,
        e is SessionExpired <==> e@ is SessionExpired,
        e is SessionTableFull <==> e@ is SessionTableFull,
        e is ConfChangePending <==> e@ is ConfChangePending,
        e is LeaderRemovalRequiresTransfer <==> e@ is LeaderRemovalRequiresTransfer,
        e is ClusterIdMismatch <==> e@ is ClusterIdMismatch,
        e is ShuttingDown <==> e@ is ShuttingDown,
        e is DataDirLocked <==> e@ is DataDirLocked,
{
}

/// A hint is seen with the name and the address it gives.
pub proof fn law_hint_is_seen_in_full(hint: LeaderHint)
    ensures
        hint is None <==> client::hint_model(hint) is None,
        hint matches Some((node, address)) ==> client::hint_model(hint) == Some(
            (node.name@, address@),
        ),
{
}

} // verus!
