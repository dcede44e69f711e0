//! How each request that waits comes to its answer.
use vstd::prelude::*;

use crate::client::{ErrorModel, HintModel};
use crate::runtime::command::{AnswerModel, ReplyModel};
use crate::runtime::waiting::{
    Channel, Pending, PendingTransfer, ReadContext, ReadModel, ResolvedModel, WaitingModel,
};
use crate::bytes;
use crate::runtime::waiting;

verus! {

// ---------------------------------------------------------------------------
// Requests that wait for an entry
// ---------------------------------------------------------------------------
/// Whether a request has nothing more to wait for.
pub open spec fn is_over<T>(applied: u64, now: u64) -> spec_fn(Pending<T>) -> bool {
    |p: Pending<T>| (p.index is Some && p.index->0 <= applied) || p.deadline <= now
}

/// A request keeps waiting, as it is and in its place, exactly as long as its entry
/// is not known to be applied and its time is not over. The others are answered, in
/// their order, under their own tickets: done if the entry is applied, late or not,
/// and a timeout if it is not.
pub proof fn law_requests_end_with_their_entry_or_their_time<T>(
    s: Seq<Pending<T>>,
    applied: u64,
    now: u64,
)
    ensures
        waiting::still_pending(s, applied, now) == s.filter(
            |p: Pending<T>|
                !(p.index is Some && p.index->0 <= applied) && now < p.deadline,
        ),
        waiting::pending_answers(s, applied, now) == s.filter(is_over(applied, now)).map_values(
            |p: Pending<T>|
                AnswerModel {
                    ticket: p.ticket,
                    reply: if p.index is Some && p.index->0 <= applied {
                        ReplyModel::Done
                    } else {
                        ReplyModel::Failed(ErrorModel::Timeout)
                    },
                },
        ),
    decreases s.len(),
{
    reveal(Seq::filter);
    if s.len() > 0 {
        law_requests_end_with_their_entry_or_their_time(s.drop_last(), applied, now);
    }
}

/// An entry goes to the first request that waits for such an entry: no request
/// before that one waits for it, and every other request stays as it was.
pub proof fn law_entry_goes_to_the_first_that_waits<T>(
    s: Seq<Pending<T>>,
    what: T,
    index: u64,
    i: int,
)
    requires
        0 <= i < s.len(),
        s[i].index is None && s[i].what == what,
        forall|k: int|
            0 <= k < i ==> !((#[trigger] s[k]).index is None && s[k].what == what),
    ensures
        ({
            let t = waiting::attributed(s, what, index);
            &&& t.len() == s.len()
            &&& t[i].index == Some(index)
            &&& t[i].what == what && t[i].ticket == s[i].ticket && t[i].deadline == s[i].deadline
            &&& forall|k: int| 0 <= k < s.len() && k != i ==> #[trigger] t[k] == s[k]
        }),
{
    let p = waiting::waits_for(what);
    assert(p(s[i]));
    assert forall|k: int| 0 <= k < i implies !p(#[trigger] s[k]) by {}
    waiting::lemma_is_first(s, p, i);
}

/// An entry that nobody waits for changes nothing.
pub proof fn law_foreign_entry_changes_nothing<T>(s: Seq<Pending<T>>, what: T, index: u64)
    requires
        forall|k: int|
            0 <= k < s.len() ==> !((#[trigger] s[k]).index is None && s[k].what == what),
    ensures
        waiting::attributed(s, what, index) == s,
{
    waiting::lemma_first_where(s, waiting::waits_for(what));
}

// ---------------------------------------------------------------------------
// Leadership transfers
// ---------------------------------------------------------------------------
/// A transfer is done once its target leads, whatever the time; it is refused, with
/// where the leader is, once some third node does; it times out when its time is
/// over while nobody or this node leads. Until then it keeps waiting, as it is and
/// in its place.
pub proof fn law_transfers_end_with_a_leader_or_their_time(
    s: Seq<PendingTransfer>,
    me: u64,
    leader: u64,
    now: u64,
    hint: HintModel,
)
    ensures
        waiting::still_moving(s, me, leader, now, hint) == s.filter(
            |t: PendingTransfer|
                leader != t.target && (leader == 0 || leader == me) && now < t.deadline,
        ),
        waiting::transfer_answers(s, me, leader, now, hint) == s.filter(
            |t: PendingTransfer|
                leader == t.target || (leader != 0 && leader != me) || t.deadline <= now,
        ).map_values(
            |t: PendingTransfer|
                AnswerModel {
                    ticket: t.ticket,
                    reply: if leader == t.target {
                        ReplyModel::Done
                    } else if leader != 0 && leader != me {
                        ReplyModel::Failed(ErrorModel::NotLeader(hint))
                    } else {
                        ReplyModel::Failed(ErrorModel::Timeout)
                    },
                },
        ),
    decreases s.len(),
{
    reveal(Seq::filter);
    if s.len() > 0 {
        law_transfers_end_with_a_leader_or_their_time(s.drop_last(), me, leader, now, hint);
    }
}

// ---------------------------------------------------------------------------
// Linearizable reads
// ---------------------------------------------------------------------------
/// The raft core knows a token by its eight bytes, the highest first.
pub proof fn law_token_is_known_highest_byte_first(token: u64)
    ensures
        waiting::token_context(token).len() == 8,
        bytes::le_value(waiting::token_context(token).reverse()) == token,
{
    bytes::lemma_u64_bytes(token);
    let low = bytes::u64_bytes(token);
    assert(low.reverse().reverse() =~= low);
}

/// Bytes of any other length are known to nobody: they confirm no read.
pub proof fn law_foreign_round_confirms_nothing(
    s: Seq<ReadModel>,
    context: Seq<u8>,
    index: u64,
    deadline: u64,
)
    requires
        context.len() != 8,
    ensures
        waiting::confirmed(s, context, index, deadline) == s,
{
}

/// Whether no two reads share a token.
pub open spec fn own_tokens(s: Seq<ReadModel>) -> bool {
    forall|i: int, j: int|
        0 <= i < s.len() && 0 <= j < s.len() && i != j ==> (#[trigger] s[i]).token != (
        #[trigger] s[j]).token
}

/// A round that reports an index sets the index of exactly the read that has its
/// token, to exactly that index, however many reads wait; that read waits anew, and
/// every other read stays as it was.
pub proof fn law_round_confirms_exactly_its_read(
    s: Seq<ReadModel>,
    token: u64,
    index: u64,
    deadline: u64,
    k: int,
)
    requires
        own_tokens(s),
        0 <= k < s.len(),
    ensures
        ({
            let t = waiting::confirmed(s, waiting::token_context(token), index, deadline);
            &&& t.len() == s.len()
            &&& s[k].token == token ==> t[k].read_index == Some(index) && t[k].deadline == deadline
            &&& s[k].token != token ==> t[k] == s[k]
            &&& t[k].token == s[k].token
            &&& t[k].key == s[k].key
            &&& t[k].ticket == s[k].ticket
            &&& t[k].attempts == s[k].attempts
        }),
{
    waiting::law_token_round_trip(token);
    let p = waiting::has_token(token);
    waiting::lemma_first_where(s, p);
    if let Some(i) = waiting::first_where(s, p) {
        assert(p(s[i]));
        if s[k].token == token && k != i {
            assert(s[i].token != s[k].token);
        }
    } else {
        assert(!p(s[k]));
    }
}

proof fn lemma_context_of_token(context: Seq<u8>, token: u64)
    ensures
        waiting::context_token(context) == Some(token) <==> context == waiting::token_context(
            token,
        ),
{
    waiting::law_token_round_trip(token);
    if waiting::context_token(context) == Some(token) {
        let low = context.reverse();
        bytes::lemma_u64_read(low, 0);
        assert(low.subrange(0, 8) =~= low);
        assert(low.reverse() =~= context);
    }
}

/// A round changes exactly the read that has its token.
pub proof fn lemma_confirmed_one(
    s: Seq<ReadModel>,
    context: Seq<u8>,
    index: u64,
    deadline: u64,
    k: int,
)
    requires
        own_tokens(s),
        0 <= k < s.len(),
    ensures
        ({
            let t = waiting::confirmed(s, context, index, deadline);
            &&& t.len() == s.len()
            &&& own_tokens(t)
            &&& t[k] == if context == waiting::token_context(s[k].token) {
                ReadModel { read_index: Some(index), deadline, ..s[k] }
            } else {
                s[k]
            }
        }),
{
    let t = waiting::confirmed(s, context, index, deadline);
    lemma_context_of_token(context, s[k].token);
    if let Some(token) = waiting::context_token(context) {
        lemma_context_of_token(context, token);
        let p = waiting::has_token(token);
        waiting::lemma_first_where(s, p);
        if let Some(i) = waiting::first_where(s, p) {
            assert(p(s[i]));
            if s[k].token == token && k != i {
                assert(s[i].token != s[k].token);
            }
        } else {
            assert(!p(s[k]));
        }
        assert forall|i: int, j: int|
            0 <= i < t.len() && 0 <= j < t.len() && i != j implies (#[trigger] t[i]).token != (
        #[trigger] t[j]).token by {
            assert(s[i].token != s[j].token);
        }
    }
}

/// After several rounds a read has the index that the last round with its token
/// reported, and waits anew; a read whose token was not among them is as it was.
/// Only the index and the time of a read ever change by it.
pub proof fn law_last_round_of_a_read_counts(
    s: Seq<ReadModel>,
    states: Seq<(Seq<u8>, u64)>,
    deadline: u64,
    k: int,
)
    requires
        own_tokens(s),
        0 <= k < s.len(),
    ensures
        ({
            let t = waiting::all_confirmed(s, states, deadline);
            let context = waiting::token_context(s[k].token);
            &&& t.len() == s.len()
            &&& t[k].token == s[k].token
            &&& t[k].key == s[k].key
            &&& t[k].ticket == s[k].ticket
            &&& t[k].attempts == s[k].attempts
            &&& (forall|j: int| 0 <= j < states.len() ==> (#[trigger] states[j]).0 != context)
                ==> t[k] == s[k]
            &&& forall|j: int|
                0 <= j < states.len() && (#[trigger] states[j]).0 == context && (forall|l: int|
                    j < l < states.len() ==> (#[trigger] states[l]).0 != context)
                    ==> t[k].read_index == Some(states[j].1) && t[k].deadline == deadline
        }),
        own_tokens(waiting::all_confirmed(s, states, deadline)),
    decreases states.len(),
{
    if states.len() > 0 {
        let init = states.drop_last();
        let context = waiting::token_context(s[k].token);
        let before = waiting::all_confirmed(s, init, deadline);
        law_last_round_of_a_read_counts(s, init, deadline, k);
        lemma_confirmed_one(before, states.last().0, states.last().1, deadline, k);
        let last = states.len() - 1;
        assert(states[last] == states.last());
        if forall|j: int| 0 <= j < states.len() ==> (#[trigger] states[j]).0 != context {
            assert forall|j: int| 0 <= j < init.len() implies (#[trigger] init[j]).0 != context by {
                assert(init[j] == states[j]);
            }
        }
        assert forall|j: int|
            0 <= j < states.len() && (#[trigger] states[j]).0 == context && (forall|l: int|
                j < l < states.len() ==> (#[trigger] states[l]).0
                    != context) implies waiting::all_confirmed(s, states, deadline)[k].read_index
            == Some(states[j].1) && waiting::all_confirmed(s, states, deadline)[k].deadline
            == deadline by {
            if j < last {
                assert(states[last].0 != context);
                assert(init[j] == states[j]);
                assert forall|l: int| j < l < init.len() implies (#[trigger] init[l]).0
                    != context by {
                    assert(init[l] == states[l]);
                }
            }
        }
    }
}

/// Reads are taken one after the other, in their order; where none waits, nothing
/// comes of it. One more read is refused, with where the leader is, by a node that
/// does not lead. A leader serves it once its index is applied, if there is room,
/// which it then takes; it is too much where there is no room left, and the node is
/// shutting down where nobody serves. Without an applied index it keeps waiting
/// until its time is over; then it waits anew for a round with a token of its own,
/// but only once, and times out after that.
pub proof fn law_reads_are_resolved_in_turn(
    s: Seq<ReadModel>,
    r: ReadModel,
    next_token: u64,
    channel: Channel,
    c: ReadContext,
)
    ensures
        waiting::resolved(Seq::empty(), next_token, channel, c) == (ResolvedModel {
            kept: Seq::empty(),
            answers: Seq::empty(),
            serve: Seq::empty(),
            rounds: Seq::empty(),
            next_token,
            channel,
            timeouts: 0,
        }),
        ({
            let a = waiting::resolved(s, next_token, channel, c);
            let b = waiting::resolved(s.push(r), next_token, channel, c);
            let confirmed = r.read_index is Some && r.read_index->0 <= c.applied;
            let told = |e: ErrorModel|
                a.answers.push(AnswerModel { ticket: r.ticket, reply: ReplyModel::Failed(e) });
            if !c.leads {
                b == (ResolvedModel { answers: told(ErrorModel::NotLeader(c.hint)), ..a })
            } else if confirmed && a.channel == Channel::Closed {
                b == (ResolvedModel { answers: told(ErrorModel::ShuttingDown), ..a })
            } else if confirmed && a.channel == Channel::Open(0) {
                b == (ResolvedModel { answers: told(ErrorModel::Busy), ..a })
            } else if confirmed {
                b == (ResolvedModel {
                    serve: a.serve.push((r.ticket, r.key)),
                    channel: Channel::Open((a.channel->0 - 1) as usize),
                    ..a
                })
            } else if c.now < r.deadline {
                b == (ResolvedModel { kept: a.kept.push(r), ..a })
            } else if r.attempts >= 2 {
                b == (ResolvedModel {
                    answers: told(ErrorModel::Timeout),
                    timeouts: a.timeouts + 1,
                    ..a
                })
            } else {
                let again = b.kept.last();
                &&& again.token == a.next_token
                &&& again.key == r.key
                &&& again.ticket == r.ticket
                &&& again.deadline == c.deadline
                &&& again.read_index is None
                &&& again.attempts == r.attempts + 1
                &&& a.next_token < u64::MAX ==> b.next_token == a.next_token + 1
                &&& b == (ResolvedModel {
                    kept: a.kept.push(again),
                    rounds: a.rounds.push(a.next_token),
                    next_token: b.next_token,
                    ..a
                })
            }
        }),
{
    assert(s.push(r).drop_last() =~= s);
}

// ---------------------------------------------------------------------------
// Everything that waits
// ---------------------------------------------------------------------------
/// Once entries are applied or time has passed, membership changes are answered
/// first and proposals after them; reads, transfers and the next token are as they
/// were.
pub proof fn law_only_what_waits_for_entries_is_replied(m: WaitingModel, applied: u64, now: u64)
    ensures
        m.replied(applied, now).0.reads == m.reads,
        m.replied(applied, now).0.transfers == m.transfers,
        m.replied(applied, now).0.next_token == m.next_token,
        m.replied(applied, now).0.changes == waiting::still_pending(m.changes, applied, now),
        m.replied(applied, now).0.proposals == waiting::still_pending(m.proposals, applied, now),
        m.replied(applied, now).1 == waiting::pending_answers(m.changes, applied, now)
            + waiting::pending_answers(m.proposals, applied, now),
{
}

/// When everything that waits fails, every answer says why, and says the same.
pub proof fn law_stopping_says_why(m: WaitingModel, message: Seq<char>, i: int)
    requires
        0 <= i < m.all_failed(message).len(),
    ensures
        m.all_failed(message)[i].reply == ReplyModel::Failed(ErrorModel::Unrecoverable(message)),
        m.all_failed(message).len() == m.changes.len() + m.transfers.len() + m.proposals.len()
            + m.reads.len(),
{
}

} // verus!
