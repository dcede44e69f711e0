//! Requests that wait for an outcome, and how each is answered exactly once.
use std::collections::VecDeque;

use vstd::prelude::*;
use vstd::multiset::*;

use crate::bytes::get_u64;
use crate::bytes::put_u64;
use crate::client::{copy_hint, ArachneError, ErrorModel, HintModel, LeaderHint};
use crate::consensus::conf_change::Change;
use crate::consensus::pipeline::ReadState;
use crate::runtime::command::{push_answer, Answer, AnswerModel, Reply};
use crate::state_machine::sorted::SessionKey;
use crate::types::{LogIndex, RaftId};
use crate::bytes;
use crate::client;
use crate::consensus::pipeline;
use crate::runtime::command;

verus! {

/// How many linearizable reads may wait at once.
pub const MAX_PENDING_READS: usize = 4096;

/// A request that is answered once its entry is applied.
#[derive(Clone, Copy, Debug, PartialEq, Eq)]
pub struct Pending<T> {
    /// What its entry carries.
    pub what: T,
    /// The request.
    pub ticket: u64,
    /// When to give up.
    pub deadline: u64,
    /// The index of its entry, once it is known.
    pub index: Option<LogIndex>,
}

/// A request to move leadership.
#[derive(Clone, Copy, Debug, PartialEq, Eq)]
pub struct PendingTransfer {
    pub target: RaftId,
    pub ticket: u64,
    pub deadline: u64,
}

/// A linearizable read.
#[derive(Debug, PartialEq, Eq)]
pub struct PendingRead {
    /// The token that the round in progress is known by.
    pub token: u64,
    pub key: Vec<u8>,
    pub ticket: u64,
    pub deadline: u64,
    /// The index that the round confirmed.
    pub read_index: Option<LogIndex>,
    /// How many rounds were started.
    pub attempts: u8,
}

/// A linearizable read as a mathematical value.
#[verifier::ext_equal]
pub struct ReadModel {
    pub token: u64,
    pub key: Seq<u8>,
    pub ticket: u64,
    pub deadline: u64,
    pub read_index: Option<u64>,
    pub attempts: u8,
}

impl View for PendingRead {
    type V = ReadModel;

    open spec fn view(&self) -> ReadModel {
        ReadModel {
            token: self.token,
            key: self.key@,
            ticket: self.ticket,
            deadline: self.deadline,
            read_index: self.read_index,
            attempts: self.attempts,
        }
    }
}

/// A list of reads as mathematical values.
pub open spec fn read_models(s: Seq<PendingRead>) -> Seq<ReadModel> {
    Seq::new(s.len(), |i: int| s[i]@)
}

/// Room in a channel.
#[derive(Clone, Copy, Debug, PartialEq, Eq, Structural)]
pub enum Channel {
    /// So many more fit.
    Open(usize),
    /// The other side is gone.
    Closed,
}

/// The first element with a property, if there is one.
pub open spec fn first_where<T>(s: Seq<T>, p: spec_fn(T) -> bool) -> Option<int>
    decreases s.len(),
{
    if s.len() == 0 {
        None
    } else {
        match first_where(s.drop_last(), p) {
            Some(i) => Some(i),
            None => if p(s.last()) {
                Some(s.len() - 1)
            } else {
                None
            },
        }
    }
}

/// The first element with a property stands where nothing before it has it.
pub proof fn lemma_first_where<T>(s: Seq<T>, p: spec_fn(T) -> bool)
    ensures
        match first_where(s, p) {
            Some(i) => 0 <= i < s.len() && p(s[i]) && forall|k: int|
                0 <= k < i ==> !p(#[trigger] s[k]),
            None => forall|k: int| 0 <= k < s.len() ==> !p(#[trigger] s[k]),
        },
    decreases s.len(),
{
    if s.len() > 0 {
        let init = s.drop_last();
        lemma_first_where(init, p);
        match first_where(init, p) {
            Some(i) => {
                assert forall|k: int| 0 <= k < i implies !p(#[trigger] s[k]) by {
                    assert(init[k] == s[k]);
                }
            },
            None => {
                assert forall|k: int| 0 <= k < s.len() - 1 implies !p(#[trigger] s[k]) by {
                    assert(init[k] == s[k]);
                }
            },
        }
    }
}

/// A position that has a property where none before it does is the first.
pub proof fn lemma_is_first<T>(s: Seq<T>, p: spec_fn(T) -> bool, i: int)
    requires
        0 <= i < s.len(),
        p(s[i]),
        forall|k: int| 0 <= k < i ==> !p(#[trigger] s[k]),
    ensures
        first_where(s, p) == Some(i),
{
    lemma_first_where(s, p);
}

// ---------------------------------------------------------------------------
// Requests that wait for an entry
// ---------------------------------------------------------------------------
/// Whether a request's entry is applied.
pub open spec fn is_applied(index: Option<u64>, applied: u64) -> bool {
    index matches Some(i) && applied >= i
}

/// The requests that keep waiting.
pub open spec fn still_pending<T>(s: Seq<Pending<T>>, applied: u64, now: u64) -> Seq<Pending<T>>
    decreases s.len(),
{
    if s.len() == 0 {
        s
    } else {
        let rest = still_pending(s.drop_last(), applied, now);
        if is_applied(s.last().index, applied) || now >= s.last().deadline {
            rest
        } else {
            rest.push(s.last())
        }
    }
}

/// The answers to the requests that do not: done where the entry is applied,
/// else a timeout.
pub open spec fn pending_answers<T>(s: Seq<Pending<T>>, applied: u64, now: u64) -> Seq<AnswerModel>
    decreases s.len(),
{
    if s.len() == 0 {
        Seq::empty()
    } else {
        let rest = pending_answers(s.drop_last(), applied, now);
        if is_applied(s.last().index, applied) {
            rest.push(command::done(s.last().ticket))
        } else if now >= s.last().deadline {
            rest.push(command::failed(s.last().ticket, ErrorModel::Timeout))
        } else {
            rest
        }
    }
}

fn settle<T: Copy>(list: &Vec<Pending<T>>, applied: LogIndex, now: u64, answers: &mut Vec<Answer>) -> (
    kept: Vec<Pending<T>>)
    ensures
        kept@ == still_pending(list@, applied, now),
        command::answer_models(final(answers)@) == command::answer_models(old(answers)@)
            + pending_answers(list@, applied, now),
{
    let ghost s = list@;
    let ghost before = command::answer_models(answers@);
    let mut kept: Vec<Pending<T>> = Vec::new();
    let n: usize = list.len();
    let mut i: usize = 0;
    assert(kept@ =~= still_pending(s.subrange(0, 0), applied, now));
    assert(before =~= before + pending_answers(s.subrange(0, 0), applied, now));
    while i < n
        invariant
            i <= n,
            n == list@.len(),
            s == list@,
            kept@ == still_pending(s.subrange(0, i as int), applied, now),
            command::answer_models(answers@) == before + pending_answers(
                s.subrange(0, i as int),
                applied,
                now,
            ),
        decreases n - i,
    {
        let ghost next = s.subrange(0, i + 1);
        let ghost so_far = command::answer_models(answers@);
        assert(next.drop_last() =~= s.subrange(0, i as int));
        assert(next.last() == s[i as int]);
        let p = list[i];
        let is_done = match p.index {
            Some(index) => applied >= index,
            None => false,
        };
        if is_done {
            push_answer(answers, p.ticket, Reply::Done);
        } else if now >= p.deadline {
            push_answer(answers, p.ticket, Reply::Failed(ArachneError::Timeout));
        } else {
            kept.push(p);
        }
        assert(command::answer_models(answers@) =~= before + pending_answers(next, applied, now));
        i = i + 1;
    }
    assert(s.subrange(0, n as int) =~= s);
    kept
}

/// Whether a request waits for an entry that carries `what`.
pub open spec fn waits_for<T>(what: T) -> spec_fn(Pending<T>) -> bool {
    |p: Pending<T>| p.index is None && p.what == what
}

/// The requests after the entry of one became known: the first that waits for
/// such an entry is the one it belongs to.
pub open spec fn attributed<T>(s: Seq<Pending<T>>, what: T, index: u64) -> Seq<Pending<T>> {
    match first_where(s, waits_for(what)) {
        Some(i) => s.update(i, Pending { index: Some(index), ..s[i] }),
        None => s,
    }
}

fn attribute_session(list: &mut Vec<Pending<SessionKey>>, what: SessionKey, index: LogIndex)
    ensures
        final(list)@ == attributed(old(list)@, what, index),
{
    let ghost s = list@;
    let ghost p = waits_for(what);
    let n: usize = list.len();
    let mut i: usize = 0;
    while i < n
        invariant
            i <= n,
            n == list@.len(),
            s == list@,
            p == waits_for(what),
            forall|k: int| 0 <= k < i ==> !p(#[trigger] s[k]),
            s == old(list)@,
        decreases n - i,
    {
        let waiting = list[i];
        if waiting.index.is_none() && waiting.what == what {
            proof {
                lemma_is_first(s, p, i as int);
            }
            list.set(i, Pending { index: Some(index), ..waiting });
            return ;
        }
        i = i + 1;
    }
    proof {
        lemma_first_where(s, p);
    }
}

fn attribute_change(list: &mut Vec<Pending<Change>>, what: Change, index: LogIndex)
    ensures
        final(list)@ == attributed(old(list)@, what, index),
{
    let ghost s = list@;
    let ghost p = waits_for(what);
    let n: usize = list.len();
    let mut i: usize = 0;
    while i < n
        invariant
            i <= n,
            n == list@.len(),
            s == list@,
            p == waits_for(what),
            forall|k: int| 0 <= k < i ==> !p(#[trigger] s[k]),
            s == old(list)@,
        decreases n - i,
    {
        let waiting = list[i];
        if waiting.index.is_none() && waiting.what == what {
            proof {
                lemma_is_first(s, p, i as int);
            }
            list.set(i, Pending { index: Some(index), ..waiting });
            return ;
        }
        i = i + 1;
    }
    proof {
        lemma_first_where(s, p);
    }
}

// ---------------------------------------------------------------------------
// Leadership transfers
// ---------------------------------------------------------------------------
/// What a transfer is answered, if it is over: done once the target leads;
/// refused once a third node does; a timeout when the wait is over. That no
/// leader is known, or that this node still leads, is not a verdict.
pub open spec fn transfer_verdict(
    t: PendingTransfer,
    me: u64,
    leader: u64,
    now: u64,
    hint: HintModel,
) -> Option<AnswerModel> {
    if leader == t.target {
        Some(command::done(t.ticket))
    } else if leader != 0 && leader != me {
        Some(command::failed(t.ticket, ErrorModel::NotLeader(hint)))
    } else if now >= t.deadline {
        Some(command::failed(t.ticket, ErrorModel::Timeout))
    } else {
        None
    }
}

/// The transfers that keep waiting.
pub open spec fn still_moving(
    s: Seq<PendingTransfer>,
    me: u64,
    leader: u64,
    now: u64,
    hint: HintModel,
) -> Seq<PendingTransfer>
    decreases s.len(),
{
    if s.len() == 0 {
        s
    } else {
        let rest = still_moving(s.drop_last(), me, leader, now, hint);
        match transfer_verdict(s.last(), me, leader, now, hint) {
            Some(_) => rest,
            None => rest.push(s.last()),
        }
    }
}

/// The answers to the transfers that do not.
pub open spec fn transfer_answers(
    s: Seq<PendingTransfer>,
    me: u64,
    leader: u64,
    now: u64,
    hint: HintModel,
) -> Seq<AnswerModel>
    decreases s.len(),
{
    if s.len() == 0 {
        Seq::empty()
    } else {
        let rest = transfer_answers(s.drop_last(), me, leader, now, hint);
        match transfer_verdict(s.last(), me, leader, now, hint) {
            Some(answer) => rest.push(answer),
            None => rest,
        }
    }
}

// ---------------------------------------------------------------------------
// Linearizable reads
// ---------------------------------------------------------------------------
/// The bytes by which the raft core knows a token: the highest first.
pub open spec fn token_context(token: u64) -> Seq<u8> {
    bytes::u64_bytes(token).reverse()
}

/// The token that bytes stand for, if they can.
pub open spec fn context_token(context: Seq<u8>) -> Option<u64> {
    if context.len() == 8 {
        Some(bytes::u64_at(context.reverse(), 0))
    } else {
        None
    }
}

fn reversed(data: &Vec<u8>) -> (r: Vec<u8>)
    ensures
        r@ == data@.reverse(),
{
    let n: usize = data.len();
    let mut r: Vec<u8> = Vec::new();
    let mut i: usize = 0;
    while i < n
        invariant
            i <= n,
            n == data@.len(),
            r@.len() == i,
            forall|k: int| 0 <= k < i ==> r@[k] == data@[n - 1 - k],
        decreases n - i,
    {
        r.push(data[n - 1 - i]);
        i = i + 1;
    }
    assert(r@ =~= data@.reverse());
    r
}

/// The bytes by which the raft core knows a token.
pub fn token_bytes(token: u64) -> (r: Vec<u8>)
    ensures
        r@ == token_context(token),
{
    let mut low: Vec<u8> = Vec::new();
    put_u64(&mut low, token);
    assert(low@ =~= bytes::u64_bytes(token));
    reversed(&low)
}

/// The token that bytes stand for.
pub fn token_of(context: &Vec<u8>) -> (r: Option<u64>)
    ensures
        r == context_token(context@),
{
    if context.len() != 8 {
        return None;
    }
    let low = reversed(context);
    Some(get_u64(low.as_slice(), 0))
}

/// A token comes back from its bytes.
pub proof fn law_token_round_trip(token: u64)
    ensures
        context_token(token_context(token)) == Some(token),
{
    bytes::lemma_u64_bytes(token);
    let low = bytes::u64_bytes(token);
    assert(low.reverse().reverse() =~= low);
    assert(low.subrange(0, 8) =~= low);
}

/// Whether a read's round is known by a token.
pub open spec fn has_token(token: u64) -> spec_fn(ReadModel) -> bool {
    |r: ReadModel| r.token == token
}

/// The reads after a round confirmed an index: the read with that token waits
/// for the index to be applied. An unknown token is ignored.
pub open spec fn confirmed(
    s: Seq<ReadModel>,
    context: Seq<u8>,
    index: u64,
    deadline: u64,
) -> Seq<ReadModel> {
    match context_token(context) {
        None => s,
        Some(token) => match first_where(s, has_token(token)) {
            None => s,
            Some(i) => s.update(i, ReadModel { read_index: Some(index), deadline, ..s[i] }),
        },
    }
}

/// The reads after several rounds.
pub open spec fn all_confirmed(
    s: Seq<ReadModel>,
    states: Seq<(Seq<u8>, u64)>,
    deadline: u64,
) -> Seq<ReadModel>
    decreases states.len(),
{
    if states.len() == 0 {
        s
    } else {
        confirmed(
            all_confirmed(s, states.drop_last(), deadline),
            states.last().0,
            states.last().1,
            deadline,
        )
    }
}

/// What resolving reads comes to.
#[verifier::ext_equal]
pub struct ResolvedModel {
    /// The reads that keep waiting.
    pub kept: Seq<ReadModel>,
    /// The answers.
    pub answers: Seq<AnswerModel>,
    /// The reads that the applied state can serve.
    pub serve: Seq<(u64, Seq<u8>)>,
    /// The tokens of the rounds to start.
    pub rounds: Seq<u64>,
    /// The next token.
    pub next_token: u64,
    /// The room left in the channel to the applied state.
    pub channel: Channel,
    /// How many reads gave up.
    pub timeouts: nat,
}

/// What reads are resolved against.
#[verifier::ext_equal]
pub struct ReadContext {
    /// Whether this node leads.
    pub leads: bool,
    /// Where the leader is thought to be.
    pub hint: HintModel,
    /// The applied index.
    pub applied: u64,
    /// The time.
    pub now: u64,
    /// When a round that starts now is given up.
    pub deadline: u64,
}

/// One more read resolved. Without leadership it is refused. Once its index is
/// applied it is served, if the channel has room. When its wait is over, one
/// more round is started, with a new token; after that it gives up.
pub open spec fn resolved_one(m: ResolvedModel, r: ReadModel, c: ReadContext) -> ResolvedModel {
    if !c.leads {
        ResolvedModel {
            answers: m.answers.push(
                command::failed(r.ticket, ErrorModel::NotLeader(c.hint)),
            ),
            ..m
        }
    } else if is_applied(r.read_index, c.applied) {
        match m.channel {
            Channel::Open(room) => if room > 0 {
                ResolvedModel {
                    serve: m.serve.push((r.ticket, r.key)),
                    channel: Channel::Open((room - 1) as usize),
                    ..m
                }
            } else {
                ResolvedModel {
                    answers: m.answers.push(command::failed(r.ticket, ErrorModel::Busy)),
                    ..m
                }
            },
            Channel::Closed => ResolvedModel {
                answers: m.answers.push(command::failed(r.ticket, ErrorModel::ShuttingDown)),
                ..m
            },
        }
    } else if c.now < r.deadline {
        ResolvedModel { kept: m.kept.push(r), ..m }
    } else if r.attempts <= 1 {
        ResolvedModel {
            kept: m.kept.push(
                ReadModel {
                    token: m.next_token,
                    deadline: c.deadline,
                    read_index: None,
                    attempts: (r.attempts + 1) as u8,
                    ..r
                },
            ),
            rounds: m.rounds.push(m.next_token),
            next_token: (m.next_token + 1) as u64,
            ..m
        }
    } else {
        ResolvedModel {
            answers: m.answers.push(command::failed(r.ticket, ErrorModel::Timeout)),
            timeouts: m.timeouts + 1,
            ..m
        }
    }
}

/// Several reads resolved, in order.
pub open spec fn resolved(
    s: Seq<ReadModel>,
    next_token: u64,
    channel: Channel,
    c: ReadContext,
) -> ResolvedModel
    decreases s.len(),
{
    if s.len() == 0 {
        ResolvedModel {
            kept: Seq::empty(),
            answers: Seq::empty(),
            serve: Seq::empty(),
            rounds: Seq::empty(),
            next_token,
            channel,
            timeouts: 0,
        }
    } else {
        resolved_one(resolved(s.drop_last(), next_token, channel, c), s.last(), c)
    }
}

proof fn lemma_resolved_bounds(
    s: Seq<ReadModel>,
    next_token: u64,
    channel: Channel,
    c: ReadContext,
)
    requires
        next_token + s.len() <= u64::MAX,
    ensures
        next_token <= resolved(s, next_token, channel, c).next_token <= next_token + s.len(),
        resolved(s, next_token, channel, c).kept.len() <= s.len(),
        resolved(s, next_token, channel, c).timeouts <= s.len(),
    decreases s.len(),
{
    if s.len() > 0 {
        lemma_resolved_bounds(s.drop_last(), next_token, channel, c);
    }
}

/// What resolving reads comes to.
pub struct Resolved {
    /// The answers.
    pub answers: Vec<Answer>,
    /// The reads that the applied state can serve: request and key.
    pub serve: Vec<(u64, Vec<u8>)>,
    /// The tokens of the rounds to start.
    pub rounds: Vec<u64>,
    /// The room left in the channel to the applied state.
    pub channel: Channel,
    /// How many reads gave up.
    pub timeouts: u64,
}

/// A list of requests with keys as mathematical values.
pub open spec fn serve_models(s: Seq<(u64, Vec<u8>)>) -> Seq<(u64, Seq<u8>)> {
    Seq::new(s.len(), |i: int| (s[i].0, s[i].1@))
}

// ---------------------------------------------------------------------------
// Everything that waits
// ---------------------------------------------------------------------------
/// The requests that wait.
pub struct Waiting {
    /// Proposals.
    pub proposals: Vec<Pending<SessionKey>>,
    /// Membership changes.
    pub changes: Vec<Pending<Change>>,
    /// Leadership transfers.
    pub transfers: Vec<PendingTransfer>,
    /// Linearizable reads.
    pub reads: VecDeque<PendingRead>,
    /// The token of the next read round.
    pub next_token: u64,
}

/// The requests that wait, as a mathematical value.
#[verifier::ext_equal]
pub struct WaitingModel {
    pub proposals: Seq<Pending<SessionKey>>,
    pub changes: Seq<Pending<Change>>,
    pub transfers: Seq<PendingTransfer>,
    pub reads: Seq<ReadModel>,
    pub next_token: u64,
}

impl View for Waiting {
    type V = WaitingModel;

    open spec fn view(&self) -> WaitingModel {
        WaitingModel {
            proposals: self.proposals@,
            changes: self.changes@,
            transfers: self.transfers@,
            reads: read_models(self.reads@),
            next_token: self.next_token,
        }
    }
}

/// Nothing that waits.
pub open spec fn nothing_waits(next_token: u64) -> WaitingModel {
    WaitingModel {
        proposals: Seq::empty(),
        changes: Seq::empty(),
        transfers: Seq::empty(),
        reads: Seq::empty(),
        next_token,
    }
}

impl WaitingModel {
    /// Whether every round in progress has a token of its own, and the next
    /// token is new.
    pub open spec fn wf(self) -> bool {
        &&& forall|i: int| 0 <= i < self.reads.len() ==> (#[trigger] self.reads[i]).token
            < self.next_token
        &&& forall|i: int, j: int|
            0 <= i < j < self.reads.len() ==> (#[trigger] self.reads[i]).token
                != (#[trigger] self.reads[j]).token
    }

    /// After the entries up to `applied` were applied and the time is `now`.
    pub open spec fn replied(self, applied: u64, now: u64) -> (WaitingModel, Seq<AnswerModel>) {
        (
            WaitingModel {
                proposals: still_pending(self.proposals, applied, now),
                changes: still_pending(self.changes, applied, now),
                ..self
            },
            pending_answers(self.changes, applied, now) + pending_answers(
                self.proposals,
                applied,
                now,
            ),
        )
    }
}

/// The answers when everything in a list fails for the same reason.
pub open spec fn failed_pending<T>(s: Seq<Pending<T>>, e: ErrorModel) -> Seq<AnswerModel> {
    Seq::new(s.len(), |i: int| command::failed(s[i].ticket, e))
}

/// The answers when every transfer fails for the same reason.
pub open spec fn failed_transfers(s: Seq<PendingTransfer>, e: ErrorModel) -> Seq<AnswerModel> {
    Seq::new(s.len(), |i: int| command::failed(s[i].ticket, e))
}

/// The answers when every read fails for the same reason.
pub open spec fn failed_reads(s: Seq<ReadModel>, e: ErrorModel) -> Seq<AnswerModel> {
    Seq::new(s.len(), |i: int| command::failed(s[i].ticket, e))
}

impl WaitingModel {
    /// The answers when everything that waits fails for the same reason.
    pub open spec fn all_failed(self, message: Seq<char>) -> Seq<AnswerModel> {
        let e = ErrorModel::Unrecoverable(message);
        failed_pending(self.changes, e) + failed_transfers(self.transfers, e) + failed_pending(
            self.proposals,
            e,
        ) + failed_reads(self.reads, e)
    }
}

fn fail_pending<T: Copy>(list: &Vec<Pending<T>>, message: &String, answers: &mut Vec<Answer>)
    ensures
        command::answer_models(final(answers)@) == command::answer_models(old(answers)@)
            + failed_pending(list@, ErrorModel::Unrecoverable(message@)),
{
    let ghost before = command::answer_models(answers@);
    let ghost all = failed_pending(list@, ErrorModel::Unrecoverable(message@));
    let n: usize = list.len();
    let mut i: usize = 0;
    assert(before + all.subrange(0, 0) =~= before);
    while i < n
        invariant
            i <= n,
            n == list@.len(),
            all == failed_pending(list@, ErrorModel::Unrecoverable(message@)),
            command::answer_models(answers@) == before + all.subrange(0, i as int),
        decreases n - i,
    {
        push_answer(
            answers,
            list[i].ticket,
            Reply::Failed(ArachneError::Unrecoverable(message.clone())),
        );
        assert(command::answer_models(answers@) =~= before + all.subrange(0, i + 1));
        i = i + 1;
    }
    assert(all.subrange(0, n as int) =~= all);
}

fn fail_transfers(list: &Vec<PendingTransfer>, message: &String, answers: &mut Vec<Answer>)
    ensures
        command::answer_models(final(answers)@) == command::answer_models(old(answers)@)
            + failed_transfers(list@, ErrorModel::Unrecoverable(message@)),
{
    let ghost before = command::answer_models(answers@);
    let ghost all = failed_transfers(list@, ErrorModel::Unrecoverable(message@));
    let n: usize = list.len();
    let mut i: usize = 0;
    assert(before + all.subrange(0, 0) =~= before);
    while i < n
        invariant
            i <= n,
            n == list@.len(),
            all == failed_transfers(list@, ErrorModel::Unrecoverable(message@)),
            command::answer_models(answers@) == before + all.subrange(0, i as int),
        decreases n - i,
    {
        push_answer(
            answers,
            list[i].ticket,
            Reply::Failed(ArachneError::Unrecoverable(message.clone())),
        );
        assert(command::answer_models(answers@) =~= before + all.subrange(0, i + 1));
        i = i + 1;
    }
    assert(all.subrange(0, n as int) =~= all);
}

fn fail_reads(list: &VecDeque<PendingRead>, message: &String, answers: &mut Vec<Answer>)
    ensures
        command::answer_models(final(answers)@) == command::answer_models(old(answers)@)
            + failed_reads(read_models(list@), ErrorModel::Unrecoverable(message@)),
{
    let ghost before = command::answer_models(answers@);
    let ghost all = failed_reads(read_models(list@), ErrorModel::Unrecoverable(message@));
    let n: usize = list.len();
    let mut i: usize = 0;
    assert(before + all.subrange(0, 0) =~= before);
    while i < n
        invariant
            i <= n,
            n == list@.len(),
            all == failed_reads(read_models(list@), ErrorModel::Unrecoverable(message@)),
            command::answer_models(answers@) == before + all.subrange(0, i as int),
        decreases n - i,
    {
        push_answer(
            answers,
            list[i].ticket,
            Reply::Failed(ArachneError::Unrecoverable(message.clone())),
        );
        assert(command::answer_models(answers@) =~= before + all.subrange(0, i + 1));
        i = i + 1;
    }
    assert(all.subrange(0, n as int) =~= all);
}

proof fn lemma_confirmed_tokens(
    s: Seq<ReadModel>,
    context: Seq<u8>,
    index: u64,
    deadline: u64,
)
    ensures
        confirmed(s, context, index, deadline).len() == s.len(),
        forall|i: int|
            0 <= i < s.len() ==> (#[trigger] confirmed(s, context, index, deadline)[i]).token
                == s[i].token && confirmed(s, context, index, deadline)[i].ticket == s[i].ticket,
{
    if let Some(token) = context_token(context) {
        lemma_first_where(s, has_token(token));
    }
}

proof fn lemma_all_confirmed_tokens(
    s: Seq<ReadModel>,
    states: Seq<(Seq<u8>, u64)>,
    deadline: u64,
)
    ensures
        all_confirmed(s, states, deadline).len() == s.len(),
        forall|i: int|
            0 <= i < s.len() ==> (#[trigger] all_confirmed(s, states, deadline)[i]).token
                == s[i].token && all_confirmed(s, states, deadline)[i].ticket == s[i].ticket,
    decreases states.len(),
{
    if states.len() > 0 {
        lemma_all_confirmed_tokens(s, states.drop_last(), deadline);
        lemma_confirmed_tokens(
            all_confirmed(s, states.drop_last(), deadline),
            states.last().0,
            states.last().1,
            deadline,
        );
    }
}

impl Waiting {
    /// Nothing waits.
    pub fn new() -> (r: Waiting)
        ensures
            r@ == nothing_waits(0),
            r@.wf(),
    {
        let r = Waiting {
            proposals: Vec::new(),
            changes: Vec::new(),
            transfers: Vec::new(),
            reads: VecDeque::new(),
            next_token: 0,
        };
        assert(r@ =~= nothing_waits(0));
        r
    }

    /// An entry with this session stands at `index`.
    pub fn attribute_session(&mut self, session: SessionKey, index: LogIndex)
        ensures
            final(self)@ == (WaitingModel {
                proposals: attributed(old(self)@.proposals, session, index),
                ..old(self)@
            }),
    {
        attribute_session(&mut self.proposals, session, index);
    }

    /// An entry with this membership change stands at `index`.
    pub fn attribute_change(&mut self, change: Change, index: LogIndex)
        ensures
            final(self)@ == (WaitingModel {
                changes: attributed(old(self)@.changes, change, index),
                ..old(self)@
            }),
    {
        attribute_change(&mut self.changes, change, index);
    }

    /// Answer the proposals and the membership changes whose entry is applied or
    /// whose wait is over.
    pub fn reply_pendings(&mut self, applied: LogIndex, now: u64, answers: &mut Vec<Answer>)
        ensures
            final(self)@ == old(self)@.replied(applied, now).0,
            command::answer_models(final(answers)@) == command::answer_models(old(answers)@)
                + old(self)@.replied(applied, now).1,
    {
        let ghost m = self@;
        let ghost before = command::answer_models(answers@);
        let changes = settle(&self.changes, applied, now, answers);
        self.changes = changes;
        let proposals = settle(&self.proposals, applied, now, answers);
        self.proposals = proposals;
        assert(command::answer_models(answers@) =~= before + m.replied(applied, now).1);
    }

    /// Answer the transfers that are over.
    pub fn resolve_transfers(
        &mut self,
        me: RaftId,
        leader: RaftId,
        now: u64,
        hint: &LeaderHint,
        answers: &mut Vec<Answer>,
    )
        ensures
            final(self)@ == (WaitingModel {
                transfers: still_moving(
                    old(self)@.transfers,
                    me,
                    leader,
                    now,
                    client::hint_model(*hint),
                ),
                ..old(self)@
            }),
            command::answer_models(final(answers)@) == command::answer_models(old(answers)@)
                + transfer_answers(
                old(self)@.transfers,
                me,
                leader,
                now,
                client::hint_model(*hint),
            ),
    {
        let ghost s = self.transfers@;
        let ghost h = client::hint_model(*hint);
        let ghost before = command::answer_models(answers@);
        let mut kept: Vec<PendingTransfer> = Vec::new();
        let n: usize = self.transfers.len();
        let mut i: usize = 0;
        assert(kept@ =~= still_moving(s.subrange(0, 0), me, leader, now, h));
        assert(before =~= before + transfer_answers(s.subrange(0, 0), me, leader, now, h));
        while i < n
            invariant
                i <= n,
                n == self.transfers@.len(),
                s == self.transfers@,
                h == client::hint_model(*hint),
                kept@ == still_moving(s.subrange(0, i as int), me, leader, now, h),
                command::answer_models(answers@) == before + transfer_answers(
                    s.subrange(0, i as int),
                    me,
                    leader,
                    now,
                    h,
                ),
            decreases n - i,
        {
            let ghost next = s.subrange(0, i + 1);
            assert(next.drop_last() =~= s.subrange(0, i as int));
            assert(next.last() == s[i as int]);
            let t = self.transfers[i];
            if leader == t.target {
                push_answer(answers, t.ticket, Reply::Done);
            } else if leader != 0 && leader != me {
                push_answer(
                    answers,
                    t.ticket,
                    Reply::Failed(ArachneError::NotLeader { leader_hint: copy_hint(hint) }),
                );
            } else if now >= t.deadline {
                push_answer(answers, t.ticket, Reply::Failed(ArachneError::Timeout));
            } else {
                kept.push(t);
            }
            assert(command::answer_models(answers@) =~= before + transfer_answers(
                next,
                me,
                leader,
                now,
                h,
            ));
            i = i + 1;
        }
        assert(s.subrange(0, n as int) =~= s);
        self.transfers = kept;
    }

    /// Take note of confirmed reads.
    pub fn record_read_states(&mut self, states: &Vec<ReadState>, deadline: u64)
        requires
            old(self)@.wf(),
        ensures
            final(self)@ == (WaitingModel {
                reads: all_confirmed(
                    old(self)@.reads,
                    pipeline::read_models(states@),
                    deadline,
                ),
                ..old(self)@
            }),
            final(self)@.wf(),
    {
        let ghost m = self@;
        let ghost all = pipeline::read_models(states@);
        let n: usize = states.len();
        let mut i: usize = 0;
        assert(all.subrange(0, 0) =~= Seq::empty());
        while i < n
            invariant
                i <= n,
                n == states@.len(),
                all == pipeline::read_models(states@),
                self@ == (WaitingModel {
                    reads: all_confirmed(m.reads, all.subrange(0, i as int), deadline),
                    ..m
                }),
            decreases n - i,
        {
            let ghost next = all.subrange(0, i + 1);
            assert(next.drop_last() =~= all.subrange(0, i as int));
            assert(next.last() == all[i as int]);
            self.confirm(&states[i], deadline);
            i = i + 1;
        }
        assert(all.subrange(0, n as int) =~= all);
        proof {
            lemma_all_confirmed_tokens(m.reads, all, deadline);
        }
    }

    fn confirm(&mut self, state: &ReadState, deadline: u64)
        ensures
            final(self)@ == (WaitingModel {
                reads: confirmed(old(self)@.reads, state.context@, state.index, deadline),
                ..old(self)@
            }),
    {
        let ghost m = self@;
        let token: u64 = match token_of(&state.context) {
            None => {
                return ;
            },
            Some(token) => token,
        };
        let ghost p = has_token(token);
        let n: usize = self.reads.len();
        let mut i: usize = 0;
        while i < n
            invariant
                i <= n,
                n == self.reads@.len(),
                self@ == m,
                m == old(self)@,
                p == has_token(token),
                context_token(state.context@) == Some(token),
                forall|k: int| 0 <= k < i ==> !p(#[trigger] m.reads[k]),
            decreases n - i,
        {
            assert(m.reads[i as int] == self.reads@[i as int]@);
            if self.reads[i].token == token {
                proof {
                    lemma_is_first(m.reads, p, i as int);
                }
                if let Some(r) = self.reads.remove(i) {
                    let updated = PendingRead {
                        token: r.token,
                        key: r.key,
                        ticket: r.ticket,
                        deadline,
                        read_index: Some(state.index),
                        attempts: r.attempts,
                    };
                    self.reads.insert(i, updated);
                }
                assert(read_models(self.reads@) =~= confirmed(
                    m.reads,
                    state.context@,
                    state.index,
                    deadline,
                ));
                return ;
            }
            i = i + 1;
        }
        proof {
            lemma_first_where(m.reads, p);
        }
    }

    /// Resolve the reads that can be: see [`resolved_one`].
    pub fn resolve_reads(
        &mut self,
        leads: bool,
        hint: &LeaderHint,
        applied: LogIndex,
        now: u64,
        deadline: u64,
        channel: Channel,
    ) -> (r: Resolved)
        requires
            old(self)@.wf(),
            old(self)@.next_token + old(self)@.reads.len() <= u64::MAX,
        ensures
            final(self)@.wf(),
            ({
                let c = ReadContext {
                    leads,
                    hint: client::hint_model(*hint),
                    applied,
                    now,
                    deadline,
                };
                let out = resolved(old(self)@.reads, old(self)@.next_token, channel, c);
                &&& final(self)@ == (WaitingModel {
                    reads: out.kept,
                    next_token: out.next_token,
                    ..old(self)@
                })
                &&& command::answer_models(r.answers@) == out.answers
                &&& serve_models(r.serve@) == out.serve
                &&& r.rounds@ == out.rounds
                &&& r.channel == out.channel
                &&& r.timeouts == out.timeouts
            }),
    {
        let ghost m = self@;
        let ghost all = m.reads;
        let ghost c = ReadContext {
            leads,
            hint: client::hint_model(*hint),
            applied,
            now,
            deadline,
        };
        let mut rest: VecDeque<PendingRead> = VecDeque::new();
        let mut kept: VecDeque<PendingRead> = VecDeque::new();
        let mut answers: Vec<Answer> = Vec::new();
        let mut serve: Vec<(u64, Vec<u8>)> = Vec::new();
        let mut rounds: Vec<u64> = Vec::new();
        let mut channel: Channel = channel;
        let ghost start = channel;
        let mut timeouts: u64 = 0;
        std::mem::swap(&mut self.reads, &mut rest);
        let n: usize = rest.len();
        let mut i: usize = 0;
        proof {
            let none = resolved(all.subrange(0, 0), m.next_token, start, c);
            assert(read_models(kept@) =~= none.kept);
            assert(command::answer_models(answers@) =~= none.answers);
            assert(serve_models(serve@) =~= none.serve);
            assert(rounds@ =~= none.rounds);
            assert(read_models(rest@) =~= all.subrange(0, n as int));
            assert(all.subrange(0, n as int) =~= all);
        }
        while i < n
            invariant
                i <= n,
                n == all.len(),
                m.next_token + n <= u64::MAX,
                all == m.reads,
                read_models(rest@) == all.subrange(i as int, n as int),
                c == (ReadContext {
                    leads,
                    hint: client::hint_model(*hint),
                    applied,
                    now,
                    deadline,
                }),
                self.proposals@ == m.proposals,
                self.changes@ == m.changes,
                self.transfers@ == m.transfers,
                timeouts <= i,
                ({
                    let out = resolved(all.subrange(0, i as int), m.next_token, start, c);
                    &&& read_models(kept@) == out.kept
                    &&& self.next_token == out.next_token
                    &&& command::answer_models(answers@) == out.answers
                    &&& serve_models(serve@) == out.serve
                    &&& rounds@ == out.rounds
                    &&& channel == out.channel
                    &&& timeouts == out.timeouts
                }),
            decreases n - i,
        {
            let ghost done = all.subrange(0, i as int);
            let ghost next = all.subrange(0, i + 1);
            let ghost before = resolved(done, m.next_token, start, c);
            let ghost after = resolved(next, m.next_token, start, c);
            proof {
                assert(next.drop_last() =~= done);
                assert(next.last() == all[i as int]);
                lemma_resolved_bounds(done, m.next_token, start, c);
                assert(read_models(rest@).len() == rest@.len());
                assert(read_models(rest@)[0] == rest@[0]@);
                assert(all.subrange(i as int, n as int)[0] == all[i as int]);
            }
            let ghost tail = rest@;
            if let Some(r) = rest.pop_front() {
                assert(r@ == all[i as int]);
                assert forall|k: int| 0 <= k < rest@.len() implies #[trigger] rest@[k]@ == all[i + 1
                    + k] by {
                    assert(rest@[k] == tail[k + 1]);
                    assert(read_models(tail)[k + 1] == all.subrange(i as int, n as int)[k + 1]);
                }
                assert(read_models(rest@) =~= all.subrange(i + 1, n as int));
                let is_done = match r.read_index {
                    Some(index) => applied >= index,
                    None => false,
                };
                if !leads {
                    push_answer(
                        &mut answers,
                        r.ticket,
                        Reply::Failed(ArachneError::NotLeader { leader_hint: copy_hint(hint) }),
                    );
                } else if is_done {
                    match channel {
                        Channel::Open(room) => {
                            if room > 0 {
                                channel = Channel::Open(room - 1);
                                serve.push((r.ticket, r.key));
                                assert(serve_models(serve@) =~= before.serve.push(
                                    (all[i as int].ticket, all[i as int].key),
                                ));
                            } else {
                                push_answer(
                                    &mut answers,
                                    r.ticket,
                                    Reply::Failed(ArachneError::Busy),
                                );
                            }
                        },
                        Channel::Closed => {
                            push_answer(
                                &mut answers,
                                r.ticket,
                                Reply::Failed(ArachneError::ShuttingDown),
                            );
                        },
                    }
                } else if now < r.deadline {
                    kept.push_back(r);
                    assert(read_models(kept@) =~= before.kept.push(all[i as int]));
                } else if r.attempts <= 1 {
                    let token: u64 = self.next_token;
                    self.next_token = token + 1;
                    rounds.push(token);
                    kept.push_back(
                        PendingRead {
                            token,
                            key: r.key,
                            ticket: r.ticket,
                            deadline,
                            read_index: None,
                            attempts: r.attempts + 1,
                        },
                    );
                    assert(read_models(kept@) =~= after.kept);
                } else {
                    timeouts = timeouts + 1;
                    push_answer(&mut answers, r.ticket, Reply::Failed(ArachneError::Timeout));
                }
            }
            i = i + 1;
        }
        assert(all.subrange(0, n as int) =~= all);
        self.reads = kept;
        proof {
            lemma_resolved_tokens(all, m.next_token, start, c);
        }
        Resolved { answers, serve, rounds, channel, timeouts }
    }

    /// Answer everything that waits with the same failure.
    pub fn fail_all_pending(&mut self, message: &String, answers: &mut Vec<Answer>)
        ensures
            final(self)@ == nothing_waits(old(self)@.next_token),
            final(self)@.wf(),
            command::answer_models(final(answers)@) == command::answer_models(old(answers)@)
                + old(self)@.all_failed(message@),
    {
        let ghost m = self@;
        let ghost before = command::answer_models(answers@);
        fail_pending(&self.changes, message, answers);
        fail_transfers(&self.transfers, message, answers);
        fail_pending(&self.proposals, message, answers);
        fail_reads(&self.reads, message, answers);
        self.changes = Vec::new();
        self.transfers = Vec::new();
        self.proposals = Vec::new();
        self.reads = VecDeque::new();
        assert(self@ =~= nothing_waits(m.next_token));
        assert(command::answer_models(answers@) =~= before + m.all_failed(message@));
    }
}

proof fn lemma_resolved_tokens(
    s: Seq<ReadModel>,
    next_token: u64,
    channel: Channel,
    c: ReadContext,
)
    requires
        next_token + s.len() <= u64::MAX,
        forall|i: int| 0 <= i < s.len() ==> (#[trigger] s[i]).token < next_token,
        forall|i: int, j: int|
            0 <= i < j < s.len() ==> (#[trigger] s[i]).token != (#[trigger] s[j]).token,
    ensures
        ({
            let out = resolved(s, next_token, channel, c);
            &&& forall|i: int| 0 <= i < out.kept.len() ==> (#[trigger] out.kept[i]).token
                < out.next_token
            &&& forall|i: int|
                0 <= i < out.kept.len() ==> (#[trigger] out.kept[i]).token >= next_token
                    || exists|k: int| 0 <= k < s.len() && (#[trigger] s[k]).token
                    == out.kept[i].token
            &&& forall|i: int, j: int|
                0 <= i < j < out.kept.len() ==> (#[trigger] out.kept[i]).token
                    != (#[trigger] out.kept[j]).token
        }),
    decreases s.len(),
{
    if s.len() > 0 {
        let init = s.drop_last();
        let before = resolved(init, next_token, channel, c);
        let out = resolved(s, next_token, channel, c);
        assert forall|i: int| 0 <= i < init.len() implies (#[trigger] init[i]).token < next_token by {
            assert(init[i] == s[i]);
        }
        assert forall|i: int, j: int| 0 <= i < j < init.len() implies (#[trigger] init[i]).token != (
        #[trigger] init[j]).token by {
            assert(init[i] == s[i] && init[j] == s[j]);
        }
        lemma_resolved_tokens(init, next_token, channel, c);
        lemma_resolved_bounds(init, next_token, channel, c);
        assert forall|i: int| 0 <= i < out.kept.len() implies (#[trigger] out.kept[i]).token
            >= next_token || exists|k: int| 0 <= k < s.len() && (#[trigger] s[k]).token
            == out.kept[i].token by {
            if i < before.kept.len() {
                assert(out.kept[i] == before.kept[i]);
                if before.kept[i].token < next_token {
                    let k = choose|k: int|
                        0 <= k < init.len() && (#[trigger] init[k]).token == before.kept[i].token;
                    assert(s[k] == init[k]);
                }
            } else {
                assert(s[s.len() - 1] == s.last());
            }
        }
        assert forall|i: int, j: int| 0 <= i < j < out.kept.len() implies (
        #[trigger] out.kept[i]).token != (#[trigger] out.kept[j]).token by {
            assert(out.kept[i] == before.kept[i]);
            if j < before.kept.len() {
                assert(out.kept[j] == before.kept[j]);
            } else if out.kept[j].token < next_token {
                assert(out.kept[j].token == s.last().token);
                if before.kept[i].token < next_token {
                    let k = choose|k: int|
                        0 <= k < init.len() && (#[trigger] init[k]).token == before.kept[i].token;
                    assert(s[k] == init[k]);
                    assert(s[k].token != s[s.len() - 1].token);
                }
            }
        }
    }
}

// ---------------------------------------------------------------------------
// Laws: every request is answered once
// ---------------------------------------------------------------------------
/// The requests that answers belong to.
pub open spec fn answered(s: Seq<AnswerModel>) -> Multiset<u64>
    decreases s.len(),
{
    if s.len() == 0 {
        Multiset::empty()
    } else {
        answered(s.drop_last()).insert(s.last().ticket)
    }
}

/// The requests of a list.
pub open spec fn pending_tickets<T>(s: Seq<Pending<T>>) -> Multiset<u64>
    decreases s.len(),
{
    if s.len() == 0 {
        Multiset::empty()
    } else {
        pending_tickets(s.drop_last()).insert(s.last().ticket)
    }
}

/// The requests of a list of transfers.
pub open spec fn transfer_tickets(s: Seq<PendingTransfer>) -> Multiset<u64>
    decreases s.len(),
{
    if s.len() == 0 {
        Multiset::empty()
    } else {
        transfer_tickets(s.drop_last()).insert(s.last().ticket)
    }
}

/// The requests of a list of reads.
pub open spec fn read_tickets(s: Seq<ReadModel>) -> Multiset<u64>
    decreases s.len(),
{
    if s.len() == 0 {
        Multiset::empty()
    } else {
        read_tickets(s.drop_last()).insert(s.last().ticket)
    }
}

/// The requests of a list of reads to serve.
pub open spec fn serve_tickets(s: Seq<(u64, Seq<u8>)>) -> Multiset<u64>
    decreases s.len(),
{
    if s.len() == 0 {
        Multiset::empty()
    } else {
        serve_tickets(s.drop_last()).insert(s.last().0)
    }
}

impl WaitingModel {
    /// The requests that wait.
    pub open spec fn tickets(self) -> Multiset<u64> {
        pending_tickets(self.changes).add(transfer_tickets(self.transfers)).add(
            pending_tickets(self.proposals),
        ).add(read_tickets(self.reads))
    }
}

/// A proposal or a membership change keeps waiting or is answered, never both
/// and never neither.
pub proof fn law_pending_answered_once<T>(s: Seq<Pending<T>>, applied: u64, now: u64)
    ensures
        pending_tickets(s) =~= pending_tickets(still_pending(s, applied, now)).add(
            answered(pending_answers(s, applied, now)),
        ),
    decreases s.len(),
{
    if s.len() > 0 {
        let init = s.drop_last();
        law_pending_answered_once(init, applied, now);
        let kept = still_pending(init, applied, now);
        let out = pending_answers(init, applied, now);
        assert(kept.push(s.last()).drop_last() =~= kept);
        assert(out.push(command::done(s.last().ticket)).drop_last() =~= out);
        assert(out.push(command::failed(s.last().ticket, ErrorModel::Timeout)).drop_last() =~= out);
    }
}

/// A transfer keeps waiting or is answered, never both and never neither.
pub proof fn law_transfer_answered_once(
    s: Seq<PendingTransfer>,
    me: u64,
    leader: u64,
    now: u64,
    hint: HintModel,
)
    ensures
        transfer_tickets(s) =~= transfer_tickets(still_moving(s, me, leader, now, hint)).add(
            answered(transfer_answers(s, me, leader, now, hint)),
        ),
    decreases s.len(),
{
    if s.len() > 0 {
        let init = s.drop_last();
        law_transfer_answered_once(init, me, leader, now, hint);
        let kept = still_moving(init, me, leader, now, hint);
        let out = transfer_answers(init, me, leader, now, hint);
        assert(kept.push(s.last()).drop_last() =~= kept);
        match transfer_verdict(s.last(), me, leader, now, hint) {
            Some(answer) => {
                assert(out.push(answer).drop_last() =~= out);
            },
            None => {},
        }
    }
}

/// A read keeps waiting, is answered, or is handed on to be served: one of the
/// three.
pub proof fn law_read_answered_once(
    s: Seq<ReadModel>,
    next_token: u64,
    channel: Channel,
    c: ReadContext,
)
    ensures
        ({
            let out = resolved(s, next_token, channel, c);
            read_tickets(s) =~= read_tickets(out.kept).add(answered(out.answers)).add(
                serve_tickets(out.serve),
            )
        }),
    decreases s.len(),
{
    if s.len() > 0 {
        let init = s.drop_last();
        law_read_answered_once(init, next_token, channel, c);
        let before = resolved(init, next_token, channel, c);
        let after = resolved(s, next_token, channel, c);
        if after.kept.len() > before.kept.len() {
            assert(after.kept.drop_last() =~= before.kept);
        }
        if after.answers.len() > before.answers.len() {
            assert(after.answers.drop_last() =~= before.answers);
        }
        if after.serve.len() > before.serve.len() {
            assert(after.serve.drop_last() =~= before.serve);
        }
    }
}

/// The requests of two lists of answers together.
pub proof fn lemma_answered_concat(a: Seq<AnswerModel>, b: Seq<AnswerModel>)
    ensures
        answered(a + b) =~= answered(a).add(answered(b)),
    decreases b.len(),
{
    if b.len() == 0 {
        assert(a + b =~= a);
    } else {
        lemma_answered_concat(a, b.drop_last());
        assert((a + b).drop_last() =~= a + b.drop_last());
    }
}

proof fn lemma_failed_pending<T>(s: Seq<Pending<T>>, e: ErrorModel)
    ensures
        answered(failed_pending(s, e)) =~= pending_tickets(s),
    decreases s.len(),
{
    if s.len() > 0 {
        lemma_failed_pending(s.drop_last(), e);
        assert(failed_pending(s, e).drop_last() =~= failed_pending(s.drop_last(), e));
    }
}

proof fn lemma_failed_transfers(s: Seq<PendingTransfer>, e: ErrorModel)
    ensures
        answered(failed_transfers(s, e)) =~= transfer_tickets(s),
    decreases s.len(),
{
    if s.len() > 0 {
        lemma_failed_transfers(s.drop_last(), e);
        assert(failed_transfers(s, e).drop_last() =~= failed_transfers(s.drop_last(), e));
    }
}

proof fn lemma_failed_reads(s: Seq<ReadModel>, e: ErrorModel)
    ensures
        answered(failed_reads(s, e)) =~= read_tickets(s),
    decreases s.len(),
{
    if s.len() > 0 {
        lemma_failed_reads(s.drop_last(), e);
        assert(failed_reads(s, e).drop_last() =~= failed_reads(s.drop_last(), e));
    }
}

/// When the node stops, everything that waits is answered, each request once.
pub proof fn law_stopping_answers_everything(m: WaitingModel, message: Seq<char>)
    ensures
        answered(m.all_failed(message)) =~= m.tickets(),
        nothing_waits(m.next_token).tickets() =~= Multiset::empty(),
{
    let e = ErrorModel::Unrecoverable(message);
    let a = failed_pending(m.changes, e);
    let b = failed_transfers(m.transfers, e);
    let c = failed_pending(m.proposals, e);
    let d = failed_reads(m.reads, e);
    lemma_failed_pending(m.changes, e);
    lemma_failed_transfers(m.transfers, e);
    lemma_failed_pending(m.proposals, e);
    lemma_failed_reads(m.reads, e);
    lemma_answered_concat(a, b);
    lemma_answered_concat(a + b, c);
    lemma_answered_concat(a + b + c, d);
}

/// An entry is attributed only to a request that waits for such an entry, to at
/// most one, and to one wherever there is any.
pub proof fn law_entry_belongs_to_its_request<T>(
    s: Seq<Pending<T>>,
    what: T,
    index: u64,
    i: int,
    j: int,
)
    requires
        0 <= i < s.len(),
        0 <= j < s.len(),
    ensures
        ({
            let t = attributed(s, what, index);
            &&& t.len() == s.len()
            &&& t[i] != s[i] ==> s[i].index is None && s[i].what == what && t[i] == (Pending {
                index: Some(index),
                ..s[i]
            })
            &&& t[i] != s[i] && t[j] != s[j] ==> i == j
            &&& t == s ==> !(s[i].index is None && s[i].what == what)
        }),
{
    let p = waits_for(what);
    lemma_first_where(s, p);
    let t = attributed(s, what, index);
    if let Some(k) = first_where(s, p) {
        assert(p(s[k]));
        assert(t[k].index is Some);
    } else {
        assert(!p(s[i]));
    }
}

/// A proposal is answered `Done` only once the entry it was attributed to is
/// applied.
pub proof fn law_done_means_applied<T>(s: Seq<Pending<T>>, applied: u64, now: u64, i: int)
    requires
        0 <= i < pending_answers(s, applied, now).len(),
        pending_answers(s, applied, now)[i].reply == command::ReplyModel::Done,
    ensures
        exists|k: int|
            0 <= k < s.len() && (#[trigger] s[k]).ticket == pending_answers(s, applied, now)[i].ticket
                && is_applied(s[k].index, applied),
    decreases s.len(),
{
    if s.len() > 0 {
        let init = s.drop_last();
        let before = pending_answers(init, applied, now);
        if i < before.len() {
            assert(before[i] == pending_answers(s, applied, now)[i]);
            law_done_means_applied(init, applied, now, i);
            let k = choose|k: int|
                0 <= k < init.len() && (#[trigger] init[k]).ticket == before[i].ticket && is_applied(
                    init[k].index,
                    applied,
                );
            assert(s[k] == init[k]);
        } else {
            assert(s[s.len() - 1] == s.last());
        }
    }
}

/// A read is served only while this node leads, and only at an index that a
/// quorum confirmed and that is applied.
pub proof fn law_served_reads_are_confirmed(
    s: Seq<ReadModel>,
    next_token: u64,
    channel: Channel,
    c: ReadContext,
    i: int,
)
    requires
        0 <= i < resolved(s, next_token, channel, c).serve.len(),
    ensures
        c.leads,
        exists|k: int|
            0 <= k < s.len() && (#[trigger] s[k]).ticket == resolved(
                s,
                next_token,
                channel,
                c,
            ).serve[i].0 && s[k].key == resolved(s, next_token, channel, c).serve[i].1
                && is_applied(s[k].read_index, c.applied),
    decreases s.len(),
{
    if s.len() > 0 {
        let init = s.drop_last();
        let before = resolved(init, next_token, channel, c);
        let after = resolved(s, next_token, channel, c);
        if i < before.serve.len() {
            assert(before.serve[i] == after.serve[i]);
            law_served_reads_are_confirmed(init, next_token, channel, c, i);
            let k = choose|k: int|
                0 <= k < init.len() && (#[trigger] init[k]).ticket == before.serve[i].0
                    && init[k].key == before.serve[i].1 && is_applied(
                    init[k].read_index,
                    c.applied,
                );
            assert(s[k] == init[k]);
        } else {
            assert(s[s.len() - 1] == s.last());
        }
    }
}

} // verus!
