//! What a cycle settles, and when it takes a snapshot.
use vstd::prelude::*;

use crate::metrics::Metrics;
use crate::runtime::cycle::Event;
use crate::runtime::state::{RuntimeModel, ViewModel};
use crate::runtime::waiting::{Channel, ReadContext, ReadModel, WaitingModel};
use crate::runtime::cycle;
use crate::runtime::request_laws;
use crate::runtime::state;
use crate::runtime::waiting;
use crate::runtime::waiting_laws;
use crate::text;

verus! {

proof fn lemma_bumped_by(v: u64, n: nat)
    ensures
        v + n <= u64::MAX ==> cycle::bumped_by(v, n) == v + n,
    decreases n,
{
    if n > 0 {
        lemma_bumped_by(v, (n - 1) as nat);
    }
}

/// Settling goes by the applied index, the leader and the time of the moment. What
/// the rounds reported is noted before reads are resolved. The answers come in one
/// order: transfers, reads, membership changes, proposals. Reads that gave up are
/// counted; nothing else of the node changes.
pub proof fn law_settling_goes_by_the_moment(
    m: RuntimeModel,
    states: Seq<(Seq<u8>, u64)>,
    v: ViewModel,
    reads: Channel,
    deadline: u64,
)
    requires
        request_laws::is_due(deadline, v.now, m.settings.read_index_timeout_ms),
    ensures
        ({
            let out = cycle::settled(m, states, v, reads);
            let me = m.settings.raft_id;
            let hint = state::hinted(m.settings, v.leader_id);
            let noted = waiting::all_confirmed(m.waiting.reads, states, deadline);
            let context = ReadContext {
                leads: v.leader_id == me,
                hint,
                applied: m.applied_index,
                now: v.now,
                deadline,
            };
            let resolved = waiting::resolved(noted, m.waiting.next_token, reads, context);
            &&& out.serve == resolved.serve
            &&& out.rounds == resolved.rounds
            &&& out.channel == resolved.channel
            &&& out.answers == waiting::transfer_answers(
                m.waiting.transfers,
                me,
                v.leader_id,
                v.now,
                hint,
            ) + resolved.answers + (waiting::pending_answers(
                m.waiting.changes,
                m.applied_index,
                v.now,
            ) + waiting::pending_answers(m.waiting.proposals, m.applied_index, v.now))
            &&& out.node.waiting == (WaitingModel {
                proposals: waiting::still_pending(m.waiting.proposals, m.applied_index, v.now),
                changes: waiting::still_pending(m.waiting.changes, m.applied_index, v.now),
                transfers: waiting::still_moving(
                    m.waiting.transfers,
                    me,
                    v.leader_id,
                    v.now,
                    hint,
                ),
                reads: resolved.kept,
                next_token: resolved.next_token,
            })
            &&& m.metrics.read_index_timeout_total + resolved.timeouts <= u64::MAX
                ==> out.node.metrics.read_index_timeout_total
                == m.metrics.read_index_timeout_total + resolved.timeouts
            &&& out.node == (RuntimeModel {
                waiting: out.node.waiting,
                metrics: Metrics {
                    read_index_timeout_total: out.node.metrics.read_index_timeout_total,
                    ..m.metrics
                },
                ..m
            })
        }),
{
    let noted = waiting::all_confirmed(m.waiting.reads, states, deadline);
    let context = cycle::read_context(m, v);
    let resolved = waiting::resolved(noted, m.waiting.next_token, reads, context);
    lemma_bumped_by(m.metrics.read_index_timeout_total, resolved.timeouts);
}

/// Whether a round with a token reported an index.
pub open spec fn round_reported(states: Seq<(Seq<u8>, u64)>, token: u64, index: u64) -> bool {
    exists|j: int|
        0 <= j < states.len() && #[trigger] states[j] == (waiting::token_context(token), index)
}

proof fn lemma_noted_index(
    s: Seq<ReadModel>,
    states: Seq<(Seq<u8>, u64)>,
    deadline: u64,
    k: int,
)
    requires
        waiting_laws::own_tokens(s),
        0 <= k < s.len(),
    ensures
        ({
            let t = waiting::all_confirmed(s, states, deadline);
            &&& t.len() == s.len()
            &&& t[k].key == s[k].key && t[k].ticket == s[k].ticket && t[k].token == s[k].token
            &&& t[k].read_index matches Some(index) ==> s[k].read_index == Some(index)
                || round_reported(states, s[k].token, index)
        }),
    decreases states.len(),
{
    waiting_laws::law_last_round_of_a_read_counts(s, states, deadline, k);
    if states.len() > 0 {
        let init = states.drop_last();
        let context = waiting::token_context(s[k].token);
        let before = waiting::all_confirmed(s, init, deadline);
        lemma_noted_index(s, init, deadline, k);
        waiting_laws::law_last_round_of_a_read_counts(s, init, deadline, k);
        waiting_laws::lemma_confirmed_one(
            before,
            states.last().0,
            states.last().1,
            deadline,
            k,
        );
        let last = states.len() - 1;
        if states.last().0 == context {
            assert(states[last] == (context, states.last().1));
        } else if let Some(index) = before[k].read_index {
            if s[k].read_index != Some(index) {
                let j = choose|j: int|
                    0 <= j < init.len() && #[trigger] init[j] == (
                        waiting::token_context(s[k].token),
                        index,
                    );
                assert(states[j] == init[j]);
            }
        }
    }
}

/// A read is served only by a leader, and only at an index that a round of that
/// very read reported, now or before, and that the state machine has reached.
pub proof fn law_served_reads_were_confirmed_and_applied(
    m: RuntimeModel,
    states: Seq<(Seq<u8>, u64)>,
    v: ViewModel,
    reads: Channel,
    i: int,
)
    requires
        m.waiting.wf(),
        0 <= i < cycle::settled(m, states, v, reads).serve.len(),
    ensures
        v.leader_id == m.settings.raft_id,
        ({
            let (ticket, key) = cycle::settled(m, states, v, reads).serve[i];
            exists|k: int, index: u64|
                0 <= k < m.waiting.reads.len() && (#[trigger] m.waiting.reads[k]).ticket == ticket
                    && m.waiting.reads[k].key == key && index <= m.applied_index && (
                #[trigger] round_reported(states, m.waiting.reads[k].token, index)
                    || m.waiting.reads[k].read_index == Some(index))
        }),
{
    let s = m.waiting.reads;
    let c = cycle::read_context(m, v);
    let noted = waiting::all_confirmed(s, states, c.deadline);
    let served = cycle::settled(m, states, v, reads).serve[i];
    waiting::law_served_reads_are_confirmed(noted, m.waiting.next_token, reads, c, i);
    let k = choose|k: int|
        0 <= k < noted.len() && (#[trigger] noted[k]).ticket == served.0 && noted[k].key
            == served.1 && waiting::is_applied(noted[k].read_index, c.applied);
    lemma_tokens(m.waiting);
    lemma_all_confirmed_len(s, states, c.deadline);
    lemma_noted_index(s, states, c.deadline, k);
    let index = noted[k].read_index->0;
    let known = round_reported(states, s[k].token, index);
    assert(s[k].ticket == served.0 && s[k].key == served.1 && index <= m.applied_index);
    assert(s[k].read_index == Some(index) || known);
}

proof fn lemma_all_confirmed_len(
    s: Seq<ReadModel>,
    states: Seq<(Seq<u8>, u64)>,
    deadline: u64,
)
    ensures
        waiting::all_confirmed(s, states, deadline).len() == s.len(),
    decreases states.len(),
{
    if states.len() > 0 {
        lemma_all_confirmed_len(s, states.drop_last(), deadline);
        let before = waiting::all_confirmed(s, states.drop_last(), deadline);
        if let Some(token) = waiting::context_token(states.last().0) {
            waiting::lemma_first_where(before, waiting::has_token(token));
        }
    }
}

proof fn lemma_tokens(w: WaitingModel)
    requires
        w.wf(),
    ensures
        waiting_laws::own_tokens(w.reads),
{
    assert forall|i: int, j: int|
        0 <= i < w.reads.len() && 0 <= j < w.reads.len() && i != j implies (
    #[trigger] w.reads[i]).token != (#[trigger] w.reads[j]).token by {
        if i > j {
            assert(w.reads[j].token != w.reads[i].token);
        }
    }
}

proof fn lemma_room_for_all(
    s: Seq<ReadModel>,
    next_token: u64,
    room: usize,
    c: ReadContext,
    k: int,
)
    requires
        c.leads,
        s.len() <= room,
        0 <= k < s.len(),
        s[k].read_index is Some && s[k].read_index->0 <= c.applied,
    ensures
        waiting::resolved(s, next_token, Channel::Open(room), c).serve.contains(
            (s[k].ticket, s[k].key),
        ),
    decreases s.len(),
{
    let before = waiting::resolved(s.drop_last(), next_token, Channel::Open(room), c);
    let after = waiting::resolved(s, next_token, Channel::Open(room), c);
    lemma_room_left(s.drop_last(), next_token, room, c);
    if k < s.len() - 1 {
        lemma_room_for_all(s.drop_last(), next_token, room, c, k);
        let i = choose|i: int|
            0 <= i < before.serve.len() && before.serve[i] == (s[k].ticket, s[k].key);
        assert(after.serve[i] == before.serve[i]);
    } else {
        assert(after.serve.last() == (s[k].ticket, s[k].key));
        assert(after.serve[after.serve.len() - 1] == (s[k].ticket, s[k].key));
    }
}

proof fn lemma_room_left(s: Seq<ReadModel>, next_token: u64, room: usize, c: ReadContext)
    requires
        s.len() <= room,
    ensures
        ({
            let out = waiting::resolved(s, next_token, Channel::Open(room), c);
            out.channel is Open && out.channel->0 >= room - s.len()
        }),
    decreases s.len(),
{
    if s.len() > 0 {
        lemma_room_left(s.drop_last(), next_token, room, c);
    }
}

/// A read whose last round reported an index that is applied is served, by a leader
/// that has room for it, under its own ticket and key.
pub proof fn law_confirmed_reads_are_served(
    m: RuntimeModel,
    states: Seq<(Seq<u8>, u64)>,
    v: ViewModel,
    room: usize,
    k: int,
    j: int,
)
    requires
        m.waiting.wf(),
        v.leader_id == m.settings.raft_id,
        m.waiting.reads.len() <= room,
        0 <= k < m.waiting.reads.len(),
        0 <= j < states.len(),
        states[j].0 == waiting::token_context(m.waiting.reads[k].token),
        forall|l: int|
            j < l < states.len() ==> (#[trigger] states[l]).0 != waiting::token_context(
                m.waiting.reads[k].token,
            ),
        states[j].1 <= m.applied_index,
    ensures
        cycle::settled(m, states, v, Channel::Open(room)).serve.contains(
            (m.waiting.reads[k].ticket, m.waiting.reads[k].key),
        ),
{
    let c = cycle::read_context(m, v);
    let noted = waiting::all_confirmed(m.waiting.reads, states, c.deadline);
    lemma_tokens(m.waiting);
    waiting_laws::law_last_round_of_a_read_counts(m.waiting.reads, states, c.deadline, k);
    lemma_room_for_all(noted, m.waiting.next_token, room, c, k);
}

/// A node that does not lead serves no read and starts no round: every read that
/// waited is refused.
pub proof fn law_reads_end_with_leadership(
    m: RuntimeModel,
    states: Seq<(Seq<u8>, u64)>,
    v: ViewModel,
    reads: Channel,
)
    requires
        v.leader_id != m.settings.raft_id,
    ensures
        ({
            let out = cycle::settled(m, states, v, reads);
            &&& out.serve.len() == 0
            &&& out.rounds.len() == 0
            &&& out.node.waiting.reads.len() == 0
            &&& out.channel == reads
        }),
{
    let c = cycle::read_context(m, v);
    let noted = waiting::all_confirmed(m.waiting.reads, states, c.deadline);
    lemma_refused(noted, m.waiting.next_token, reads, c);
}

proof fn lemma_refused(s: Seq<ReadModel>, next_token: u64, channel: Channel, c: ReadContext)
    requires
        !c.leads,
    ensures
        ({
            let out = waiting::resolved(s, next_token, channel, c);
            &&& out.serve.len() == 0
            &&& out.rounds.len() == 0
            &&& out.kept.len() == 0
            &&& out.channel == channel
        }),
    decreases s.len(),
{
    if s.len() > 0 {
        lemma_refused(s.drop_last(), next_token, channel, c);
    }
}

// ---------------------------------------------------------------------------
// Local snapshots
// ---------------------------------------------------------------------------
/// A local snapshot is due exactly when snapshots are wanted at all, none is being
/// taken, it would cover more than the last one, and the bytes applied since that
/// one have reached the threshold.
pub proof fn law_snapshot_is_due_by_growth(m: RuntimeModel)
    ensures
        cycle::snapshot_due(m) <==> {
            &&& m.settings.snapshot_threshold_bytes > 0
            &&& !m.snapshot_wait
            &&& m.snapshot_index < m.applied_index
            &&& m.bytes_at_snapshot + m.settings.snapshot_threshold_bytes <= m.applied_bytes
        },
{
}

/// A local snapshot that was taken is the last one from then on, at its own index,
/// and growth is measured from what is applied now. Its size and its time are
/// shown; it is counted as slow if it took more than a second.
pub proof fn law_taken_snapshot_is_the_last(
    m: RuntimeModel,
    index: u64,
    size_bytes: u64,
    elapsed_ms: u64,
)
    ensures
        ({
            let n = cycle::taken(m, index, size_bytes, elapsed_ms);
            &&& n.snapshot_index == index
            &&& n.bytes_at_snapshot == m.applied_bytes
            &&& n.metrics.snapshot_last_size_bytes == size_bytes
            &&& n.metrics.snapshot_last_duration_ms == elapsed_ms
            &&& m.metrics.snapshots_created_total < u64::MAX
                ==> n.metrics.snapshots_created_total == m.metrics.snapshots_created_total + 1
            &&& elapsed_ms <= 1_000 ==> n.metrics.snapshot_slow_total
                == m.metrics.snapshot_slow_total
            &&& elapsed_ms > 1_000 && m.metrics.snapshot_slow_total < u64::MAX
                ==> n.metrics.snapshot_slow_total == m.metrics.snapshot_slow_total + 1
            &&& n == (RuntimeModel {
                snapshot_index: n.snapshot_index,
                bytes_at_snapshot: n.bytes_at_snapshot,
                metrics: Metrics {
                    snapshot_slow_total: n.metrics.snapshot_slow_total,
                    snapshot_last_duration_ms: n.metrics.snapshot_last_duration_ms,
                    snapshot_last_size_bytes: n.metrics.snapshot_last_size_bytes,
                    snapshots_created_total: n.metrics.snapshots_created_total,
                    ..m.metrics
                },
                ..m
            })
        }),
{
}

/// Sizing the log shows its size and starts the interval to the next time anew; it
/// changes nothing else.
pub proof fn law_sizing_shows_the_size(m: RuntimeModel, now: u64, bytes: u64)
    ensures
        ({
            let n = cycle::sampled(m, now, bytes);
            &&& n.metrics.wal_bytes == bytes
            &&& n.last_wal_sample == now
            &&& n == (RuntimeModel {
                last_wal_sample: n.last_wal_sample,
                metrics: Metrics { wal_bytes: n.metrics.wal_bytes, ..m.metrics },
                ..m
            })
        }),
{
}

/// The owner, the requests or the messages coming to an end end the node; so does
/// the end of the task that applies, for its own reason if it left one. Nothing else
/// does.
pub proof fn law_only_an_end_ends_the_node(event: Event)
    ensures
        cycle::end_reason(event) is Some <==> event is Stop || event is CommandsClosed
            || event is InboundClosed || event is ProgressClosed,
        event is Stop || event is CommandsClosed || event is InboundClosed ==> cycle::end_reason(
            event,
        ) == Some("runtime stopped"@),
        event matches Event::ProgressClosed(Some(reason)) ==> cycle::end_reason(event) == Some(
            reason@,
        ),
        event == Event::ProgressClosed(None) ==> cycle::end_reason(event) == Some(
            "the apply task stopped"@,
        ),
{
}

/// A fetch writes a file that is named after the sender, the index and this node.
pub proof fn law_fetch_file_is_named_after_its_snapshot(from: u64, index: u64, me: u64)
    ensures
        cycle::fetch_name(from, index, me) == "arachne-snapshot-"@ + text::decimal(from as nat)
            + "-"@ + text::decimal(index as nat) + "-"@ + text::decimal(me as nat) + ".fetch"@,
{
}

} // verus!
