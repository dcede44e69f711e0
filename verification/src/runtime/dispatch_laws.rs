//! What is handed on to be applied, in which order, and what is noted of it.
use vstd::prelude::*;

use crate::metrics::Metrics;
use crate::consensus::pipeline::CommittedModel;
use crate::runtime::apply::{BatchModel, ProgressModel};
use crate::runtime::dispatch::{NextModel, PumpModel, Pumped};
use crate::runtime::state::RuntimeModel;
use crate::runtime::waiting::{Channel, WaitingModel};
use crate::state_machine::kv;
use crate::types::{EntryType, SnapshotModel};
use crate::consensus::conf_change;
use crate::consensus::pipeline;
use crate::consensus::pipeline_laws;
use crate::runtime::apply;
use crate::runtime::command;
use crate::runtime::dispatch;
use crate::runtime::waiting;

verus! {

/// How many commands stand in front of the first membership change.
pub open spec fn leading(queue: Seq<CommittedModel>) -> int
    decreases queue.len(),
{
    if queue.len() > 0 && queue[0].entry_type == EntryType::Entry {
        1 + leading(queue.drop_first())
    } else {
        0
    }
}

/// How many entries can be taken from a queue: the commands in front, and the
/// membership change behind them once all that precedes it is applied.
pub open spec fn ready(queue: Seq<CommittedModel>, applied: u64) -> int {
    let n = leading(queue);
    if n < queue.len() && queue[n].index <= applied + 1 {
        n + 1
    } else {
        n
    }
}

/// The leading commands are commands, and what follows them is not.
pub proof fn lemma_leading(queue: Seq<CommittedModel>)
    ensures
        0 <= leading(queue) <= queue.len(),
        forall|i: int|
            0 <= i < leading(queue) ==> (#[trigger] queue[i]).entry_type == EntryType::Entry,
        leading(queue) < queue.len() ==> queue[leading(queue)].entry_type != EntryType::Entry,
    decreases queue.len(),
{
    if queue.len() > 0 && queue[0].entry_type == EntryType::Entry {
        let rest = queue.drop_first();
        lemma_leading(rest);
        assert forall|i: int| 0 <= i < leading(queue) implies (#[trigger] queue[i]).entry_type
            == EntryType::Entry by {
            if i > 0 {
                assert(queue[i] == rest[i - 1]);
            }
        }
        if leading(queue) < queue.len() {
            assert(queue[leading(queue)] == rest[leading(rest)]);
        }
    }
}

// ---------------------------------------------------------------------------
// What is noted of a command
// ---------------------------------------------------------------------------
/// A command that is queued counts by its bytes. Where it is a command of the state
/// machine, its session counts as used at this moment, and the request that waits
/// for this session learns the entry's index. Nothing else is noted.
pub proof fn law_queued_command_is_noted(
    m: RuntimeModel,
    entries: Seq<(u64, Seq<u8>)>,
    index: u64,
    data: Seq<u8>,
    clock: Option<u64>,
)
    ensures
        dispatch::entries_noted(m, Seq::empty(), clock) == m,
        ({
            let a = dispatch::entries_noted(m, entries, clock);
            let b = dispatch::entries_noted(m, entries.push((index, data)), clock);
            let size = apply::entry_bytes(data);
            &&& a.sent_bytes + size <= u64::MAX ==> b.sent_bytes == a.sent_bytes + size
            &&& a.sent_bytes + size > u64::MAX ==> b.sent_bytes == u64::MAX
            &&& kv::decoded_command(data) matches Some(c) ==> {
                &&& b.waiting.proposals == waiting::attributed(
                    a.waiting.proposals,
                    c.session,
                    index,
                )
                &&& b.sessions == a.sessions.noted(clock, c.session)
            }
            &&& kv::decoded_command(data) is None ==> b.waiting == a.waiting && b.sessions
                == a.sessions
            &&& b == (RuntimeModel {
                waiting: WaitingModel { proposals: b.waiting.proposals, ..a.waiting },
                sessions: b.sessions,
                sent_bytes: b.sent_bytes,
                ..a
            })
        }),
{
    assert(entries.push((index, data)).drop_last() =~= entries);
}

proof fn lemma_noted_apart(
    m: RuntimeModel,
    queue: Seq<CommittedModel>,
    deferred: Option<BatchModel>,
    entries: Seq<(u64, Seq<u8>)>,
    clock: Option<u64>,
)
    ensures
        dispatch::entries_noted(RuntimeModel { queue, deferred, ..m }, entries, clock) == (
        RuntimeModel { queue, deferred, ..dispatch::entries_noted(m, entries, clock) }),
        dispatch::entries_noted(m, entries, clock) == (RuntimeModel {
            waiting: WaitingModel {
                proposals: dispatch::entries_noted(m, entries, clock).waiting.proposals,
                ..m.waiting
            },
            sessions: dispatch::entries_noted(m, entries, clock).sessions,
            sent_bytes: dispatch::entries_noted(m, entries, clock).sent_bytes,
            ..m
        }),
    decreases entries.len(),
{
    if entries.len() > 0 {
        lemma_noted_apart(m, queue, deferred, entries.drop_last(), clock);
    }
}

proof fn lemma_noted_in_parts(
    m: RuntimeModel,
    a: Seq<(u64, Seq<u8>)>,
    b: Seq<(u64, Seq<u8>)>,
    clock: Option<u64>,
)
    ensures
        dispatch::entries_noted(dispatch::entries_noted(m, a, clock), b, clock)
            == dispatch::entries_noted(m, a + b, clock),
    decreases b.len(),
{
    if b.len() == 0 {
        assert(a + b =~= a);
    } else {
        lemma_noted_in_parts(m, a, b.drop_last(), clock);
        assert((a + b).drop_last() =~= a + b.drop_last());
    }
}

// ---------------------------------------------------------------------------
// Going through the queue
// ---------------------------------------------------------------------------
/// The batches that a run of commands and a membership change behind it make: each one
/// of its own.
pub open spec fn pieces(run: Seq<(u64, Seq<u8>)>, change: Option<CommittedModel>) -> Seq<
    BatchModel,
> {
    (if run.len() > 0 {
        seq![BatchModel { snapshot: None, entries: run }]
    } else {
        Seq::empty()
    }) + (match change {
        Some(c) => seq![BatchModel { snapshot: None, entries: seq![(c.index, Seq::empty())] }],
        None => Seq::empty(),
    })
}

/// The first of some batches, as far as there is room.
pub open spec fn as_room(batches: Seq<BatchModel>, room: usize) -> Seq<BatchModel> {
    batches.subrange(
        0,
        if room < batches.len() {
            room as int
        } else {
            batches.len() as int
        },
    )
}

/// What going through a queue with some room comes to, where no batch waits that
/// could have been moved.
spec fn went_through(
    m: RuntimeModel,
    queue: Seq<CommittedModel>,
    run: Seq<(u64, Seq<u8>)>,
    room: usize,
    clock: Option<u64>,
    p: PumpModel,
) -> bool {
    let n = leading(queue);
    let t = ready(queue, m.applied_index);
    let cmds = run + dispatch::commands_of(queue.subrange(0, t));
    &&& p.node.queue == queue.subrange(t, queue.len() as int)
    &&& p.next == if t > n {
        NextModel::Change(queue[n])
    } else {
        NextModel::Idle
    }
    &&& p.node == (RuntimeModel {
        queue: p.node.queue,
        deferred: p.node.deferred,
        ..dispatch::entries_noted(m, cmds, clock)
    })
    &&& p.channel is Open && p.channel->0 + p.batches.len() == room
    &&& forall|j: int| 0 <= j < p.batches.len() ==> (#[trigger] p.batches[j]).snapshot is None
    &&& m.deferred is None ==> p.batches == as_room(
        pieces(
            run + dispatch::commands_of(queue.subrange(0, n)),
            if t > n {
                Some(queue[n])
            } else {
                None
            },
        ),
        room,
    )
    &&& match m.deferred {
        Some(batch) => p.batches.len() == 0 && p.node.deferred == Some(
            BatchModel { snapshot: batch.snapshot, entries: batch.entries + cmds },
        ),
        None => p.node.deferred matches Some(left) ==> left.snapshot is None && p.channel
            == Channel::Open(0),
    }
    &&& dispatch::all_entries(p.batches) + dispatch::waiting_entries(p.node)
        == dispatch::waiting_entries(m) + cmds
}

proof fn lemma_run_goes_on(
    m: RuntimeModel,
    queue: Seq<CommittedModel>,
    run: Seq<(u64, Seq<u8>)>,
    room: usize,
    clock: Option<u64>,
)
    requires
        m.deferred is Some ==> room == 0,
        run.len() > 0,
        queue.len() == 0 || queue[0].entry_type != EntryType::Entry,
        ({
            let (next, left, moved, alive) = dispatch::flushed(
                dispatch::enqueued(m, None, run, clock),
                Channel::Open(room),
            );
            went_through(
                next,
                queue,
                Seq::empty(),
                left->0,
                clock,
                dispatch::pumped(next, queue, Seq::empty(), left, clock),
            )
        }),
    ensures
        went_through(
            m,
            queue,
            run,
            room,
            clock,
            dispatch::pumped(m, queue, run, Channel::Open(room), clock),
        ),
{
    let channel = Channel::Open(room);
    let p = dispatch::pumped(m, queue, run, channel, clock);
    let t = ready(queue, m.applied_index);
    let queued = dispatch::enqueued(m, None, run, clock);
    let (next, left, moved, alive) = dispatch::flushed(queued, channel);
    let rest = dispatch::pumped(next, queue, Seq::empty(), left, clock);
    let noted = dispatch::entries_noted(m, run, clock);
    lemma_noted_apart(m, m.queue, next.deferred, run, clock);
    assert(next =~= RuntimeModel { queue: m.queue, deferred: next.deferred, ..noted });
    let tail = dispatch::commands_of(queue.subrange(0, t));
    assert(Seq::<(u64, Seq<u8>)>::empty() + tail =~= tail);
    lemma_noted_in_parts(m, run, tail, clock);
    lemma_noted_apart(noted, m.queue, next.deferred, tail, clock);
    assert(p.node == (RuntimeModel {
        queue: p.node.queue,
        deferred: p.node.deferred,
        ..dispatch::entries_noted(m, run + tail, clock)
    }));
    dispatch::lemma_all_entries_concat(moved, rest.batches);
    dispatch::lemma_flush_keeps_entries(queued, channel);
    assert(dispatch::waiting_entries(queued) =~= dispatch::waiting_entries(m) + run);
    assert(dispatch::all_entries(p.batches) + dispatch::waiting_entries(p.node)
        =~= dispatch::all_entries(moved) + (dispatch::all_entries(rest.batches)
        + dispatch::waiting_entries(rest.node)));
    assert(dispatch::all_entries(moved) + (dispatch::waiting_entries(next) + tail) =~= (
    dispatch::all_entries(moved) + dispatch::waiting_entries(next)) + tail);
    assert((dispatch::waiting_entries(m) + run) + tail =~= dispatch::waiting_entries(m) + (run
        + tail));
    if m.deferred is Some {
        let batch = m.deferred->0;
        assert((batch.entries + run) + tail =~= batch.entries + (run + tail));
    }
    assert forall|j: int| 0 <= j < p.batches.len() implies (
    #[trigger] p.batches[j]).snapshot is None by {
        if j >= moved.len() {
            assert(p.batches[j] == rest.batches[j - moved.len()]);
        }
    }
    if m.deferred is None {
        let change = if t > 0 {
            Some(queue[0])
        } else {
            None
        };
        let none = Seq::<(u64, Seq<u8>)>::empty();
        assert(run + dispatch::commands_of(queue.subrange(0, 0)) =~= run);
        assert(none + dispatch::commands_of(queue.subrange(0, 0)) =~= none);
        assert(p.batches =~= as_room(pieces(run, change), room));
    }
}

proof fn lemma_change_goes_on(
    m: RuntimeModel,
    queue: Seq<CommittedModel>,
    room: usize,
    clock: Option<u64>,
)
    requires
        m.deferred is Some ==> room == 0,
        queue.len() == 0 || queue[0].entry_type != EntryType::Entry,
    ensures
        went_through(
            m,
            queue,
            Seq::empty(),
            room,
            clock,
            dispatch::pumped(m, queue, Seq::empty(), Channel::Open(room), clock),
        ),
{
    let channel = Channel::Open(room);
    let p = dispatch::pumped(m, queue, Seq::empty(), channel, clock);
    let t = ready(queue, m.applied_index);
    let cmds = Seq::<(u64, Seq<u8>)>::empty() + dispatch::commands_of(queue.subrange(0, t));
    if queue.len() == 0 || m.applied_index + 1 < queue[0].index {
        assert(cmds =~= Seq::empty());
        assert(queue.subrange(0, queue.len() as int) =~= queue);
        assert(dispatch::all_entries(p.batches) =~= Seq::empty());
        if m.deferred is Some {
            assert(m.deferred->0.entries + cmds =~= m.deferred->0.entries);
        }
        assert(p.batches =~= as_room(pieces(cmds, None), room));
    } else {
        let hole = seq![(queue[0].index, Seq::<u8>::empty())];
        assert(cmds =~= hole);
        assert(queue.subrange(1, queue.len() as int) =~= queue.drop_first());
        let queued = dispatch::enqueued(m, None, hole, clock);
        let (next, left, moved, alive) = dispatch::flushed(queued, channel);
        lemma_noted_apart(m, m.queue, next.deferred, hole, clock);
        dispatch::lemma_flush_keeps_entries(queued, channel);
        assert(dispatch::waiting_entries(queued) =~= dispatch::waiting_entries(m) + hole);
        let none = Seq::<(u64, Seq<u8>)>::empty();
        assert(none + dispatch::commands_of(queue.subrange(0, 0)) =~= none);
        if m.deferred is None {
            assert(p.batches =~= as_room(pieces(none, Some(queue[0])), room));
        }
    }
}

proof fn lemma_went_through(
    m: RuntimeModel,
    queue: Seq<CommittedModel>,
    run: Seq<(u64, Seq<u8>)>,
    room: usize,
    clock: Option<u64>,
)
    requires
        m.deferred is Some ==> room == 0,
    ensures
        went_through(
            m,
            queue,
            run,
            room,
            clock,
            dispatch::pumped(m, queue, run, Channel::Open(room), clock),
        ),
    decreases queue.len(), run.len(),
{
    if queue.len() > 0 && queue[0].entry_type == EntryType::Entry {
        let n = leading(queue);
        let t = ready(queue, m.applied_index);
        let rest = queue.drop_first();
        let more = run.push((queue[0].index, queue[0].data));
        lemma_leading(queue);
        lemma_leading(rest);
        lemma_went_through(m, rest, more, room, clock);
        assert(n < queue.len() ==> queue[n] == rest[n - 1]);
        assert(more + dispatch::commands_of(rest.subrange(0, t - 1)) =~= run
            + dispatch::commands_of(queue.subrange(0, t)));
        assert(rest.subrange(t - 1, rest.len() as int) =~= queue.subrange(t, queue.len() as int));
        assert(more + dispatch::commands_of(rest.subrange(0, n - 1)) =~= run
            + dispatch::commands_of(queue.subrange(0, n)));
    } else if run.len() > 0 {
        let (next, left, moved, alive) = dispatch::flushed(
            dispatch::enqueued(m, None, run, clock),
            Channel::Open(room),
        );
        lemma_noted_apart(m, m.queue, m.deferred, run, clock);
        lemma_went_through(next, queue, Seq::empty(), left->0, clock);
        lemma_run_goes_on(m, queue, run, room, clock);
    } else {
        assert(run =~= Seq::empty());
        lemma_change_goes_on(m, queue, room, clock);
    }
}

/// While the other side is there, going through the queue takes exactly the
/// commands up to the first membership change, and that change as well if all
/// before it is applied; it is then the next to be applied. What is taken is noted
/// command by command. A batch that waited goes first, with its snapshot; no other
/// batch carries one. What there is no room for waits.
pub proof fn law_queue_is_taken_from_its_front(m: RuntimeModel, room: usize, clock: Option<u64>)
    ensures
        ({
            let p = dispatch::pumped_all(m, Channel::Open(room), clock);
            let n = leading(m.queue);
            let t = ready(m.queue, m.applied_index);
            let cmds = dispatch::commands_of(m.queue.subrange(0, t));
            &&& p.node.queue == m.queue.subrange(t, m.queue.len() as int)
            &&& p.next == if t > n {
                NextModel::Change(m.queue[n])
            } else {
                NextModel::Idle
            }
            &&& p.node == (RuntimeModel {
                queue: p.node.queue,
                deferred: p.node.deferred,
                ..dispatch::entries_noted(m, cmds, clock)
            })
            &&& dispatch::all_entries(p.batches) + dispatch::waiting_entries(p.node)
                == dispatch::waiting_entries(m) + cmds
            &&& p.channel is Open && p.channel->0 + p.batches.len() == room
            &&& m.deferred is Some && room > 0 ==> p.batches.len() > 0 && p.batches[0]
                == m.deferred->0
            &&& m.deferred is Some && room == 0 ==> p.node.deferred is Some
                && p.node.deferred->0.snapshot == m.deferred->0.snapshot
            &&& forall|j: int|
                0 <= j < p.batches.len() && (j > 0 || m.deferred is None) ==> (
                #[trigger] p.batches[j]).snapshot is None
            &&& p.node.deferred is Some && (room > 0 || m.deferred is None)
                ==> p.node.deferred->0.snapshot is None
            &&& p.node.deferred is Some ==> p.channel == Channel::Open(0)
        }),
{
    let channel = Channel::Open(room);
    let p = dispatch::pumped_all(m, channel, clock);
    let (next, left, moved, alive) = dispatch::flushed(m, channel);
    dispatch::lemma_flush_keeps_entries(m, channel);
    let start = RuntimeModel { queue: Seq::empty(), ..next };
    let rest = dispatch::pumped(start, m.queue, Seq::empty(), left, clock);
    lemma_went_through(start, m.queue, Seq::empty(), left->0, clock);
    let t = ready(m.queue, m.applied_index);
    let cmds = dispatch::commands_of(m.queue.subrange(0, t));
    assert(Seq::<(u64, Seq<u8>)>::empty() + cmds =~= cmds);
    lemma_noted_apart(m, Seq::empty(), next.deferred, cmds, clock);
    assert(start =~= RuntimeModel { queue: Seq::empty(), deferred: next.deferred, ..m });
    dispatch::lemma_all_entries_concat(moved, rest.batches);
    assert(dispatch::waiting_entries(start) == dispatch::waiting_entries(next));
    assert(dispatch::all_entries(p.batches) + dispatch::waiting_entries(p.node)
        =~= dispatch::all_entries(moved) + (dispatch::all_entries(rest.batches)
        + dispatch::waiting_entries(rest.node)));
    assert(dispatch::all_entries(moved) + (dispatch::waiting_entries(next) + cmds)
        =~= (dispatch::all_entries(moved) + dispatch::waiting_entries(next)) + cmds);
    assert forall|j: int|
        0 <= j < p.batches.len() && (j > 0 || m.deferred is None) implies (
    #[trigger] p.batches[j]).snapshot is None by {
        assert(p.batches[j] == rest.batches[j - moved.len()]);
    }
}

/// A run of commands is handed on as one batch, and a membership change as one of its
/// own behind it; a batch that waited goes before them. As many go as there is room for,
/// in this order.
pub proof fn law_runs_are_handed_on_whole(m: RuntimeModel, room: usize, clock: Option<u64>)
    ensures
        ({
            let p = dispatch::pumped_all(m, Channel::Open(room), clock);
            let n = leading(m.queue);
            let run = dispatch::commands_of(m.queue.subrange(0, n));
            let change = if ready(m.queue, m.applied_index) > n {
                Some(m.queue[n])
            } else {
                None
            };
            let first = match m.deferred {
                Some(batch) => seq![batch],
                None => Seq::empty(),
            };
            p.batches == as_room(first + pieces(run, change), room)
        }),
{
    let channel = Channel::Open(room);
    let p = dispatch::pumped_all(m, channel, clock);
    let (next, left, moved, alive) = dispatch::flushed(m, channel);
    let start = RuntimeModel { queue: Seq::empty(), ..next };
    let rest = dispatch::pumped(start, m.queue, Seq::empty(), left, clock);
    lemma_went_through(start, m.queue, Seq::empty(), left->0, clock);
    let n = leading(m.queue);
    let run = dispatch::commands_of(m.queue.subrange(0, n));
    let change = if ready(m.queue, m.applied_index) > n {
        Some(m.queue[n])
    } else {
        None
    };
    let first = match m.deferred {
        Some(batch) => seq![batch],
        None => Seq::empty(),
    };
    assert(Seq::<(u64, Seq<u8>)>::empty() + run =~= run);
    assert(p.batches =~= as_room(first + pieces(run, change), room));
}

/// Once the other side is gone, nothing is handed on: whatever could have been
/// stops the node instead.
pub proof fn law_nothing_goes_to_a_closed_channel(m: RuntimeModel, clock: Option<u64>)
    ensures
        ({
            let p = dispatch::pumped_all(m, Channel::Closed, clock);
            &&& p.batches.len() == 0
            &&& p.channel == Channel::Closed
            &&& p.next is Stopped <==> m.deferred is Some || ready(m.queue, m.applied_index) > 0
            &&& p.next !is Stopped ==> p.next is Idle && p.node == m
        }),
{
    lemma_leading(m.queue);
    if m.deferred is None {
        lemma_closed(
            RuntimeModel { queue: Seq::empty(), ..m },
            m.queue,
            Seq::empty(),
            clock,
        );
    }
}

proof fn lemma_closed(
    m: RuntimeModel,
    queue: Seq<CommittedModel>,
    run: Seq<(u64, Seq<u8>)>,
    clock: Option<u64>,
)
    requires
        m.deferred is None,
    ensures
        ({
            let p = dispatch::pumped(m, queue, run, Channel::Closed, clock);
            &&& p.batches.len() == 0
            &&& p.channel == Channel::Closed
            &&& p.next is Stopped <==> run.len() > 0 || ready(queue, m.applied_index) > 0
            &&& p.next !is Stopped ==> p.next is Idle && p.node == (RuntimeModel { queue, ..m })
        }),
    decreases queue.len(), run.len(),
{
    lemma_leading(queue);
    if queue.len() > 0 && queue[0].entry_type == EntryType::Entry {
        lemma_closed(m, queue.drop_first(), run.push((queue[0].index, queue[0].data)), clock);
    }
}

// ---------------------------------------------------------------------------
// Taking in what a cycle handed on
// ---------------------------------------------------------------------------
/// A membership change among committed entries goes to the request that waits for
/// it, at the entry's index; a command concerns no such request.
pub proof fn law_change_entry_goes_to_its_request(
    m: RuntimeModel,
    entries: Seq<CommittedModel>,
    e: CommittedModel,
)
    ensures
        dispatch::changes_attributed(m, Seq::empty()) == m,
        ({
            let a = dispatch::changes_attributed(m, entries);
            let b = dispatch::changes_attributed(m, entries.push(e));
            &&& conf_change::identity(e.entry_type, e.data) matches Some(change)
                ==> b.waiting.changes == waiting::attributed(a.waiting.changes, change, e.index)
            &&& conf_change::identity(e.entry_type, e.data) is None ==> b == a
            &&& b == (RuntimeModel {
                waiting: WaitingModel { changes: b.waiting.changes, ..a.waiting },
                ..a
            })
        }),
{
    assert(entries.push(e).drop_last() =~= entries);
}

proof fn lemma_all_later(s: Seq<CommittedModel>, index: u64)
    requires
        forall|i: int| 0 <= i < s.len() ==> (#[trigger] s[i]).index > index,
    ensures
        s.filter(|e: CommittedModel| e.index > index) == s,
    decreases s.len(),
{
    reveal(Seq::filter);
    if s.len() > 0 {
        assert(s[s.len() - 1] == s.last());
        assert forall|i: int| 0 <= i < s.drop_last().len() implies (
        #[trigger] s.drop_last()[i]).index > index by {
            assert(s.drop_last()[i] == s[i]);
        }
        lemma_all_later(s.drop_last(), index);
    }
}

proof fn lemma_staged_snapshot(
    m: RuntimeModel,
    s: SnapshotModel,
    entries: Seq<CommittedModel>,
    room: usize,
    clock: Option<u64>,
)
    ensures
        ({
            let p = dispatch::staged(m, Some(s), entries, Channel::Open(room), clock);
            &&& p.next !is Stopped
            &&& room > 0 ==> {
                &&& p.batches.len() > 0
                &&& p.batches[0].snapshot == Some(s)
                &&& p.batches[0].entries.len() == 0
                &&& p.node.deferred is Some ==> p.node.deferred->0.snapshot is None
            }
            &&& room == 0 ==> {
                &&& p.batches.len() == 0
                &&& p.node.deferred is Some
                &&& p.node.deferred->0.snapshot == Some(s)
            }
            &&& forall|j: int|
                0 < j < p.batches.len() ==> (#[trigger] p.batches[j]).snapshot is None
            &&& dispatch::all_entries(p.batches) + dispatch::waiting_entries(p.node)
                + dispatch::commands_of(p.node.queue) == dispatch::commands_of(
                pipeline::later_than(m.queue, s.index) + entries,
            )
            &&& p.node.snapshot_index == if s.index > m.snapshot_index {
                s.index
            } else {
                m.snapshot_index
            }
            &&& p.node.bytes_at_snapshot == m.applied_bytes
            &&& m.metrics.snapshots_installed_total < u64::MAX
                ==> p.node.metrics.snapshots_installed_total
                == m.metrics.snapshots_installed_total + 1
        }),
{
    let channel = Channel::Open(room);
    let p = dispatch::staged(m, Some(s), entries, channel, clock);
    let first = RuntimeModel {
        queue: pipeline::later_than(m.queue, s.index) + entries,
        ..dispatch::changes_attributed(m, entries)
    };
    dispatch::lemma_changes_keep(m, entries);
    let queued = dispatch::enqueued(first, Some(s), Seq::empty(), clock);
    let (next, left, moved, alive) = dispatch::flushed(queued, channel);
    let rest = dispatch::pumped_all(next, left, clock);
    law_queue_is_taken_from_its_front(next, left->0, clock);
    let t = ready(next.queue, next.applied_index);
    let cmds = dispatch::commands_of(next.queue.subrange(0, t));
    lemma_noted_apart(next, next.queue, next.deferred, cmds, clock);
    lemma_leading(next.queue);
    assert(cmds + dispatch::commands_of(next.queue.subrange(t, next.queue.len() as int))
        =~= dispatch::commands_of(next.queue));
    assert(dispatch::waiting_entries(queued) =~= Seq::empty());
    dispatch::lemma_flush_keeps_entries(queued, channel);
    assert((dispatch::all_entries(moved) + dispatch::waiting_entries(next)).len() == 0);
    assert(dispatch::all_entries(moved) =~= Seq::empty());
    assert(dispatch::waiting_entries(next) =~= Seq::empty());
    dispatch::lemma_all_entries_concat(moved, rest.batches);
    assert(p.batches == moved + rest.batches);
    assert(dispatch::all_entries(p.batches) =~= dispatch::all_entries(rest.batches));
    assert(dispatch::waiting_entries(next) + cmds =~= cmds);
    assert forall|j: int| 0 < j < p.batches.len() implies (
    #[trigger] p.batches[j]).snapshot is None by {
        assert(p.batches[j] == rest.batches[j - moved.len()]);
    }
}

/// A snapshot that a cycle handed on goes first: the first batch moved carries
/// exactly it and nothing else, or, where there is no room, the batch that waits
/// carries it; no other batch does. It takes the place of whatever batch still
/// waited. What is moved, what waits and what is queued after it are then together,
/// in order, exactly the queued entries above the snapshot's index and the new ones.
/// The node counts one more installed snapshot, knows that it has one at that index
/// at least, and measures the growth of the log from here.
pub proof fn law_installed_snapshot_goes_first(
    m: RuntimeModel,
    s: SnapshotModel,
    entries: Seq<CommittedModel>,
    room: usize,
    clock: Option<u64>,
)
    ensures
        ({
            let p = dispatch::staged(m, Some(s), entries, Channel::Open(room), clock);
            let above = |e: CommittedModel| e.index > s.index;
            &&& p.next !is Stopped
            &&& room > 0 ==> {
                &&& p.batches.len() > 0
                &&& p.batches[0].snapshot == Some(s)
                &&& p.batches[0].entries.len() == 0
                &&& p.node.deferred is Some ==> p.node.deferred->0.snapshot is None
            }
            &&& room == 0 ==> {
                &&& p.batches.len() == 0
                &&& p.node.deferred is Some
                &&& p.node.deferred->0.snapshot == Some(s)
            }
            &&& forall|j: int|
                0 < j < p.batches.len() ==> (#[trigger] p.batches[j]).snapshot is None
            &&& dispatch::all_entries(p.batches) + dispatch::waiting_entries(p.node)
                + dispatch::commands_of(p.node.queue) == dispatch::commands_of(
                m.queue.filter(above) + entries,
            )
            &&& (forall|i: int| 0 <= i < entries.len() ==> (#[trigger] entries[i]).index > s.index)
                ==> dispatch::all_entries(p.batches) + dispatch::waiting_entries(p.node)
                + dispatch::commands_of(p.node.queue) == dispatch::commands_of(
                (m.queue + entries).filter(above),
            )
            &&& p.node.snapshot_index == if s.index > m.snapshot_index {
                s.index
            } else {
                m.snapshot_index
            }
            &&& p.node.bytes_at_snapshot == m.applied_bytes
            &&& m.metrics.snapshots_installed_total < u64::MAX
                ==> p.node.metrics.snapshots_installed_total
                == m.metrics.snapshots_installed_total + 1
        }),
{
    let above = |e: CommittedModel| e.index > s.index;
    lemma_staged_snapshot(m, s, entries, room, clock);
    pipeline_laws::lemma_later(m.queue, s.index);
    if forall|i: int| 0 <= i < entries.len() ==> (#[trigger] entries[i]).index > s.index {
        lemma_all_later(entries, s.index);
        Seq::filter_distributes_over_add(m.queue, entries, above);
    }
}

/// Without a snapshot, new entries queue up behind those that already do, and the
/// queue is gone through; what the node knows of snapshots stays as it was.
pub proof fn law_entries_queue_up_behind_the_others(
    m: RuntimeModel,
    entries: Seq<CommittedModel>,
    room: usize,
    clock: Option<u64>,
)
    ensures
        ({
            let p = dispatch::staged(m, None, entries, Channel::Open(room), clock);
            &&& p.next !is Stopped
            &&& dispatch::all_entries(p.batches) + dispatch::waiting_entries(p.node)
                + dispatch::commands_of(p.node.queue) == dispatch::waiting_entries(m)
                + dispatch::commands_of(m.queue + entries)
            &&& m.deferred is Some && room > 0 ==> p.batches.len() > 0 && p.batches[0]
                == m.deferred->0
            &&& m.deferred is Some && room == 0 ==> p.node.deferred is Some
                && p.node.deferred->0.snapshot == m.deferred->0.snapshot
            &&& forall|j: int|
                0 <= j < p.batches.len() && (j > 0 || m.deferred is None) ==> (
                #[trigger] p.batches[j]).snapshot is None
            &&& p.node.snapshot_index == m.snapshot_index
            &&& p.node.bytes_at_snapshot == m.bytes_at_snapshot
            &&& p.node.metrics == m.metrics
        }),
{
    let channel = Channel::Open(room);
    let p = dispatch::staged(m, None, entries, channel, clock);
    let first = RuntimeModel {
        queue: m.queue + entries,
        ..dispatch::changes_attributed(m, entries)
    };
    dispatch::lemma_changes_keep(m, entries);
    law_queue_is_taken_from_its_front(first, room, clock);
    lemma_leading(first.queue);
    let t = ready(first.queue, first.applied_index);
    let cmds = dispatch::commands_of(first.queue.subrange(0, t));
    lemma_noted_apart(first, first.queue, first.deferred, cmds, clock);
    assert(cmds + dispatch::commands_of(first.queue.subrange(t, first.queue.len() as int))
        =~= dispatch::commands_of(first.queue));
    assert((dispatch::waiting_entries(m) + cmds) + dispatch::commands_of(p.node.queue)
        =~= dispatch::waiting_entries(m) + (cmds + dispatch::commands_of(p.node.queue)));
}

/// Taking in what a cycle handed on changes, of what waits, only the membership
/// changes whose entries came and the proposals whose commands were taken; the rest
/// of the node stays as it was.
pub proof fn law_staging_leaves_the_rest_alone(
    m: RuntimeModel,
    snapshot: Option<SnapshotModel>,
    entries: Seq<CommittedModel>,
    room: usize,
    clock: Option<u64>,
)
    ensures
        ({
            let p = dispatch::staged(m, snapshot, entries, Channel::Open(room), clock);
            &&& p.node.waiting.changes == dispatch::changes_attributed(m, entries).waiting.changes
            &&& p.node == (RuntimeModel {
                waiting: WaitingModel {
                    changes: p.node.waiting.changes,
                    proposals: p.node.waiting.proposals,
                    ..m.waiting
                },
                sessions: p.node.sessions,
                queue: p.node.queue,
                deferred: p.node.deferred,
                sent_bytes: p.node.sent_bytes,
                bytes_at_snapshot: p.node.bytes_at_snapshot,
                snapshot_index: p.node.snapshot_index,
                metrics: Metrics {
                    snapshots_installed_total: p.node.metrics.snapshots_installed_total,
                    ..m.metrics
                },
                ..m
            })
        }),
{
    let channel = Channel::Open(room);
    dispatch::lemma_changes_keep(m, entries);
    let queue = match snapshot {
        Some(s) => pipeline::later_than(m.queue, s.index),
        None => m.queue,
    };
    let first = RuntimeModel {
        queue: queue + entries,
        ..dispatch::changes_attributed(m, entries)
    };
    match snapshot {
        Some(s) => {
            let queued = dispatch::enqueued(first, Some(s), Seq::empty(), clock);
            let (next, left, moved, alive) = dispatch::flushed(queued, channel);
            law_queue_is_taken_from_its_front(next, left->0, clock);
            let cmds = dispatch::commands_of(
                next.queue.subrange(0, ready(next.queue, next.applied_index)),
            );
            lemma_noted_apart(next, next.queue, next.deferred, cmds, clock);
        },
        None => {
            law_queue_is_taken_from_its_front(first, room, clock);
            let cmds = dispatch::commands_of(
                first.queue.subrange(0, ready(first.queue, first.applied_index)),
            );
            lemma_noted_apart(first, first.queue, first.deferred, cmds, clock);
        },
    }
}

/// A snapshot for a side that is gone is not handed on: the node stops.
pub proof fn law_snapshot_for_nobody_stops_the_node(
    m: RuntimeModel,
    s: SnapshotModel,
    entries: Seq<CommittedModel>,
    clock: Option<u64>,
)
    ensures
        ({
            let p = dispatch::staged(m, Some(s), entries, Channel::Closed, clock);
            p.next is Stopped && p.batches.len() == 0
        }),
{
}

/// What going through the queue came to is what is reported: the batches in their order,
/// what comes next, and the room left. Where the other side is gone everything that
/// waits is answered with that, and the node stops for good; otherwise nobody is
/// answered.
pub proof fn law_outcome_is_reported(p: PumpModel, node: RuntimeModel, r: Pumped)
    requires
        dispatch::came_to(p, node, r),
    ensures
        r.batches@.len() == p.batches.len(),
        forall|i: int| 0 <= i < p.batches.len() ==> (#[trigger] r.batches@[i])@ == p.batches[i],
        r.next@ == p.next,
        r.channel == p.channel,
        p.next !is Stopped ==> node == p.node && r.answers@.len() == 0,
        p.next is Stopped ==> {
            &&& node.fatal is Some
            &&& p.node.fatal is None ==> node.fatal == Some("the apply task stopped"@)
            &&& node.metrics.is_leader == 0
            &&& command::answer_models(r.answers@) == p.node.waiting.all_failed(
                "the apply task stopped"@,
            )
        },
{
    assert forall|i: int| 0 <= i < p.batches.len() implies (#[trigger] r.batches@[i])@
        == p.batches[i] by {
        assert(dispatch::batch_models(r.batches@)[i] == p.batches[i]);
    }
}

/// What was queued and never handed on no longer counts once a snapshot takes its
/// place; the bytes of what was handed on still do.
pub proof fn law_superseded_bytes_do_not_count(
    m: RuntimeModel,
    s: SnapshotModel,
    clock: Option<u64>,
)
    ensures
        ({
            let n = dispatch::enqueued(m, Some(s), Seq::empty(), clock);
            let dropped = apply::total_bytes(dispatch::waiting_entries(m));
            &&& m.sent_bytes >= dropped ==> n.sent_bytes == m.sent_bytes - dropped
            &&& m.sent_bytes < dropped ==> n.sent_bytes == 0
        }),
{
}

/// Progress of the state machine is taken over as it is reported, and nothing else
/// changes.
pub proof fn law_progress_is_taken_over(m: RuntimeModel, p: ProgressModel)
    ensures
        ({
            let n = dispatch::absorbed(m, p);
            &&& n.applied_index == p.applied_index
            &&& n.applied_bytes == p.applied_bytes_total
            &&& n.live_sessions == p.sessions
            &&& n == (RuntimeModel {
                applied_index: n.applied_index,
                applied_bytes: n.applied_bytes,
                live_sessions: n.live_sessions,
                ..m
            })
        }),
{
}

} // verus!
