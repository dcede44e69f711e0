//! Handing committed work on to be applied, in log order.
//!
//! Commands go to the state machine in batches. A membership change is applied
//! by the node itself, and only once everything before it is applied; what
//! follows it waits. The state machine sees an empty command at its index, so
//! that its index has no hole.
use std::collections::VecDeque;

use vstd::prelude::*;
use vstd::string::*;

use crate::consensus::conf_change::conf_change_identity;
use crate::consensus::pipeline::{keep_later, CommittedEntry, CommittedModel};
use crate::metrics::Metrics;
use crate::runtime::apply::{entry_size, ApplyBatch, ApplyProgress, BatchModel, ProgressModel};
use crate::runtime::command::Answer;
use crate::runtime::state::{Runtime, RuntimeModel};
use crate::runtime::waiting::{Channel, WaitingModel};
use crate::state_machine::kv::KvStateMachine;
use crate::state_machine::sorted::SessionKey;
use crate::types::{EntryType, LogIndex, Snapshot, SnapshotModel};
use crate::client::handle;
use crate::consensus::conf_change;
use crate::consensus::node;
use crate::consensus::pipeline;
use crate::metrics;
use crate::runtime::apply;
use crate::runtime::command;
use crate::runtime::state;
use crate::runtime::waiting;
use crate::state_machine::kv;

verus! {

// ---------------------------------------------------------------------------
// Queueing a batch
// ---------------------------------------------------------------------------
/// The node after a command was queued: the request that proposed it knows its
/// index, its session was used, and its bytes are on their way.
pub open spec fn entry_noted(m: RuntimeModel, index: u64, data: Seq<u8>, clock: Option<u64>) -> RuntimeModel {
    let sent = handle::capped_add(m.sent_bytes, apply::entry_bytes(data));
    match kv::decoded_command(data) {
        Some(c) => RuntimeModel {
            waiting: WaitingModel {
                proposals: waiting::attributed(m.waiting.proposals, c.session, index),
                ..m.waiting
            },
            sessions: m.sessions.noted(clock, c.session),
            sent_bytes: sent,
            ..m
        },
        None => RuntimeModel { sent_bytes: sent, ..m },
    }
}

/// The node after several commands were queued.
pub open spec fn entries_noted(
    m: RuntimeModel,
    entries: Seq<(u64, Seq<u8>)>,
    clock: Option<u64>,
) -> RuntimeModel
    decreases entries.len(),
{
    if entries.len() == 0 {
        m
    } else {
        entry_noted(
            entries_noted(m, entries.drop_last(), clock),
            entries.last().0,
            entries.last().1,
            clock,
        )
    }
}

/// The node after an installed snapshot was queued. It supersedes a batch that
/// still waits: the entries of that batch are no longer on their way.
pub open spec fn snapshot_noted(m: RuntimeModel, index: u64) -> RuntimeModel {
    let superseded = match m.deferred {
        Some(batch) => apply::total_bytes(batch.entries),
        None => 0,
    };
    RuntimeModel {
        snapshot_index: node::max(m.snapshot_index, index),
        bytes_at_snapshot: m.applied_bytes,
        metrics: Metrics {
            snapshots_installed_total: metrics::bumped(m.metrics.snapshots_installed_total),
            ..m.metrics
        },
        sent_bytes: if m.sent_bytes >= superseded {
            (m.sent_bytes - superseded) as u64
        } else {
            0
        },
        ..m
    }
}

/// The batch that waits after more was queued.
pub open spec fn merged(
    waiting: Option<BatchModel>,
    snapshot: Option<SnapshotModel>,
    entries: Seq<(u64, Seq<u8>)>,
) -> BatchModel {
    match (waiting, snapshot) {
        (Some(batch), None) => BatchModel { entries: batch.entries + entries, ..batch },
        _ => BatchModel { snapshot, entries },
    }
}

/// The node after work was queued.
pub open spec fn enqueued(
    m: RuntimeModel,
    snapshot: Option<SnapshotModel>,
    entries: Seq<(u64, Seq<u8>)>,
    clock: Option<u64>,
) -> RuntimeModel {
    let first = match snapshot {
        Some(s) => snapshot_noted(m, s.index),
        None => m,
    };
    RuntimeModel {
        deferred: Some(merged(m.deferred, snapshot, entries)),
        ..entries_noted(first, entries, clock)
    }
}

/// What moving the waiting batch into the channel comes to: the node, the
/// channel, the batch that was moved, and whether the other side is there.
pub open spec fn flushed(m: RuntimeModel, channel: Channel) -> (
    RuntimeModel,
    Channel,
    Seq<BatchModel>,
    bool,
) {
    match m.deferred {
        None => (m, channel, Seq::empty(), true),
        Some(batch) => match channel {
            Channel::Open(room) => if room > 0 {
                (
                    RuntimeModel { deferred: None, ..m },
                    Channel::Open((room - 1) as usize),
                    seq![batch],
                    true,
                )
            } else {
                (m, channel, Seq::empty(), true)
            },
            Channel::Closed => (RuntimeModel { deferred: None, ..m }, channel, Seq::empty(), false),
        },
    }
}

// ---------------------------------------------------------------------------
// Going through the queue
// ---------------------------------------------------------------------------
/// What comes after the queue was gone through.
#[derive(Debug, PartialEq, Eq)]
pub enum PumpNext {
    /// Nothing more can be handed on now.
    Idle,
    /// This membership change is to be applied; then the queue is gone through
    /// again.
    Change(CommittedEntry),
    /// The other side is gone.
    Stopped,
}

/// What comes after, as a mathematical value.
#[verifier::ext_equal]
pub enum NextModel {
    Idle,
    Change(CommittedModel),
    Stopped,
}

impl View for PumpNext {
    type V = NextModel;

    open spec fn view(&self) -> NextModel {
        match *self {
            PumpNext::Idle => NextModel::Idle,
            PumpNext::Change(e) => NextModel::Change(e@),
            PumpNext::Stopped => NextModel::Stopped,
        }
    }
}

/// What going through the queue comes to.
#[verifier::ext_equal]
pub struct PumpModel {
    pub node: RuntimeModel,
    pub channel: Channel,
    pub batches: Seq<BatchModel>,
    pub next: NextModel,
}

/// The same after some batches were already moved.
pub open spec fn after(batches: Seq<BatchModel>, p: PumpModel) -> PumpModel {
    PumpModel { batches: batches + p.batches, ..p }
}

/// Going through a queue, with a run of commands taken from its front so far. A
/// run is handed on as a whole. A membership change waits until everything
/// before it is applied.
pub open spec fn pumped(
    m: RuntimeModel,
    queue: Seq<CommittedModel>,
    run: Seq<(u64, Seq<u8>)>,
    channel: Channel,
    clock: Option<u64>,
) -> PumpModel
    decreases queue.len(), run.len(),
{
    if queue.len() > 0 && queue[0].entry_type == EntryType::Entry {
        pumped(m, queue.drop_first(), run.push((queue[0].index, queue[0].data)), channel, clock)
    } else if run.len() > 0 {
        let (next, room, moved, alive) = flushed(enqueued(m, None, run, clock), channel);
        if alive {
            after(moved, pumped(next, queue, Seq::empty(), room, clock))
        } else {
            PumpModel {
                node: RuntimeModel { queue, ..next },
                channel: room,
                batches: moved,
                next: NextModel::Stopped,
            }
        }
    } else if queue.len() == 0 || m.applied_index + 1 < queue[0].index {
        PumpModel {
            node: RuntimeModel { queue, ..m },
            channel,
            batches: Seq::empty(),
            next: NextModel::Idle,
        }
    } else {
        let hole = seq![(queue[0].index, Seq::<u8>::empty())];
        let (next, room, moved, alive) = flushed(enqueued(m, None, hole, clock), channel);
        PumpModel {
            node: RuntimeModel { queue: queue.drop_first(), ..next },
            channel: room,
            batches: moved,
            next: if alive {
                NextModel::Change(queue[0])
            } else {
                NextModel::Stopped
            },
        }
    }
}

/// Going through the node's queue: a batch that waits is retried first.
pub open spec fn pumped_all(m: RuntimeModel, channel: Channel, clock: Option<u64>) -> PumpModel {
    let (next, room, moved, alive) = flushed(m, channel);
    if alive {
        after(
            moved,
            pumped(
                RuntimeModel { queue: Seq::empty(), ..next },
                m.queue,
                Seq::empty(),
                room,
                clock,
            ),
        )
    } else {
        PumpModel { node: next, channel: room, batches: moved, next: NextModel::Stopped }
    }
}

/// The node after the membership changes among committed entries were
/// attributed to the requests that proposed them.
pub open spec fn changes_attributed(m: RuntimeModel, entries: Seq<CommittedModel>) -> RuntimeModel
    decreases entries.len(),
{
    if entries.len() == 0 {
        m
    } else {
        let before = changes_attributed(m, entries.drop_last());
        match conf_change::identity(entries.last().entry_type, entries.last().data) {
            Some(change) => RuntimeModel {
                waiting: WaitingModel {
                    changes: waiting::attributed(
                        before.waiting.changes,
                        change,
                        entries.last().index,
                    ),
                    ..before.waiting
                },
                ..before
            },
            None => before,
        }
    }
}

/// Taking in what a cycle handed on: a snapshot supersedes what is queued at or
/// below its index and goes first; then the queue is gone through.
pub open spec fn staged(
    m: RuntimeModel,
    snapshot: Option<SnapshotModel>,
    entries: Seq<CommittedModel>,
    channel: Channel,
    clock: Option<u64>,
) -> PumpModel {
    let queue = match snapshot {
        Some(s) => pipeline::later_than(m.queue, s.index),
        None => m.queue,
    };
    let first = RuntimeModel { queue: queue + entries, ..changes_attributed(m, entries) };
    match snapshot {
        None => pumped_all(first, channel, clock),
        Some(_) => {
            let (next, room, moved, alive) = flushed(
                enqueued(first, snapshot, Seq::empty(), clock),
                channel,
            );
            if alive {
                after(moved, pumped_all(next, room, clock))
            } else {
                PumpModel { node: next, channel: room, batches: moved, next: NextModel::Stopped }
            }
        },
    }
}

/// A list of batches as mathematical values.
pub open spec fn batch_models(s: Seq<ApplyBatch>) -> Seq<BatchModel> {
    Seq::new(s.len(), |i: int| s[i]@)
}

/// What going through the queue comes to.
pub struct Pumped {
    /// The batches to send, in order.
    pub batches: Vec<ApplyBatch>,
    /// What comes after them.
    pub next: PumpNext,
    /// The answers, where the other side is gone.
    pub answers: Vec<Answer>,
    /// The room left.
    pub channel: Channel,
}

/// The reason when the other side is gone.
pub open spec fn task_stopped() -> Seq<char> {
    "the apply task stopped"@
}

/// Whether a result and the node after it are what was expected: where the other
/// side is gone, the node stops.
pub open spec fn came_to(p: PumpModel, node: RuntimeModel, r: Pumped) -> bool {
    &&& batch_models(r.batches@) == p.batches
    &&& r.next@ == p.next
    &&& r.channel == p.channel
    &&& if p.next is Stopped {
        &&& node == state::stopped(p.node, task_stopped())
        &&& command::answer_models(r.answers@) == p.node.waiting.all_failed(task_stopped())
    } else {
        &&& node == p.node
        &&& r.answers@.len() == 0
    }
}

proof fn lemma_attributed_len<T>(s: Seq<waiting::Pending<T>>, what: T, index: u64)
    ensures
        waiting::attributed(s, what, index).len() == s.len(),
{
    waiting::lemma_first_where(s, waiting::waits_for(what));
}

impl Runtime {
    fn note_entry(&mut self, index: LogIndex, data: &Vec<u8>, clock: Option<u64>)
        requires
            old(self)@.wf(),
        ensures
            final(self)@ == entry_noted(old(self)@, index, data@, clock),
            final(self)@.wf(),
    {
        if let Some((client_id, seq_no)) = KvStateMachine::command_session(data.as_slice()) {
            let session = SessionKey { client_id, seq_no };
            self.waiting.attribute_session(session, index);
            self.sessions.note_session(clock, session);
        }
        self.sent_bytes_total = self.sent_bytes_total.saturating_add(entry_size(data));
    }

    fn note_entries(&mut self, entries: &Vec<(LogIndex, Vec<u8>)>, clock: Option<u64>)
        requires
            old(self)@.wf(),
        ensures
            final(self)@ == entries_noted(old(self)@, apply::indexed_models(entries@), clock),
            final(self)@.wf(),
    {
        let ghost m = self@;
        let ghost all = apply::indexed_models(entries@);
        let n: usize = entries.len();
        let mut i: usize = 0;
        assert(all.subrange(0, 0) =~= Seq::empty());
        while i < n
            invariant
                i <= n,
                n == entries@.len(),
                all == apply::indexed_models(entries@),
                self@ == entries_noted(m, all.subrange(0, i as int), clock),
                self@.wf(),
            decreases n - i,
        {
            let ghost next = all.subrange(0, i + 1);
            assert(next.drop_last() =~= all.subrange(0, i as int));
            assert(next.last() == all[i as int]);
            self.note_entry(entries[i].0, &entries[i].1, clock);
            i = i + 1;
        }
        assert(all.subrange(0, n as int) =~= all);
    }

    fn enqueue_apply(
        &mut self,
        snapshot: Option<Snapshot>,
        entries: Vec<(LogIndex, Vec<u8>)>,
        clock: Option<u64>,
    )
        requires
            old(self)@.wf(),
        ensures
            final(self)@ == enqueued(
                old(self)@,
                pipeline::snapshot_model(snapshot),
                apply::indexed_models(entries@),
                clock,
            ),
            final(self)@.wf(),
    {
        let ghost m = self@;
        let ghost s = pipeline::snapshot_model(snapshot);
        let ghost es = apply::indexed_models(entries@);
        if let Some(found) = &snapshot {
            let superseded: u64 = match &self.deferred {
                Some(batch) => bytes_of(&batch.entries),
                None => 0,
            };
            self.sent_bytes_total = self.sent_bytes_total.saturating_sub(superseded);
            if found.meta.index > self.snapshot_index {
                self.snapshot_index = found.meta.index;
            }
            self.applied_bytes_at_snapshot = self.applied_bytes_total;
            self.metrics.inc_snapshots_installed();
        }
        proof {
            if s is Some {
                assert(self@ =~= snapshot_noted(m, s->0.index));
            }
        }
        self.note_entries(&entries, clock);
        let ghost noted = self@;
        proof {
            lemma_noted_keeps(
                match s {
                    Some(x) => snapshot_noted(m, x.index),
                    None => m,
                },
                es,
                clock,
            );
        }
        let mut waiting_batch: Option<ApplyBatch> = None;
        std::mem::swap(&mut self.deferred, &mut waiting_batch);
        let batch = match waiting_batch {
            Some(waiting) => {
                if snapshot.is_some() {
                    ApplyBatch { snapshot, entries }
                } else {
                    let mut all = waiting.entries;
                    let mut more = entries;
                    let ghost before = apply::indexed_models(all@);
                    all.append(&mut more);
                    assert(apply::indexed_models(all@) =~= before + es);
                    ApplyBatch { snapshot: waiting.snapshot, entries: all }
                }
            },
            None => ApplyBatch { snapshot, entries },
        };
        assert(batch@ =~= merged(m.deferred, s, es));
        self.deferred = Some(batch);
    }

    fn flush_deferred(&mut self, channel: &mut Channel, batches: &mut Vec<ApplyBatch>) -> (alive:
        bool)
        requires
            old(self)@.wf(),
        ensures
            ({
                let (next, room, moved, ok) = flushed(old(self)@, *old(channel));
                &&& final(self)@ == next
                &&& *final(channel) == room
                &&& batch_models(final(batches)@) == batch_models(old(batches)@) + moved
                &&& alive == ok
            }),
            final(self)@.wf(),
    {
        let ghost m = self@;
        let ghost before = batch_models(batches@);
        assert(before + Seq::<BatchModel>::empty() =~= before);
        let mut waiting_batch: Option<ApplyBatch> = None;
        std::mem::swap(&mut self.deferred, &mut waiting_batch);
        match waiting_batch {
            None => true,
            Some(batch) => match *channel {
                Channel::Open(room) => {
                    if room > 0 {
                        *channel = Channel::Open(room - 1);
                        let ghost b = batch@;
                        batches.push(batch);
                        assert(batch_models(batches@) =~= before + seq![b]);
                        true
                    } else {
                        self.deferred = Some(batch);
                        true
                    }
                },
                Channel::Closed => false,
            },
        }
    }

    fn stop_pump(&mut self, batches: Vec<ApplyBatch>, channel: Channel) -> (r: Pumped)
        requires
            old(self)@.wf(),
        ensures
            came_to(
                PumpModel {
                    node: old(self)@,
                    channel,
                    batches: batch_models(batches@),
                    next: NextModel::Stopped,
                },
                final(self)@,
                r,
            ),
            final(self)@.wf(),
    {
        let mut reason = String::new();
        reason.append("the apply task stopped");
        assert(reason@ =~= task_stopped());
        let answers = self.fail_stop(&reason);
        Pumped { batches, next: PumpNext::Stopped, answers, channel }
    }
}

fn bytes_of(entries: &Vec<(LogIndex, Vec<u8>)>) -> (total: u64)
    ensures
        total == apply::total_bytes(apply::indexed_models(entries@)),
{
    let ghost all = apply::indexed_models(entries@);
    let n: usize = entries.len();
    let mut total: u64 = 0;
    let mut i: usize = 0;
    assert(all.subrange(0, 0) =~= Seq::empty());
    while i < n
        invariant
            i <= n,
            n == entries@.len(),
            all == apply::indexed_models(entries@),
            total == apply::total_bytes(all.subrange(0, i as int)),
        decreases n - i,
    {
        let ghost next = all.subrange(0, i + 1);
        assert(next.drop_last() =~= all.subrange(0, i as int));
        assert(next.last() == all[i as int]);
        total = total.saturating_add(entry_size(&entries[i].1));
        i = i + 1;
    }
    assert(all.subrange(0, n as int) =~= all);
    total
}

/// Queueing commands leaves the rest of the node alone.
proof fn lemma_noted_keeps(m: RuntimeModel, entries: Seq<(u64, Seq<u8>)>, clock: Option<u64>)
    ensures
        ({
            let r = entries_noted(m, entries, clock);
            &&& r.deferred == m.deferred
            &&& r.queue == m.queue
            &&& r.applied_index == m.applied_index
            &&& r.applied_bytes == m.applied_bytes
            &&& r.settings == m.settings
            &&& r.metrics == m.metrics
            &&& r.snapshot_index == m.snapshot_index
            &&& r.waiting.changes == m.waiting.changes
            &&& r.waiting.reads == m.waiting.reads
            &&& r.waiting.transfers == m.waiting.transfers
            &&& r.waiting.proposals.len() == m.waiting.proposals.len()
        }),
    decreases entries.len(),
{
    if entries.len() > 0 {
        lemma_noted_keeps(m, entries.drop_last(), clock);
        let before = entries_noted(m, entries.drop_last(), clock);
        if let Some(c) = kv::decoded_command(entries.last().1) {
            lemma_attributed_len(before.waiting.proposals, c.session, entries.last().0);
        }
    }
}

impl Runtime {
    /// Go through the queue.
    pub fn pump_committed(&mut self, channel: Channel, clock: Option<u64>) -> (r: Pumped)
        requires
            old(self)@.wf(),
        ensures
            came_to(pumped_all(old(self)@, channel, clock), final(self)@, r),
            final(self)@.wf(),
    {
        let ghost goal = pumped_all(self@, channel, clock);
        let ghost waiting_queue = self@.queue;
        let mut batches: Vec<ApplyBatch> = Vec::new();
        let mut room: Channel = channel;
        assert(batch_models(batches@) =~= Seq::empty());
        let alive = self.flush_deferred(&mut room, &mut batches);
        if !alive {
            assert(batch_models(batches@) =~= goal.batches);
            return self.stop_pump(batches, room);
        }
        let mut queue: VecDeque<CommittedEntry> = VecDeque::new();
        std::mem::swap(&mut self.committed_queue, &mut queue);
        let mut run: Vec<(LogIndex, Vec<u8>)> = Vec::new();
        proof {
            assert(pipeline::committed_models(self.committed_queue@) =~= Seq::empty());
            assert(pipeline::committed_models(queue@) =~= waiting_queue);
            assert(apply::indexed_models(run@) =~= Seq::empty());
            assert(goal =~= after(
                batch_models(batches@),
                pumped(self@, waiting_queue, Seq::empty(), room, clock),
            ));
        }
        loop
            invariant
                self@.wf(),
                self@.queue == Seq::<CommittedModel>::empty(),
                goal == pumped_all(old(self)@, channel, clock),
                goal == after(
                    batch_models(batches@),
                    pumped(
                        self@,
                        pipeline::committed_models(queue@),
                        apply::indexed_models(run@),
                        room,
                        clock,
                    ),
                ),
            decreases queue@.len(), run@.len(),
        {
            let ghost q = pipeline::committed_models(queue@);
            let ghost taken = apply::indexed_models(run@);
            let ghost so_far = batch_models(batches@);
            proof {
                if queue@.len() > 0 {
                    assert(q[0] == queue@[0]@);
                }
            }
            let command_in_front = queue.len() > 0 && queue[0].entry_type == EntryType::Entry;
            if command_in_front {
                if let Some(e) = queue.pop_front() {
                    assert(e@ == q[0]);
                    run.push((e.index, e.data));
                    assert(pipeline::committed_models(queue@) =~= q.drop_first());
                    assert(apply::indexed_models(run@) =~= taken.push((q[0].index, q[0].data)));
                }
            } else if run.len() > 0 {
                let mut entries: Vec<(LogIndex, Vec<u8>)> = Vec::new();
                std::mem::swap(&mut run, &mut entries);
                assert(apply::indexed_models(run@) =~= Seq::empty());
                proof {
                    lemma_noted_keeps(self@, taken, clock);
                }
                self.enqueue_apply(None, entries, clock);
                let alive = self.flush_deferred(&mut room, &mut batches);
                if !alive {
                    self.committed_queue = queue;
                    proof {
                        assert(self@ =~= goal.node);
                        assert(batch_models(batches@) =~= goal.batches);
                    }
                    return self.stop_pump(batches, room);
                }
                proof {
                    let rest = pumped(self@, q, Seq::empty(), room, clock);
                    assert(goal =~= after(batch_models(batches@), rest));
                }
            } else if queue.len() == 0 {
                self.committed_queue = queue;
                proof {
                    assert(self@ =~= goal.node);
                    assert(batch_models(batches@) =~= goal.batches);
                }
                return Pumped { batches, next: PumpNext::Idle, answers: Vec::new(), channel: room };
            } else {
                let index: u64 = queue[0].index;
                let held_back = self.applied_index < u64::MAX && self.applied_index + 1 < index;
                if held_back {
                    self.committed_queue = queue;
                    proof {
                        assert(self@ =~= goal.node);
                        assert(batch_models(batches@) =~= goal.batches);
                    }
                    return Pumped {
                        batches,
                        next: PumpNext::Idle,
                        answers: Vec::new(),
                        channel: room,
                    };
                }
                if let Some(change) = queue.pop_front() {
                    assert(change@ == q[0]);
                    assert(pipeline::committed_models(queue@) =~= q.drop_first());
                    let mut entries: Vec<(LogIndex, Vec<u8>)> = Vec::new();
                    entries.push((index, Vec::new()));
                    assert(apply::indexed_models(entries@) =~= seq![(index, Seq::<u8>::empty())]);
                    self.enqueue_apply(None, entries, clock);
                    let alive = self.flush_deferred(&mut room, &mut batches);
                    self.committed_queue = queue;
                    proof {
                        assert(self@ =~= goal.node);
                        assert(batch_models(batches@) =~= goal.batches);
                    }
                    if !alive {
                        return self.stop_pump(batches, room);
                    }
                    return Pumped {
                        batches,
                        next: PumpNext::Change(change),
                        answers: Vec::new(),
                        channel: room,
                    };
                }
            }
        }
    }
}

impl Runtime {
    fn attribute_changes(&mut self, entries: &VecDeque<CommittedEntry>)
        requires
            old(self)@.wf(),
        ensures
            final(self)@ == changes_attributed(
                old(self)@,
                pipeline::committed_models(entries@),
            ),
            final(self)@.wf(),
    {
        let ghost m = self@;
        let ghost all = pipeline::committed_models(entries@);
        let n: usize = entries.len();
        let mut i: usize = 0;
        assert(all.subrange(0, 0) =~= Seq::empty());
        while i < n
            invariant
                i <= n,
                n == entries@.len(),
                all == pipeline::committed_models(entries@),
                self@ == changes_attributed(m, all.subrange(0, i as int)),
                self@.wf(),
            decreases n - i,
        {
            let ghost next = all.subrange(0, i + 1);
            assert(next.drop_last() =~= all.subrange(0, i as int));
            assert(next.last() == all[i as int]);
            let kind = entries[i].entry_type;
            if kind != EntryType::Entry {
                match conf_change_identity(kind, entries[i].data.as_slice()) {
                    Ok(change) => self.waiting.attribute_change(change, entries[i].index),
                    Err(_) => {},
                }
            }
            i = i + 1;
        }
        assert(all.subrange(0, n as int) =~= all);
    }

    /// Take in what a cycle handed on, and go through the queue.
    pub fn stage_committed(
        &mut self,
        snapshot: Option<Snapshot>,
        entries: VecDeque<CommittedEntry>,
        channel: Channel,
        clock: Option<u64>,
    ) -> (r: Pumped)
        requires
            old(self)@.wf(),
        ensures
            came_to(
                staged(
                    old(self)@,
                    pipeline::snapshot_model(snapshot),
                    pipeline::committed_models(entries@),
                    channel,
                    clock,
                ),
                final(self)@,
                r,
            ),
            final(self)@.wf(),
    {
        let ghost m = self@;
        let ghost s = pipeline::snapshot_model(snapshot);
        let ghost es = pipeline::committed_models(entries@);
        let ghost goal = staged(m, s, es, channel, clock);
        self.attribute_changes(&entries);
        proof {
            lemma_changes_keep(m, es);
        }
        if let Some(found) = &snapshot {
            keep_later(&mut self.committed_queue, found.meta.index);
        }
        let ghost queue = self@.queue;
        let mut entries = entries;
        self.committed_queue.append(&mut entries);
        assert(self@.queue =~= queue + es);
        if snapshot.is_none() {
            return self.pump_committed(channel, clock);
        }
        let mut batches: Vec<ApplyBatch> = Vec::new();
        let mut room: Channel = channel;
        let none: Vec<(LogIndex, Vec<u8>)> = Vec::new();
        assert(batch_models(batches@) =~= Seq::empty());
        assert(apply::indexed_models(none@) =~= Seq::empty());
        self.enqueue_apply(snapshot, none, clock);
        let alive = self.flush_deferred(&mut room, &mut batches);
        if !alive {
            assert(batch_models(batches@) =~= goal.batches);
            return self.stop_pump(batches, room);
        }
        let ghost moved = batch_models(batches@);
        let ghost next = self@;
        let mut rest = self.pump_committed(room, clock);
        let ghost more = batch_models(rest.batches@);
        batches.append(&mut rest.batches);
        assert(batch_models(batches@) =~= moved + more);
        Pumped { batches, next: rest.next, answers: rest.answers, channel: rest.channel }
    }

    /// Take note that the membership change at `index` was applied.
    pub fn conf_change_applied(&mut self, index: LogIndex)
        ensures
            final(self)@ == (RuntimeModel {
                applied_index: node::max(old(self)@.applied_index, index),
                ..old(self)@
            }),
    {
        if index > self.applied_index {
            self.applied_index = index;
        }
    }

    /// Stop because a membership change could not be applied.
    pub fn conf_change_failed(&mut self, detail: &String) -> (answers: Vec<Answer>)
        requires
            old(self)@.wf(),
        ensures
            final(self)@ == state::stopped(
                old(self)@,
                "applying a ConfChange failed: "@ + detail@,
            ),
            command::answer_models(answers@) == old(self)@.waiting.all_failed(
                "applying a ConfChange failed: "@ + detail@,
            ),
            final(self)@.wf(),
    {
        let mut reason = String::new();
        reason.append("applying a ConfChange failed: ");
        reason.append(detail.as_str());
        assert(reason@ =~= "applying a ConfChange failed: "@ + detail@);
        self.fail_stop(&reason)
    }

    /// Take note of how far the work has been applied. The node stops if that
    /// failed.
    pub fn absorb_progress(&mut self, progress: &ApplyProgress) -> (r: Option<Vec<Answer>>)
        requires
            old(self)@.wf(),
        ensures
            match progress@.failed {
                None => r is None && final(self)@ == absorbed(old(self)@, progress@),
                Some(reason) => {
                    &&& final(self)@ == state::stopped(absorbed(old(self)@, progress@), reason)
                    &&& r matches Some(answers)
                    &&& command::answer_models(answers@) == old(self)@.waiting.all_failed(reason)
                },
            },
            final(self)@.wf(),
    {
        self.applied_index = progress.applied_index;
        self.applied_bytes_total = progress.applied_bytes_total;
        self.live_sessions = progress.sessions;
        match &progress.failed {
            None => None,
            Some(reason) => Some(self.fail_stop(reason)),
        }
    }
}

/// The node after it learned how far the work has been applied.
pub open spec fn absorbed(m: RuntimeModel, p: ProgressModel) -> RuntimeModel {
    RuntimeModel {
        applied_index: p.applied_index,
        applied_bytes: p.applied_bytes_total,
        live_sessions: p.sessions,
        ..m
    }
}

/// Attributing membership changes leaves the rest of the node alone.
pub proof fn lemma_changes_keep(m: RuntimeModel, entries: Seq<CommittedModel>)
    ensures
        changes_attributed(m, entries) == (RuntimeModel {
            waiting: WaitingModel {
                changes: changes_attributed(m, entries).waiting.changes,
                ..m.waiting
            },
            ..m
        }),
    decreases entries.len(),
{
    if entries.len() > 0 {
        lemma_changes_keep(m, entries.drop_last());
    }
}

// ---------------------------------------------------------------------------
// Laws
// ---------------------------------------------------------------------------
/// The commands that a queue comes to: a membership change is an empty one.
pub open spec fn commands_of(queue: Seq<CommittedModel>) -> Seq<(u64, Seq<u8>)> {
    Seq::new(
        queue.len(),
        |i: int|
            (
                queue[i].index,
                if queue[i].entry_type == EntryType::Entry {
                    queue[i].data
                } else {
                    Seq::empty()
                },
            ),
    )
}

/// The entries of batches, one batch after the other.
pub open spec fn all_entries(batches: Seq<BatchModel>) -> Seq<(u64, Seq<u8>)>
    decreases batches.len(),
{
    if batches.len() == 0 {
        Seq::empty()
    } else {
        all_entries(batches.drop_last()) + batches.last().entries
    }
}

/// The entries that wait for room.
pub open spec fn waiting_entries(m: RuntimeModel) -> Seq<(u64, Seq<u8>)> {
    match m.deferred {
        Some(batch) => batch.entries,
        None => Seq::empty(),
    }
}

/// The entries of two lists of batches together.
pub proof fn lemma_all_entries_concat(a: Seq<BatchModel>, b: Seq<BatchModel>)
    ensures
        all_entries(a + b) == all_entries(a) + all_entries(b),
    decreases b.len(),
{
    if b.len() == 0 {
        assert(a + b =~= a);
        assert(all_entries(a) + all_entries(b) =~= all_entries(a));
    } else {
        lemma_all_entries_concat(a, b.drop_last());
        assert((a + b).drop_last() =~= a + b.drop_last());
        assert(all_entries(a + b) =~= all_entries(a) + all_entries(b));
    }
}

/// Moving the waiting batch loses none of its entries and changes nothing else.
pub proof fn lemma_flush_keeps_entries(m: RuntimeModel, channel: Channel)
    ensures
        flushed(m, channel).3 ==> all_entries(flushed(m, channel).2) + waiting_entries(
            flushed(m, channel).0,
        ) == waiting_entries(m),
        flushed(m, channel).0 == (RuntimeModel {
            deferred: flushed(m, channel).0.deferred,
            ..m
        }),
{
    let (next, _, moved, alive) = flushed(m, channel);
    if let Some(batch) = m.deferred {
        if moved.len() > 0 {
            assert(moved.drop_last() =~= Seq::empty());
            assert(all_entries(Seq::<BatchModel>::empty()) =~= Seq::empty());
            assert(all_entries(moved) =~= batch.entries);
        }
    }
    if alive {
        assert(all_entries(moved) + waiting_entries(next) =~= waiting_entries(m));
    }
}

proof fn lemma_pump_keeps_entries(
    m: RuntimeModel,
    queue: Seq<CommittedModel>,
    run: Seq<(u64, Seq<u8>)>,
    channel: Channel,
    clock: Option<u64>,
)
    ensures
        ({
            let p = pumped(m, queue, run, channel, clock);
            &&& p.next !is Stopped ==> all_entries(p.batches) + waiting_entries(p.node)
                + commands_of(p.node.queue) == waiting_entries(m) + run + commands_of(queue)
            &&& p.node.applied_index == m.applied_index
            &&& p.next matches NextModel::Change(c) ==> m.applied_index + 1 >= c.index
                && c.entry_type != EntryType::Entry
            &&& p.next is Idle && p.node.queue.len() > 0 ==> p.node.queue[0].entry_type
                != EntryType::Entry && m.applied_index + 1 < p.node.queue[0].index
        }),
    decreases queue.len(), run.len(),
{
    let p = pumped(m, queue, run, channel, clock);
    if queue.len() > 0 && queue[0].entry_type == EntryType::Entry {
        let more = run.push((queue[0].index, queue[0].data));
        lemma_pump_keeps_entries(m, queue.drop_first(), more, channel, clock);
        assert(waiting_entries(m) + more + commands_of(queue.drop_first()) =~= waiting_entries(m)
            + run + commands_of(queue));
    } else if run.len() > 0 {
        let queued = enqueued(m, None, run, clock);
        lemma_noted_keeps(m, run, clock);
        lemma_flush_keeps_entries(queued, channel);
        let (next, room, moved, alive) = flushed(queued, channel);
        assert(waiting_entries(queued) =~= waiting_entries(m) + run);
        if alive {
            let rest = pumped(next, queue, Seq::empty(), room, clock);
            lemma_pump_keeps_entries(next, queue, Seq::empty(), room, clock);
            lemma_all_entries_concat(moved, rest.batches);
            if rest.next !is Stopped {
                assert(all_entries(p.batches) + waiting_entries(p.node) + commands_of(p.node.queue)
                    =~= all_entries(moved) + (all_entries(rest.batches) + waiting_entries(rest.node)
                    + commands_of(rest.node.queue)));
                assert(all_entries(moved) + (waiting_entries(next) + Seq::<(u64, Seq<u8>)>::empty()
                    + commands_of(queue)) =~= (all_entries(moved) + waiting_entries(next))
                    + commands_of(queue));
            }
        }
    } else if queue.len() == 0 || m.applied_index + 1 < queue[0].index {
        assert(all_entries(p.batches) + waiting_entries(p.node) + commands_of(p.node.queue)
            =~= waiting_entries(m) + run + commands_of(queue));
    } else {
        let hole = seq![(queue[0].index, Seq::<u8>::empty())];
        let queued = enqueued(m, None, hole, clock);
        lemma_noted_keeps(m, hole, clock);
        lemma_flush_keeps_entries(queued, channel);
        assert(waiting_entries(queued) =~= waiting_entries(m) + hole);
        let (next, room, moved, alive) = flushed(queued, channel);
        if alive {
            assert(hole + commands_of(queue.drop_first()) =~= commands_of(queue));
            assert(all_entries(p.batches) + waiting_entries(p.node) + commands_of(p.node.queue)
                =~= (all_entries(moved) + waiting_entries(next)) + commands_of(queue.drop_first()));
            assert((waiting_entries(m) + hole) + commands_of(queue.drop_first())
                =~= waiting_entries(m) + run + commands_of(queue));
        }
    }
}

/// Nothing is lost, doubled or reordered: what was moved, what waits for room
/// and what is still queued are together, in this order, what waited and was
/// queued before.
pub proof fn law_log_order_is_kept(m: RuntimeModel, channel: Channel, clock: Option<u64>)
    ensures
        ({
            let p = pumped_all(m, channel, clock);
            p.next !is Stopped ==> all_entries(p.batches) + waiting_entries(p.node) + commands_of(
                p.node.queue,
            ) == waiting_entries(m) + commands_of(m.queue)
        }),
{
    let p = pumped_all(m, channel, clock);
    let (next, room, moved, alive) = flushed(m, channel);
    lemma_flush_keeps_entries(m, channel);
    if alive {
        let start = RuntimeModel { queue: Seq::empty(), ..next };
        let rest = pumped(start, m.queue, Seq::empty(), room, clock);
        lemma_pump_keeps_entries(start, m.queue, Seq::empty(), room, clock);
        lemma_all_entries_concat(moved, rest.batches);
        if rest.next !is Stopped {
            assert(all_entries(p.batches) + waiting_entries(p.node) + commands_of(p.node.queue)
                =~= all_entries(moved) + (all_entries(rest.batches) + waiting_entries(rest.node)
                + commands_of(rest.node.queue)));
            assert(all_entries(moved) + (waiting_entries(start) + Seq::<(u64, Seq<u8>)>::empty()
                + commands_of(m.queue)) =~= (all_entries(moved) + waiting_entries(next))
                + commands_of(m.queue));
        }
    }
}

/// A membership change is applied only once every entry before it is; until then
/// it stays at the front of the queue, and nothing behind it is handed on.
pub proof fn law_changes_wait_for_what_precedes(
    m: RuntimeModel,
    channel: Channel,
    clock: Option<u64>,
)
    ensures
        ({
            let p = pumped_all(m, channel, clock);
            &&& p.next matches NextModel::Change(c) ==> m.applied_index + 1 >= c.index
                && c.entry_type != EntryType::Entry
            &&& p.next is Idle && p.node.queue.len() > 0 ==> p.node.queue[0].entry_type
                != EntryType::Entry && m.applied_index + 1 < p.node.queue[0].index
        }),
{
    let (next, room, _, alive) = flushed(m, channel);
    lemma_flush_keeps_entries(m, channel);
    if alive {
        lemma_pump_keeps_entries(
            RuntimeModel { queue: Seq::empty(), ..next },
            m.queue,
            Seq::empty(),
            room,
            clock,
        );
    }
}

/// A request learns its index only from an entry of its own session: what is
/// answered once that index is applied is the request's own command.
pub proof fn law_proposals_follow_their_entries(
    m: RuntimeModel,
    entries: Seq<(u64, Seq<u8>)>,
    clock: Option<u64>,
    k: int,
)
    requires
        0 <= k < m.waiting.proposals.len(),
    ensures
        ({
            let was = m.waiting.proposals[k];
            let now = entries_noted(m, entries, clock).waiting.proposals[k];
            &&& entries_noted(m, entries, clock).waiting.proposals.len()
                == m.waiting.proposals.len()
            &&& now == was || {
                &&& was.index is None
                &&& now == (waiting::Pending { index: now.index, ..was })
                &&& exists|j: int|
                    0 <= j < entries.len() && now.index == Some((#[trigger] entries[j]).0)
                        && kv::decoded_command(entries[j].1) is Some && kv::decoded_command(
                        entries[j].1,
                    )->0.session == was.what
            }
        }),
    decreases entries.len(),
{
    if entries.len() > 0 {
        let init = entries.drop_last();
        let before = entries_noted(m, init, clock);
        law_proposals_follow_their_entries(m, init, clock, k);
        let was = m.waiting.proposals[k];
        let mid = before.waiting.proposals[k];
        if mid != was {
            let j = choose|j: int|
                0 <= j < init.len() && mid.index == Some((#[trigger] init[j]).0)
                    && kv::decoded_command(init[j].1) is Some && kv::decoded_command(
                    init[j].1,
                )->0.session == was.what;
            assert(entries[j] == init[j]);
        }
        assert(entries[entries.len() - 1] == entries.last());
        if let Some(c) = kv::decoded_command(entries.last().1) {
            waiting::law_entry_belongs_to_its_request(
                before.waiting.proposals,
                c.session,
                entries.last().0,
                k,
                k,
            );
        }
    }
}

/// The bytes on their way grow by exactly what the queued commands count for.
pub proof fn law_backlog_counts_what_is_queued(
    m: RuntimeModel,
    entries: Seq<(u64, Seq<u8>)>,
    clock: Option<u64>,
)
    ensures
        entries_noted(m, entries, clock).sent_bytes == handle::capped_add(
            m.sent_bytes,
            apply::total_bytes(entries),
        ),
    decreases entries.len(),
{
    if entries.len() > 0 {
        law_backlog_counts_what_is_queued(m, entries.drop_last(), clock);
    }
}

} // verus!
