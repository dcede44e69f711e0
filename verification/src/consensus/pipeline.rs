//! Cycles whose records are written but not yet durable.
//!
//! A cycle takes what the raft core has ready: records to persist, messages to
//! send, entries to apply. Some messages may leave before the records are
//! durable; the others, and the entries, wait for the flush that covers them.
//! Cycles finish in the order in which they were submitted, so that nothing is
//! acknowledged that an earlier cycle has not made durable.
use std::collections::VecDeque;

use vstd::prelude::*;
use vstd::string::*;

use crate::types::{copy_bytes, EntryType, LogIndex, RaftId, Snapshot, SnapshotModel};

verus! {

/// How many cycles may be written but not flushed. More than one, so that a read
/// can be confirmed while the device flushes.
pub const MAX_IN_FLIGHT_READIES: usize = 8;

/// A committed entry on its way to be applied.
#[derive(Debug, PartialEq, Eq)]
pub struct CommittedEntry {
    pub index: LogIndex,
    pub entry_type: EntryType,
    pub data: Vec<u8>,
}

/// A committed entry as a mathematical value.
#[verifier::ext_equal]
pub struct CommittedModel {
    pub index: u64,
    pub entry_type: EntryType,
    pub data: Seq<u8>,
}

impl View for CommittedEntry {
    type V = CommittedModel;

    open spec fn view(&self) -> CommittedModel {
        CommittedModel { index: self.index, entry_type: self.entry_type, data: self.data@ }
    }
}

impl Clone for CommittedEntry {
    fn clone(&self) -> (r: Self)
        ensures
            r@ == self@,
    {
        CommittedEntry {
            index: self.index,
            entry_type: self.entry_type,
            data: copy_bytes(&self.data),
        }
    }
}

/// A list of entries as mathematical values.
pub open spec fn committed_models(s: Seq<CommittedEntry>) -> Seq<CommittedModel> {
    Seq::new(s.len(), |i: int| s[i]@)
}

/// An encoded message and the node it is for.
#[derive(Debug, PartialEq, Eq)]
pub struct Envelope {
    pub to: RaftId,
    pub bytes: Vec<u8>,
}

/// A list of messages as mathematical values.
pub open spec fn envelope_models(s: Seq<Envelope>) -> Seq<(u64, Seq<u8>)> {
    Seq::new(s.len(), |i: int| (s[i].to, s[i].bytes@))
}

/// A confirmed read: the token that was registered and the index it is good at.
#[derive(Debug, PartialEq, Eq)]
pub struct ReadState {
    pub context: Vec<u8>,
    pub index: LogIndex,
}

/// A list of confirmed reads as mathematical values.
pub open spec fn read_models(s: Seq<ReadState>) -> Seq<(Seq<u8>, u64)> {
    Seq::new(s.len(), |i: int| (s[i].context@, s[i].index))
}

/// The value of an optional snapshot.
pub open spec fn snapshot_model(s: Option<Snapshot>) -> Option<SnapshotModel> {
    match s {
        Some(snapshot) => Some(snapshot@),
        None => None,
    }
}

/// What the raft core has ready, apart from the records to persist.
#[derive(Debug, PartialEq, Eq)]
pub struct ReadyParts {
    /// The number that the raft core is told when the records are durable.
    pub number: u64,
    /// Messages that may leave at once.
    pub immediate: Vec<Envelope>,
    /// Messages that wait for the records.
    pub persisted: Vec<Envelope>,
    /// Entries to apply.
    pub committed: VecDeque<CommittedEntry>,
    /// Confirmed reads.
    pub read_states: Vec<ReadState>,
    /// A snapshot that the leader sent.
    pub snapshot: Option<Snapshot>,
}

/// What is ready as a mathematical value.
#[verifier::ext_equal]
pub struct ReadyModel {
    pub number: u64,
    pub immediate: Seq<(u64, Seq<u8>)>,
    pub persisted: Seq<(u64, Seq<u8>)>,
    pub committed: Seq<CommittedModel>,
    pub read_states: Seq<(Seq<u8>, u64)>,
    pub snapshot: Option<SnapshotModel>,
}

impl View for ReadyParts {
    type V = ReadyModel;

    open spec fn view(&self) -> ReadyModel {
        ReadyModel {
            number: self.number,
            immediate: envelope_models(self.immediate@),
            persisted: envelope_models(self.persisted@),
            committed: committed_models(self.committed@),
            read_states: read_models(self.read_states@),
            snapshot: snapshot_model(self.snapshot),
        }
    }
}

/// What a finished cycle hands on.
#[derive(Debug, PartialEq, Eq)]
pub struct StepOutcome {
    /// Entries to apply; every one is newer than the snapshot.
    pub committed: VecDeque<CommittedEntry>,
    /// A snapshot to restore before the entries are applied.
    pub snapshot: Option<Snapshot>,
    /// Confirmed reads.
    pub read_states: Vec<ReadState>,
}

/// What a finished cycle hands on, as a mathematical value.
#[verifier::ext_equal]
pub struct OutcomeModel {
    pub committed: Seq<CommittedModel>,
    pub snapshot: Option<SnapshotModel>,
    pub read_states: Seq<(Seq<u8>, u64)>,
}

impl View for StepOutcome {
    type V = OutcomeModel;

    open spec fn view(&self) -> OutcomeModel {
        OutcomeModel {
            committed: committed_models(self.committed@),
            snapshot: snapshot_model(self.snapshot),
            read_states: read_models(self.read_states@),
        }
    }
}

/// How records were handed to storage.
#[derive(Clone, Copy, Debug, PartialEq, Eq, Structural)]
pub enum Submitted {
    /// They are durable.
    Durable,
    /// A flush with this token is on its way.
    Offloaded(u64),
}

/// How the oldest cycle's flush stands.
#[derive(Clone, Debug, PartialEq, Eq)]
pub enum Flush {
    /// It is still in the air.
    InFlight,
    /// The records are durable.
    Landed,
    /// It failed.
    Failed(String),
}

/// A cycle whose records are written.
#[derive(Debug, PartialEq, Eq)]
pub struct Cycle {
    /// The flush that covers the records; none if they are durable.
    pub token: Option<u64>,
    pub ready: ReadyParts,
}

/// A cycle as a mathematical value.
#[verifier::ext_equal]
pub struct CycleModel {
    pub token: Option<u64>,
    pub ready: ReadyModel,
}

impl View for Cycle {
    type V = CycleModel;

    open spec fn view(&self) -> CycleModel {
        CycleModel { token: self.token, ready: self.ready@ }
    }
}

/// The entries after an index.
pub open spec fn later_than(s: Seq<CommittedModel>, index: u64) -> Seq<CommittedModel>
    decreases s.len(),
{
    if s.len() == 0 {
        s
    } else {
        let rest = later_than(s.drop_last(), index);
        if s.last().index > index {
            rest.push(s.last())
        } else {
            rest
        }
    }
}

/// The cycle that a submission queues.
pub open spec fn queued(ready: ReadyModel, submitted: Submitted) -> CycleModel {
    match submitted {
        Submitted::Durable => CycleModel { token: None, ready },
        Submitted::Offloaded(token) => CycleModel {
            token: Some(token),
            ready: ReadyModel { immediate: Seq::empty(), ..ready },
        },
    }
}

/// The messages that leave at a submission: those that may leave at once, when
/// the flush is still in the air.
pub open spec fn sent_at_submit(ready: ReadyModel, submitted: Submitted) -> Seq<(u64, Seq<u8>)> {
    match submitted {
        Submitted::Durable => Seq::empty(),
        Submitted::Offloaded(_) => ready.immediate,
    }
}

/// What a cycle hands on when it finishes. A snapshot supersedes every entry at
/// or below its index.
pub open spec fn handed_on(ready: ReadyModel) -> OutcomeModel {
    OutcomeModel {
        committed: match ready.snapshot {
            Some(snapshot) => later_than(ready.committed, snapshot.index),
            None => ready.committed,
        },
        snapshot: ready.snapshot,
        read_states: ready.read_states,
    }
}

/// What finishing the oldest cycle came to.
#[derive(Debug, PartialEq, Eq)]
pub enum Finish {
    /// No cycle can finish yet.
    Waiting,
    /// The flush failed, and durability cannot be claimed.
    Failed(String),
    /// The oldest cycle is durable.
    Done(Finished),
}

/// A cycle that is durable.
#[derive(Debug, PartialEq, Eq)]
pub struct Finished {
    /// The number to report to the raft core.
    pub number: u64,
    /// The messages to send.
    pub messages: Vec<Envelope>,
    /// What to hand on.
    pub outcome: StepOutcome,
}

/// Keep the entries after an index.
pub fn keep_later(queue: &mut VecDeque<CommittedEntry>, index: LogIndex)
    ensures
        committed_models(final(queue)@) == later_than(committed_models(old(queue)@), index),
{
    let ghost m = committed_models(queue@);
    let mut kept: VecDeque<CommittedEntry> = VecDeque::new();
    let n: usize = queue.len();
    let mut i: usize = 0;
    assert(committed_models(kept@) =~= later_than(m.subrange(0, 0), index));
    assert(committed_models(queue@) =~= m.subrange(0, n as int));
    while i < n
        invariant
            i <= n,
            n == m.len(),
            queue@.len() == n - i,
            committed_models(queue@) == m.subrange(i as int, n as int),
            committed_models(kept@) == later_than(m.subrange(0, i as int), index),
        decreases n - i,
    {
        let ghost next = m.subrange(0, i + 1);
        let ghost tail = queue@;
        proof {
            assert(next.drop_last() =~= m.subrange(0, i as int));
            assert(next.last() == m[i as int]);
            assert(committed_models(tail)[0] == m.subrange(i as int, n as int)[0]);
        }
        if let Some(e) = queue.pop_front() {
            assert(e@ == m[i as int]);
            assert forall|k: int| 0 <= k < queue@.len() implies #[trigger] queue@[k]@ == m[i + 1
                + k] by {
                assert(queue@[k] == tail[k + 1]);
                assert(committed_models(tail)[k + 1] == m.subrange(i as int, n as int)[k + 1]);
            }
            assert(committed_models(queue@) =~= m.subrange(i + 1, n as int));
            if e.index > index {
                let ghost before = committed_models(kept@);
                kept.push_back(e);
                assert(committed_models(kept@) =~= before.push(m[i as int]));
            }
        }
        i = i + 1;
    }
    assert(m.subrange(0, n as int) =~= m);
    std::mem::swap(queue, &mut kept);
}

/// The cycles in flight, oldest first, and the count of failed sends.
#[derive(Debug)]
pub struct Pipeline {
    pub cycles: VecDeque<Cycle>,
    pub dropped_sends: u64,
}

/// The cycles of a queue as mathematical values.
pub open spec fn cycle_models(s: Seq<Cycle>) -> Seq<CycleModel> {
    Seq::new(s.len(), |i: int| s[i]@)
}

/// The pipeline as a mathematical value.
#[verifier::ext_equal]
pub struct PipelineModel {
    pub cycles: Seq<CycleModel>,
    pub dropped_sends: u64,
}

impl View for Pipeline {
    type V = PipelineModel;

    open spec fn view(&self) -> PipelineModel {
        PipelineModel {
            cycles: cycle_models(self.cycles@),
            dropped_sends: self.dropped_sends,
        }
    }
}

impl Pipeline {
    /// No cycle in flight.
    pub fn new() -> (r: Pipeline)
        ensures
            r@ == (PipelineModel { cycles: Seq::empty(), dropped_sends: 0 }),
    {
        let r = Pipeline { cycles: VecDeque::new(), dropped_sends: 0 };
        assert(r@.cycles =~= Seq::<CycleModel>::empty());
        r
    }

    /// Whether a cycle waits for durability.
    pub fn is_persisting(&self) -> (r: bool)
        ensures
            r == (self@.cycles.len() > 0),
    {
        self.cycles.len() > 0
    }

    /// Whether another cycle may be submitted.
    pub fn has_room(&self) -> (r: bool)
        ensures
            r == (self@.cycles.len() < MAX_IN_FLIGHT_READIES),
    {
        self.cycles.len() < MAX_IN_FLIGHT_READIES
    }

    /// The flush that the oldest cycle waits for.
    pub fn front_token(&self) -> (r: Option<u64>)
        ensures
            r == (if self@.cycles.len() > 0 {
                self@.cycles[0].token
            } else {
                None
            }),
    {
        if self.cycles.len() > 0 {
            assert(self@.cycles[0] == self.cycles@[0]@);
            self.cycles[0].token
        } else {
            None
        }
    }

    /// Queue a cycle whose records were handed to storage, and give back the
    /// messages that leave now.
    pub fn submit_ready(&mut self, ready: ReadyParts, submitted: Submitted) -> (messages: Vec<
        Envelope,
    >)
        requires
            old(self)@.cycles.len() < MAX_IN_FLIGHT_READIES,
        ensures
            final(self)@ == (PipelineModel {
                cycles: old(self)@.cycles.push(queued(ready@, submitted)),
                ..old(self)@
            }),
            envelope_models(messages@) == sent_at_submit(ready@, submitted),
    {
        let ghost before = self@;
        let ghost m = ready@;
        let ReadyParts { number, immediate, persisted, committed, read_states, snapshot } = ready;
        let messages = match submitted {
            Submitted::Durable => {
                let ready = ReadyParts {
                    number,
                    immediate,
                    persisted,
                    committed,
                    read_states,
                    snapshot,
                };
                self.cycles.push_back(Cycle { token: None, ready });
                Vec::new()
            },
            Submitted::Offloaded(token) => {
                let ready = ReadyParts {
                    number,
                    immediate: Vec::new(),
                    persisted,
                    committed,
                    read_states,
                    snapshot,
                };
                assert(envelope_models(ready.immediate@) =~= Seq::empty());
                self.cycles.push_back(Cycle { token: Some(token), ready });
                immediate
            },
        };
        assert(self@.cycles =~= before.cycles.push(queued(m, submitted)));
        assert(envelope_models(messages@) =~= sent_at_submit(m, submitted));
        messages
    }

    /// Finish the oldest cycle if its records are durable.
    pub fn finish_persisted(&mut self, flush: Flush) -> (r: Finish)
        ensures
            if old(self)@.cycles.len() == 0 {
                r is Waiting && final(self)@ == old(self)@
            } else {
                let front = old(self)@.cycles[0];
                match (front.token, flush) {
                    (Some(_), Flush::InFlight) => r is Waiting && final(self)@ == old(self)@,
                    (Some(_), Flush::Failed(e)) => {
                        &&& r matches Finish::Failed(detail)
                        &&& detail@ == "offloaded flush failed: "@ + e@
                            + " (durability cannot be claimed)"@
                        &&& final(self)@ == old(self)@
                    },
                    _ => {
                        &&& r matches Finish::Done(done)
                        &&& done.number == front.ready.number
                        &&& envelope_models(done.messages@) == front.ready.immediate
                            + front.ready.persisted
                        &&& done.outcome@ == handed_on(front.ready)
                        &&& final(self)@ == (PipelineModel {
                            cycles: old(self)@.cycles.drop_first(),
                            ..old(self)@
                        })
                    },
                }
            },
    {
        let ghost before = self@;
        if self.cycles.len() == 0 {
            return Finish::Waiting;
        }
        assert(before.cycles[0] == self.cycles@[0]@);
        if self.cycles[0].token.is_some() {
            match flush {
                Flush::InFlight => {
                    return Finish::Waiting;
                },
                Flush::Failed(e) => {
                    let mut s = String::new();
                    s.append("offloaded flush failed: ");
                    s.append(e.as_str());
                    s.append(" (durability cannot be claimed)");
                    assert(s@ =~= "offloaded flush failed: "@ + e@
                        + " (durability cannot be claimed)"@);
                    return Finish::Failed(s);
                },
                Flush::Landed => {},
            }
        }
        match self.cycles.pop_front() {
            None => Finish::Waiting,
            Some(cycle) => {
                assert(self@.cycles =~= before.cycles.drop_first());
                let ghost m = cycle.ready@;
                let ReadyParts { number, immediate, persisted, committed, read_states, snapshot } =
                    cycle.ready;
                let mut messages = immediate;
                let mut rest = persisted;
                messages.append(&mut rest);
                assert(envelope_models(messages@) =~= m.immediate + m.persisted);
                let mut committed = committed;
                if let Some(s) = &snapshot {
                    keep_later(&mut committed, s.meta.index);
                }
                let outcome = StepOutcome { committed, snapshot, read_states };
                assert(outcome@ =~= handed_on(m));
                Finish::Done(Finished { number, messages, outcome })
            },
        }
    }

    /// Count a message whose send failed. Raft sends it again, so that a failed
    /// send stops nothing; the count makes a dead transport visible.
    pub fn count_dropped_send(&mut self)
        ensures
            final(self)@ == (PipelineModel {
                dropped_sends: if old(self)@.dropped_sends < u64::MAX {
                    (old(self)@.dropped_sends + 1) as u64
                } else {
                    u64::MAX
                },
                ..old(self)@
            }),
    {
        if self.dropped_sends < u64::MAX {
            self.dropped_sends = self.dropped_sends + 1;
        }
    }
}

// ---------------------------------------------------------------------------
// Laws
// ---------------------------------------------------------------------------
proof fn lemma_later_than(s: Seq<CommittedModel>, index: u64)
    ensures
        forall|i: int|
            0 <= i < later_than(s, index).len() ==> (#[trigger] later_than(s, index)[i]).index
                > index && s.contains(later_than(s, index)[i]),
        forall|i: int|
            0 <= i < s.len() && s[i].index > index ==> later_than(s, index).contains(#[trigger] s[i]),
    decreases s.len(),
{
    if s.len() > 0 {
        let rest = s.drop_last();
        let out = later_than(s, index);
        lemma_later_than(rest, index);
        assert forall|i: int| 0 <= i < out.len() implies (#[trigger] out[i]).index > index
            && s.contains(out[i]) by {
            if i < later_than(rest, index).len() {
                assert(rest.contains(later_than(rest, index)[i]));
                let k = choose|k: int| 0 <= k < rest.len() && rest[k] == out[i];
                assert(s[k] == out[i]);
            } else {
                assert(s[s.len() - 1] == out[i]);
            }
        }
        assert forall|i: int| 0 <= i < s.len() && s[i].index > index implies out.contains(
            #[trigger] s[i],
        ) by {
            if i < rest.len() {
                assert(rest[i] == s[i]);
                assert(later_than(rest, index).contains(rest[i]));
                let k = choose|k: int|
                    0 <= k < later_than(rest, index).len() && later_than(rest, index)[k] == s[i];
                assert(out[k] == s[i]);
            } else {
                assert(out[out.len() - 1] == s[i]);
            }
        }
    }
}

/// An installed snapshot supersedes the entries it covers: a cycle hands on
/// exactly its entries above the snapshot.
pub proof fn law_snapshot_supersedes_entries(ready: ReadyModel, e: CommittedModel)
    requires
        ready.snapshot is Some,
    ensures
        handed_on(ready).committed.contains(e) <==> ready.committed.contains(e) && e.index
            > ready.snapshot->0.index,
{
    let index = ready.snapshot->0.index;
    let out = later_than(ready.committed, index);
    lemma_later_than(ready.committed, index);
    if out.contains(e) {
        let k = choose|k: int| 0 <= k < out.len() && out[k] == e;
        assert(out[k].index > index);
    }
    if ready.committed.contains(e) && e.index > index {
        let k = choose|k: int| 0 <= k < ready.committed.len() && ready.committed[k] == e;
        assert(out.contains(ready.committed[k]));
    }
}

/// A message leaves exactly once: what is sent at submission and what is sent
/// when the cycle finishes are together the messages of the cycle.
pub proof fn law_each_message_leaves_once(ready: ReadyModel, submitted: Submitted)
    ensures
        ({
            let cycle = queued(ready, submitted).ready;
            sent_at_submit(ready, submitted) + (cycle.immediate + cycle.persisted)
                == ready.immediate + ready.persisted
        }),
{
    let cycle = queued(ready, submitted).ready;
    assert(sent_at_submit(ready, submitted) + (cycle.immediate + cycle.persisted)
        =~= ready.immediate + ready.persisted);
}

/// No message that waits for its records leaves before they are durable: at
/// submission only those leave that may leave at once.
pub proof fn law_nothing_waiting_leaves_early(ready: ReadyModel, submitted: Submitted)
    ensures
        queued(ready, submitted).ready.persisted == ready.persisted,
        queued(ready, submitted).ready.committed == ready.committed,
        sent_at_submit(ready, submitted) == ready.immediate || sent_at_submit(ready, submitted)
            == Seq::<(u64, Seq<u8>)>::empty(),
        queued(ready, submitted).token is None ==> submitted == Submitted::Durable,
{
}

} // verus!
