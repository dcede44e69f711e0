//! Applying committed work, apart from the loop that keeps the node alive.
//!
//! The task that applies owns the state machine. It takes batches in log order,
//! publishes how far it has come, and serves reads of the applied state in
//! between. A failure is published and ends it.
use vstd::prelude::*;
use vstd::string::*;

use crate::state_machine::kv::{KvError, KvModel, KvStateMachine};
use crate::text::{push_decimal, same_text};
use crate::types::{LogIndex, Snapshot, SnapshotModel};
use crate::client::handle;
use crate::consensus::pipeline;
use crate::state_machine::kv;
use crate::text;

verus! {

/// Durable bytes of an entry besides its data, as the backlog counts them.
pub const ENTRY_FRAMING_BYTES: u64 = 24;

/// How many batches may wait in front of the task.
pub const APPLY_QUEUE_DEPTH: usize = 256;

/// How many reads may wait in front of the task.
pub const READ_QUEUE_DEPTH: usize = 4096;

/// How many reads are served before one piece of work is taken.
pub const READ_BURST: usize = 64;

/// Committed entries in log order, after a snapshot to restore if one was
/// installed.
#[derive(Debug, PartialEq, Eq)]
pub struct ApplyBatch {
    pub snapshot: Option<Snapshot>,
    pub entries: Vec<(LogIndex, Vec<u8>)>,
}

/// A batch as a mathematical value.
#[verifier::ext_equal]
pub struct BatchModel {
    pub snapshot: Option<SnapshotModel>,
    pub entries: Seq<(u64, Seq<u8>)>,
}

/// A list of indexed commands as mathematical values.
pub open spec fn indexed_models(s: Seq<(LogIndex, Vec<u8>)>) -> Seq<(u64, Seq<u8>)> {
    Seq::new(s.len(), |i: int| (s[i].0, s[i].1@))
}

impl View for ApplyBatch {
    type V = BatchModel;

    open spec fn view(&self) -> BatchModel {
        BatchModel {
            snapshot: pipeline::snapshot_model(self.snapshot),
            entries: indexed_models(self.entries@),
        }
    }
}

/// How far the task has come.
#[derive(Debug, PartialEq, Eq)]
pub struct ApplyProgress {
    /// The highest applied index.
    pub applied_index: LogIndex,
    /// Bytes applied so far.
    pub applied_bytes_total: u64,
    /// Why the task ended, if it did.
    pub failed: Option<String>,
    /// Sessions in the state machine's table.
    pub sessions: u64,
}

/// Progress as a mathematical value.
#[verifier::ext_equal]
pub struct ProgressModel {
    pub applied_index: u64,
    pub applied_bytes_total: u64,
    pub failed: Option<Seq<char>>,
    pub sessions: u64,
}

/// The value of an optional text.
pub open spec fn text_model(s: Option<String>) -> Option<Seq<char>> {
    match s {
        Some(t) => Some(t@),
        None => None,
    }
}

impl View for ApplyProgress {
    type V = ProgressModel;

    open spec fn view(&self) -> ProgressModel {
        ProgressModel {
            applied_index: self.applied_index,
            applied_bytes_total: self.applied_bytes_total,
            failed: text_model(self.failed),
            sessions: self.sessions,
        }
    }
}

/// Copy an optional text.
fn copy_text(s: &Option<String>) -> (r: Option<String>)
    ensures
        text_model(r) == text_model(*s),
{
    match s {
        Some(t) => Some(t.clone()),
        None => None,
    }
}

impl ApplyProgress {
    /// A copy.
    pub fn copy(&self) -> (r: ApplyProgress)
        ensures
            r@ == self@,
    {
        ApplyProgress {
            applied_index: self.applied_index,
            applied_bytes_total: self.applied_bytes_total,
            failed: copy_text(&self.failed),
            sessions: self.sessions,
        }
    }
}

/// The task that owns the state machine.
pub struct ApplyTask {
    pub sm: KvStateMachine,
    pub applied_bytes_total: u64,
    pub failed: Option<String>,
}

/// The task as a mathematical value.
#[verifier::ext_equal]
pub struct TaskModel {
    pub sm: KvModel,
    pub bytes: u64,
    pub failed: Option<Seq<char>>,
}

impl View for ApplyTask {
    type V = TaskModel;

    open spec fn view(&self) -> TaskModel {
        TaskModel {
            sm: self.sm@,
            bytes: self.applied_bytes_total,
            failed: text_model(self.failed),
        }
    }
}

/// The bytes that an entry counts for.
pub open spec fn entry_bytes(data: Seq<u8>) -> u64 {
    handle::capped_add(
        if data.len() > u64::MAX {
            u64::MAX
        } else {
            data.len() as u64
        },
        ENTRY_FRAMING_BYTES,
    )
}

/// The bytes that entries count for.
pub open spec fn total_bytes(entries: Seq<(u64, Seq<u8>)>) -> u64
    decreases entries.len(),
{
    if entries.len() == 0 {
        0
    } else {
        handle::capped_add(
            total_bytes(entries.drop_last()),
            entry_bytes(entries.last().1),
        )
    }
}

/// The bytes that an entry counts for.
pub fn entry_size(data: &Vec<u8>) -> (r: u64)
    ensures
        r == entry_bytes(data@),
{
    let n: usize = data.len();
    (n as u64).saturating_add(ENTRY_FRAMING_BYTES)
}

/// Why the task ended at an entry.
pub open spec fn apply_failure(e: KvError) -> Seq<char> {
    "state machine apply failed: "@ + e.text()
}

/// Why the task ended at a snapshot.
pub open spec fn restore_failure(index: u64) -> Seq<char> {
    "state machine restore failed for the snapshot at "@ + text::decimal(index as nat) + ": "@
        + KvError::MalformedSnapshot.text()
}

/// The task after entries, up to the first that fails.
pub open spec fn applied_entries(t: TaskModel, entries: Seq<(u64, Seq<u8>)>) -> TaskModel
    decreases entries.len(),
{
    if entries.len() == 0 {
        t
    } else {
        let before = applied_entries(t, entries.drop_last());
        if before.failed is Some {
            before
        } else {
            let (index, data) = entries.last();
            match kv::applied_entry(before.sm, index, data) {
                (sm, Ok(_)) => TaskModel {
                    sm,
                    bytes: handle::capped_add(before.bytes, entry_bytes(data)),
                    failed: None,
                },
                (sm, Err(e)) => TaskModel { sm, failed: Some(apply_failure(e)), ..before },
            }
        }
    }
}

/// The task after a batch.
pub open spec fn applied_batch(t: TaskModel, b: BatchModel) -> TaskModel {
    match b.snapshot {
        None => applied_entries(t, b.entries),
        Some(s) => {
            let (sm, ok) = kv::restored(t.sm, s.data);
            if ok {
                applied_entries(TaskModel { sm, ..t }, b.entries)
            } else {
                TaskModel { sm, failed: Some(restore_failure(s.index)), ..t }
            }
        },
    }
}

impl TaskModel {
    /// What the task publishes.
    pub open spec fn progress(self) -> ProgressModel {
        ProgressModel {
            applied_index: self.sm.applied,
            applied_bytes_total: self.bytes,
            failed: self.failed,
            sessions: self.sm.sessions.len() as u64,
        }
    }
}

proof fn lemma_failed_stays(t: TaskModel, entries: Seq<(u64, Seq<u8>)>, k: int)
    requires
        0 <= k <= entries.len(),
        applied_entries(t, entries.subrange(0, k)).failed is Some,
    ensures
        applied_entries(t, entries) == applied_entries(t, entries.subrange(0, k)),
    decreases entries.len(),
{
    if k == entries.len() {
        assert(entries.subrange(0, k) =~= entries);
    } else {
        let init = entries.drop_last();
        assert(init.subrange(0, k) =~= entries.subrange(0, k));
        lemma_failed_stays(t, init, k);
    }
}

impl ApplyTask {
    /// A task for a state machine.
    pub fn new(sm: KvStateMachine) -> (r: ApplyTask)
        ensures
            r.sm == sm,
            r@ == (TaskModel { sm: sm@, bytes: 0, failed: None }),
    {
        ApplyTask { sm, applied_bytes_total: 0, failed: None }
    }

    /// The value at a key of the applied state.
    pub fn serve_read(&self, key: &Vec<u8>) -> (r: Option<Vec<u8>>)
        requires
            self@.sm.wf(),
        ensures
            match r {
                Some(v) => self@.sm.store().dom().contains(key@) && self@.sm.store()[key@] == v@,
                None => !self@.sm.store().dom().contains(key@),
            },
    {
        self.sm.get(key)
    }

    /// The applied state and the index it stands at.
    pub fn serialize(&self) -> (r: (LogIndex, Vec<u8>))
        requires
            self@.sm.wf(),
            self@.sm.kv.len() <= u32::MAX,
            self@.sm.sessions.len() <= u32::MAX,
        ensures
            r.0 == self@.sm.applied,
            r.1@ == kv::state_bytes(self@.sm),
    {
        (self.sm.applied_index(), self.sm.snapshot())
    }

    /// Apply a batch. The task goes on unless it has failed.
    pub fn handle(&mut self, batch: ApplyBatch) -> (go_on: bool)
        requires
            old(self)@.sm.wf(),
            old(self)@.failed is None,
        ensures
            final(self)@ == applied_batch(old(self)@, batch@),
            final(self)@.sm.wf(),
            go_on == (final(self)@.failed is None),
    {
        let ghost t = self@;
        let ghost b = batch@;
        match &batch.snapshot {
            Some(snapshot) => {
                match self.sm.restore(snapshot.data.as_slice()) {
                    Ok(_) => {},
                    Err(e) => {
                        let mut s = String::new();
                        s.append("state machine restore failed for the snapshot at ");
                        push_decimal(&mut s, snapshot.meta.index);
                        s.append(": ");
                        let why = e.message();
                        s.append(why.as_str());
                        assert(s@ =~= restore_failure(snapshot.meta.index));
                        self.failed = Some(s);
                        return false;
                    },
                }
            },
            None => {},
        }
        let ghost start = self@;
        let n: usize = batch.entries.len();
        let mut i: usize = 0;
        assert(b.entries.subrange(0, 0) =~= Seq::empty());
        while i < n
            invariant
                i <= n,
                n == batch.entries@.len(),
                b == batch@,
                t == old(self)@,
                self@.sm.wf(),
                self@.failed is None,
                self@ == applied_entries(start, b.entries.subrange(0, i as int)),
                applied_batch(t, b) == applied_entries(start, b.entries),
            decreases n - i,
        {
            let ghost next = b.entries.subrange(0, i + 1);
            assert(next.drop_last() =~= b.entries.subrange(0, i as int));
            assert(next.last() == b.entries[i as int]);
            assert(b.entries[i as int] == (batch.entries@[i as int].0, batch.entries@[i as int].1@));
            let index: u64 = batch.entries[i].0;
            match self.sm.apply(index, batch.entries[i].1.as_slice()) {
                Ok(_) => {
                    self.applied_bytes_total = self.applied_bytes_total.saturating_add(
                        entry_size(&batch.entries[i].1),
                    );
                },
                Err(e) => {
                    let mut s = String::new();
                    s.append("state machine apply failed: ");
                    let why = e.message();
                    s.append(why.as_str());
                    assert(s@ =~= apply_failure(e));
                    self.failed = Some(s);
                    proof {
                        assert(self@ =~= applied_entries(start, next));
                        lemma_failed_stays(start, b.entries, i + 1);
                    }
                    return false;
                },
            }
            i = i + 1;
        }
        assert(b.entries.subrange(0, n as int) =~= b.entries);
        true
    }

    /// How far the task has come.
    pub fn progress(&self) -> (r: ApplyProgress)
        ensures
            r@ == self@.progress(),
    {
        ApplyProgress {
            applied_index: self.sm.applied_index(),
            applied_bytes_total: self.applied_bytes_total,
            failed: copy_text(&self.failed),
            sessions: self.sm.session_count() as u64,
        }
    }

    /// What to publish: the progress, if it differs from what was published
    /// last. Publishing wakes the node, and waking it for nothing would keep it
    /// busy.
    pub fn publish(&self, current: &ApplyProgress) -> (r: Option<ApplyProgress>)
        ensures
            match r {
                Some(next) => next@ == self@.progress() && next@ != current@,
                None => self@.progress() == current@,
            },
    {
        let next = self.progress();
        let same_failure = match (&current.failed, &next.failed) {
            (None, None) => true,
            (Some(a), Some(b)) => same_text(a.as_str(), b.as_str()),
            _ => false,
        };
        if current.applied_index == next.applied_index && current.applied_bytes_total
            == next.applied_bytes_total && same_failure && current.sessions == next.sessions {
            None
        } else {
            Some(next)
        }
    }
}

/// What a channel holds.
#[derive(Clone, Copy, Debug, PartialEq, Eq, Structural)]
pub enum Source {
    /// Something.
    Item,
    /// Nothing yet.
    Empty,
    /// Nothing, and nothing will come.
    Closed,
}

/// What the task does next.
#[derive(Clone, Copy, Debug, PartialEq, Eq, Structural)]
pub enum Work {
    /// Serve a read.
    Read,
    /// Take a piece of work.
    Apply,
    /// Wait until one of the channels holds something.
    Wait,
    /// End: no work will come.
    Stop,
}

/// The order in which the task serves its channels: reads first, but only so
/// many in a row.
#[derive(Clone, Copy, Debug, PartialEq, Eq, Structural)]
pub struct Schedule {
    pub reads_open: bool,
    pub served: usize,
}

/// What comes next, and the schedule after it.
pub open spec fn scheduled(s: Schedule, reads: Source, applies: Source) -> (Schedule, Work) {
    if s.reads_open && s.served < READ_BURST && reads == Source::Item {
        (Schedule { served: (s.served + 1) as usize, ..s }, Work::Read)
    } else {
        (
            Schedule {
                reads_open: s.reads_open && !(s.served < READ_BURST && reads == Source::Closed),
                served: 0,
            },
            match applies {
                Source::Item => Work::Apply,
                Source::Empty => Work::Wait,
                Source::Closed => Work::Stop,
            },
        )
    }
}

impl Schedule {
    /// Nothing served yet.
    pub fn new() -> (r: Schedule)
        ensures
            r == (Schedule { reads_open: true, served: 0 }),
    {
        Schedule { reads_open: true, served: 0 }
    }

    /// Decide what comes next.
    pub fn next_work(&mut self, reads: Source, applies: Source) -> (w: Work)
        ensures
            (*final(self), w) == scheduled(*old(self), reads, applies),
    {
        if self.reads_open && self.served < READ_BURST {
            match reads {
                Source::Item => {
                    self.served = self.served + 1;
                    return Work::Read;
                },
                Source::Empty => {},
                Source::Closed => {
                    self.reads_open = false;
                },
            }
        }
        self.served = 0;
        match applies {
            Source::Item => Work::Apply,
            Source::Empty => Work::Wait,
            Source::Closed => Work::Stop,
        }
    }
}

// ---------------------------------------------------------------------------
// Laws
// ---------------------------------------------------------------------------
/// Reads cannot starve the work: after a burst of them a waiting piece of work
/// is taken, whatever else waits.
pub proof fn law_reads_do_not_starve_work(s: Schedule, reads: Source)
    requires
        s.served >= READ_BURST,
    ensures
        scheduled(s, reads, Source::Item).1 == Work::Apply,
        scheduled(s, reads, Source::Item).0.served == 0,
{
}

/// A read does not queue behind the work: within a burst it is served first.
pub proof fn law_reads_go_first(s: Schedule, applies: Source)
    requires
        s.reads_open,
        s.served < READ_BURST,
    ensures
        scheduled(s, Source::Item, applies).1 == Work::Read,
{
}

/// Entries that follow the applied index one after the other, and that decode,
/// are all applied; the index moves by as many, and the bytes by what they
/// count for.
pub proof fn law_well_formed_entries_apply(t: TaskModel, entries: Seq<(u64, Seq<u8>)>)
    requires
        t.failed is None,
        t.sm.applied + entries.len() <= u64::MAX,
        forall|i: int|
            0 <= i < entries.len() ==> (#[trigger] entries[i]).0 == t.sm.applied + 1 + i && (
            entries[i].1.len() == 0 || kv::decoded_command(entries[i].1) is Some),
    ensures
        applied_entries(t, entries).failed is None,
        applied_entries(t, entries).sm.applied == t.sm.applied + entries.len(),
        applied_entries(t, entries).bytes == handle::capped_add(t.bytes, total_bytes(entries)),
    decreases entries.len(),
{
    if entries.len() > 0 {
        let init = entries.drop_last();
        assert forall|i: int| 0 <= i < init.len() implies (#[trigger] init[i]).0 == t.sm.applied + 1
            + i && (init[i].1.len() == 0 || kv::decoded_command(init[i].1) is Some) by {
            assert(init[i] == entries[i]);
        }
        law_well_formed_entries_apply(t, init);
        assert(entries.last() == entries[entries.len() - 1]);
    }
}

/// Once failed, the task applies nothing more.
pub proof fn law_failure_is_final(t: TaskModel, entries: Seq<(u64, Seq<u8>)>)
    requires
        t.failed is Some,
    ensures
        applied_entries(t, entries) == t,
{
    assert(entries.subrange(0, 0) =~= Seq::empty());
    lemma_failed_stays(t, entries, 0);
}

/// Entries are applied the same whether they come at once or in two parts.
proof fn lemma_applied_in_parts(t: TaskModel, a: Seq<(u64, Seq<u8>)>, b: Seq<(u64, Seq<u8>)>)
    ensures
        applied_entries(t, a + b) == applied_entries(applied_entries(t, a), b),
    decreases b.len(),
{
    if b.len() == 0 {
        assert(a + b =~= a);
    } else {
        assert((a + b).drop_last() =~= a + b.drop_last());
        assert((a + b).last() == b.last());
        lemma_applied_in_parts(t, a, b.drop_last());
    }
}

/// What is applied does not depend on the count of bytes.
proof fn lemma_bytes_do_not_matter(t: TaskModel, u: TaskModel, entries: Seq<(u64, Seq<u8>)>)
    requires
        t.sm == u.sm,
        t.failed == u.failed,
    ensures
        applied_entries(t, entries).sm == applied_entries(u, entries).sm,
        applied_entries(t, entries).failed == applied_entries(u, entries).failed,
    decreases entries.len(),
{
    if entries.len() > 0 {
        lemma_bytes_do_not_matter(t, u, entries.drop_last());
    }
}

/// A snapshot of the applied state and the entries after it give the same state as
/// all the entries did, on whatever machine they are applied.
pub proof fn law_snapshot_and_tail_rebuild_the_state(
    t: TaskModel,
    head: Seq<(u64, Seq<u8>)>,
    tail: Seq<(u64, Seq<u8>)>,
    other: TaskModel,
    meta: SnapshotModel,
)
    requires
        t.sm.wf(),
        t.failed is None,
        other.failed is None,
        applied_entries(t, head).failed is None,
        applied_entries(t, head).sm.kv.len() <= u32::MAX,
        applied_entries(t, head).sm.sessions.len() <= u32::MAX,
        meta.data == kv::state_bytes(applied_entries(t, head).sm),
    ensures
        ({
            let rebuilt = applied_batch(
                other,
                BatchModel { snapshot: Some(meta), entries: tail },
            );
            let straight = applied_entries(t, head + tail);
            rebuilt.sm == straight.sm && rebuilt.failed == straight.failed
        }),
{
    let mid = applied_entries(t, head);
    lemma_applied_wf(t, head);
    kv::law_snapshot_round_trip(mid.sm, other.sm);
    lemma_applied_in_parts(t, head, tail);
    lemma_bytes_do_not_matter(TaskModel { sm: mid.sm, ..other }, mid, tail);
}

proof fn lemma_applied_wf(t: TaskModel, entries: Seq<(u64, Seq<u8>)>)
    requires
        t.sm.wf(),
    ensures
        applied_entries(t, entries).sm.wf(),
    decreases entries.len(),
{
    if entries.len() > 0 {
        lemma_applied_wf(t, entries.drop_last());
        let before = applied_entries(t, entries.drop_last());
        if before.failed is None {
            kv::lemma_applied_wf(before.sm, entries.last().0, entries.last().1);
        }
    }
}

} // verus!
