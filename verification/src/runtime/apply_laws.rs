//! What applying comes to, entry by entry, and who is served next.
use vstd::prelude::*;

use crate::runtime::apply::{BatchModel, Schedule, Source, TaskModel, Work};
use crate::types::SnapshotModel;
use crate::runtime::apply;
use crate::state_machine::kv;
use crate::text;

verus! {

/// An entry counts by its bytes and 24 more; entries count together.
pub proof fn law_entries_count_by_their_bytes(
    entries: Seq<(u64, Seq<u8>)>,
    index: u64,
    data: Seq<u8>,
)
    ensures
        data.len() + 24 <= u64::MAX ==> apply::entry_bytes(data) == data.len() + 24,
        data.len() + 24 > u64::MAX ==> apply::entry_bytes(data) == u64::MAX,
        apply::total_bytes(Seq::empty()) == 0,
        ({
            let before = apply::total_bytes(entries);
            let after = apply::total_bytes(entries.push((index, data)));
            &&& before + apply::entry_bytes(data) <= u64::MAX ==> after == before
                + apply::entry_bytes(data)
            &&& before + apply::entry_bytes(data) > u64::MAX ==> after == u64::MAX
        }),
{
    assert(entries.push((index, data)).drop_last() =~= entries);
}

/// Entries are applied one after the other. What the state machine makes of an entry is
/// the state after it, and its bytes count; at one that it refuses the task ends, with
/// the reason, and neither that one nor any later one counts.
pub proof fn law_entries_apply_in_turn(
    t: TaskModel,
    entries: Seq<(u64, Seq<u8>)>,
    index: u64,
    data: Seq<u8>,
)
    ensures
        apply::applied_entries(t, Seq::empty()) == t,
        ({
            let a = apply::applied_entries(t, entries);
            let b = apply::applied_entries(t, entries.push((index, data)));
            let (sm, result) = kv::applied_entry(a.sm, index, data);
            &&& a.failed is Some ==> b == a
            &&& a.failed is None && result is Ok ==> {
                &&& b.sm == sm
                &&& b.failed is None
                &&& a.bytes + apply::entry_bytes(data) <= u64::MAX ==> b.bytes == a.bytes
                    + apply::entry_bytes(data)
            }
            &&& a.failed is None && result is Err ==> b.sm == sm && b.bytes == a.bytes && b.failed
                == Some("state machine apply failed: "@ + result->Err_0.text())
        }),
{
    assert(entries.push((index, data)).drop_last() =~= entries);
}

/// The snapshot of a batch takes the place of the whole state before its entries are
/// applied. One that cannot be restored ends the task, and its entries are not applied.
pub proof fn law_snapshot_comes_before_its_entries(
    t: TaskModel,
    s: SnapshotModel,
    entries: Seq<(u64, Seq<u8>)>,
)
    ensures
        apply::applied_batch(t, BatchModel { snapshot: None, entries }) == apply::applied_entries(
            t,
            entries,
        ),
        ({
            let (sm, whole) = kv::restored(t.sm, s.data);
            let after = apply::applied_batch(t, BatchModel { snapshot: Some(s), entries });
            &&& whole ==> after == apply::applied_entries(TaskModel { sm, ..t }, entries)
            &&& !whole ==> after.sm == sm && after.bytes == t.bytes && after.failed == Some(
                "state machine restore failed for the snapshot at "@ + text::decimal(
                    s.index as nat,
                ) + ": "@ + kv::KvError::MalformedSnapshot.text(),
            )
        }),
{
}

/// What is published is what the state machine has reached.
pub proof fn law_progress_is_what_was_reached(t: TaskModel)
    requires
        t.sm.sessions.len() <= u64::MAX,
    ensures
        t.progress().applied_index == t.sm.applied,
        t.progress().applied_bytes_total == t.bytes,
        t.progress().failed == t.failed,
        t.progress().sessions == t.sm.sessions.len(),
{
}

/// A read that waits is served first, unless 64 were served in a row or reads have come
/// to an end. Otherwise a piece of work is taken if there is one; without one the task
/// waits, and ends once none will come. A read adds to the row, anything else ends it.
pub proof fn law_schedule_is_reads_then_work(s: Schedule, reads: Source, applies: Source)
    ensures
        ({
            let (next, work) = apply::scheduled(s, reads, applies);
            let turn = s.reads_open && s.served < 64;
            &&& work == Work::Read <==> turn && reads == Source::Item
            &&& work == Work::Apply <==> !(turn && reads == Source::Item) && applies == Source::Item
            &&& work == Work::Wait <==> !(turn && reads == Source::Item) && applies == Source::Empty
            &&& work == Work::Stop <==> !(turn && reads == Source::Item) && applies
                == Source::Closed
            &&& work == Work::Read ==> next.served == s.served + 1
            &&& work != Work::Read ==> next.served == 0
            &&& next.reads_open <==> s.reads_open && !(turn && reads == Source::Closed)
        }),
{
}

} // verus!
