//! What a cycle hands on, when, and in which order.
use vstd::prelude::*;

use crate::consensus::pipeline::{CommittedModel, ReadyModel, Submitted};
use crate::consensus::pipeline;

verus! {

/// The entries after an index, in their order.
pub proof fn lemma_later(s: Seq<CommittedModel>, index: u64)
    ensures
        pipeline::later_than(s, index) == s.filter(|e: CommittedModel| e.index > index),
    decreases s.len(),
{
    reveal(Seq::filter);
    if s.len() > 0 {
        lemma_later(s.drop_last(), index);
    }
}

/// A cycle hands on its snapshot and its read states as they are. Its committed entries
/// go on in their order: all of them without a snapshot, and otherwise exactly those
/// above it.
pub proof fn law_cycle_hands_on_what_it_has(ready: ReadyModel)
    ensures
        ({
            let out = pipeline::handed_on(ready);
            &&& out.snapshot == ready.snapshot
            &&& out.read_states == ready.read_states
            &&& ready.snapshot is None ==> out.committed == ready.committed
            &&& ready.snapshot matches Some(s) ==> out.committed == ready.committed.filter(
                |e: CommittedModel| e.index > s.index,
            )
        }),
{
    if let Some(s) = ready.snapshot {
        lemma_later(ready.committed, s.index);
    }
}

/// A cycle whose records are durable at once waits for no flush, and sends its messages
/// when it finishes. One whose flush is on its way waits for exactly that flush, and the
/// messages that may leave at once leave now. Whatever else it has it keeps.
pub proof fn law_cycle_waits_for_its_flush(ready: ReadyModel, submitted: Submitted, flush: u64)
    ensures
        ({
            let cycle = pipeline::queued(ready, submitted);
            &&& submitted == Submitted::Durable ==> cycle.token is None && cycle.ready == ready
                && pipeline::sent_at_submit(ready, submitted).len() == 0
            &&& submitted == Submitted::Offloaded(flush) ==> {
                &&& cycle.token == Some(flush)
                &&& cycle.ready.immediate.len() == 0
                &&& pipeline::sent_at_submit(ready, submitted) == ready.immediate
            }
            &&& cycle.ready.number == ready.number
            &&& cycle.ready.persisted == ready.persisted
            &&& cycle.ready.committed == ready.committed
            &&& cycle.ready.read_states == ready.read_states
            &&& cycle.ready.snapshot == ready.snapshot
        }),
{
}

} // verus!
