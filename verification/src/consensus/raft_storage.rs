//! What the raft core is told of durable storage.
//!
//! | storage | raft core |
//! |---|---|
//! | `Compacted` | `Compacted`: send a snapshot instead |
//! | `Corruption`, `Unrecoverable` | `Unavailable`: the node must stop |
//! | `Io` | `Io` |
use vstd::prelude::*;

use crate::storage::replay::SegmentFile;
use crate::storage::wal::{DiskOp, WalStorage};
use crate::storage::wal_model::{Disk, Outcome, WalModel};
use crate::types::{
    ConfModel, ConfState, EntryModel, HardState, LogEntry, LogIndex, Snapshot, SnapshotModel,
    StorageError, Term,
};
use crate::storage::replay;
use crate::storage::snapshot;
use crate::storage::wal;
use crate::storage::wal_laws;
use crate::storage::wal_model;
use crate::types;

verus! {

/// An error in the raft core's terms.
#[derive(Clone, Debug, PartialEq, Eq)]
pub enum RaftFault {
    /// The range is gone; a follower that needs it gets a snapshot.
    Compacted,
    /// Not there yet, or the storage is broken.
    Unavailable,
    /// There is no snapshot to send yet.
    SnapshotTemporarilyUnavailable,
    /// A low-level failure.
    Io(String),
}

/// The raft core's terms for a storage error.
pub open spec fn mapped(e: StorageError) -> RaftFault {
    match e {
        StorageError::Compacted => RaftFault::Compacted,
        StorageError::Corruption { .. } => RaftFault::Unavailable,
        StorageError::Unrecoverable(_) => RaftFault::Unavailable,
        StorageError::Io(detail) => RaftFault::Io(detail),
    }
}

/// Say a storage error in the raft core's terms.
pub fn map_error(e: StorageError) -> (r: RaftFault)
    ensures
        r == mapped(e),
{
    match e {
        StorageError::Compacted => RaftFault::Compacted,
        StorageError::Corruption { .. } => RaftFault::Unavailable,
        StorageError::Unrecoverable(_) => RaftFault::Unavailable,
        StorageError::Io(detail) => RaftFault::Io(detail),
    }
}

/// A hard state in the raft core's terms: a vote for 0 is no vote.
#[derive(Clone, Copy, Debug, PartialEq, Eq, Structural)]
pub struct RaftHardState {
    pub term: Term,
    pub vote: u64,
    pub commit: LogIndex,
}

/// A hard state in the raft core's terms.
pub open spec fn raft_hard_state(hs: HardState) -> RaftHardState {
    RaftHardState {
        term: hs.term,
        vote: match hs.vote {
            Some(v) => v,
            None => 0,
        },
        commit: hs.commit,
    }
}

/// A hard state of the raft core in this library's terms.
pub open spec fn seam_hard_state(hs: RaftHardState) -> HardState {
    HardState {
        term: hs.term,
        vote: if hs.vote == 0 {
            None
        } else {
            Some(hs.vote)
        },
        commit: hs.commit,
    }
}

/// A hard state comes back from the raft core's terms as it was, unless it has a
/// vote for the id that stands for none.
pub proof fn law_hard_state_conversion_round_trip(hs: HardState)
    requires
        hs.vote != Some(0u64),
    ensures
        seam_hard_state(raft_hard_state(hs)) == hs,
{
}

/// What the raft core reads at start.
#[derive(Debug, PartialEq, Eq)]
pub struct RaftInitialState {
    pub hard_state: RaftHardState,
    pub conf_state: ConfState,
}

/// Durable storage as the raft core sees it.
pub struct RaftStorage {
    pub inner: WalStorage,
    /// The membership to start with where none is durable.
    pub bootstrap_conf_state: ConfState,
    /// The membership that the last applied change produced, and the change's
    /// index.
    pub membership: Option<(LogIndex, ConfState)>,
}

/// The membership of the last applied change as a mathematical value.
pub open spec fn membership_model(m: Option<(LogIndex, ConfState)>) -> Option<(u64, ConfModel)> {
    match m {
        Some((index, conf)) => Some((index, conf@)),
        None => None,
    }
}

/// The membership in force: that of the last applied change if it lies beyond the
/// snapshot, else that of the snapshot, which is the authority on everything it
/// covers; where that names nobody, the one to start with.
pub open spec fn conf_in_force(
    membership: Option<(u64, ConfModel)>,
    snapshot: Option<(u64, ConfModel)>,
    bootstrap: ConfModel,
) -> ConfModel {
    let durable = match (membership, snapshot) {
        (Some((i, conf)), Some((j, other))) => if i > j {
            conf
        } else {
            other
        },
        (Some((_, conf)), None) => conf,
        (None, Some((_, other))) => other,
        (None, None) => types::empty_conf(),
    };
    if durable.voters.len() == 0 && durable.learners.len() == 0 {
        bootstrap
    } else {
        durable
    }
}

impl RaftStorage {
    /// The index and the membership of the snapshot.
    pub open spec fn snapshot_conf(&self) -> Option<(u64, ConfModel)> {
        match self.inner@.snapshot {
            Some(s) => Some((s.index, s.conf)),
            None => None,
        }
    }

    /// The membership in force.
    pub open spec fn conf(&self) -> ConfModel {
        conf_in_force(
            membership_model(self.membership),
            self.snapshot_conf(),
            self.bootstrap_conf_state@,
        )
    }

    /// Storage that starts without members.
    pub fn new(inner: WalStorage) -> (r: RaftStorage)
        ensures
            r.inner == inner,
            r.bootstrap_conf_state@ == types::empty_conf(),
            r.membership is None,
    {
        RaftStorage { inner, bootstrap_conf_state: ConfState::default(), membership: None }
    }

    /// Storage that starts with the given members.
    pub fn with_conf_state(inner: WalStorage, bootstrap_conf_state: ConfState) -> (r: RaftStorage)
        ensures
            r.inner == inner,
            r.bootstrap_conf_state == bootstrap_conf_state,
            r.membership is None,
    {
        RaftStorage { inner, bootstrap_conf_state, membership: None }
    }

    /// Record the membership that the change at `index` produced.
    pub fn note_membership(&mut self, index: LogIndex, conf: ConfState)
        ensures
            final(self).inner == old(self).inner,
            final(self).bootstrap_conf_state == old(self).bootstrap_conf_state,
            final(self).membership == Some((index, conf)),
    {
        self.membership = Some((index, conf));
    }

    /// The index of the last applied change (0: none).
    pub fn conf_change_index(&self) -> (r: LogIndex)
        ensures
            r == (match self.membership {
                Some((index, _)) => index,
                None => 0,
            }),
    {
        match &self.membership {
            Some((index, _)) => *index,
            None => 0,
        }
    }

    /// Append entries; they are not durable yet.
    pub fn append(&mut self, entries: &Vec<LogEntry>, segments: &Vec<SegmentFile>) -> (r: (
        Vec<DiskOp>,
        Result<(), RaftFault>,
    ))
        requires
            old(self).inner@.wf(),
        ensures
            final(self).inner@ == wal_model::appended(
                old(self).inner@,
                types::entry_models(entries@),
                replay::segment_models(segments@),
            ).model,
            wal::op_models(r.0@) == wal_model::appended(
                old(self).inner@,
                types::entry_models(entries@),
                replay::segment_models(segments@),
            ).ops,
            match wal_model::appended(
                old(self).inner@,
                types::entry_models(entries@),
                replay::segment_models(segments@),
            ).fault {
                Some(_) => r.1 == Err::<(), RaftFault>(RaftFault::Unavailable),
                None => r.1 is Ok,
            },
            final(self).inner@.wf(),
            final(self).bootstrap_conf_state == old(self).bootstrap_conf_state,
            final(self).membership == old(self).membership,
    {
        let (ops, result) = self.inner.append(entries, segments);
        (
            ops,
            match result {
                Ok(_) => Ok(()),
                Err(e) => Err(map_error(e)),
            },
        )
    }

    /// Make the appended entries durable.
    pub fn sync_entries(&mut self) -> (ops: Vec<DiskOp>)
        requires
            old(self).inner@.wf(),
        ensures
            final(self).inner@ == wal_model::entries_synced(old(self).inner@).model,
            wal::op_models(ops@) == wal_model::entries_synced(old(self).inner@).ops,
            final(self).inner@.wf(),
            final(self).bootstrap_conf_state == old(self).bootstrap_conf_state,
            final(self).membership == old(self).membership,
    {
        self.inner.sync_entries()
    }

    /// Make a hard state durable.
    pub fn set_hard_state(&mut self, hs: HardState) -> (ops: Vec<DiskOp>)
        requires
            old(self).inner@.wf(),
        ensures
            final(self).inner@ == wal_model::hard_state_set(old(self).inner@, hs).model,
            wal::op_models(ops@) == wal_model::hard_state_set(old(self).inner@, hs).ops,
            final(self).inner@.wf(),
            final(self).bootstrap_conf_state == old(self).bootstrap_conf_state,
            final(self).membership == old(self).membership,
    {
        self.inner.set_hard_state(hs)
    }

    /// A hard state in the raft core's terms.
    pub fn to_raft_hard_state(hs: &HardState) -> (r: RaftHardState)
        ensures
            r == raft_hard_state(*hs),
    {
        RaftHardState {
            term: hs.term,
            vote: match hs.vote {
                Some(v) => v,
                None => 0,
            },
            commit: hs.commit,
        }
    }

    /// A hard state of the raft core in this library's terms.
    pub fn to_seam_hard_state(hs: &RaftHardState) -> (r: HardState)
        ensures
            r == seam_hard_state(*hs),
    {
        HardState {
            term: hs.term,
            vote: if hs.vote == 0 {
                None
            } else {
                Some(hs.vote)
            },
            commit: hs.commit,
        }
    }

    /// The hard state and the membership in force.
    pub fn initial_state(&self) -> (r: RaftInitialState)
        ensures
            r.hard_state == raft_hard_state(self.inner@.hard_state),
            r.conf_state@ == self.conf(),
    {
        let state = self.inner.initial_state();
        let durable = match &self.membership {
            Some((index, conf)) => {
                let newer = match self.inner.snapshot() {
                    Some(s) => *index > s.meta.index,
                    None => true,
                };
                if newer {
                    conf.clone()
                } else {
                    state.conf_state
                }
            },
            None => state.conf_state,
        };
        let conf_state = if durable.voters.len() == 0 && durable.learners.len() == 0 {
            self.bootstrap_conf_state.clone()
        } else {
            durable
        };
        RaftInitialState {
            hard_state: RaftStorage::to_raft_hard_state(&state.hard_state),
            conf_state,
        }
    }

    /// The entries from `low` up to (not including) `high`, as
    /// [`WalStorage::entries`] gives them.
    pub fn entries(&self, low: u64, high: u64, max_size: Option<u64>) -> (r: Result<
        Vec<LogEntry>,
        RaftFault,
    >)
        requires
            self.inner@.wf(),
        ensures
            if low >= high {
                r matches Ok(v) && v@.len() == 0
            } else if low <= self.inner@.compacted_to || high > self.inner@.last() + 1 {
                r == Err::<Vec<LogEntry>, RaftFault>(RaftFault::Compacted)
            } else {
                let wanted = self.inner@.entries.subrange(
                    low - self.inner@.compacted_to - 1,
                    high - self.inner@.compacted_to - 1,
                );
                r matches Ok(v) && match max_size {
                    None => types::entry_models(v@) == wanted,
                    Some(limit) => wal::longest_fitting(wanted, limit, v@.len() as int)
                        && types::entry_models(v@) == wanted.subrange(0, v@.len() as int),
                }
            },
    {
        match self.inner.entries(low, high, max_size) {
            Ok(v) => Ok(v),
            Err(e) => Err(map_error(e)),
        }
    }

    /// The term of an entry. Index 0 stands before the log and has term 0. Above
    /// the log an entry is not there yet; below it, it is gone.
    pub fn term(&self, index: u64) -> (r: Result<u64, RaftFault>)
        requires
            self.inner@.wf(),
        ensures
            ({
                let m = self.inner@;
                if index == 0 {
                    r == Ok::<u64, RaftFault>(0)
                } else if index > m.last() {
                    r == Err::<u64, RaftFault>(RaftFault::Unavailable)
                } else if index > m.compacted_to {
                    r == Ok::<u64, RaftFault>(m.entries[index - m.compacted_to - 1].term)
                } else if m.snapshot is Some && m.snapshot->0.index == index {
                    r == Ok::<u64, RaftFault>(m.snapshot->0.term)
                } else {
                    r == Err::<u64, RaftFault>(RaftFault::Compacted)
                }
            }),
    {
        if index == 0 {
            return Ok(0);
        }
        if index > self.inner.last_index() {
            return Err(RaftFault::Unavailable);
        }
        match self.inner.term(index) {
            Ok(t) => Ok(t),
            Err(e) => Err(map_error(e)),
        }
    }

    /// The index of the first entry that the log can hold.
    pub fn first_index(&self) -> (r: u64)
        requires
            self.inner@.wf(),
        ensures
            r == self.inner@.compacted_to + 1,
    {
        self.inner.first_index()
    }

    /// The index of the last entry.
    pub fn last_index(&self) -> (r: u64)
        ensures
            r == self.inner@.last(),
    {
        self.inner.last_index()
    }

    /// The snapshot to send; without one, raft asks again later.
    pub fn snapshot(&self) -> (r: Result<Snapshot, RaftFault>)
        ensures
            match r {
                Ok(s) => self.inner@.snapshot == Some(s@),
                Err(e) => self.inner@.snapshot is None && e
                    == RaftFault::SnapshotTemporarilyUnavailable,
            },
    {
        match self.inner.snapshot() {
            Some(s) => Ok(s),
            None => Err(RaftFault::SnapshotTemporarilyUnavailable),
        }
    }
}

/// Persisting what a cycle has ready: the entries are appended and made durable,
/// then the hard state. A fault ends it where it occurs.
pub open spec fn persisted(
    m: WalModel,
    es: Seq<EntryModel>,
    hs: Option<HardState>,
    segments: Seq<(u64, Seq<u8>)>,
) -> Outcome {
    let first = wal_model::appended(m, es, segments);
    if first.fault is Some {
        first
    } else {
        let second = if es.len() > 0 {
            wal_model::entries_synced(first.model)
        } else {
            Outcome { model: first.model, ops: Seq::empty(), fault: None }
        };
        match hs {
            Some(hs) => Outcome {
                model: wal_model::hard_state_set(second.model, hs).model,
                ops: first.ops + second.ops + wal_model::hard_state_set(second.model, hs).ops,
                fault: None,
            },
            None => Outcome { model: second.model, ops: first.ops + second.ops, fault: None },
        }
    }
}

/// Taking a local snapshot: it is made durable, then the log it covers is
/// released.
pub open spec fn snapshot_created(
    m: WalModel,
    s: SnapshotModel,
    names: Seq<(u64, u64)>,
    segments: Seq<(u64, Seq<u8>)>,
) -> Outcome {
    let saved = wal_model::snapshot_saved(m, s, names);
    let released = wal_model::compacted(saved.model, s.index, segments);
    Outcome { ops: saved.ops + released.ops, ..released }
}

impl RaftStorage {
    /// Persist what a cycle has ready.
    pub fn persist_ready_records(
        &mut self,
        entries: &Vec<LogEntry>,
        hard_state: Option<HardState>,
        segments: &Vec<SegmentFile>,
    ) -> (r: (Vec<DiskOp>, Result<(), RaftFault>))
        requires
            old(self).inner@.wf(),
        ensures
            final(self).inner@.wf(),
            final(self).bootstrap_conf_state == old(self).bootstrap_conf_state,
            final(self).membership == old(self).membership,
            ({
                let outcome = persisted(
                    old(self).inner@,
                    types::entry_models(entries@),
                    hard_state,
                    replay::segment_models(segments@),
                );
                &&& final(self).inner@ == outcome.model
                &&& wal::op_models(r.0@) == outcome.ops
                &&& match outcome.fault {
                    Some(_) => r.1 == Err::<(), RaftFault>(RaftFault::Unavailable),
                    None => r.1 is Ok,
                }
            }),
    {
        let ghost m = self.inner@;
        let ghost es = types::entry_models(entries@);
        let ghost files = replay::segment_models(segments@);
        let (mut ops, result) = self.inner.append(entries, segments);
        match result {
            Ok(_) => {},
            Err(e) => {
                return (ops, Err(map_error(e)));
            },
        }
        if entries.len() > 0 {
            let ghost before = wal::op_models(ops@);
            let mut more = self.inner.sync_entries();
            let ghost added = wal::op_models(more@);
            ops.append(&mut more);
            assert(wal::op_models(ops@) =~= before + added);
        } else {
            assert(wal::op_models(ops@) =~= wal::op_models(ops@) + Seq::empty());
        }
        match hard_state {
            Some(hs) => {
                let ghost before = wal::op_models(ops@);
                let mut more = self.inner.set_hard_state(hs);
                let ghost added = wal::op_models(more@);
                ops.append(&mut more);
                assert(wal::op_models(ops@) =~= before + added);
            },
            None => {},
        }
        (ops, Ok(()))
    }

    /// Make a snapshot of the applied state durable, then release the log that
    /// it covers.
    pub fn create_snapshot(
        &mut self,
        snapshot: &Snapshot,
        names: &Vec<(u64, u64)>,
        segments: &Vec<SegmentFile>,
    ) -> (r: (Vec<DiskOp>, Result<(), RaftFault>))
        requires
            old(self).inner@.wf(),
            snapshot::snapshot_fits(snapshot@),
            snapshot.meta.index < u64::MAX,
        ensures
            final(self).inner@.wf(),
            final(self).bootstrap_conf_state == old(self).bootstrap_conf_state,
            final(self).membership == old(self).membership,
            ({
                let outcome = snapshot_created(
                    old(self).inner@,
                    snapshot@,
                    names@,
                    replay::segment_models(segments@),
                );
                &&& final(self).inner@ == outcome.model
                &&& wal::op_models(r.0@) == outcome.ops
                &&& match outcome.fault {
                    Some(_) => r.1 == Err::<(), RaftFault>(RaftFault::Unavailable),
                    None => r.1 is Ok,
                }
            }),
    {
        let mut ops = self.inner.save_snapshot(snapshot, names);
        let ghost before = wal::op_models(ops@);
        let (mut more, result) = self.inner.compact(snapshot.meta.index, segments);
        let ghost added = wal::op_models(more@);
        ops.append(&mut more);
        assert(wal::op_models(ops@) =~= before + added);
        (
            ops,
            match result {
                Ok(_) => Ok(()),
                Err(e) => Err(map_error(e)),
            },
        )
    }
}

/// What was persisted is durable when [`RaftStorage::persist_ready_records`]
/// returns: no written entry waits for a sync, and the hard state is the one
/// given.
pub proof fn law_persisted_is_durable(
    m: WalModel,
    es: Seq<EntryModel>,
    hs: Option<HardState>,
    segments: Seq<(u64, Seq<u8>)>,
)
    requires
        persisted(m, es, hs, segments).fault is None,
    ensures
        es.len() > 0 ==> !persisted(m, es, hs, segments).model.pending,
        hs matches Some(h) ==> persisted(m, es, hs, segments).model.hard_state == h,
{
}

/// What was persisted is what the files read back as: the log with the entries,
/// and the hard state that came with them. Without one, the hard state of the
/// files stays as it is.
pub proof fn law_persisted_is_read_back(
    m: WalModel,
    d: Disk,
    es: Seq<EntryModel>,
    hs: Option<HardState>,
)
    requires
        m.wf(),
        wal_laws::backed_log(m, d),
        wal_laws::file_sized(d.segments),
    ensures
        ({
            let out = persisted(m, es, hs, d.segments);
            let after = wal_model::run(d, out.ops);
            &&& out.model.wf()
            &&& wal_laws::backed_log(out.model, after)
            &&& after.snapshots == d.snapshots
            &&& after.meta == d.meta
            &&& out.fault is None ==> (hs matches Some(h) ==> wal_laws::durable_hard_state(after)
                == h)
            &&& hs is None ==> wal_laws::durable_hard_state(after)
                == wal_laws::durable_hard_state(d)
        }),
{
    wal_laws::law_append_keeps_files_in_step(m, d, es);
    let first = wal_model::appended(m, es, d.segments);
    let d1 = wal_model::run(d, first.ops);
    if first.fault is None {
        let second = if es.len() > 0 {
            wal_model::entries_synced(first.model)
        } else {
            Outcome { model: first.model, ops: Seq::empty(), fault: None }
        };
        if es.len() > 0 {
            wal_laws::law_sync_changes_no_content(first.model, d1);
        } else {
            assert(wal_model::run(d1, second.ops) == d1);
        }
        wal_laws::lemma_run_concat(d, first.ops, second.ops);
        if let Some(h) = hs {
            wal_laws::law_hard_state_is_durable(second.model, d1, h);
            wal_laws::lemma_run_concat(
                d,
                first.ops + second.ops,
                wal_model::hard_state_set(second.model, h).ops,
            );
        }
    }
}

/// A snapshot is durable before any of the log it covers is released.
pub proof fn law_snapshot_is_durable_before_release(
    m: WalModel,
    s: SnapshotModel,
    names: Seq<(u64, u64)>,
    segments: Seq<(u64, Seq<u8>)>,
    k: int,
)
    requires
        m.snapshot matches Some(old) ==> old.index < s.index,
        0 <= k < snapshot_created(m, s, names, segments).ops.len(),
        snapshot_created(m, s, names, segments).ops[k] is Remove,
    ensures
        snapshot_created(m, s, names, segments).ops[0] is SaveSnapshot,
        snapshot_created(m, s, names, segments).ops[1] is SaveMeta,
        k > 1,
{
}

/// A snapshot is the authority on the membership up to its index: the record of a
/// change at or below it is ignored.
pub proof fn law_snapshot_membership_is_the_authority(
    change: (u64, ConfModel),
    snapshot: (u64, ConfModel),
    bootstrap: ConfModel,
)
    ensures
        change.0 <= snapshot.0 ==> conf_in_force(Some(change), Some(snapshot), bootstrap)
            == conf_in_force(None, Some(snapshot), bootstrap),
        change.0 > snapshot.0 ==> conf_in_force(Some(change), Some(snapshot), bootstrap)
            == conf_in_force(Some(change), None, bootstrap),
{
}

/// A durable membership wins over the one to start with.
pub proof fn law_durable_membership_wins(
    membership: Option<(u64, ConfModel)>,
    snapshot: Option<(u64, ConfModel)>,
    a: ConfModel,
    b: ConfModel,
)
    requires
        membership matches Some((_, conf)) ==> conf.voters.len() > 0,
        snapshot matches Some((_, conf)) ==> conf.voters.len() > 0,
        membership is Some || snapshot is Some,
    ensures
        conf_in_force(membership, snapshot, a) == conf_in_force(membership, snapshot, b),
{
}

} // verus!
