//! What is made durable for the raft core, in which order, and who is a member.
use vstd::prelude::*;

use crate::consensus::conf_change::Change;
use crate::consensus::inbound::Inbound;
use crate::consensus::node::RaftNodeConfig;
use crate::consensus::raft_storage::{RaftFault, RaftHardState, RaftStorage};
use crate::storage::wal_model::{Disk, WalModel};
use crate::types::{ConfModel, EntryModel, EntryType, Fault, HardState, SnapshotModel, StorageError};
use crate::consensus::conf_change;
use crate::consensus::inbound;
use crate::consensus::node;
use crate::consensus::raft_storage;
use crate::storage::log_laws;
use crate::storage::wal_laws;
use crate::storage::wal_model;

verus! {

// ---------------------------------------------------------------------------
// What is made durable
// ---------------------------------------------------------------------------
/// What a cycle has ready is appended first; where that fails it ends there, with the
/// hard state as it was. Then the entries are synced, if there are any, and only then is
/// the hard state written, if there is one. The log is otherwise as appending left it.
pub proof fn law_entries_are_durable_before_the_hard_state(
    m: WalModel,
    es: Seq<EntryModel>,
    hs: Option<HardState>,
    segments: Seq<(u64, Seq<u8>)>,
)
    ensures
        ({
            let out = raft_storage::persisted(m, es, hs, segments);
            let first = wal_model::appended(m, es, segments);
            let second = wal_model::entries_synced(first.model);
            let synced = if es.len() > 0 {
                second.ops
            } else {
                Seq::empty()
            };
            &&& first.fault is Some ==> out == first
            &&& first.fault is None ==> {
                &&& out.fault is None
                &&& out.model.entries == first.model.entries
                &&& out.model.compacted_to == first.model.compacted_to
                &&& out.model.snapshot == first.model.snapshot
                &&& out.model.meta == first.model.meta
                &&& out.model.hard_state == match hs {
                    Some(h) => h,
                    None => first.model.hard_state,
                }
                &&& es.len() == 0 ==> out.model.pending == first.model.pending
                &&& hs is None ==> out.ops == first.ops + synced
                &&& hs is Some ==> {
                    &&& out.ops.len() == first.ops.len() + synced.len() + 3
                    &&& out.ops.subrange(0, (first.ops.len() + synced.len()) as int) == first.ops
                        + synced
                    &&& out.ops[out.ops.len() - 3] is Write
                    &&& out.ops[out.ops.len() - 2] is Sync
                    &&& out.ops[out.ops.len() - 1] is Synced
                }
            }
        }),
{
    let out = raft_storage::persisted(m, es, hs, segments);
    let first = wal_model::appended(m, es, segments);
    let second = wal_model::entries_synced(first.model);
    let synced = if es.len() > 0 {
        second.ops
    } else {
        Seq::empty()
    };
    if first.fault is None {
        if hs is Some {
            assert(out.ops.subrange(0, (first.ops.len() + synced.len()) as int) =~= first.ops
                + synced);
        } else {
            assert(out.ops =~= first.ops + synced);
        }
    }
}

/// A local snapshot that is newer than the last and within the log becomes the log's
/// snapshot, and the log is released through it: exactly the entries above it are left.
pub proof fn law_local_snapshot_releases_the_log(
    m: WalModel,
    d: Disk,
    s: SnapshotModel,
    names: Seq<(u64, u64)>,
)
    requires
        m.wf(),
        wal_laws::backed_log(m, d),
        m.compacted_to < s.index < u64::MAX,
        s.index <= log_laws::end_of(m),
        m.snapshot is Some ==> m.snapshot->0.index < s.index,
    ensures
        ({
            let out = raft_storage::snapshot_created(m, s, names, d.segments);
            &&& out.fault is None
            &&& out.model.snapshot == Some(s)
            &&& out.model.meta.snapshot_index == s.index
            &&& out.model.compacted_to == s.index
            &&& out.model.entries == m.entries.filter(|e: EntryModel| e.index > s.index)
            &&& out.model.hard_state == m.hard_state
        }),
{
    let saved = wal_model::snapshot_saved(m, s, names);
    assert(saved.model.wf());
    assert(wal_laws::backed_log(saved.model, d));
    assert(saved.model.last() == m.last());
    log_laws::law_compaction_releases_what_it_covers(saved.model, d, s.index, 0);
}

/// A snapshot that is not newer than the last changes nothing of it; the log is still
/// released through its index, where it can be.
pub proof fn law_older_snapshot_only_releases(
    m: WalModel,
    s: SnapshotModel,
    names: Seq<(u64, u64)>,
    segments: Seq<(u64, Seq<u8>)>,
)
    requires
        m.snapshot is Some && m.snapshot->0.index >= s.index,
    ensures
        raft_storage::snapshot_created(m, s, names, segments).model == wal_model::compacted(
            m,
            s.index,
            segments,
        ).model,
        raft_storage::snapshot_created(m, s, names, segments).fault == wal_model::compacted(
            m,
            s.index,
            segments,
        ).fault,
        raft_storage::snapshot_created(m, s, names, segments).model.snapshot == m.snapshot,
{
}

/// A snapshot beyond the log is kept, but nothing can be released through it.
pub proof fn law_snapshot_beyond_the_log_releases_nothing(
    m: WalModel,
    s: SnapshotModel,
    names: Seq<(u64, u64)>,
    segments: Seq<(u64, Seq<u8>)>,
)
    requires
        m.wf(),
        s.index > log_laws::end_of(m),
        m.snapshot is Some ==> m.snapshot->0.index < s.index,
    ensures
        ({
            let out = raft_storage::snapshot_created(m, s, names, segments);
            &&& out.fault is Some && out.fault->0 is CompactBeyondLog
            &&& out.model.snapshot == Some(s)
            &&& out.model.entries == m.entries
            &&& out.model.compacted_to == m.compacted_to
        }),
{
    let saved = wal_model::snapshot_saved(m, s, names).model;
    assert(saved.wf());
    log_laws::law_refused_compaction_says_why(saved, s.index, segments);
}

/// Terms and commit indices are the raft core's own; no vote is a vote for 0, and only
/// that.
pub proof fn law_no_vote_is_a_vote_for_nobody(hs: HardState, core: RaftHardState)
    ensures
        ({
            let r = raft_storage::raft_hard_state(hs);
            &&& r.term == hs.term && r.commit == hs.commit
            &&& hs.vote is None ==> r.vote == 0
            &&& hs.vote matches Some(v) ==> r.vote == v
        }),
        ({
            let h = raft_storage::seam_hard_state(core);
            &&& h.term == core.term && h.commit == core.commit
            &&& core.vote == 0 ==> h.vote is None
            &&& core.vote != 0 ==> h.vote == Some(core.vote)
        }),
{
}

/// That an entry was compacted away and that a file failed are told to the raft core as
/// they are; whatever is damaged is not available.
pub proof fn law_faults_are_told_in_the_core_s_terms(e: StorageError)
    ensures
        e is Compacted <==> raft_storage::mapped(e) is Compacted,
        e is Corruption || e is Unrecoverable ==> raft_storage::mapped(e) == RaftFault::Unavailable,
        e matches StorageError::Io(detail) ==> raft_storage::mapped(e) == RaftFault::Io(detail),
{
}

// ---------------------------------------------------------------------------
// Members
// ---------------------------------------------------------------------------
/// Without a durable membership, or with an empty one, the membership is the one to
/// start with. The durable one is that of the last change or of the snapshot, whichever
/// is alone there; of both, that of the change only if it lies beyond the snapshot.
pub proof fn law_membership_in_force(
    change: (u64, ConfModel),
    snapshot: (u64, ConfModel),
    bootstrap: ConfModel,
)
    ensures
        raft_storage::conf_in_force(None, None, bootstrap) == bootstrap,
        raft_storage::conf_in_force(Some(change), None, bootstrap) == (if change.1.voters.len() == 0
            && change.1.learners.len() == 0 {
            bootstrap
        } else {
            change.1
        }),
        raft_storage::conf_in_force(None, Some(snapshot), bootstrap) == (
        if snapshot.1.voters.len() == 0 && snapshot.1.learners.len() == 0 {
            bootstrap
        } else {
            snapshot.1
        }),
        change.0 > snapshot.0 && change.1.voters.len() > 0 ==> raft_storage::conf_in_force(
            Some(change),
            Some(snapshot),
            bootstrap,
        ) == change.1,
        change.0 <= snapshot.0 && snapshot.1.voters.len() > 0 ==> raft_storage::conf_in_force(
            Some(change),
            Some(snapshot),
            bootstrap,
        ) == snapshot.1,
{
}

/// The membership that the raft core is told is the one in force: that of the last
/// change if it lies beyond the snapshot, that of the snapshot otherwise.
pub proof fn law_core_is_told_the_membership_in_force(r: RaftStorage)
    ensures
        r.inner@.snapshot is None && r.membership is None ==> r.conf() == r.bootstrap_conf_state@,
        r.membership is Some && (r.membership->0).1.voters@.len() > 0 && (r.inner@.snapshot is Some
            ==> r.inner@.snapshot->0.index < (r.membership->0).0) ==> r.conf() == (
        r.membership->0).1@,
        r.inner@.snapshot is Some && r.inner@.snapshot->0.conf.voters.len() > 0 && (
        r.membership is Some ==> (r.membership->0).0 <= r.inner@.snapshot->0.index) ==> r.conf()
            == r.inner@.snapshot->0.conf,
{
}

/// A cluster starts with the voters that are listed, if any are; otherwise with the
/// known peers and this node. A node that joins as a learner is one, and votes only if
/// it is listed or known as a peer.
pub proof fn law_starting_members(self_id: u64, peers: Seq<u64>, config: RaftNodeConfig, id: u64)
    ensures
        config.bootstrap_voters matches Some(listed) ==> (node::starts_as_voter(
            self_id,
            peers,
            config,
            id,
        ) <==> listed@.contains(id)),
        config.bootstrap_voters is None && peers.contains(id) ==> node::starts_as_voter(
            self_id,
            peers,
            config,
            id,
        ),
        config.bootstrap_voters is None && !peers.contains(id) ==> (node::starts_as_voter(
            self_id,
            peers,
            config,
            id,
        ) <==> id == self_id && !config.join_as_learner),
        config.join_as_learner ==> node::starting_learners(self_id, config) == seq![self_id],
        !config.join_as_learner ==> node::starting_learners(self_id, config).len() == 0,
{
}

/// A follower is behind by what it has not matched, and by nothing once it has matched
/// all; it has answered as soon as it has matched anything.
pub proof fn law_follower_is_behind_by_what_it_lacks(last_index: u64, matched: u64)
    ensures
        matched < last_index ==> node::progress(last_index, matched).0 == last_index - matched,
        matched >= last_index ==> node::progress(last_index, matched).0 == 0,
        node::progress(last_index, matched).1 <==> matched != 0,
{
}

/// An entry carries a membership change only if it is of such a kind and decodes, in
/// the list form to exactly one; it is then that change. Every other is refused with the
/// words for what is wrong with it.
pub proof fn law_entry_carries_the_change_it_decodes_to(data: Seq<u8>, change: Change)
    ensures
        conf_change::identity(EntryType::Entry, data) is None,
        conf_change::identity(EntryType::ConfChange, data) == Some(change)
            <==> conf_change::parsed_change(data) == Ok::<Change, Seq<char>>(change),
        conf_change::identity(EntryType::ConfChangeV2, data) == Some(change)
            <==> conf_change::parsed_changes(data) == Ok::<Seq<Change>, Seq<char>>(seq![change]),
        node::change_fault(EntryType::Entry, data)
            == "conf_change_identity called with a normal entry"@,
        conf_change::parsed_change(data) matches Err(words) ==> node::change_fault(
            EntryType::ConfChange,
            data,
        ) == "ConfChange decode failed: "@ + words,
        conf_change::parsed_changes(data) matches Err(words) ==> node::change_fault(
            EntryType::ConfChangeV2,
            data,
        ) == "ConfChangeV2 decode failed: "@ + words,
{
    if let Ok(changes) = conf_change::parsed_changes(data) {
        if changes.len() == 1 {
            assert(changes =~= seq![changes[0]]);
        }
        if changes =~= seq![change] {
            assert(changes[0] == change);
        }
    }
}

/// A message waits exactly where it announces a snapshot and snapshots travel apart; it
/// is then known by that snapshot. Any other goes to the raft core.
pub proof fn law_announced_snapshots_are_held(
    from: u64,
    index: u64,
    term: u64,
    streamed: bool,
)
    ensures
        inbound::admitted(from, None, streamed) == (Inbound::Step { from }),
        inbound::admitted(from, Some((index, term)), true) == (Inbound::Hold {
            from,
            index,
            term,
        }),
        inbound::admitted(from, Some((index, term)), false) == (Inbound::Step { from }),
{
}

} // verus!
