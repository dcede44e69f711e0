//! What a node knows of the others, what it starts with, and what it shows.
use vstd::prelude::*;

use crate::client::ErrorModel;
use crate::metrics::Metrics;
use crate::profile::ProfileConfig;
use crate::runtime::state::{NodeView, Runtime, RuntimeConfig, RuntimeModel, Settings};
use crate::types::{HardState, NodeId, RaftId};
use crate::consensus::node;
use crate::runtime::state;

verus! {

// ---------------------------------------------------------------------------
// The others
// ---------------------------------------------------------------------------
/// Whether the first peer with an id has this name.
pub open spec fn peer_is(peers: Seq<(RaftId, NodeId)>, id: u64, name: Seq<char>) -> bool {
    exists|k: int|
        0 <= k < peers.len() && (#[trigger] peers[k]).0 == id && peers[k].1.name@ == name && forall|
            j: int,
        |
            0 <= j < k ==> (#[trigger] peers[j]).0 != id
}

/// Whether a name belongs to an id: this node's own, or that of a peer.
pub open spec fn member_is(s: Settings, id: u64, name: Seq<char>) -> bool {
    if id == s.raft_id {
        name == s.node@
    } else {
        peer_is(s.peers@, id, name)
    }
}

/// Whether the first address under a name is this one.
pub open spec fn reached_at(s: Settings, name: Seq<char>, address: Seq<char>) -> bool {
    exists|k: int|
        0 <= k < s.addresses@.len() && (#[trigger] s.addresses@[k]).0@ == name
            && s.addresses@[k].1@ == address && forall|j: int|
            0 <= j < k ==> (#[trigger] s.addresses@[j]).0@ != name
}

proof fn lemma_named(peers: Seq<(RaftId, NodeId)>, id: u64)
    ensures
        match node::named(peers, id) {
            Some(name) => peer_is(peers, id, name),
            None => forall|k: int| 0 <= k < peers.len() ==> (#[trigger] peers[k]).0 != id,
        },
        forall|name: Seq<char>|
            #[trigger] peer_is(peers, id, name) ==> node::named(peers, id) == Some(name),
    decreases peers.len(),
{
    if peers.len() > 0 {
        let rest = peers.drop_first();
        lemma_named(rest, id);
        if peers[0].0 == id {
            assert(peer_is(peers, id, peers[0].1.name@));
            assert forall|name: Seq<char>| #[trigger] peer_is(peers, id, name) implies node::named(
                peers,
                id,
            ) == Some(name) by {
                let k = choose|k: int|
                    0 <= k < peers.len() && (#[trigger] peers[k]).0 == id && peers[k].1.name@
                        == name && forall|j: int| 0 <= j < k ==> (#[trigger] peers[j]).0 != id;
                assert(peers[0].0 == id);
            }
        } else {
            match node::named(rest, id) {
                Some(name) => {
                    let k = choose|k: int|
                        0 <= k < rest.len() && (#[trigger] rest[k]).0 == id && rest[k].1.name@
                            == name && forall|j: int| 0 <= j < k ==> (#[trigger] rest[j]).0 != id;
                    assert(peers[k + 1] == rest[k]);
                    assert forall|j: int| 0 <= j < k + 1 implies (#[trigger] peers[j]).0 != id by {
                        if j > 0 {
                            assert(peers[j] == rest[j - 1]);
                        }
                    }
                },
                None => {
                    assert forall|k: int| 0 <= k < peers.len() implies (
                    #[trigger] peers[k]).0 != id by {
                        if k > 0 {
                            assert(peers[k] == rest[k - 1]);
                        }
                    }
                },
            }
            assert forall|name: Seq<char>| #[trigger] peer_is(peers, id, name) implies node::named(
                peers,
                id,
            ) == Some(name) by {
                let k = choose|k: int|
                    0 <= k < peers.len() && (#[trigger] peers[k]).0 == id && peers[k].1.name@
                        == name && forall|j: int| 0 <= j < k ==> (#[trigger] peers[j]).0 != id;
                assert(rest[k - 1] == peers[k]);
                assert forall|j: int| 0 <= j < k - 1 implies (#[trigger] rest[j]).0 != id by {
                    assert(rest[j] == peers[j + 1]);
                }
                assert(peer_is(rest, id, name));
            }
        }
    }
}

proof fn lemma_address(addresses: Seq<(NodeId, String)>, name: Seq<char>)
    ensures
        match state::address_of(addresses, name) {
            Some(address) => exists|k: int|
                0 <= k < addresses.len() && (#[trigger] addresses[k]).0@ == name && addresses[k].1@
                    == address && forall|j: int| 0 <= j < k ==> (#[trigger] addresses[j]).0@ != name,
            None => forall|k: int| 0 <= k < addresses.len() ==> (#[trigger] addresses[k]).0@ != name,
        },
    decreases addresses.len(),
{
    if addresses.len() > 0 {
        let rest = addresses.drop_first();
        lemma_address(rest, name);
        if addresses[0].0@ != name {
            match state::address_of(rest, name) {
                Some(address) => {
                    let k = choose|k: int|
                        0 <= k < rest.len() && (#[trigger] rest[k]).0@ == name && rest[k].1@
                            == address && forall|j: int|
                            0 <= j < k ==> (#[trigger] rest[j]).0@ != name;
                    assert(addresses[k + 1] == rest[k]);
                    assert forall|j: int| 0 <= j < k + 1 implies (#[trigger] addresses[j]).0@
                        != name by {
                        if j > 0 {
                            assert(addresses[j] == rest[j - 1]);
                        }
                    }
                },
                None => {
                    assert forall|k: int| 0 <= k < addresses.len() implies (
                    #[trigger] addresses[k]).0@ != name by {
                        if k > 0 {
                            assert(addresses[k] == rest[k - 1]);
                        }
                    }
                },
            }
        }
    }
}

/// The hint names the leader itself, by its own name and address, whether that is this
/// node or a peer; where no leader is known, or it is nobody known, or it has no
/// address, there is no hint.
pub proof fn law_hint_names_the_leader(
    s: Settings,
    leader: u64,
    name: Seq<char>,
    address: Seq<char>,
)
    ensures
        state::hinted(s, leader) == Some((name, address)) <==> leader != 0 && member_is(
            s,
            leader,
            name,
        ) && reached_at(s, name, address),
{
    lemma_named(s.peers@, leader);
    lemma_address(s.addresses@, name);
    if let Some(own) = state::member_name(s, leader) {
        lemma_address(s.addresses@, own);
    }
    if reached_at(s, name, address) {
        let k = choose|k: int|
            0 <= k < s.addresses@.len() && (#[trigger] s.addresses@[k]).0@ == name
                && s.addresses@[k].1@ == address && forall|j: int|
                0 <= j < k ==> (#[trigger] s.addresses@[j]).0@ != name;
        assert(s.addresses@[k].0@ == name);
        if let Some(other) = state::address_of(s.addresses@, name) {
            let i = choose|i: int|
                0 <= i < s.addresses@.len() && (#[trigger] s.addresses@[i]).0@ == name
                    && s.addresses@[i].1@ == other && forall|j: int|
                    0 <= j < i ==> (#[trigger] s.addresses@[j]).0@ != name;
            assert(s.addresses@[i].0@ == name);
        }
    }
}

/// A message is routed by the name of its sender: to the id of the first peer of that
/// name, and to nobody where there is no such peer.
pub proof fn law_sender_is_found_by_name(peers: Seq<(RaftId, NodeId)>, name: Seq<char>)
    ensures
        match state::id_of(peers, name) {
            Some(id) => exists|k: int|
                0 <= k < peers.len() && (#[trigger] peers[k]).1@ == name && peers[k].0 == id
                    && forall|j: int| 0 <= j < k ==> (#[trigger] peers[j]).1@ != name,
            None => forall|k: int| 0 <= k < peers.len() ==> (#[trigger] peers[k]).1@ != name,
        },
    decreases peers.len(),
{
    if peers.len() > 0 {
        let rest = peers.drop_first();
        law_sender_is_found_by_name(rest, name);
        if peers[0].1@ != name {
            match state::id_of(rest, name) {
                Some(id) => {
                    let k = choose|k: int|
                        0 <= k < rest.len() && (#[trigger] rest[k]).1@ == name && rest[k].0 == id
                            && forall|j: int| 0 <= j < k ==> (#[trigger] rest[j]).1@ != name;
                    assert(peers[k + 1] == rest[k]);
                    assert forall|j: int| 0 <= j < k + 1 implies (#[trigger] peers[j]).1@
                        != name by {
                        if j > 0 {
                            assert(peers[j] == rest[j - 1]);
                        }
                    }
                },
                None => {
                    assert forall|k: int| 0 <= k < peers.len() implies (#[trigger] peers[k]).1@
                        != name by {
                        if k > 0 {
                            assert(peers[k] == rest[k - 1]);
                        }
                    }
                },
            }
        }
    }
}

// ---------------------------------------------------------------------------
// Starting and stopping
// ---------------------------------------------------------------------------
/// The settings are those of the configuration; a wait or a tick is never shorter than
/// a millisecond.
pub proof fn law_settings_are_the_configured_ones(c: RuntimeConfig, s: Settings)
    requires
        state::settings_of(c, s),
    ensures
        s.raft_id == c.self_raft_id,
        s.node == c.self_node_id,
        s.peers == c.peers,
        s.addresses == c.addresses,
        s.proposal_queue_bytes == c.profile.proposal_queue_bytes,
        s.promote_lag_entries == c.promote_lag_entries,
        s.snapshot_threshold_bytes == c.profile.snapshot_threshold_bytes,
        s.read_index_timeout_ms >= 1,
        s.propose_timeout_ms >= 1,
        s.tick_ms >= 1,
        c.profile.read_index_timeout_ms >= 1 ==> s.read_index_timeout_ms
            == c.profile.read_index_timeout_ms,
        c.profile.election_timeout_ms >= 1 ==> s.propose_timeout_ms
            == c.profile.election_timeout_ms,
        c.profile.heartbeat_interval_ms >= 1 ==> s.tick_ms == c.profile.heartbeat_interval_ms,
{
}

/// A node starts with nothing that waits, nothing queued and no session known, at the
/// applied index and the snapshot it was restored from; it measures growth and time
/// from here. What it shows is its durable term and commit index, and that it does not
/// know a leader.
pub proof fn law_node_starts_idle(
    settings: Settings,
    profile: ProfileConfig,
    applied: u64,
    snapshot_index: u64,
    hard_state: HardState,
    now: u64,
)
    ensures
        ({
            let m = state::started(settings, profile, applied, snapshot_index, hard_state, now);
            &&& m.settings == settings
            &&& m.waiting.proposals.len() == 0 && m.waiting.changes.len() == 0
            &&& m.waiting.transfers.len() == 0 && m.waiting.reads.len() == 0
            &&& m.queue.len() == 0 && m.deferred is None
            &&& m.sessions.used.len() == 0
            &&& m.sessions.ttl_ms == profile.session_ttl_ms
            &&& m.sessions.grace_ms == profile.session_grace_period_ms
            &&& m.sessions.max_sessions == profile.max_sessions
            &&& m.sessions.next_gc == 0 && m.sessions.next_sweep == 0
            &&& m.applied_index == applied
            &&& m.snapshot_index == snapshot_index
            &&& m.applied_bytes == 0 && m.sent_bytes == 0 && m.bytes_at_snapshot == 0
            &&& m.live_sessions == 0 && !m.snapshot_wait
            &&& m.last_wal_sample == now
            &&& m.fetch is None && m.fatal is None
            &&& m.metrics.term == hard_state.term
            &&& m.metrics.commit_index == hard_state.commit
            &&& m.metrics.applied_index == applied
            &&& m.metrics.leader_id == 0
            &&& settings.raft_id != 0 ==> m.metrics.is_leader == 0
            &&& m.metrics.proposal_busy_total == 0 && m.metrics.read_index_timeout_total == 0
            &&& m.metrics.snapshots_created_total == 0 && m.metrics.snapshots_installed_total == 0
        }),
{
}

/// A node that stops for good has nothing left that waits, no longer shows itself as
/// leader, and keeps the first reason; the rest stays as it was.
pub proof fn law_stopping_leaves_the_rest_alone(m: RuntimeModel, reason: Seq<char>)
    ensures
        ({
            let n = state::stopped(m, reason);
            &&& n.waiting.proposals.len() == 0 && n.waiting.changes.len() == 0
            &&& n.waiting.transfers.len() == 0 && n.waiting.reads.len() == 0
            &&& n.waiting.next_token == m.waiting.next_token
            &&& n.metrics.is_leader == 0
            &&& m.fatal is None ==> n.fatal == Some(reason)
            &&& m.fatal is Some ==> n.fatal == m.fatal
            &&& n == (RuntimeModel {
                waiting: n.waiting,
                metrics: Metrics { is_leader: n.metrics.is_leader, ..m.metrics },
                fatal: n.fatal,
                ..m
            })
        }),
{
}

/// A node that has not stopped for good says that it shuts down; one that has says
/// why.
pub proof fn law_stopped_node_says_why(m: RuntimeModel)
    ensures
        m.fatal is None ==> state::stop_answer(m) == ErrorModel::ShuttingDown,
        m.fatal matches Some(reason) ==> state::stop_answer(m) == ErrorModel::Unrecoverable(reason),
{
}

// ---------------------------------------------------------------------------
// What it shows
// ---------------------------------------------------------------------------
/// What is committed and not applied is what was handed on less what is applied, and
/// never less than nothing.
pub proof fn law_backlog_is_what_is_not_applied(m: RuntimeModel)
    ensures
        m.sent_bytes >= m.applied_bytes ==> m.backlog() == m.sent_bytes - m.applied_bytes,
        m.sent_bytes < m.applied_bytes ==> m.backlog() == 0,
{
}

/// The gauges show what they are named after; every other number stays as it was.
pub proof fn law_gauges_show_the_moment(
    m: RuntimeModel,
    term: u64,
    commit: u64,
    leader_id: u64,
    dropped_sends: u64,
)
    requires
        m.waiting.reads.len() <= u64::MAX,
    ensures
        ({
            let g = state::refreshed(m, term, commit, leader_id, dropped_sends);
            &&& g.term == term
            &&& g.commit_index == commit
            &&& g.applied_index == m.applied_index
            &&& commit >= m.applied_index ==> g.apply_lag == commit - m.applied_index
            &&& commit < m.applied_index ==> g.apply_lag == 0
            &&& m.sent_bytes >= m.applied_bytes ==> g.apply_backlog_bytes == m.sent_bytes
                - m.applied_bytes
            &&& m.sent_bytes < m.applied_bytes ==> g.apply_backlog_bytes == 0
            &&& g.leader_id == leader_id
            &&& leader_id == m.settings.raft_id ==> g.is_leader == 1
            &&& leader_id != m.settings.raft_id ==> g.is_leader == 0
            &&& g.dropped_sends == dropped_sends
            &&& g.read_index_pending == m.waiting.reads.len()
            &&& g == (Metrics {
                term: g.term,
                commit_index: g.commit_index,
                applied_index: g.applied_index,
                apply_lag: g.apply_lag,
                apply_backlog_bytes: g.apply_backlog_bytes,
                leader_id: g.leader_id,
                is_leader: g.is_leader,
                dropped_sends: g.dropped_sends,
                read_index_pending: g.read_index_pending,
                ..m.metrics
            })
        }),
{
}

/// A node is seen with all it holds.
pub proof fn law_node_is_seen_in_full(r: Runtime)
    ensures
        r@.settings == r.settings,
        r@.metrics == r.metrics,
        r@.applied_index == r.applied_index,
        r@.applied_bytes == r.applied_bytes_total,
        r@.sent_bytes == r.sent_bytes_total,
        r@.live_sessions == r.live_sessions,
        r@.snapshot_wait == r.snapshot_wait,
        r@.last_wal_sample == r.last_wal_sample,
        r@.bytes_at_snapshot == r.applied_bytes_at_snapshot,
        r@.snapshot_index == r.snapshot_index,
        r@.fetch == r.snapshot_fetch,
        r@.waiting.proposals == r.waiting.proposals@,
        r@.waiting.changes == r.waiting.changes@,
        r@.waiting.transfers == r.waiting.transfers@,
        r@.waiting.next_token == r.waiting.next_token,
        r@.waiting.reads.len() == r.waiting.reads@.len(),
        forall|i: int|
            0 <= i < r.waiting.reads@.len() ==> (#[trigger] r@.waiting.reads[i]).token
                == r.waiting.reads@[i].token && r@.waiting.reads[i].key
                == r.waiting.reads@[i].key@ && r@.waiting.reads[i].ticket
                == r.waiting.reads@[i].ticket && r@.waiting.reads[i].deadline
                == r.waiting.reads@[i].deadline && r@.waiting.reads[i].read_index
                == r.waiting.reads@[i].read_index && r@.waiting.reads[i].attempts
                == r.waiting.reads@[i].attempts,
        r@.queue.len() == r.committed_queue@.len(),
        forall|i: int|
            0 <= i < r.committed_queue@.len() ==> (#[trigger] r@.queue[i]).index
                == r.committed_queue@[i].index && r@.queue[i].entry_type
                == r.committed_queue@[i].entry_type && r@.queue[i].data
                == r.committed_queue@[i].data@,
        r.fatal is None <==> r@.fatal is None,
        r.fatal matches Some(reason) ==> r@.fatal == Some(reason@),
        r.deferred is None <==> r@.deferred is None,
        r.deferred matches Some(batch) ==> r@.deferred == Some(batch@),
{
}

/// What a node observes is seen as it observes it.
pub proof fn law_observation_is_seen_in_full(v: NodeView)
    ensures
        v@.leader_id == v.leader_id,
        v@.now == v.now,
        v@.clock == v.clock,
        v@.last_index == v.last_index,
        v@.matched == v.matched@,
        v.conf matches Ok(conf) ==> v@.conf is Ok && v@.conf->Ok_0.voters == conf.voters@
            && v@.conf->Ok_0.learners == conf.learners@,
        v.conf matches Err(e) ==> v@.conf is Err && v@.conf->Err_0 == e@,
{
}

} // verus!
