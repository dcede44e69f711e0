//! How a consensus node is set up, and the rules it decides by.
use vstd::prelude::*;
use vstd::string::*;

use crate::consensus::conf_change;
use crate::consensus::conf_change::{conf_change_identity, Change, ConfChangeFault};
use crate::ids;
use crate::ids::{insert_id, sorted_ids};
use crate::profile::ProfileConfig;
use crate::types::{ConfState, EntryType, LogIndex, NodeId, RaftId};

verus! {

/// Errors of the consensus node.
#[derive(Clone, Debug, PartialEq, Eq)]
pub enum NodeError {
    /// The raft core or its configuration.
    Raft(String),
    /// The transport, while a message was sent.
    Transport(String),
    /// A wire message that does not encode or decode.
    Codec(String),
    /// Durable storage.
    Storage(String),
    /// The state machine, while it was rebuilt.
    StateMachine(String),
}

impl NodeError {
    /// The text of [`NodeError::message`].
    pub open spec fn text(self) -> Seq<char> {
        match self {
            NodeError::Raft(detail) => detail@,
            NodeError::Transport(detail) => detail@,
            NodeError::Codec(detail) => "codec error: "@ + detail@,
            NodeError::Storage(detail) => "storage error: "@ + detail@,
            NodeError::StateMachine(detail) => "state machine error: "@ + detail@,
        }
    }

    /// A description of the error.
    pub fn message(&self) -> (s: String)
        ensures
            s@ == self.text(),
    {
        let mut s = String::new();
        match self {
            NodeError::Raft(detail) => s.append(detail.as_str()),
            NodeError::Transport(detail) => s.append(detail.as_str()),
            NodeError::Codec(detail) => {
                s.append("codec error: ");
                s.append(detail.as_str());
            },
            NodeError::Storage(detail) => {
                s.append("storage error: ");
                s.append(detail.as_str());
            },
            NodeError::StateMachine(detail) => {
                s.append("state machine error: ");
                s.append(detail.as_str());
            },
        }
        assert(s@ =~= self.text());
        s
    }
}

/// Tick timings and flow control of a node, and the membership it starts with.
#[derive(Debug, PartialEq, Eq)]
pub struct RaftNodeConfig {
    /// Ticks without a leader after which an election starts.
    pub election_tick: u64,
    /// Ticks between heartbeats.
    pub heartbeat_tick: u64,
    /// Bytes of one append message.
    pub max_size_per_msg: u64,
    /// Messages in flight to one follower.
    pub max_inflight_msgs: u64,
    /// The voters to start with, where they are not the known peers and this
    /// node: a node that joins knows peers whose votes it must not count.
    pub bootstrap_voters: Option<Vec<RaftId>>,
    /// Start as a learner of the voters rather than as one of them.
    pub join_as_learner: bool,
}

impl Default for RaftNodeConfig {
    fn default() -> (r: Self)
        ensures
            r.election_tick == 10,
            r.heartbeat_tick == 1,
            r.max_size_per_msg == 1_048_576,
            r.max_inflight_msgs == 256,
            r.bootstrap_voters is None,
            !r.join_as_learner,
    {
        RaftNodeConfig {
            election_tick: 10,
            heartbeat_tick: 1,
            max_size_per_msg: 1_048_576,
            max_inflight_msgs: 256,
            bootstrap_voters: None,
            join_as_learner: false,
        }
    }
}

/// The larger of two numbers.
pub open spec fn max(a: u64, b: u64) -> u64 {
    if a >= b {
        a
    } else {
        b
    }
}

/// The larger of a number and 1.
pub fn at_least_one(a: u64) -> (r: u64)
    ensures
        r == max(a, 1),
{
    if a >= 1 {
        a
    } else {
        1
    }
}

impl RaftNodeConfig {
    /// One tick is one heartbeat; the election timeout in ticks is the profile's
    /// in heartbeats, and at least 1.
    pub fn from_profile(profile: &ProfileConfig) -> (r: Self)
        ensures
            r.heartbeat_tick == 1,
            r.election_tick == max(
                profile.election_timeout_ms / max(profile.heartbeat_interval_ms, 1),
                1,
            ),
            r.max_size_per_msg == profile.max_inflight_bytes,
            r.max_inflight_msgs == profile.max_inflight_msgs,
            r.bootstrap_voters is None,
            !r.join_as_learner,
    {
        let heartbeat: u64 = at_least_one(profile.heartbeat_interval_ms);
        RaftNodeConfig {
            election_tick: at_least_one(profile.election_timeout_ms / heartbeat),
            heartbeat_tick: 1,
            max_size_per_msg: profile.max_inflight_bytes,
            max_inflight_msgs: profile.max_inflight_msgs,
            bootstrap_voters: None,
            join_as_learner: false,
        }
    }

    /// Whether the tick counts fit this machine's word.
    pub open spec fn fits(&self) -> bool {
        &&& 2 * self.election_tick <= usize::MAX
        &&& self.heartbeat_tick <= usize::MAX
        &&& self.max_inflight_msgs <= usize::MAX
    }

    /// Whether the raft core accepts the timings.
    pub open spec fn accepted(&self) -> bool {
        &&& 0 < self.heartbeat_tick < self.election_tick
        &&& 0 < self.max_inflight_msgs
    }
}

/// A sound profile gives timings that the raft core accepts.
pub proof fn law_sound_profile_is_accepted(profile: ProfileConfig, config: RaftNodeConfig)
    requires
        profile.sound(),
        0 < profile.max_inflight_msgs,
        config.heartbeat_tick == 1,
        config.election_tick == max(
            profile.election_timeout_ms / max(profile.heartbeat_interval_ms, 1),
            1,
        ),
        config.max_inflight_msgs == profile.max_inflight_msgs,
    ensures
        config.accepted(),
{
    let h = profile.heartbeat_interval_ms as int;
    let e = profile.election_timeout_ms as int;
    assert(e / h >= 5) by (nonlinear_arith)
        requires
            h > 0,
            e >= 5 * h,
    ;
}

/// What confirms a linearizable read.
#[derive(Clone, Copy, Debug, PartialEq, Eq, Structural)]
pub enum ReadMode {
    /// A round of messages with a quorum.
    Quorum,
    /// The leader's lease, which is as good as its clock.
    Lease,
}

/// How the raft core of a node is configured; what is not named here is as the
/// core has it by default.
#[derive(Clone, Copy, Debug, PartialEq, Eq, Structural)]
pub struct CoreConfig {
    pub id: RaftId,
    pub election_tick: u64,
    pub heartbeat_tick: u64,
    /// The index that the applied state has.
    pub applied: LogIndex,
    pub max_size_per_msg: u64,
    pub max_inflight_msgs: u64,
    /// A leader that hears of no quorum steps down.
    pub check_quorum: bool,
    /// A node asks whether it could win before it raises the term.
    pub pre_vote: bool,
    /// What confirms a read.
    pub reads: ReadMode,
}

impl CoreConfig {
    /// Whether the counts fit this machine's word.
    pub open spec fn fits(&self) -> bool {
        &&& 2 * self.election_tick <= usize::MAX
        &&& self.heartbeat_tick <= usize::MAX
        &&& self.max_inflight_msgs <= usize::MAX
    }
}

/// The configuration of a node's raft core: a leader checks its quorum, elections
/// are preceded by pre-votes, and a read is confirmed by a quorum and never
/// trusts a lease.
pub fn core_config(self_id: RaftId, applied: LogIndex, config: &RaftNodeConfig) -> (r: CoreConfig)
    ensures
        r == (CoreConfig {
            id: self_id,
            election_tick: config.election_tick,
            heartbeat_tick: config.heartbeat_tick,
            applied,
            max_size_per_msg: config.max_size_per_msg,
            max_inflight_msgs: config.max_inflight_msgs,
            check_quorum: true,
            pre_vote: true,
            reads: ReadMode::Quorum,
        }),
{
    CoreConfig {
        id: self_id,
        election_tick: config.election_tick,
        heartbeat_tick: config.heartbeat_tick,
        applied,
        max_size_per_msg: config.max_size_per_msg,
        max_inflight_msgs: config.max_inflight_msgs,
        check_quorum: true,
        pre_vote: true,
        reads: ReadMode::Quorum,
    }
}

/// Why the raft core refuses a configuration.
pub open spec fn core_fault(c: CoreConfig) -> Option<Seq<char>> {
    if c.id == 0 {
        Some("invalid node id"@)
    } else if c.heartbeat_tick == 0 {
        Some("heartbeat tick must greater than 0"@)
    } else if c.election_tick <= c.heartbeat_tick {
        Some("election tick must be greater than heartbeat tick"@)
    } else if c.max_inflight_msgs == 0 {
        Some("max inflight messages must be greater than 0"@)
    } else if c.reads == ReadMode::Lease && !c.check_quorum {
        Some("read_only_option == LeaseBased requires check_quorum == true"@)
    } else {
        None
    }
}

/// `raft::Config::validate` on a configuration with these values and the defaults
/// otherwise. It wants a node id other than 0, heartbeats that come before the
/// election timeout, room for at least one message in flight, and lease reads
/// only together with quorum checks; it says which of these is missing first.
#[verifier::external_body]
fn validate_raft(c: &CoreConfig) -> (r: Result<(), String>)
    requires
        c.fits(),
    ensures
        match r {
            Ok(_) => core_fault(*c) is None,
            Err(words) => core_fault(*c) == Some(words@),
        },
{
    raft::Config {
        id: c.id,
        election_tick: c.election_tick as usize,
        heartbeat_tick: c.heartbeat_tick as usize,
        applied: c.applied,
        max_size_per_msg: c.max_size_per_msg,
        max_inflight_msgs: c.max_inflight_msgs as usize,
        check_quorum: c.check_quorum,
        pre_vote: c.pre_vote,
        read_only_option: match c.reads {
            ReadMode::Quorum => raft::ReadOnlyOption::Safe,
            ReadMode::Lease => raft::ReadOnlyOption::LeaseBased,
        },
        ..Default::default()
    }.validate().map_err(|e| format!("{e}"))
}

/// Whether a node belongs to the voters that a cluster starts with: an explicit
/// list decides; without one the known peers vote, and this node with them
/// unless it joins as a learner.
pub open spec fn starts_as_voter(
    self_id: u64,
    peers: Seq<u64>,
    config: RaftNodeConfig,
    id: u64,
) -> bool {
    match config.bootstrap_voters {
        Some(voters) => voters@.contains(id),
        None => peers.contains(id) || (id == self_id && !config.join_as_learner),
    }
}

/// The learners that a cluster starts with.
pub open spec fn starting_learners(self_id: u64, config: RaftNodeConfig) -> Seq<u64> {
    if config.join_as_learner {
        seq![self_id]
    } else {
        Seq::empty()
    }
}

/// Set a node up: check its id and its timings, and name the membership that it
/// starts with when it has none on disk.
pub fn plan_node(
    self_id: RaftId,
    peers: &Vec<RaftId>,
    applied: LogIndex,
    config: &RaftNodeConfig,
) -> (r: Result<ConfState, NodeError>)
    requires
        config.fits(),
    ensures
        r is Ok <==> self_id != 0 && config.accepted(),
        match r {
            Ok(conf) => {
                &&& ids::ascending(conf.voters@)
                &&& forall|id: u64| #[trigger]
                    conf.voters@.contains(id) <==> starts_as_voter(self_id, peers@, *config, id)
                &&& conf.learners@ == starting_learners(self_id, *config)
            },
            Err(e) => e matches NodeError::Raft(detail) && detail@ == (if self_id == 0 {
                "node id must be non-zero"@
            } else if config.heartbeat_tick == 0 {
                "heartbeat tick must greater than 0"@
            } else if config.election_tick <= config.heartbeat_tick {
                "election tick must be greater than heartbeat tick"@
            } else {
                "max inflight messages must be greater than 0"@
            }),
        },
{
    if self_id == 0 {
        let mut s = String::new();
        s.append("node id must be non-zero");
        assert(s@ =~= "node id must be non-zero"@);
        return Err(NodeError::Raft(s));
    }
    match validate_raft(&core_config(self_id, applied, config)) {
        Ok(_) => {},
        Err(e) => {
            return Err(NodeError::Raft(e));
        },
    }
    let mut voters: Vec<u64> = match &config.bootstrap_voters {
        Some(ids) => sorted_ids(ids),
        None => sorted_ids(peers),
    };
    let mut learners: Vec<u64> = Vec::new();
    if config.join_as_learner {
        learners.push(self_id);
    } else if config.bootstrap_voters.is_none() {
        insert_id(&mut voters, self_id);
    }
    assert(learners@ =~= starting_learners(self_id, *config));
    Ok(ConfState { voters, learners })
}

/// Whether a learner may become a voter: it has answered at least once, and is
/// at most `threshold` entries behind.
pub fn learner_caught_up(behind: u64, has_acked: bool, threshold: u64) -> (r: bool)
    ensures
        r == (has_acked && behind <= threshold),
{
    has_acked && behind <= threshold
}

/// How many entries a follower that has matched the log up to `matched` is
/// behind `last_index`, and whether it has ever answered.
pub open spec fn progress(last_index: u64, matched: u64) -> (u64, bool) {
    (
        if matched >= last_index {
            0
        } else {
            (last_index - matched) as u64
        },
        matched > 0,
    )
}

/// How many entries a follower is behind, and whether it has ever answered.
pub fn learner_progress(last_index: LogIndex, matched: LogIndex) -> (r: (u64, bool))
    ensures
        r == progress(last_index, matched),
{
    let behind: u64 = if matched >= last_index {
        0
    } else {
        last_index - matched
    };
    (behind, matched > 0)
}

/// The words for a committed entry that is no single membership change.
pub open spec fn change_fault(entry_type: EntryType, data: Seq<u8>) -> Seq<char> {
    match entry_type {
        EntryType::ConfChange => match conf_change::parsed_change(data) {
            Ok(_) => Seq::empty(),
            Err(words) => "ConfChange decode failed: "@ + words,
        },
        EntryType::ConfChangeV2 => match conf_change::parsed_changes(data) {
            Ok(changes) => ConfChangeFault::NotSingleStep { changes: changes.len() as u64 }.text(),
            Err(words) => "ConfChangeV2 decode failed: "@ + words,
        },
        EntryType::Entry => ConfChangeFault::NormalEntry.text(),
    }
}

/// What to do about a committed membership change. One that the durable
/// membership already reflects is skipped: it reflects the changes up to
/// `conf_change_index`. The raft core is not touched by an entry that is refused.
pub fn admit_conf_change(
    index: LogIndex,
    conf_change_index: LogIndex,
    entry_type: EntryType,
    data: &[u8],
) -> (r: Result<Option<Change>, NodeError>)
    ensures
        if index <= conf_change_index {
            r == Ok::<Option<Change>, NodeError>(None)
        } else {
            match conf_change::identity(entry_type, data@) {
                Some(change) => r == Ok::<Option<Change>, NodeError>(Some(change)),
                None => r matches Err(NodeError::Codec(words)) && words@ == change_fault(
                    entry_type,
                    data@,
                ),
            }
        },
{
    if index <= conf_change_index {
        return Ok(None);
    }
    match conf_change_identity(entry_type, data) {
        Ok(change) => Ok(Some(change)),
        Err(fault) => Err(NodeError::Codec(fault.message())),
    }
}

/// The node that an id belongs to.
pub open spec fn named(peers: Seq<(RaftId, NodeId)>, id: u64) -> Option<Seq<char>>
    decreases peers.len(),
{
    if peers.len() == 0 {
        None
    } else if peers[0].0 == id {
        Some(peers[0].1.name@)
    } else {
        named(peers.drop_first(), id)
    }
}

/// The node that an id belongs to, if it is known.
pub fn name_of(peers: &Vec<(RaftId, NodeId)>, id: RaftId) -> (r: Option<NodeId>)
    ensures
        match r {
            Some(node) => named(peers@, id) == Some(node.name@),
            None => named(peers@, id) is None,
        },
{
    let n: usize = peers.len();
    let mut i: usize = 0;
    assert(peers@.subrange(0, n as int) =~= peers@);
    while i < n
        invariant
            i <= n,
            n == peers@.len(),
            named(peers@, id) == named(peers@.subrange(i as int, n as int), id),
        decreases n - i,
    {
        assert(peers@.subrange(i as int, n as int).drop_first() =~= peers@.subrange(
            i + 1,
            n as int,
        ));
        if peers[i].0 == id {
            return Some(peers[i].1.copy());
        }
        i = i + 1;
    }
    None
}

/// Where a message goes: never to this node itself, nor to one that is not
/// known; raft sends it again.
pub fn route(peers: &Vec<(RaftId, NodeId)>, self_id: RaftId, to: RaftId) -> (r: Option<NodeId>)
    ensures
        match r {
            Some(node) => to != self_id && named(peers@, to) == Some(node.name@),
            None => to == self_id || named(peers@, to) is None,
        },
{
    if to == self_id {
        None
    } else {
        name_of(peers, to)
    }
}

} // verus!
