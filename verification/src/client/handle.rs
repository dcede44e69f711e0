//! The client handle of one node: it checks arguments, numbers the requests of
//! its session, and decides which node to ask next.
//!
//! A request that a node refuses because it is not the leader goes on to the
//! node that the refusal names, or else to the next one in order. At most
//! [`MAX_REDIRECTS`] refusals are followed.
use vstd::prelude::*;
use vstd::string::*;

use crate::client::{ArachneError, ErrorModel, LeaderHint};
use crate::consensus::conf_change::ChangeKind;
use crate::consensus::node::at_least_one;
use crate::profile::ProfileConfig;
use crate::runtime::command::Command;
use crate::state_machine::kv::KvStateMachine;
use crate::state_machine::sorted::{SortKey, SortedMap};
use crate::text::{push_decimal, same_text};
use crate::types::{NodeId, RaftId};
use crate::bytes::copy_range;
use crate::client;
use crate::consensus::node;
use crate::metrics;
use crate::runtime::command;
use crate::state_machine::kv;
use crate::state_machine::sorted;
use crate::text;

verus! {

/// How many refusals are followed for one request.
pub const MAX_REDIRECTS: u32 = 3;

/// The client handle of one node.
pub struct Handle {
    /// The node.
    pub self_id: NodeId,
    /// The client of the session.
    pub client_id: u64,
    /// The sequence number of the next write.
    pub next_seq: u64,
    /// The channel to the node.
    pub channel: u64,
    /// The channels to other nodes in this process.
    pub peers: SortedMap<NodeId, u64>,
    /// Bytes that a key may have.
    pub max_key_bytes: u64,
    /// Bytes that a value may have.
    pub max_value_bytes: u64,
    /// Milliseconds that a write may take.
    pub timeout_ms: u64,
    /// Milliseconds that a read may take.
    pub read_timeout_ms: u64,
}

/// Whether refusals are followed. The setting belongs to a user of a handle; the
/// session and its sequence numbers are shared.
#[derive(Clone, Copy, Debug, PartialEq, Eq, Structural)]
pub enum Redirects {
    /// Up to [`MAX_REDIRECTS`].
    Follow,
    /// None: a request is made once, and the hint that comes with a refusal
    /// reaches the caller.
    SingleShot,
}

impl Redirects {
    /// How many refusals are followed.
    pub open spec fn budget(self) -> u32 {
        match self {
            Redirects::Follow => MAX_REDIRECTS,
            Redirects::SingleShot => 0,
        }
    }

    /// How many refusals are followed.
    pub fn count(self) -> (n: u32)
        ensures
            n == self.budget(),
    {
        match self {
            Redirects::Follow => MAX_REDIRECTS,
            Redirects::SingleShot => 0,
        }
    }
}

/// The sum of two numbers, or the largest there is.
pub open spec fn capped_add(a: u64, b: u64) -> u64 {
    if a + b > u64::MAX {
        u64::MAX
    } else {
        (a + b) as u64
    }
}

/// The time a read may take: two waits for a read index, one for each attempt,
/// and one election timeout besides.
pub open spec fn read_budget(profile: ProfileConfig) -> u64 {
    let wait = node::max(profile.read_index_timeout_ms, 1);
    capped_add(capped_add(wait, wait), node::max(profile.election_timeout_ms, 1))
}

/// A read may take longer than both waits for a read index together, unless
/// these exceed what a clock can count.
pub proof fn law_read_outlives_its_waits(profile: ProfileConfig)
    requires
        2 * profile.read_index_timeout_ms + profile.election_timeout_ms < u64::MAX - 3,
    ensures
        read_budget(profile) > 2 * profile.read_index_timeout_ms,
{
}

/// The client id of the `counter`-th handle of a process: the process in the
/// high half, the counter in the low half.
pub fn client_id(process: u32, counter: u64) -> (id: u64)
    ensures
        id == ((process as u64) << 32) | counter,
{
    ((process as u64) << 32) | counter
}

/// Handles of distinct processes, or distinct handles of one, have distinct
/// client ids, as long as a process has fewer handles than the low half counts.
pub proof fn law_client_ids_are_distinct(p: u32, m: u64, q: u32, n: u64)
    requires
        m <= u32::MAX,
        n <= u32::MAX,
        p != q || m != n,
    ensures
        ((p as u64) << 32) | m != ((q as u64) << 32) | n,
{
    assert(p != q || m != n ==> ((p as u64) << 32) | m != ((q as u64) << 32) | n) by (bit_vector)
        requires
            m <= 0xffff_ffff,
            n <= 0xffff_ffff,
    ;
}

/// The names of a list of peers, without one's own.
pub open spec fn other_names(peers: Seq<(Seq<char>, u64)>, me: Seq<char>) -> Seq<Seq<char>>
    decreases peers.len(),
{
    if peers.len() == 0 {
        Seq::empty()
    } else {
        let rest = other_names(peers.drop_last(), me);
        if peers.last().0 == me {
            rest
        } else {
            rest.push(peers.last().0)
        }
    }
}

/// The nodes to ask, in order: one's own first, then the others by name.
pub open spec fn order_of(peers: Seq<(Seq<char>, u64)>, me: Seq<char>) -> Seq<Seq<char>> {
    seq![me] + other_names(peers, me)
}

/// The names of a list of nodes.
pub open spec fn names(nodes: Seq<NodeId>) -> Seq<Seq<char>> {
    Seq::new(nodes.len(), |i: int| nodes[i]@)
}

proof fn lemma_other_names(peers: Seq<(Seq<char>, u64)>, me: Seq<char>)
    requires
        sorted::keys_ascend::<NodeId, u64>(peers),
    ensures
        forall|i: int, j: int|
            0 <= i < j < other_names(peers, me).len() ==> sorted::text_before(
                #[trigger] other_names(peers, me)[i],
                #[trigger] other_names(peers, me)[j],
            ),
        forall|i: int|
            0 <= i < other_names(peers, me).len() ==> #[trigger] other_names(peers, me)[i] != me
                && sorted::has_key::<NodeId, u64>(peers, other_names(peers, me)[i]),
        forall|name: Seq<char>| #[trigger]
            sorted::has_key::<NodeId, u64>(peers, name) && name != me ==> other_names(
                peers,
                me,
            ).contains(name),
    decreases peers.len(),
{
    let out = other_names(peers, me);
    if peers.len() > 0 {
        let init = peers.drop_last();
        let rest = other_names(init, me);
        assert forall|i: int, j: int| 0 <= i < j < init.len() implies sorted::text_before(
            (#[trigger] init[i]).0,
            (#[trigger] init[j]).0,
        ) by {
            assert(NodeId::before(peers[i].0, peers[j].0));
        }
        lemma_other_names(init, me);
        assert forall|i: int| 0 <= i < out.len() implies #[trigger] out[i] != me
            && sorted::has_key::<NodeId, u64>(peers, out[i]) by {
            if i < rest.len() {
                assert(rest[i] == out[i]);
                let k = choose|k: int| 0 <= k < init.len() && (#[trigger] init[k]).0 == rest[i];
                assert(peers[k].0 == out[i]);
            } else {
                assert(peers[peers.len() - 1].0 == out[i]);
            }
        }
        assert forall|i: int, j: int| 0 <= i < j < out.len() implies sorted::text_before(
            #[trigger] out[i],
            #[trigger] out[j],
        ) by {
            if j < rest.len() {
                assert(rest[i] == out[i] && rest[j] == out[j]);
            } else {
                assert(rest[i] == out[i]);
                let k = choose|k: int| 0 <= k < init.len() && (#[trigger] init[k]).0 == rest[i];
                assert(NodeId::before(peers[k].0, peers[peers.len() - 1].0));
            }
        }
        assert forall|name: Seq<char>| #[trigger]
            sorted::has_key::<NodeId, u64>(peers, name) && name != me implies out.contains(name) by {
            let k = choose|k: int| 0 <= k < peers.len() && (#[trigger] peers[k]).0 == name;
            if k < init.len() {
                assert(init[k].0 == name);
                assert(sorted::has_key::<NodeId, u64>(init, name));
                let l = choose|l: int| 0 <= l < rest.len() && rest[l] == name;
                assert(out[l] == name);
            } else {
                assert(out[out.len() - 1] == name);
            }
        }
    }
}

/// Every known node stands in the order exactly once, one's own first and the
/// others by name, so that the order is the same for the same peers.
pub proof fn law_order_is_complete(peers: Seq<(Seq<char>, u64)>, me: Seq<char>)
    requires
        sorted::keys_ascend::<NodeId, u64>(peers),
    ensures
        order_of(peers, me)[0] == me,
        forall|i: int, j: int|
            0 <= i < j < order_of(peers, me).len() ==> #[trigger] order_of(peers, me)[i]
                != #[trigger] order_of(peers, me)[j],
        forall|i: int, j: int|
            0 < i < j < order_of(peers, me).len() ==> sorted::text_before(
                #[trigger] order_of(peers, me)[i],
                #[trigger] order_of(peers, me)[j],
            ),
        forall|name: Seq<char>| #[trigger]
            order_of(peers, me).contains(name) <==> name == me || sorted::has_key::<NodeId, u64>(
                peers,
                name,
            ),
{
    lemma_other_names(peers, me);
    let order = order_of(peers, me);
    let rest = other_names(peers, me);
    assert forall|i: int, j: int| 0 < i < j < order.len() implies sorted::text_before(
        #[trigger] order[i],
        #[trigger] order[j],
    ) by {
        assert(order[i] == rest[i - 1] && order[j] == rest[j - 1]);
    }
    assert forall|i: int, j: int| 0 <= i < j < order.len() implies #[trigger] order[i]
        != #[trigger] order[j] by {
        assert(order[j] == rest[j - 1]);
        if i > 0 {
            NodeId::irreflexive(order[i]);
        }
    }
    assert forall|name: Seq<char>| #[trigger]
        order.contains(name) <==> name == me || sorted::has_key::<NodeId, u64>(peers, name) by {
        if order.contains(name) {
            let k = choose|k: int| 0 <= k < order.len() && order[k] == name;
            if k > 0 {
                assert(rest[k - 1] == name);
            }
        }
        if name == me {
            assert(order[0] == me);
        } else if sorted::has_key::<NodeId, u64>(peers, name) {
            let k = choose|k: int| 0 <= k < rest.len() && rest[k] == name;
            assert(order[k + 1] == name);
        }
    }
}

/// The text of a size that exceeds its limit.
pub open spec fn too_long(what: Seq<char>, len: nat, knob: Seq<char>, limit: u64) -> Seq<char> {
    what + " of "@ + text::decimal(len) + " bytes exceeds "@ + knob + " ("@ + text::decimal(
        limit as nat,
    ) + ")"@
}

fn too_long_text(what: &str, len: usize, knob: &str, limit: u64) -> (s: String)
    ensures
        s@ == too_long(what@, len as nat, knob@, limit),
{
    let mut s = String::new();
    s.append(what);
    s.append(" of ");
    push_decimal(&mut s, len as u64);
    s.append(" bytes exceeds ");
    s.append(knob);
    s.append(" (");
    push_decimal(&mut s, limit);
    s.append(")");
    assert(s@ =~= too_long(what@, len as nat, knob@, limit));
    s
}

/// Why a key is refused.
pub open spec fn key_fault(key: Seq<u8>, limit: u64) -> Option<ErrorModel> {
    if key.len() > limit {
        Some(ErrorModel::InvalidArgument(too_long("key"@, key.len(), "max_key_bytes"@, limit)))
    } else {
        None
    }
}

/// Why a key and a value are refused.
pub open spec fn put_fault(
    key: Seq<u8>,
    value: Seq<u8>,
    key_limit: u64,
    value_limit: u64,
) -> Option<ErrorModel> {
    if key.len() > key_limit {
        key_fault(key, key_limit)
    } else if value.len() > value_limit {
        Some(
            ErrorModel::InvalidArgument(
                too_long("value"@, value.len(), "max_value_bytes"@, value_limit),
            ),
        )
    } else {
        None
    }
}

impl Handle {
    /// The peers as mathematical values.
    pub open spec fn known(&self) -> Seq<(Seq<char>, u64)> {
        self.peers.list()
    }

    /// Whether everything but the sequence number and the peers is as before.
    pub open spec fn same_settings(&self, other: &Handle) -> bool {
        &&& self.self_id == other.self_id
        &&& self.client_id == other.client_id
        &&& self.channel == other.channel
        &&& self.max_key_bytes == other.max_key_bytes
        &&& self.max_value_bytes == other.max_value_bytes
        &&& self.timeout_ms == other.timeout_ms
        &&& self.read_timeout_ms == other.read_timeout_ms
    }

    /// The handle of a node, without peers.
    pub fn new_local(
        self_id: NodeId,
        channel: u64,
        client_id: u64,
        profile: &ProfileConfig,
    ) -> (r: Handle)
        ensures
            r.self_id == self_id,
            r.channel == channel,
            r.client_id == client_id,
            r.next_seq == 1,
            r.known() == Seq::<(Seq<char>, u64)>::empty(),
            r.peers.wf(),
            r.max_key_bytes == profile.max_key_bytes,
            r.max_value_bytes == profile.max_value_bytes,
            r.timeout_ms == node::max(profile.election_timeout_ms, 1),
            r.read_timeout_ms == read_budget(*profile),
    {
        let wait: u64 = at_least_one(profile.read_index_timeout_ms);
        let election: u64 = at_least_one(profile.election_timeout_ms);
        Handle {
            self_id,
            client_id,
            next_seq: 1,
            channel,
            peers: SortedMap::new(),
            max_key_bytes: profile.max_key_bytes,
            max_value_bytes: profile.max_value_bytes,
            timeout_ms: election,
            read_timeout_ms: wait.saturating_add(wait).saturating_add(election),
        }
    }

    /// Know another node by its channel.
    pub fn register_peer(&mut self, peer: NodeId, channel: u64)
        requires
            old(self).peers.wf(),
        ensures
            final(self).peers.wf(),
            final(self).same_settings(old(self)),
            final(self).next_seq == old(self).next_seq,
            final(self).known() == sorted::put::<NodeId, u64>(old(self).known(), peer@, channel),
            sorted::as_map::<NodeId, u64>(final(self).known()) == sorted::as_map::<NodeId, u64>(
                old(self).known(),
            ).insert(peer@, channel),
    {
        self.peers.insert(peer, channel);
    }

    /// The node of this handle.
    pub fn node_id(&self) -> (r: &NodeId)
        ensures
            *r == self.self_id,
    {
        &self.self_id
    }

    /// The channel to a node: one's own, or a registered peer's.
    pub fn handle_for(&self, id: &NodeId) -> (r: Option<u64>)
        requires
            self.peers.wf(),
        ensures
            r == (if id@ == self.self_id@ {
                Some(self.channel)
            } else if sorted::as_map::<NodeId, u64>(self.known()).dom().contains(id@) {
                Some(sorted::as_map::<NodeId, u64>(self.known())[id@])
            } else {
                None
            }),
    {
        if same_text(id.as_str(), self.self_id.as_str()) {
            return Some(self.channel);
        }
        match self.peers.get(id) {
            Some(channel) => Some(*channel),
            None => None,
        }
    }

    /// Check a key.
    pub fn validate_key(&self, key: &[u8]) -> (r: Result<(), ArachneError>)
        ensures
            match key_fault(key@, self.max_key_bytes) {
                Some(fault) => r matches Err(e) && e@ == fault,
                None => r is Ok,
            },
    {
        let n: usize = key.len();
        if n as u64 > self.max_key_bytes {
            return Err(
                ArachneError::InvalidArgument(
                    too_long_text("key", n, "max_key_bytes", self.max_key_bytes),
                ),
            );
        }
        Ok(())
    }

    /// Check a key and a value.
    pub fn validate_put(&self, key: &[u8], value: &[u8]) -> (r: Result<(), ArachneError>)
        ensures
            match put_fault(key@, value@, self.max_key_bytes, self.max_value_bytes) {
                Some(fault) => r matches Err(e) && e@ == fault,
                None => r is Ok,
            },
    {
        match self.validate_key(key) {
            Ok(_) => {},
            Err(e) => {
                return Err(e);
            },
        }
        let n: usize = value.len();
        if n as u64 > self.max_value_bytes {
            return Err(
                ArachneError::InvalidArgument(
                    too_long_text("value", n, "max_value_bytes", self.max_value_bytes),
                ),
            );
        }
        Ok(())
    }

    fn take_seq(&mut self) -> (seq_no: u64)
        requires
            old(self).peers.wf(),
        ensures
            seq_no == old(self).next_seq,
            final(self).next_seq == metrics::bumped(seq_no),
            final(self).same_settings(old(self)),
            final(self).peers == old(self).peers,
    {
        let seq_no: u64 = self.next_seq;
        self.next_seq = if seq_no < u64::MAX {
            seq_no + 1
        } else {
            0
        };
        seq_no
    }

    /// The request to write a value. A refused argument takes no sequence
    /// number and proposes nothing.
    pub fn put(&mut self, key: &[u8], value: &[u8]) -> (r: Result<Command, ArachneError>)
        requires
            old(self).peers.wf(),
            put_fault(key@, value@, old(self).max_key_bytes, old(self).max_value_bytes) is Some || (
            key@.len() <= u32::MAX && value@.len() <= u32::MAX),
        ensures
            final(self).same_settings(old(self)),
            final(self).peers == old(self).peers,
            match put_fault(key@, value@, old(self).max_key_bytes, old(self).max_value_bytes) {
                Some(fault) => r matches Err(e) && e@ == fault && *final(self) == *old(self),
                None => {
                    &&& r matches Ok(c)
                    &&& c@ == (command::CommandModel::Propose {
                        cmd: kv::put_bytes(
                            old(self).client_id,
                            old(self).next_seq,
                            key@,
                            value@,
                        ),
                        client_id: old(self).client_id,
                        seq_no: old(self).next_seq,
                    })
                    &&& final(self).next_seq == metrics::bumped(old(self).next_seq)
                },
            },
    {
        match self.validate_put(key, value) {
            Ok(_) => {},
            Err(e) => {
                return Err(e);
            },
        }
        let seq_no: u64 = self.take_seq();
        let client_id: u64 = self.client_id;
        let cmd = KvStateMachine::encode_put(client_id, seq_no, key, value);
        Ok(Command::Propose { cmd, client_id, seq_no })
    }

    /// The request to delete a key.
    pub fn delete(&mut self, key: &[u8]) -> (r: Result<Command, ArachneError>)
        requires
            old(self).peers.wf(),
            key_fault(key@, old(self).max_key_bytes) is Some || key@.len() <= u32::MAX,
        ensures
            final(self).same_settings(old(self)),
            final(self).peers == old(self).peers,
            match key_fault(key@, old(self).max_key_bytes) {
                Some(fault) => r matches Err(e) && e@ == fault && *final(self) == *old(self),
                None => {
                    &&& r matches Ok(c)
                    &&& c@ == (command::CommandModel::Propose {
                        cmd: kv::delete_bytes(old(self).client_id, old(self).next_seq, key@),
                        client_id: old(self).client_id,
                        seq_no: old(self).next_seq,
                    })
                    &&& final(self).next_seq == metrics::bumped(old(self).next_seq)
                },
            },
    {
        match self.validate_key(key) {
            Ok(_) => {},
            Err(e) => {
                return Err(e);
            },
        }
        let seq_no: u64 = self.take_seq();
        let client_id: u64 = self.client_id;
        let cmd = KvStateMachine::encode_delete(client_id, seq_no, key);
        Ok(Command::Propose { cmd, client_id, seq_no })
    }

    /// The request to read what the cluster agreed on.
    pub fn get(&self, key: &[u8]) -> (r: Result<Command, ArachneError>)
        ensures
            match key_fault(key@, self.max_key_bytes) {
                Some(fault) => r matches Err(e) && e@ == fault,
                None => r matches Ok(c) && c@ == (command::CommandModel::Read { key: key@ }),
            },
    {
        match self.validate_key(key) {
            Ok(_) => {},
            Err(e) => {
                return Err(e);
            },
        }
        let copy = copy_range(key, 0, key.len());
        assert(copy@ =~= key@);
        Ok(Command::Read { key: copy })
    }

    /// The request to read the node's own state.
    pub fn get_stale(&self, key: &[u8]) -> (r: Result<Command, ArachneError>)
        ensures
            match key_fault(key@, self.max_key_bytes) {
                Some(fault) => r matches Err(e) && e@ == fault,
                None => r matches Ok(c) && c@ == (command::CommandModel::GetStale { key: key@ }),
            },
    {
        match self.validate_key(key) {
            Ok(_) => {},
            Err(e) => {
                return Err(e);
            },
        }
        let copy = copy_range(key, 0, key.len());
        assert(copy@ =~= key@);
        Ok(Command::GetStale { key: copy })
    }

    /// The request to add a node that receives the log but does not vote.
    pub fn add_learner(node_id: RaftId) -> (c: Command)
        ensures
            c == (Command::ConfChange { kind: ChangeKind::AddLearnerNode, node_id }),
    {
        Command::ConfChange { kind: ChangeKind::AddLearnerNode, node_id }
    }

    /// The request to let a learner vote.
    pub fn promote_learner(node_id: RaftId) -> (c: Command)
        ensures
            c == (Command::ConfChange { kind: ChangeKind::AddNode, node_id }),
    {
        Command::ConfChange { kind: ChangeKind::AddNode, node_id }
    }

    /// The request to take a node out. See [`Handle::after_removal`] for what
    /// follows when the node leads.
    pub fn remove_member(node_id: RaftId) -> (c: Command)
        ensures
            c == (Command::ConfChange { kind: ChangeKind::RemoveNode, node_id }),
    {
        Command::ConfChange { kind: ChangeKind::RemoveNode, node_id }
    }

    /// What follows the answer to a removal: a leader hands leadership to any
    /// other voter first, after which the removal is requested once more.
    /// `None` where the answer is final.
    pub fn after_removal(result: &Result<(), ArachneError>) -> (c: Option<Command>)
        ensures
            c == (match result {
                Err(ArachneError::LeaderRemovalRequiresTransfer) => Some(
                    Command::TransferLeader { target: None },
                ),
                _ => None,
            }),
    {
        match result {
            Err(ArachneError::LeaderRemovalRequiresTransfer) => Some(
                Command::TransferLeader { target: None },
            ),
            _ => None,
        }
    }

    /// The request to hand leadership to a node.
    pub fn transfer_leader(node_id: RaftId) -> (c: Command)
        ensures
            c == (Command::TransferLeader { target: Some(node_id) }),
    {
        Command::TransferLeader { target: Some(node_id) }
    }

    /// The nodes to ask, in order.
    pub fn target_order(&self) -> (r: Vec<NodeId>)
        ensures
            names(r@) == order_of(self.known(), self.self_id@),
            r@.len() > 0,
    {
        let ghost me = self.self_id@;
        let ghost list = self.known();
        let mut order: Vec<NodeId> = Vec::new();
        order.push(self.self_id.copy());
        assert(names(order@) =~= order_of(list.subrange(0, 0), me));
        let n: usize = self.peers.items.len();
        let mut i: usize = 0;
        while i < n
            invariant
                i <= n,
                n == self.peers.items@.len(),
                list == self.known(),
                me == self.self_id@,
                names(order@) == order_of(list.subrange(0, i as int), me),
                order@.len() > 0,
            decreases n - i,
        {
            let ghost next = list.subrange(0, i + 1);
            assert(next.drop_last() =~= list.subrange(0, i as int));
            assert(next.last() == list[i as int]);
            if !same_text(self.peers.items[i].0.as_str(), self.self_id.as_str()) {
                let ghost before = names(order@);
                order.push(self.peers.items[i].0.copy());
                assert(names(order@) =~= before.push(list[i as int].0));
            }
            assert(names(order@) =~= order_of(next, me));
            i = i + 1;
        }
        assert(list.subrange(0, n as int) =~= list);
        order
    }

    /// Milliseconds left of a deadline; the error when none are.
    pub fn remaining(deadline: u64, now: u64) -> (r: Result<u64, ArachneError>)
        ensures
            if now >= deadline {
                r matches Err(e) && e@ == ErrorModel::Timeout
            } else {
                r == Ok::<u64, ArachneError>((deadline - now) as u64)
            },
    {
        if now >= deadline {
            Err(ArachneError::Timeout)
        } else {
            Ok(deadline - now)
        }
    }
}

// ---------------------------------------------------------------------------
// Chasing the leader
// ---------------------------------------------------------------------------
/// The place of a name in an order, if it is there.
pub open spec fn place_of(order: Seq<Seq<char>>, name: Seq<char>) -> Option<int>
    decreases order.len(),
{
    if order.len() == 0 {
        None
    } else if order[0] == name {
        Some(0)
    } else {
        match place_of(order.drop_first(), name) {
            Some(i) => Some(i + 1),
            None => None,
        }
    }
}

/// The place of a name is its first.
pub proof fn lemma_place_of(order: Seq<Seq<char>>, name: Seq<char>)
    ensures
        match place_of(order, name) {
            Some(i) => 0 <= i < order.len() && order[i] == name && forall|k: int|
                0 <= k < i ==> #[trigger] order[k] != name,
            None => !order.contains(name),
        },
    decreases order.len(),
{
    if order.len() > 0 && order[0] != name {
        let rest = order.drop_first();
        lemma_place_of(rest, name);
        match place_of(rest, name) {
            Some(i) => {
                assert forall|k: int| 0 <= k < i + 1 implies #[trigger] order[k] != name by {
                    if k > 0 {
                        assert(rest[k - 1] == order[k]);
                    }
                }
            },
            None => {
                if order.contains(name) {
                    let k = choose|k: int| 0 <= k < order.len() && order[k] == name;
                    assert(rest[k - 1] == name);
                }
            },
        }
    }
}

fn find_name(order: &Vec<NodeId>, name: &NodeId) -> (r: Option<usize>)
    ensures
        match r {
            Some(i) => place_of(names(order@), name@) == Some(i as int) && i < order@.len(),
            None => place_of(names(order@), name@) is None,
        },
{
    let ghost all = names(order@);
    proof {
        lemma_place_of(all, name@);
    }
    let n: usize = order.len();
    let mut i: usize = 0;
    while i < n
        invariant
            i <= n,
            n == order@.len(),
            all == names(order@),
            forall|k: int| 0 <= k < i ==> #[trigger] all[k] != name@,
            match place_of(all, name@) {
                Some(i) => 0 <= i < all.len() && all[i] == name@ && forall|k: int|
                    0 <= k < i ==> #[trigger] all[k] != name@,
                None => !all.contains(name@),
            },
        decreases n - i,
    {
        assert(all[i as int] == order@[i as int]@);
        if same_text(order[i].as_str(), name.as_str()) {
            return Some(i);
        }
        i = i + 1;
    }
    None
}

/// The next place after a refusal: that of the named leader, or the one after
/// this. `None` where no leader is named or the place does not change.
pub open spec fn next_place(order: Seq<Seq<char>>, pos: int, hint: client::HintModel) -> Option<
    int,
> {
    match hint {
        None => None,
        Some((leader, _)) => {
            let next = match place_of(order, leader) {
                Some(i) => i,
                None => (pos + 1) % (order.len() as int),
            };
            if next == pos {
                None
            } else {
                Some(next)
            }
        },
    }
}

/// A request on its way to the leader.
pub struct Chase {
    /// The nodes to ask, one's own first.
    pub order: Vec<NodeId>,
    /// The node to ask now.
    pub pos: usize,
    /// Refusals followed.
    pub redirects: u32,
    /// Times that another node did not accept the request.
    pub unreachable: u64,
    /// Refusals that may be followed.
    pub max_redirects: u32,
}

/// How an attempt failed.
#[derive(Clone, Debug, PartialEq, Eq)]
pub enum Failure {
    /// The request did not get through, or no answer came in time.
    Delivery(ArachneError),
    /// The node answered with an error.
    Answer(ArachneError),
}

/// What follows a failed attempt.
#[derive(Debug, PartialEq, Eq)]
pub enum NextStep {
    /// Ask the node that is now at the front.
    Retry,
    /// Give up.
    Stop(ArachneError),
}

/// A chase as a mathematical value.
#[verifier::ext_equal]
pub struct ChaseModel {
    pub order: Seq<Seq<char>>,
    pub pos: int,
    pub redirects: int,
    pub unreachable: int,
    pub max_redirects: int,
}

impl ChaseModel {
    /// Whether the chase is under way.
    pub open spec fn wf(self) -> bool {
        &&& 0 <= self.pos < self.order.len()
        &&& 0 <= self.redirects <= self.max_redirects <= u32::MAX
        &&& 0 <= self.unreachable < self.order.len()
        &&& self.unreachable == 0 || self.unreachable + 1 < self.order.len()
    }
}

impl View for Chase {
    type V = ChaseModel;

    open spec fn view(&self) -> ChaseModel {
        ChaseModel {
            order: names(self.order@),
            pos: self.pos as int,
            redirects: self.redirects as int,
            unreachable: self.unreachable as int,
            max_redirects: self.max_redirects as int,
        }
    }
}

/// What follows when a request did not get through. Another node that is gone is
/// not this one shutting down: the next is asked, until all have failed.
pub open spec fn after_delivery_failure(m: ChaseModel, e: ErrorModel) -> (
    ChaseModel,
    Option<ErrorModel>,
) {
    if e == ErrorModel::ShuttingDown && m.order[m.pos] != m.order[0] {
        let next = ChaseModel { unreachable: m.unreachable + 1, ..m };
        if next.unreachable + 1 >= m.order.len() {
            (next, Some(ErrorModel::QuorumUnavailable))
        } else {
            (ChaseModel { pos: (m.pos + 1) % (m.order.len() as int), ..next }, None)
        }
    } else {
        (m, Some(e))
    }
}

/// What follows when a node answered with an error. Only a refusal for want of
/// leadership is followed.
pub open spec fn after_answer(m: ChaseModel, e: ErrorModel) -> (ChaseModel, Option<ErrorModel>) {
    match e {
        ErrorModel::NotLeader(hint) => if m.max_redirects == 0 {
            (m, Some(e))
        } else {
            match next_place(m.order, m.pos, hint) {
                None => (m, Some(ErrorModel::QuorumUnavailable)),
                Some(next) => if m.redirects == m.max_redirects {
                    (m, Some(ErrorModel::Timeout))
                } else {
                    (ChaseModel { pos: next, redirects: m.redirects + 1, ..m }, None)
                },
            }
        },
        _ => (m, Some(e)),
    }
}

impl Chase {
    /// A chase that starts at one's own node.
    pub fn new(handle: &Handle, redirects: Redirects) -> (r: Chase)
        ensures
            r@ == (ChaseModel {
                order: order_of(handle.known(), handle.self_id@),
                pos: 0,
                redirects: 0,
                unreachable: 0,
                max_redirects: redirects.budget() as int,
            }),
            r@.wf(),
    {
        Chase {
            order: handle.target_order(),
            pos: 0,
            redirects: 0,
            unreachable: 0,
            max_redirects: redirects.count(),
        }
    }

    /// The node to ask now.
    pub fn target(&self) -> (r: &NodeId)
        requires
            self@.wf(),
        ensures
            r@ == self@.order[self@.pos],
    {
        &self.order[self.pos]
    }

    /// The next place after a refusal.
    pub fn redirect_pos(&self, hint: &LeaderHint) -> (r: Option<usize>)
        requires
            self@.wf(),
        ensures
            match r {
                Some(next) => next_place(self@.order, self@.pos, client::hint_model(*hint)) == Some(
                    next as int,
                ) && next < self@.order.len(),
                None => next_place(self@.order, self@.pos, client::hint_model(*hint)) is None,
            },
    {
        match hint {
            None => None,
            Some((leader, _)) => {
                let n: usize = self.order.len();
                let next: usize = match find_name(&self.order, leader) {
                    Some(i) => i,
                    None => (self.pos + 1) % n,
                };
                if next == self.pos {
                    None
                } else {
                    Some(next)
                }
            },
        }
    }

    /// Take note of a failed attempt.
    pub fn after(&mut self, failure: Failure) -> (r: NextStep)
        requires
            old(self)@.wf(),
        ensures
            ({
                let (next, end) = match failure {
                    Failure::Delivery(e) => after_delivery_failure(old(self)@, e@),
                    Failure::Answer(e) => after_answer(old(self)@, e@),
                };
                &&& final(self)@ == next
                &&& match end {
                    Some(error) => r matches NextStep::Stop(e) && e@ == error,
                    None => r is Retry && next.wf(),
                }
            }),
    {
        let ghost m = self@;
        match failure {
            Failure::Delivery(e) => {
                let gone = match &e {
                    ArachneError::ShuttingDown => true,
                    _ => false,
                };
                assert(m.order[m.pos] == self.order@[m.pos]@);
                assert(m.order[0] == self.order@[0]@);
                if gone && !same_text(self.order[self.pos].as_str(), self.order[0].as_str()) {
                    let n: usize = self.order.len();
                    self.unreachable = self.unreachable + 1;
                    if self.unreachable + 1 >= n as u64 {
                        NextStep::Stop(ArachneError::QuorumUnavailable)
                    } else {
                        self.pos = (self.pos + 1) % n;
                        NextStep::Retry
                    }
                } else {
                    NextStep::Stop(e)
                }
            },
            Failure::Answer(e) => match e {
                ArachneError::NotLeader { leader_hint } => {
                    if self.max_redirects == 0 {
                        return NextStep::Stop(ArachneError::NotLeader { leader_hint });
                    }
                    match self.redirect_pos(&leader_hint) {
                        None => NextStep::Stop(ArachneError::QuorumUnavailable),
                        Some(next) => {
                            if self.redirects == self.max_redirects {
                                NextStep::Stop(ArachneError::Timeout)
                            } else {
                                self.pos = next;
                                self.redirects = self.redirects + 1;
                                NextStep::Retry
                            }
                        },
                    }
                },
                other => NextStep::Stop(other),
            },
        }
    }
}

/// A chase ends: every retry follows one more refusal or one more node that is
/// gone, of which there are at most so many.
pub proof fn law_chase_ends(m: ChaseModel, e: ErrorModel, delivery: bool)
    requires
        m.wf(),
    ensures
        ({
            let (next, end) = if delivery {
                after_delivery_failure(m, e)
            } else {
                after_answer(m, e)
            };
            end is None ==> {
                &&& next.wf()
                &&& next.redirects + next.unreachable == m.redirects + m.unreachable + 1
                &&& next.redirects + next.unreachable <= m.max_redirects + m.order.len()
            }
        }),
{
    if !delivery {
        if let ErrorModel::NotLeader(Some((leader, _))) = e {
            lemma_place_of(m.order, leader);
        }
    }
}

/// A refusal without a leader's name is an unavailable quorum; with redirects
/// switched off it reaches the caller with its hint.
pub proof fn law_refusals(m: ChaseModel, hint: client::HintModel)
    requires
        m.wf(),
    ensures
        m.max_redirects == 0 ==> after_answer(m, ErrorModel::NotLeader(hint)).1 == Some(
            ErrorModel::NotLeader(hint),
        ),
        m.max_redirects > 0 && hint is None ==> after_answer(m, ErrorModel::NotLeader(hint)).1
            == Some(ErrorModel::QuorumUnavailable),
        m.redirects == m.max_redirects && m.max_redirects > 0 ==> after_answer(
            m,
            ErrorModel::NotLeader(hint),
        ).1 is Some,
        match hint {
            Some((leader, _)) => m.order.contains(leader) && m.order[m.pos] != leader && m.redirects
                < m.max_redirects ==> ({
                let (next, end) = after_answer(m, ErrorModel::NotLeader(hint));
                end is None && next.order[next.pos] == leader
            }),
            None => true,
        },
{
    if let Some((leader, _)) = hint {
        lemma_place_of(m.order, leader);
    }
}

} // verus!
