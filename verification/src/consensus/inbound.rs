//! What becomes of a message that arrives from another node.
use vstd::prelude::*;

use crate::consensus::node::NodeError;
use crate::types::{LogIndex, RaftId, Term};

verus! {

/// What to do with a message. Its sender is the one the transport names, whatever
/// the message itself says.
#[derive(Clone, Copy, Debug, PartialEq, Eq, Structural)]
pub enum Inbound {
    /// Hand it to the raft core, as a message of `from`.
    Step { from: RaftId },
    /// Hold it back until the bytes of the snapshot it announces are here.
    Hold { from: RaftId, index: LogIndex, term: Term },
}

/// What bytes decode to as a raft `Message`: the index and the term of the snapshot
/// that a `MsgSnapshot` announces, nothing for any other kind of message, or the
/// decoder's words for why they do not decode.
pub uninterp spec fn parsed_inbound(data: Seq<u8>) -> Result<Option<(u64, u64)>, Seq<char>>;

/// `Message::merge_from_bytes` on an empty raft message: the bytes decode to what
/// [`parsed_inbound`] names, or the decoder refuses them with the words that it
/// names.
#[verifier::external_body]
fn parse_inbound(data: &[u8]) -> (r: Result<Option<(u64, u64)>, String>)
    ensures
        match r {
            Ok(snapshot) => parsed_inbound(data@) == Ok::<Option<(u64, u64)>, Seq<char>>(snapshot),
            Err(words) => parsed_inbound(data@) == Err::<Option<(u64, u64)>, Seq<char>>(words@),
        },
{
    let mut message = raft::eraftpb::Message::default();
    let merged = protobuf::Message::merge_from_bytes(&mut message, data);
    merged.map_err(|e| format!("{e}"))?;
    let meta = message.get_snapshot().get_metadata();
    Ok(match message.get_msg_type() {
        raft::eraftpb::MessageType::MsgSnapshot => Some((meta.get_index(), meta.get_term())),
        _ => None,
    })
}

/// What becomes of a message that announces `snapshot`, if any. Where snapshots
/// travel apart from the messages that announce them, such a message waits.
pub open spec fn admitted(from: u64, snapshot: Option<(u64, u64)>, streamed: bool) -> Inbound {
    match snapshot {
        Some((index, term)) => if streamed {
            Inbound::Hold { from, index, term }
        } else {
            Inbound::Step { from }
        },
        None => Inbound::Step { from },
    }
}

/// Decide on a message that announces `snapshot`, if any.
pub fn decide(from: RaftId, snapshot: Option<(LogIndex, Term)>, streamed: bool) -> (r: Inbound)
    ensures
        r == admitted(from, snapshot, streamed),
{
    match snapshot {
        Some((index, term)) => {
            if streamed {
                Inbound::Hold { from, index, term }
            } else {
                Inbound::Step { from }
            }
        },
        None => Inbound::Step { from },
    }
}

/// Decode a message from the peer that the transport names, and decide on it.
pub fn admit_inbound(from: RaftId, data: &[u8], streamed: bool) -> (r: Result<Inbound, NodeError>)
    ensures
        match parsed_inbound(data@) {
            Err(words) => r matches Err(NodeError::Codec(detail)) && detail@ == words,
            Ok(snapshot) => r == Ok::<Inbound, NodeError>(admitted(from, snapshot, streamed)),
        },
{
    match parse_inbound(data) {
        Err(words) => Err(NodeError::Codec(words)),
        Ok(snapshot) => Ok(decide(from, snapshot, streamed)),
    }
}

/// The sender of an admitted message is the one that the transport names: the same
/// bytes from two peers are taken for messages of either.
pub proof fn law_sender_is_the_transports(
    from: u64,
    other: u64,
    snapshot: Option<(u64, u64)>,
    streamed: bool,
)
    ensures
        match (admitted(from, snapshot, streamed), admitted(other, snapshot, streamed)) {
            (Inbound::Step { from: a }, Inbound::Step { from: b }) => a == from && b == other,
            (
                Inbound::Hold { from: a, index: i, term: t },
                Inbound::Hold { from: b, index: j, term: u },
            ) => a == from && b == other && i == j && t == u,
            _ => false,
        },
{
}

} // verus!
