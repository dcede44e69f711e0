//! Requests of clients and the answers to them.
use vstd::prelude::*;

use crate::client::{ArachneError, ErrorModel, HintModel, LeaderHint};
use crate::consensus::conf_change::ChangeKind;
use crate::types::{ConfModel, ConfState, RaftId};
use crate::client;

verus! {

/// A request to the node.
#[derive(Clone, Debug, PartialEq, Eq)]
pub enum Command {
    /// Change the membership by one step; answered once the new configuration
    /// is durable.
    ConfChange {
        /// What to do.
        kind: ChangeKind,
        /// To which node.
        node_id: RaftId,
    },
    /// Report the applied membership; any node answers.
    Membership,
    /// Move leadership; answered once it has moved.
    TransferLeader {
        /// To whom; any other voter if none is named.
        target: Option<RaftId>,
    },
    /// Propose a command; answered once it is committed and applied.
    Propose {
        /// The encoded command.
        cmd: Vec<u8>,
        /// The client of the session.
        client_id: u64,
        /// Its sequence number.
        seq_no: u64,
    },
    /// Read this node's applied state.
    GetStale {
        /// The key.
        key: Vec<u8>,
    },
    /// Read what the cluster agreed on; only the leader answers.
    Read {
        /// The key.
        key: Vec<u8>,
    },
    /// Report where the leader is thought to be.
    LeaderHint,
}

/// A request as a mathematical value.
#[verifier::ext_equal]
pub enum CommandModel {
    ConfChange { kind: ChangeKind, node_id: u64 },
    Membership,
    TransferLeader { target: Option<u64> },
    Propose { cmd: Seq<u8>, client_id: u64, seq_no: u64 },
    GetStale { key: Seq<u8> },
    Read { key: Seq<u8> },
    LeaderHint,
}

impl View for Command {
    type V = CommandModel;

    open spec fn view(&self) -> CommandModel {
        match *self {
            Command::ConfChange { kind, node_id } => CommandModel::ConfChange { kind, node_id },
            Command::Membership => CommandModel::Membership,
            Command::TransferLeader { target } => CommandModel::TransferLeader { target },
            Command::Propose { cmd, client_id, seq_no } => CommandModel::Propose {
                cmd: cmd@,
                client_id,
                seq_no,
            },
            Command::GetStale { key } => CommandModel::GetStale { key: key@ },
            Command::Read { key } => CommandModel::Read { key: key@ },
            Command::LeaderHint => CommandModel::LeaderHint,
        }
    }
}

/// What a request is answered.
#[derive(Debug, PartialEq, Eq)]
pub enum Reply {
    /// It is done.
    Done,
    /// The applied membership.
    Members(ConfState),
    /// Where the leader is thought to be.
    Hint(LeaderHint),
    /// It failed.
    Failed(ArachneError),
}

/// An answer as a mathematical value.
#[verifier::ext_equal]
pub enum ReplyModel {
    Done,
    Members(ConfModel),
    Hint(HintModel),
    Failed(ErrorModel),
}

impl View for Reply {
    type V = ReplyModel;

    open spec fn view(&self) -> ReplyModel {
        match *self {
            Reply::Done => ReplyModel::Done,
            Reply::Members(conf) => ReplyModel::Members(conf@),
            Reply::Hint(hint) => ReplyModel::Hint(client::hint_model(hint)),
            Reply::Failed(e) => ReplyModel::Failed(e@),
        }
    }
}

/// An answer and the request it belongs to.
#[derive(Debug, PartialEq, Eq)]
pub struct Answer {
    pub ticket: u64,
    pub reply: Reply,
}

/// An answer with its request as a mathematical value.
#[verifier::ext_equal]
pub struct AnswerModel {
    pub ticket: u64,
    pub reply: ReplyModel,
}

impl View for Answer {
    type V = AnswerModel;

    open spec fn view(&self) -> AnswerModel {
        AnswerModel { ticket: self.ticket, reply: self.reply@ }
    }
}

/// A list of answers as mathematical values.
pub open spec fn answer_models(s: Seq<Answer>) -> Seq<AnswerModel> {
    Seq::new(s.len(), |i: int| s[i]@)
}

/// The answer that a request failed.
pub open spec fn failed(ticket: u64, e: ErrorModel) -> AnswerModel {
    AnswerModel { ticket, reply: ReplyModel::Failed(e) }
}

/// The answer that a request is done.
pub open spec fn done(ticket: u64) -> AnswerModel {
    AnswerModel { ticket, reply: ReplyModel::Done }
}

/// Add an answer to a list.
pub fn push_answer(answers: &mut Vec<Answer>, ticket: u64, reply: Reply)
    ensures
        answer_models(final(answers)@) == answer_models(old(answers)@).push(
            (AnswerModel { ticket, reply: reply@ }),
        ),
{
    let ghost before = answer_models(answers@);
    let ghost model = AnswerModel { ticket, reply: reply@ };
    answers.push(Answer { ticket, reply });
    assert(answer_models(answers@) =~= before.push(model));
}

/// A request is seen with all it says: what to change and for which node, whom to hand
/// leadership to, what to write in which session, which key to read.
pub proof fn law_request_is_seen_in_full(c: Command)
    ensures
        c matches Command::ConfChange { kind, node_id } ==> c@ == (CommandModel::ConfChange {
            kind,
            node_id,
        }),
        c is Membership <==> c@ is Membership,
        c matches Command::TransferLeader { target } ==> c@ == (CommandModel::TransferLeader {
            target,
        }),
        c matches Command::Propose { cmd, client_id, seq_no } ==> c@ == (CommandModel::Propose {
            cmd: cmd@,
            client_id,
            seq_no,
        }),
        c matches Command::GetStale { key } ==> c@ == (CommandModel::GetStale { key: key@ }),
        c matches Command::Read { key } ==> c@ == (CommandModel::Read { key: key@ }),
        c is LeaderHint <==> c@ is LeaderHint,
{
}

/// An answer is seen with the request it belongs to and all it says.
pub proof fn law_answer_is_seen_in_full(a: Answer)
    ensures
        a@.ticket == a.ticket,
        a.reply is Done <==> a@.reply is Done,
        a.reply matches Reply::Members(conf) ==> a@.reply == ReplyModel::Members(conf@),
        a.reply matches Reply::Hint(hint) ==> a@.reply == ReplyModel::Hint(
            client::hint_model(hint),
        ),
        a.reply matches Reply::Failed(e) ==> a@.reply == ReplyModel::Failed(e@),
{
}

} // verus!
