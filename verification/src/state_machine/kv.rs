//! A key-value store with a session table, as a replicated state machine.
//!
//! A command is `Put` (set a key; the result is the value) or `Delete` (remove
//! a key; the result is no value), and carries a session `(client_id, seq_no)`.
//! A session's command is applied exactly once: when it comes again at a later
//! index, the result of the first time is returned and nothing changes. The
//! session table is part of the snapshot, so a rebuilt node deduplicates alike.
use vstd::prelude::*;
use vstd::string::*;

use crate::bytes::{copy_range, get_u32, get_u64, put_slice, put_u32, put_u64};
use crate::state_machine::sorted::{SessionKey, SortedMap};
use crate::text::push_decimal;
use crate::types::{copy_bytes, LogIndex};
use crate::bytes;
use crate::state_machine::sorted;
use crate::text;

verus! {

/// Errors from the state machine.
#[derive(Clone, Copy, Debug, PartialEq, Eq)]
pub enum KvError {
    /// The command bytes are malformed.
    MalformedCommand,
    /// The snapshot bytes are malformed.
    MalformedSnapshot,
    /// The entry is not the one after the last applied.
    IndexViolation { index: LogIndex },
}

impl KvError {
    /// The text of [`KvError::message`].
    pub open spec fn text(self) -> Seq<char> {
        match self {
            KvError::MalformedCommand => "malformed command"@,
            KvError::MalformedSnapshot => "malformed snapshot"@,
            KvError::IndexViolation { index } => "index ordering violation at "@ + text::decimal(
                index as nat,
            ),
        }
    }

    /// A description of the error.
    pub fn message(&self) -> (s: String)
        ensures
            s@ == self.text(),
    {
        let mut s = String::new();
        match self {
            KvError::MalformedCommand => s.append("malformed command"),
            KvError::MalformedSnapshot => s.append("malformed snapshot"),
            KvError::IndexViolation { index } => {
                s.append("index ordering violation at ");
                push_decimal(&mut s, *index);
            },
        }
        assert(s@ =~= self.text());
        s
    }
}

/// The result of applying an entry.
#[derive(Debug, PartialEq, Eq)]
pub enum ApplyOutcome {
    /// No value.
    NoValue,
    /// The stored value.
    Value(Vec<u8>),
}

impl View for ApplyOutcome {
    type V = Option<Seq<u8>>;

    open spec fn view(&self) -> Option<Seq<u8>> {
        match self {
            ApplyOutcome::NoValue => None,
            ApplyOutcome::Value(v) => Some(v@),
        }
    }
}

impl Clone for ApplyOutcome {
    fn clone(&self) -> (r: Self)
        ensures
            r@ == self@,
    {
        match self {
            ApplyOutcome::NoValue => ApplyOutcome::NoValue,
            ApplyOutcome::Value(v) => ApplyOutcome::Value(copy_bytes(v)),
        }
    }
}

// ---------------------------------------------------------------------------
// Commands
// ---------------------------------------------------------------------------
/// A command: its session, the key, and the value to put (none: delete the key).
#[verifier::ext_equal]
pub struct CommandModel {
    pub session: SessionKey,
    pub key: Seq<u8>,
    pub value: Option<Seq<u8>>,
}

/// A decoded command.
pub struct KvCommand {
    pub session: SessionKey,
    pub key: Vec<u8>,
    pub value: Option<Vec<u8>>,
}

impl View for KvCommand {
    type V = CommandModel;

    open spec fn view(&self) -> CommandModel {
        CommandModel {
            session: self.session,
            key: self.key@,
            value: match self.value {
                Some(v) => Some(v@),
                None => None,
            },
        }
    }
}

/// A byte string with its length in front.
pub open spec fn block_bytes(data: Seq<u8>) -> Seq<u8> {
    bytes::u32_bytes(data.len() as u32) + data
}

/// The byte string that stands at `offset`, and the offset just past it; `None`
/// if the bytes end before it does.
pub open spec fn block_at(s: Seq<u8>, offset: int) -> Option<(Seq<u8>, int)> {
    let end = offset + 4 + bytes::u32_at(s, offset);
    if offset + 4 > s.len() || end > s.len() {
        None
    } else {
        Some((s.subrange(offset + 4, end), end))
    }
}

/// The bytes of a `Put` command.
pub open spec fn put_bytes(client_id: u64, seq_no: u64, key: Seq<u8>, value: Seq<u8>) -> Seq<u8> {
    seq![0u8] + bytes::u64_bytes(client_id) + bytes::u64_bytes(seq_no) + block_bytes(key) + block_bytes(value)
}

/// The bytes of a `Delete` command.
pub open spec fn delete_bytes(client_id: u64, seq_no: u64, key: Seq<u8>) -> Seq<u8> {
    seq![1u8] + bytes::u64_bytes(client_id) + bytes::u64_bytes(seq_no) + block_bytes(key)
}

/// What command bytes decode to. Bytes after a put value are ignored; a delete
/// ends with its key.
pub open spec fn decoded_command(cmd: Seq<u8>) -> Option<CommandModel> {
    let session = SessionKey { client_id: bytes::u64_at(cmd, 1), seq_no: bytes::u64_at(cmd, 9) };
    if cmd.len() < 17 || cmd[0] > 1 {
        None
    } else {
        match block_at(cmd, 17) {
            None => None,
            Some((key, next)) => if cmd[0] == 0 {
                match block_at(cmd, next) {
                    None => None,
                    Some((value, _)) => Some(CommandModel { session, key, value: Some(value) }),
                }
            } else if next != cmd.len() {
                None
            } else {
                Some(CommandModel { session, key, value: None })
            },
        }
    }
}

fn read_block(s: &[u8], offset: usize) -> (r: Option<(Vec<u8>, usize)>)
    requires
        offset <= s@.len(),
    ensures
        match r {
            Some(v) => block_at(s@, offset as int) == Some((v.0@, v.1 as int)) && v.1 <= s@.len()
                && v.0@.len() <= u32::MAX,
            None => block_at(s@, offset as int) is None,
        },
{
    let total: usize = s.len();
    if total - offset < 4 {
        return None;
    }
    let len: u32 = get_u32(s, offset);
    let start: usize = offset + 4;
    if total - start < len as usize {
        return None;
    }
    let end: usize = start + len as usize;
    Some((copy_range(s, start, end), end))
}

fn put_block(buf: &mut Vec<u8>, data: &[u8])
    requires
        data@.len() <= u32::MAX,
    ensures
        final(buf)@ == old(buf)@ + block_bytes(data@),
{
    put_u32(buf, data.len() as u32);
    put_slice(buf, data);
    assert(buf@ =~= old(buf)@ + block_bytes(data@));
}

// ---------------------------------------------------------------------------
// State
// ---------------------------------------------------------------------------
/// The state as lists in key order, with the last applied index.
#[verifier::ext_equal]
pub struct KvModel {
    pub kv: Seq<(Seq<u8>, Seq<u8>)>,
    pub sessions: Seq<(SessionKey, Option<Seq<u8>>)>,
    pub applied: u64,
}

impl KvModel {
    /// The stored keys and values.
    pub open spec fn store(self) -> Map<Seq<u8>, Seq<u8>> {
        sorted::as_map::<Vec<u8>, Seq<u8>>(self.kv)
    }

    /// The sessions and their results.
    pub open spec fn session_table(self) -> Map<SessionKey, Option<Seq<u8>>> {
        sorted::as_map::<SessionKey, Option<Seq<u8>>>(self.sessions)
    }

    /// The lists are in key order, and every length fits its field.
    pub open spec fn wf(self) -> bool {
        &&& sorted::keys_ascend::<Vec<u8>, Seq<u8>>(self.kv)
        &&& sorted::keys_ascend::<SessionKey, Option<Seq<u8>>>(self.sessions)
        &&& forall|i: int|
            0 <= i < self.kv.len() ==> (#[trigger] self.kv[i]).0.len() <= u32::MAX
                && self.kv[i].1.len() <= u32::MAX
        &&& forall|i: int|
            0 <= i < self.sessions.len() ==> ((#[trigger] self.sessions[i]).1 matches Some(v)
                ==> v.len() <= u32::MAX)
    }
}

/// The store after a command whose session is new.
pub open spec fn executed(m: KvModel, c: CommandModel) -> KvModel {
    KvModel {
        kv: match c.value {
            Some(v) => sorted::put::<Vec<u8>, Seq<u8>>(m.kv, c.key, v),
            None => sorted::take_out::<Vec<u8>, Seq<u8>>(m.kv, c.key),
        },
        sessions: sorted::put::<SessionKey, Option<Seq<u8>>>(m.sessions, c.session, c.value),
        applied: m.applied,
    }
}

/// The state and result of applying an entry.
pub open spec fn applied_entry(m: KvModel, index: u64, cmd: Seq<u8>) -> (
    KvModel,
    Result<Option<Seq<u8>>, KvError>,
) {
    if m.applied == u64::MAX || index != m.applied + 1 {
        (m, Err(KvError::IndexViolation { index }))
    } else if cmd.len() == 0 {
        (KvModel { applied: index, ..m }, Ok(None))
    } else {
        match decoded_command(cmd) {
            None => (m, Err(KvError::MalformedCommand)),
            Some(c) => if m.session_table().dom().contains(c.session) {
                (KvModel { applied: index, ..m }, Ok(m.session_table()[c.session]))
            } else {
                (KvModel { applied: index, ..executed(m, c) }, Ok(c.value))
            },
        }
    }
}

// ---------------------------------------------------------------------------
// Snapshots
// ---------------------------------------------------------------------------
/// Keys and values, one pair after the other.
pub open spec fn pairs_bytes(kv: Seq<(Seq<u8>, Seq<u8>)>) -> Seq<u8>
    decreases kv.len(),
{
    if kv.len() == 0 {
        Seq::empty()
    } else {
        pairs_bytes(kv.drop_last()) + block_bytes(kv.last().0) + block_bytes(kv.last().1)
    }
}

/// A session's result: a tag, and the value if there is one.
pub open spec fn outcome_bytes(o: Option<Seq<u8>>) -> Seq<u8> {
    match o {
        None => seq![0u8],
        Some(v) => seq![1u8] + block_bytes(v),
    }
}

/// One session and its result.
pub open spec fn session_bytes(s: (SessionKey, Option<Seq<u8>>)) -> Seq<u8> {
    bytes::u64_bytes(s.0.client_id) + bytes::u64_bytes(s.0.seq_no) + outcome_bytes(s.1)
}

/// Sessions and results, one after the other.
pub open spec fn sessions_bytes(sessions: Seq<(SessionKey, Option<Seq<u8>>)>) -> Seq<u8>
    decreases sessions.len(),
{
    if sessions.len() == 0 {
        Seq::empty()
    } else {
        sessions_bytes(sessions.drop_last()) + session_bytes(sessions.last())
    }
}

/// The bytes of a snapshot: the applied index, the pairs in key order, the
/// sessions in order, each list with its length in front.
pub open spec fn state_bytes(m: KvModel) -> Seq<u8> {
    bytes::u64_bytes(m.applied) + bytes::u32_bytes(m.kv.len() as u32) + pairs_bytes(m.kv) + bytes::u32_bytes(
        m.sessions.len() as u32,
    ) + sessions_bytes(m.sessions)
}

/// Reading `n` pairs from `offset` on: the pairs read before the bytes gave
/// out, set one after the other, and the offset after the last.
pub open spec fn pairs_read(
    s: Seq<u8>,
    offset: int,
    n: nat,
    kv: Seq<(Seq<u8>, Seq<u8>)>,
) -> (Seq<(Seq<u8>, Seq<u8>)>, Option<int>)
    decreases n,
{
    if n == 0 {
        (kv, Some(offset))
    } else {
        match block_at(s, offset) {
            None => (kv, None),
            Some((key, middle)) => match block_at(s, middle) {
                None => (kv, None),
                Some((value, next)) => pairs_read(
                    s,
                    next,
                    (n - 1) as nat,
                    sorted::put::<Vec<u8>, Seq<u8>>(kv, key, value),
                ),
            },
        }
    }
}

/// The session and result that stand at `offset`, and the offset just past them.
pub open spec fn session_at(s: Seq<u8>, offset: int) -> Option<
    ((SessionKey, Option<Seq<u8>>), int),
> {
    let key = SessionKey { client_id: bytes::u64_at(s, offset), seq_no: bytes::u64_at(s, offset + 8) };
    if offset + 17 > s.len() {
        None
    } else if s[offset + 16] == 0 {
        Some(((key, None), offset + 17))
    } else if s[offset + 16] == 1 {
        match block_at(s, offset + 17) {
            None => None,
            Some((value, next)) => Some(((key, Some(value)), next)),
        }
    } else {
        None
    }
}

/// Reading `n` sessions from `offset` on, like [`pairs_read`].
pub open spec fn sessions_read(
    s: Seq<u8>,
    offset: int,
    n: nat,
    sessions: Seq<(SessionKey, Option<Seq<u8>>)>,
) -> (Seq<(SessionKey, Option<Seq<u8>>)>, Option<int>)
    decreases n,
{
    if n == 0 {
        (sessions, Some(offset))
    } else {
        match session_at(s, offset) {
            None => (sessions, None),
            Some((item, next)) => sessions_read(
                s,
                next,
                (n - 1) as nat,
                sorted::put::<SessionKey, Option<Seq<u8>>>(sessions, item.0, item.1),
            ),
        }
    }
}

/// Restoring from snapshot bytes: the state, and whether the bytes were well
/// formed. Where they were not, what was read before the fault has taken effect.
pub open spec fn restored(m: KvModel, s: Seq<u8>) -> (KvModel, bool) {
    if s.len() < 8 {
        (m, false)
    } else {
        let m1 = KvModel { applied: bytes::u64_at(s, 0), ..m };
        if s.len() < 12 {
            (m1, false)
        } else {
            let (kv, after_kv) = pairs_read(s, 12, bytes::u32_at(s, 8) as nat, Seq::empty());
            let m2 = KvModel { kv, ..m1 };
            match after_kv {
                None => (m2, false),
                Some(at) => if at + 4 > s.len() {
                    (m2, false)
                } else {
                    let (sessions, end) = sessions_read(
                        s,
                        at + 4,
                        bytes::u32_at(s, at) as nat,
                        Seq::empty(),
                    );
                    (KvModel { sessions, ..m2 }, end == Some(s.len() as int))
                },
            }
        }
    }
}

/// The key-value state machine.
pub struct KvStateMachine {
    kv: SortedMap<Vec<u8>, Vec<u8>>,
    sessions: SortedMap<SessionKey, ApplyOutcome>,
    applied: LogIndex,
}

impl View for KvStateMachine {
    type V = KvModel;

    closed spec fn view(&self) -> KvModel {
        KvModel { kv: self.kv.list(), sessions: self.sessions.list(), applied: self.applied }
    }
}

/// The state of a new machine.
pub open spec fn new_state() -> KvModel {
    KvModel { kv: Seq::empty(), sessions: Seq::empty(), applied: 0 }
}

proof fn lemma_put_wf(m: KvModel, key: Seq<u8>, value: Seq<u8>)
    requires
        m.wf(),
        key.len() <= u32::MAX,
        value.len() <= u32::MAX,
    ensures
        (KvModel { kv: sorted::put::<Vec<u8>, Seq<u8>>(m.kv, key, value), ..m }).wf(),
{
    let t = sorted::put::<Vec<u8>, Seq<u8>>(m.kv, key, value);
    sorted::lemma_put::<Vec<u8>, Seq<u8>>(m.kv, key, value);
    sorted::lemma_place::<Vec<u8>, Seq<u8>>(m.kv, key);
    let at = sorted::rank::<Vec<u8>, Seq<u8>>(m.kv, key, m.kv.len() as int);
    assert forall|i: int| 0 <= i < t.len() implies (#[trigger] t[i]).0.len() <= u32::MAX
        && t[i].1.len() <= u32::MAX by {
        if i != at {
            let j = if t.len() == m.kv.len() || i < at {
                i
            } else {
                i - 1
            };
            assert(t[i] == m.kv[j]);
        }
    }
}

proof fn lemma_session_wf(m: KvModel, key: SessionKey, value: Option<Seq<u8>>)
    requires
        m.wf(),
        value matches Some(v) ==> v.len() <= u32::MAX,
    ensures
        (KvModel { sessions: sorted::put::<SessionKey, Option<Seq<u8>>>(m.sessions, key, value), ..m }).wf(),
{
    let t = sorted::put::<SessionKey, Option<Seq<u8>>>(m.sessions, key, value);
    sorted::lemma_put::<SessionKey, Option<Seq<u8>>>(m.sessions, key, value);
    sorted::lemma_place::<SessionKey, Option<Seq<u8>>>(m.sessions, key);
    let at = sorted::rank::<SessionKey, Option<Seq<u8>>>(m.sessions, key, m.sessions.len() as int);
    assert forall|i: int| 0 <= i < t.len() implies ((#[trigger] t[i]).1 matches Some(v) ==> v.len()
        <= u32::MAX) by {
        if i != at {
            let j = if t.len() == m.sessions.len() || i < at {
                i
            } else {
                i - 1
            };
            assert(t[i] == m.sessions[j]);
        }
    }
}

proof fn lemma_take_out_wf(m: KvModel, key: Seq<u8>)
    requires
        m.wf(),
    ensures
        (KvModel { kv: sorted::take_out::<Vec<u8>, Seq<u8>>(m.kv, key), ..m }).wf(),
{
    let t = sorted::take_out::<Vec<u8>, Seq<u8>>(m.kv, key);
    sorted::lemma_take_out::<Vec<u8>, Seq<u8>>(m.kv, key);
    sorted::lemma_place::<Vec<u8>, Seq<u8>>(m.kv, key);
    let at = sorted::rank::<Vec<u8>, Seq<u8>>(m.kv, key, m.kv.len() as int);
    assert forall|i: int| 0 <= i < t.len() implies (#[trigger] t[i]).0.len() <= u32::MAX
        && t[i].1.len() <= u32::MAX by {
        let j = if t.len() == m.kv.len() || i < at {
            i
        } else {
            i + 1
        };
        assert(t[i] == m.kv[j]);
    }
}

impl KvStateMachine {
    /// A new, empty state machine.
    pub fn new() -> (r: Self)
        ensures
            r@ == new_state(),
            r@.wf(),
    {
        let r = KvStateMachine { kv: SortedMap::new(), sessions: SortedMap::new(), applied: 0 };
        assert(r@ =~= new_state());
        r
    }

    /// Encode a `Put` command.
    pub fn encode_put(client_id: u64, seq_no: u64, key: &[u8], val: &[u8]) -> (buf: Vec<u8>)
        requires
            key@.len() <= u32::MAX,
            val@.len() <= u32::MAX,
        ensures
            buf@ == put_bytes(client_id, seq_no, key@, val@),
    {
        let mut buf: Vec<u8> = Vec::new();
        buf.push(0);
        put_u64(&mut buf, client_id);
        put_u64(&mut buf, seq_no);
        put_block(&mut buf, key);
        put_block(&mut buf, val);
        assert(buf@ =~= put_bytes(client_id, seq_no, key@, val@));
        buf
    }

    /// Encode a `Delete` command.
    pub fn encode_delete(client_id: u64, seq_no: u64, key: &[u8]) -> (buf: Vec<u8>)
        requires
            key@.len() <= u32::MAX,
        ensures
            buf@ == delete_bytes(client_id, seq_no, key@),
    {
        let mut buf: Vec<u8> = Vec::new();
        buf.push(1);
        put_u64(&mut buf, client_id);
        put_u64(&mut buf, seq_no);
        put_block(&mut buf, key);
        assert(buf@ =~= delete_bytes(client_id, seq_no, key@));
        buf
    }

    /// Decode a command; `None` if it is malformed.
    pub fn parse_command(cmd: &[u8]) -> (r: Option<KvCommand>)
        ensures
            match r {
                Some(c) => decoded_command(cmd@) == Some(c@) && c.key@.len() <= u32::MAX && (
                c.value matches Some(v) ==> v@.len() <= u32::MAX),
                None => decoded_command(cmd@) is None,
            },
    {
        if cmd.len() < 17 {
            return None;
        }
        let op: u8 = cmd[0];
        if op > 1 {
            return None;
        }
        let session = SessionKey { client_id: get_u64(cmd, 1), seq_no: get_u64(cmd, 9) };
        let (key, next) = match read_block(cmd, 17) {
            None => {
                return None;
            },
            Some(v) => v,
        };
        if op == 0 {
            match read_block(cmd, next) {
                None => None,
                Some((value, _)) => Some(KvCommand { session, key, value: Some(value) }),
            }
        } else if next != cmd.len() {
            None
        } else {
            Some(KvCommand { session, key, value: None })
        }
    }

    /// The session that a command carries; `None` if it carries none.
    pub fn command_session(cmd: &[u8]) -> (r: Option<(u64, u64)>)
        ensures
            match decoded_command(cmd@) {
                Some(c) => r == Some((c.session.client_id, c.session.seq_no)),
                None => r is None,
            },
    {
        match KvStateMachine::parse_command(cmd) {
            Some(c) => Some((c.session.client_id, c.session.seq_no)),
            None => None,
        }
    }

    /// Apply the entry at `index`, which must be the one after the last applied.
    ///
    /// An empty command advances the index and nothing else.
    pub fn apply(&mut self, index: LogIndex, command: &[u8]) -> (r: Result<ApplyOutcome, KvError>)
        requires
            old(self)@.wf(),
        ensures
            final(self)@.wf(),
            final(self)@ == applied_entry(old(self)@, index, command@).0,
            match applied_entry(old(self)@, index, command@).1 {
                Ok(outcome) => r matches Ok(v) && v@ == outcome,
                Err(e) => r matches Err(f) && f == e,
            },
    {
        let ghost m = self@;
        if self.applied == u64::MAX || index != self.applied + 1 {
            return Err(KvError::IndexViolation { index });
        }
        if command.len() == 0 {
            self.applied = index;
            return Ok(ApplyOutcome::NoValue);
        }
        let c = match KvStateMachine::parse_command(command) {
            None => {
                return Err(KvError::MalformedCommand);
            },
            Some(c) => c,
        };
        let ghost cm = c@;
        let cached = match self.sessions.get(&c.session) {
            Some(o) => Some(o.clone()),
            None => None,
        };
        match cached {
            Some(o) => {
                self.applied = index;
                Ok(o)
            },
            None => {
                let outcome = match c.value {
                    Some(v) => {
                        proof {
                            lemma_put_wf(m, cm.key, v@);
                        }
                        self.kv.insert(c.key, copy_bytes(&v));
                        ApplyOutcome::Value(v)
                    },
                    None => {
                        proof {
                            lemma_take_out_wf(m, cm.key);
                        }
                        self.kv.remove(&c.key);
                        ApplyOutcome::NoValue
                    },
                };
                proof {
                    lemma_session_wf(self@, cm.session, outcome@);
                }
                self.sessions.insert(c.session, outcome.clone());
                self.applied = index;
                assert(self@ =~= applied_entry(m, index, command@).0);
                Ok(outcome)
            },
        }
    }

    /// The value at a key.
    pub fn get(&self, key: &Vec<u8>) -> (r: Option<Vec<u8>>)
        requires
            self@.wf(),
        ensures
            match r {
                Some(v) => self@.store().dom().contains(key@) && self@.store()[key@] == v@,
                None => !self@.store().dom().contains(key@),
            },
    {
        match self.kv.get(key) {
            Some(v) => Some(copy_bytes(v)),
            None => None,
        }
    }

    /// The last applied index.
    pub fn applied_index(&self) -> (r: LogIndex)
        ensures
            r == self@.applied,
    {
        self.applied
    }

    /// The number of sessions in the table.
    pub fn session_count(&self) -> (n: usize)
        ensures
            n == self@.sessions.len(),
    {
        self.sessions.len()
    }

    /// Whether the counts of a snapshot hold the state's sizes.
    pub fn fits_snapshot(&self) -> (r: bool)
        ensures
            r == (self@.kv.len() <= u32::MAX && self@.sessions.len() <= u32::MAX),
    {
        self.kv.len() as u64 <= u32::MAX as u64 && self.sessions.len() as u64 <= u32::MAX as u64
    }

    /// Serialize the state.
    pub fn snapshot(&self) -> (buf: Vec<u8>)
        requires
            self@.wf(),
            self@.kv.len() <= u32::MAX,
            self@.sessions.len() <= u32::MAX,
        ensures
            buf@ == state_bytes(self@),
    {
        let ghost m = self@;
        let mut buf: Vec<u8> = Vec::new();
        put_u64(&mut buf, self.applied);
        put_u32(&mut buf, self.kv.len() as u32);
        let ghost start = buf@;
        let mut i: usize = 0;
        assert(buf@ =~= start + pairs_bytes(m.kv.subrange(0, 0)));
        while i < self.kv.items.len()
            invariant
                i <= self.kv.items@.len(),
                m == self@,
                m.wf(),
                m.kv.len() == self.kv.items@.len(),
                buf@ == start + pairs_bytes(m.kv.subrange(0, i as int)),
            decreases self.kv.items@.len() - i,
        {
            let ghost next = m.kv.subrange(0, i + 1);
            let item = &self.kv.items[i];
            proof {
                assert(next.drop_last() =~= m.kv.subrange(0, i as int));
                assert(next.last() == m.kv[i as int]);
                assert(m.kv[i as int] == (item.0@, item.1@));
            }
            put_block(&mut buf, &item.0);
            put_block(&mut buf, &item.1);
            assert(buf@ =~= start + pairs_bytes(next));
            i = i + 1;
        }
        assert(m.kv.subrange(0, m.kv.len() as int) =~= m.kv);
        put_u32(&mut buf, self.sessions.len() as u32);
        let ghost middle = buf@;
        let mut j: usize = 0;
        assert(buf@ =~= middle + sessions_bytes(m.sessions.subrange(0, 0)));
        while j < self.sessions.items.len()
            invariant
                j <= self.sessions.items@.len(),
                m == self@,
                m.wf(),
                m.sessions.len() == self.sessions.items@.len(),
                buf@ == middle + sessions_bytes(m.sessions.subrange(0, j as int)),
            decreases self.sessions.items@.len() - j,
        {
            let ghost next = m.sessions.subrange(0, j + 1);
            let item = &self.sessions.items[j];
            proof {
                assert(next.drop_last() =~= m.sessions.subrange(0, j as int));
                assert(next.last() == m.sessions[j as int]);
                assert(m.sessions[j as int] == (item.0@, item.1@));
            }
            put_u64(&mut buf, item.0.client_id);
            put_u64(&mut buf, item.0.seq_no);
            match &item.1 {
                ApplyOutcome::NoValue => {
                    buf.push(0);
                },
                ApplyOutcome::Value(v) => {
                    buf.push(1);
                    put_block(&mut buf, v);
                },
            }
            assert(buf@ =~= middle + sessions_bytes(next));
            j = j + 1;
        }
        assert(m.sessions.subrange(0, m.sessions.len() as int) =~= m.sessions);
        assert(buf@ =~= state_bytes(m));
        buf
    }

    /// Replace the state by the one that snapshot bytes hold.
    ///
    /// On an error the machine holds what was read before it, and must not be
    /// used further.
    pub fn restore(&mut self, bytes: &[u8]) -> (r: Result<(), KvError>)
        requires
            old(self)@.wf(),
        ensures
            final(self)@ == restored(old(self)@, bytes@).0,
            final(self)@.wf(),
            match r {
                Ok(_) => restored(old(self)@, bytes@).1,
                Err(e) => !restored(old(self)@, bytes@).1 && e == KvError::MalformedSnapshot,
            },
    {
        let ghost m = self@;
        let ghost goal = restored(m, bytes@);
        let total: usize = bytes.len();
        if total < 8 {
            return Err(KvError::MalformedSnapshot);
        }
        self.applied = get_u64(bytes, 0);
        if total < 12 {
            return Err(KvError::MalformedSnapshot);
        }
        let count: u32 = get_u32(bytes, 8);
        self.kv = SortedMap::new();
        let mut at: usize = 12;
        let mut i: u32 = 0;
        let ghost all = pairs_read(bytes@, 12, count as nat, Seq::empty());
        while i < count
            invariant
                i <= count,
                at <= total,
                total == bytes@.len(),
                self@.wf(),
                self@.sessions == m.sessions,
                self@.applied == bytes::u64_at(bytes@, 0),
                all == pairs_read(bytes@, at as int, (count - i) as nat, self@.kv),
                m == old(self)@,
                total >= 12,
                count == bytes::u32_at(bytes@, 8),
                all == pairs_read(bytes@, 12, count as nat, Seq::empty()),
                goal == restored(m, bytes@),
            decreases count - i,
        {
            let (key, middle) = match read_block(bytes, at) {
                None => {
                    assert(self@ =~= goal.0);
                    return Err(KvError::MalformedSnapshot);
                },
                Some(v) => v,
            };
            let (value, next) = match read_block(bytes, middle) {
                None => {
                    assert(self@ =~= goal.0);
                    return Err(KvError::MalformedSnapshot);
                },
                Some(v) => v,
            };
            proof {
                lemma_put_wf(self@, key@, value@);
            }
            self.kv.insert(key, value);
            at = next;
            i = i + 1;
        }
        if total - at < 4 {
            assert(self@ =~= goal.0);
            return Err(KvError::MalformedSnapshot);
        }
        let sessions: u32 = get_u32(bytes, at);
        let ghost m2 = self@;
        let ghost rest = sessions_read(bytes@, at + 4, sessions as nat, Seq::empty());
        proof {
            assert(goal.0 == (KvModel { sessions: rest.0, ..m2 }));
            assert(goal.1 == (rest.1 == Some(bytes@.len() as int)));
        }
        self.sessions = SortedMap::new();
        at = at + 4;
        let mut j: u32 = 0;
        while j < sessions
            invariant
                j <= sessions,
                at <= total,
                total == bytes@.len(),
                self@.wf(),
                self@.kv == m2.kv,
                self@.applied == m2.applied,
                rest == sessions_read(bytes@, at as int, (sessions - j) as nat, self@.sessions),
                goal.0 == (KvModel { sessions: rest.0, ..m2 }),
                goal.1 == (rest.1 == Some(bytes@.len() as int)),
                goal == restored(old(self)@, bytes@),
            decreases sessions - j,
        {
            if total - at < 17 {
                assert(self@ =~= goal.0);
                return Err(KvError::MalformedSnapshot);
            }
            let key = SessionKey { client_id: get_u64(bytes, at), seq_no: get_u64(bytes, at + 8) };
            let tag: u8 = bytes[at + 16];
            let mut next: usize = at + 17;
            let outcome = if tag == 0 {
                ApplyOutcome::NoValue
            } else if tag == 1 {
                match read_block(bytes, at + 17) {
                    None => {
                        assert(self@ =~= goal.0);
                        return Err(KvError::MalformedSnapshot);
                    },
                    Some((value, end)) => {
                        next = end;
                        ApplyOutcome::Value(value)
                    },
                }
            } else {
                assert(self@ =~= goal.0);
                return Err(KvError::MalformedSnapshot);
            };
            proof {
                lemma_session_wf(self@, key, outcome@);
            }
            self.sessions.insert(key, outcome);
            at = next;
            j = j + 1;
        }
        assert(self@ =~= goal.0);
        if at != total {
            return Err(KvError::MalformedSnapshot);
        }
        Ok(())
    }
}

impl Default for KvStateMachine {
    fn default() -> (r: Self)
        ensures
            r@ == new_state(),
            r@.wf(),
    {
        KvStateMachine::new()
    }
}

// ---------------------------------------------------------------------------
// Laws
// ---------------------------------------------------------------------------
/// A byte string that stands in a buffer is read back from there.
proof fn lemma_block_at(before: Seq<u8>, data: Seq<u8>, after: Seq<u8>)
    requires
        data.len() <= u32::MAX,
    ensures
        block_bytes(data).len() == 4 + data.len(),
        block_at(before + block_bytes(data) + after, before.len() as int) == Some(
            (data, (before.len() + 4 + data.len()) as int),
        ),
{
    let whole = before + block_bytes(data) + after;
    let at = before.len() as int;
    bytes::lemma_u32_bytes(data.len() as u32);
    assert(whole.subrange(at, at + 4) =~= bytes::u32_bytes(data.len() as u32));
    assert(whole.subrange(at + 4, at + 4 + data.len()) =~= data);
}

/// Decoding an encoded `Put` gives back its session, key and value.
pub proof fn law_put_round_trip(client_id: u64, seq_no: u64, key: Seq<u8>, value: Seq<u8>)
    requires
        key.len() <= u32::MAX,
        value.len() <= u32::MAX,
    ensures
        decoded_command(put_bytes(client_id, seq_no, key, value)) == Some(
            CommandModel { session: SessionKey { client_id, seq_no }, key, value: Some(value) },
        ),
{
    let cmd = put_bytes(client_id, seq_no, key, value);
    let head = seq![0u8] + bytes::u64_bytes(client_id) + bytes::u64_bytes(seq_no);
    bytes::lemma_u64_bytes(client_id);
    bytes::lemma_u64_bytes(seq_no);
    lemma_block_at(head, key, block_bytes(value));
    lemma_block_at(head + block_bytes(key), value, Seq::empty());
    assert(cmd =~= (head + block_bytes(key)) + block_bytes(value) + Seq::<u8>::empty());
    assert(cmd.subrange(1, 9) =~= bytes::u64_bytes(client_id));
    assert(cmd.subrange(9, 17) =~= bytes::u64_bytes(seq_no));
}

/// Decoding an encoded `Delete` gives back its session and key.
pub proof fn law_delete_round_trip(client_id: u64, seq_no: u64, key: Seq<u8>)
    requires
        key.len() <= u32::MAX,
    ensures
        decoded_command(delete_bytes(client_id, seq_no, key)) == Some(
            CommandModel { session: SessionKey { client_id, seq_no }, key, value: None },
        ),
{
    let cmd = delete_bytes(client_id, seq_no, key);
    let head = seq![1u8] + bytes::u64_bytes(client_id) + bytes::u64_bytes(seq_no);
    bytes::lemma_u64_bytes(client_id);
    bytes::lemma_u64_bytes(seq_no);
    lemma_block_at(head, key, Seq::empty());
    assert(cmd =~= head + block_bytes(key) + Seq::<u8>::empty());
    assert(cmd.subrange(1, 9) =~= bytes::u64_bytes(client_id));
    assert(cmd.subrange(9, 17) =~= bytes::u64_bytes(seq_no));
}

/// A command of a new session does what it says and nothing else: a put sets
/// its key, a delete removes it, every other key stays, and the result is kept
/// for the session.
pub proof fn law_new_session_takes_effect(m: KvModel, cmd: Seq<u8>)
    requires
        m.wf(),
        m.applied < u64::MAX,
        decoded_command(cmd) matches Some(c) && !m.session_table().dom().contains(c.session),
    ensures
        ({
            let c = decoded_command(cmd)->0;
            let (n, r) = applied_entry(m, (m.applied + 1) as u64, cmd);
            &&& r == Ok::<Option<Seq<u8>>, KvError>(c.value)
            &&& n.store() == (match c.value {
                Some(v) => m.store().insert(c.key, v),
                None => m.store().remove(c.key),
            })
            &&& n.session_table() == m.session_table().insert(c.session, c.value)
            &&& n.applied == m.applied + 1
        }),
{
    let c = decoded_command(cmd)->0;
    match c.value {
        Some(v) => {
            sorted::lemma_put::<Vec<u8>, Seq<u8>>(m.kv, c.key, v);
        },
        None => {
            sorted::lemma_take_out::<Vec<u8>, Seq<u8>>(m.kv, c.key);
        },
    }
    sorted::lemma_put::<SessionKey, Option<Seq<u8>>>(m.sessions, c.session, c.value);
}

/// Applying an entry keeps the state well formed, and every recorded session
/// with its result.
pub proof fn law_sessions_persist(m: KvModel, index: u64, cmd: Seq<u8>, session: SessionKey)
    requires
        m.wf(),
        m.session_table().dom().contains(session),
    ensures
        applied_entry(m, index, cmd).0.wf(),
        applied_entry(m, index, cmd).0.session_table().dom().contains(session),
        applied_entry(m, index, cmd).0.session_table()[session] == m.session_table()[session],
{
    lemma_applied_wf(m, index, cmd);
    if m.applied < u64::MAX && index == m.applied + 1 && cmd.len() > 0 {
        if let Some(c) = decoded_command(cmd) {
            if !m.session_table().dom().contains(c.session) {
                sorted::lemma_put::<SessionKey, Option<Seq<u8>>>(m.sessions, c.session, c.value);
            }
        }
    }
}

pub proof fn lemma_applied_wf(m: KvModel, index: u64, cmd: Seq<u8>)
    requires
        m.wf(),
    ensures
        applied_entry(m, index, cmd).0.wf(),
{
    if m.applied < u64::MAX && index == m.applied + 1 && cmd.len() > 0 {
        if let Some(c) = decoded_command(cmd) {
            if !m.session_table().dom().contains(c.session) {
                match c.value {
                    Some(v) => {
                        lemma_put_wf(m, c.key, v);
                    },
                    None => {
                        lemma_take_out_wf(m, c.key);
                    },
                }
                let kv = executed(m, c).kv;
                lemma_session_wf(KvModel { kv, ..m }, c.session, c.value);
            }
        }
    }
}

/// The state after a run of entries, each applied at the next index.
pub open spec fn applied_run(m: KvModel, cmds: Seq<Seq<u8>>) -> KvModel
    decreases cmds.len(),
{
    if cmds.len() == 0 {
        m
    } else {
        let before = applied_run(m, cmds.drop_last());
        applied_entry(before, (before.applied + 1) as u64, cmds.last()).0
    }
}

proof fn lemma_run_keeps_session(m: KvModel, cmds: Seq<Seq<u8>>, session: SessionKey)
    requires
        m.wf(),
        m.session_table().dom().contains(session),
    ensures
        applied_run(m, cmds).wf(),
        applied_run(m, cmds).session_table().dom().contains(session),
        applied_run(m, cmds).session_table()[session] == m.session_table()[session],
    decreases cmds.len(),
{
    if cmds.len() > 0 {
        lemma_run_keeps_session(m, cmds.drop_last(), session);
        let before = applied_run(m, cmds.drop_last());
        law_sessions_persist(before, (before.applied + 1) as u64, cmds.last(), session);
    }
}

/// A session's command is applied exactly once: when its session comes again,
/// whatever was applied in between, the first result is returned and neither the
/// store nor the session table changes.
pub proof fn law_exactly_once(
    m: KvModel,
    cmd: Seq<u8>,
    between: Seq<Seq<u8>>,
    again: Seq<u8>,
)
    requires
        m.wf(),
        m.applied < u64::MAX,
        decoded_command(cmd) is Some,
        decoded_command(again) is Some,
        decoded_command(again)->0.session == decoded_command(cmd)->0.session,
        applied_run(
            applied_entry(m, (m.applied + 1) as u64, cmd).0,
            between,
        ).applied < u64::MAX,
    ensures
        ({
            let (first, result) = applied_entry(m, (m.applied + 1) as u64, cmd);
            let later = applied_run(first, between);
            let (last, repeated) = applied_entry(later, (later.applied + 1) as u64, again);
            &&& result is Ok
            &&& repeated == result
            &&& last.store() == later.store()
            &&& last.session_table() == later.session_table()
        }),
{
    let session = decoded_command(cmd)->0.session;
    let (first, result) = applied_entry(m, (m.applied + 1) as u64, cmd);
    lemma_applied_wf(m, (m.applied + 1) as u64, cmd);
    if !m.session_table().dom().contains(session) {
        law_new_session_takes_effect(m, cmd);
    }
    assert(first.session_table().dom().contains(session));
    lemma_run_keeps_session(first, between, session);
    assert(again.len() > 0);
}

/// Two machines in the same state serialize to the same bytes.
pub proof fn law_snapshot_is_deterministic(a: KvModel, b: KvModel)
    requires
        a.wf(),
        b.wf(),
        a.store() == b.store(),
        a.session_table() == b.session_table(),
        a.applied == b.applied,
    ensures
        state_bytes(a) == state_bytes(b),
{
    sorted::lemma_listing_unique::<Vec<u8>, Seq<u8>>(a.kv, b.kv);
    sorted::lemma_listing_unique::<SessionKey, Option<Seq<u8>>>(a.sessions, b.sessions);
}

/// Pairs that stand in a buffer are read back from there.
proof fn lemma_pairs_read(
    kv: Seq<(Seq<u8>, Seq<u8>)>,
    k: int,
    before: Seq<u8>,
    after: Seq<u8>,
)
    requires
        0 <= k <= kv.len(),
        sorted::keys_ascend::<Vec<u8>, Seq<u8>>(kv),
        forall|i: int|
            0 <= i < kv.len() ==> (#[trigger] kv[i]).0.len() <= u32::MAX && kv[i].1.len()
                <= u32::MAX,
    ensures
        pairs_read(
            before + pairs_bytes(kv) + after,
            (before.len() + pairs_bytes(kv.subrange(0, k)).len()) as int,
            (kv.len() - k) as nat,
            kv.subrange(0, k),
        ) == (kv, Some((before.len() + pairs_bytes(kv).len()) as int)),
    decreases kv.len() - k,
{
    let s = before + pairs_bytes(kv) + after;
    if k == kv.len() {
        assert(kv.subrange(0, k) =~= kv);
    } else {
        let done = kv.subrange(0, k);
        let next = kv.subrange(0, k + 1);
        assert(next.drop_last() =~= done);
        assert(next.last() == kv[k]);
        let (key, value) = kv[k];
        lemma_pairs_split(kv, k + 1);
        let rest = pairs_tail(kv, k + 1);
        let p = pairs_bytes(done);
        assert(s =~= (before + p) + block_bytes(key) + (block_bytes(value) + rest + after));
        assert(s =~= (before + p + block_bytes(key)) + block_bytes(value) + (rest + after));
        lemma_block_at(before + p, key, block_bytes(value) + rest + after);
        lemma_block_at(before + p + block_bytes(key), value, rest + after);
        assert(sorted::keys_ascend::<Vec<u8>, Seq<u8>>(next)) by {
            assert forall|i: int, j: int| 0 <= i < j < next.len() implies
                <Vec<u8> as sorted::SortKey>::before((#[trigger] next[i]).0, (#[trigger] next[j]).0) by {
                assert(next[i] == kv[i] && next[j] == kv[j]);
            }
        }
        assert(next =~= done.push((key, value)));
        sorted::lemma_put_last::<Vec<u8>, Seq<u8>>(done, key, value);
        lemma_pairs_read(kv, k + 1, before, after);
    }
}

/// What follows the first `k` pairs.
spec fn pairs_tail(kv: Seq<(Seq<u8>, Seq<u8>)>, k: int) -> Seq<u8> {
    pairs_bytes(kv).subrange(
        pairs_bytes(kv.subrange(0, k)).len() as int,
        pairs_bytes(kv).len() as int,
    )
}

proof fn lemma_pairs_split(kv: Seq<(Seq<u8>, Seq<u8>)>, k: int)
    requires
        0 <= k <= kv.len(),
    ensures
        pairs_bytes(kv.subrange(0, k)).len() <= pairs_bytes(kv).len(),
        pairs_bytes(kv) == pairs_bytes(kv.subrange(0, k)) + pairs_tail(kv, k),
    decreases kv.len(),
{
    if k == kv.len() {
        assert(kv.subrange(0, k) =~= kv);
        assert(pairs_bytes(kv) + pairs_tail(kv, k) =~= pairs_bytes(kv));
    } else {
        let init = kv.drop_last();
        lemma_pairs_split(init, k);
        assert(init.subrange(0, k) =~= kv.subrange(0, k));
        let head = pairs_bytes(kv.subrange(0, k));
        let whole = pairs_bytes(kv);
        let inner = pairs_bytes(init);
        assert(inner.subrange(0, head.len() as int) =~= head);
        assert(whole.subrange(0, head.len() as int) =~= inner.subrange(0, head.len() as int));
        assert(whole =~= head + pairs_tail(kv, k));
    }
}

/// Sessions that stand in a buffer are read back from there.
proof fn lemma_sessions_read(
    ss: Seq<(SessionKey, Option<Seq<u8>>)>,
    k: int,
    before: Seq<u8>,
    after: Seq<u8>,
)
    requires
        0 <= k <= ss.len(),
        sorted::keys_ascend::<SessionKey, Option<Seq<u8>>>(ss),
        forall|i: int|
            0 <= i < ss.len() ==> ((#[trigger] ss[i]).1 matches Some(v) ==> v.len() <= u32::MAX),
    ensures
        sessions_read(
            before + sessions_bytes(ss) + after,
            (before.len() + sessions_bytes(ss.subrange(0, k)).len()) as int,
            (ss.len() - k) as nat,
            ss.subrange(0, k),
        ) == (ss, Some((before.len() + sessions_bytes(ss).len()) as int)),
    decreases ss.len() - k,
{
    let s = before + sessions_bytes(ss) + after;
    if k == ss.len() {
        assert(ss.subrange(0, k) =~= ss);
    } else {
        let done = ss.subrange(0, k);
        let next = ss.subrange(0, k + 1);
        assert(next.drop_last() =~= done);
        assert(next.last() == ss[k]);
        lemma_sessions_split(ss, k + 1);
        let rest = sessions_tail(ss, k + 1);
        let p = sessions_bytes(done);
        let item = ss[k];
        assert(s =~= (before + p) + session_bytes(item) + (rest + after));
        lemma_session_at(before + p, item, rest + after);
        assert(sorted::keys_ascend::<SessionKey, Option<Seq<u8>>>(next)) by {
            assert forall|i: int, j: int| 0 <= i < j < next.len() implies
                <SessionKey as sorted::SortKey>::before(
                (#[trigger] next[i]).0,
                (#[trigger] next[j]).0,
            ) by {
                assert(next[i] == ss[i] && next[j] == ss[j]);
            }
        }
        assert(next =~= done.push((item.0, item.1)));
        sorted::lemma_put_last::<SessionKey, Option<Seq<u8>>>(done, item.0, item.1);
        lemma_sessions_read(ss, k + 1, before, after);
    }
}

proof fn lemma_session_at(before: Seq<u8>, item: (SessionKey, Option<Seq<u8>>), after: Seq<u8>)
    requires
        item.1 matches Some(v) ==> v.len() <= u32::MAX,
    ensures
        session_at(before + session_bytes(item) + after, before.len() as int) == Some(
            (item, (before.len() + session_bytes(item).len()) as int),
        ),
{
    let s = before + session_bytes(item) + after;
    let at = before.len() as int;
    let client = bytes::u64_bytes(item.0.client_id);
    let seq_no = bytes::u64_bytes(item.0.seq_no);
    bytes::lemma_u64_bytes(item.0.client_id);
    bytes::lemma_u64_bytes(item.0.seq_no);
    assert(s.subrange(at, at + 8) =~= client);
    assert(s.subrange(at + 8, at + 16) =~= seq_no);
    match item.1 {
        None => {
            assert(s[at + 16] == 0);
        },
        Some(v) => {
            let head = before + client + seq_no + seq![1u8];
            assert(s =~= head + block_bytes(v) + after);
            lemma_block_at(head, v, after);
            assert(s[at + 16] == 1);
        },
    }
}

/// What follows the first `k` sessions.
spec fn sessions_tail(ss: Seq<(SessionKey, Option<Seq<u8>>)>, k: int) -> Seq<u8> {
    sessions_bytes(ss).subrange(
        sessions_bytes(ss.subrange(0, k)).len() as int,
        sessions_bytes(ss).len() as int,
    )
}

proof fn lemma_sessions_split(ss: Seq<(SessionKey, Option<Seq<u8>>)>, k: int)
    requires
        0 <= k <= ss.len(),
    ensures
        sessions_bytes(ss.subrange(0, k)).len() <= sessions_bytes(ss).len(),
        sessions_bytes(ss) == sessions_bytes(ss.subrange(0, k)) + sessions_tail(ss, k),
    decreases ss.len(),
{
    if k == ss.len() {
        assert(ss.subrange(0, k) =~= ss);
        assert(sessions_bytes(ss) + sessions_tail(ss, k) =~= sessions_bytes(ss));
    } else {
        let init = ss.drop_last();
        lemma_sessions_split(init, k);
        assert(init.subrange(0, k) =~= ss.subrange(0, k));
        let head = sessions_bytes(ss.subrange(0, k));
        let whole = sessions_bytes(ss);
        let inner = sessions_bytes(init);
        assert(inner.subrange(0, head.len() as int) =~= head);
        assert(whole.subrange(0, head.len() as int) =~= inner.subrange(0, head.len() as int));
        assert(whole =~= head + sessions_tail(ss, k));
    }
}

/// Restoring a snapshot gives back the whole state, sessions included, whatever
/// the machine held before.
pub proof fn law_snapshot_round_trip(m: KvModel, other: KvModel)
    requires
        m.wf(),
        m.kv.len() <= u32::MAX,
        m.sessions.len() <= u32::MAX,
    ensures
        restored(other, state_bytes(m)) == (m, true),
{
    let s = state_bytes(m);
    let a = bytes::u64_bytes(m.applied);
    let b = bytes::u32_bytes(m.kv.len() as u32);
    let p = pairs_bytes(m.kv);
    let c = bytes::u32_bytes(m.sessions.len() as u32);
    let q = sessions_bytes(m.sessions);
    bytes::lemma_u64_bytes(m.applied);
    bytes::lemma_u32_bytes(m.kv.len() as u32);
    bytes::lemma_u32_bytes(m.sessions.len() as u32);
    assert(s.subrange(0, 8) =~= a);
    assert(s.subrange(8, 12) =~= b);
    assert(s =~= (a + b) + p + (c + q));
    assert(m.kv.subrange(0, 0) =~= Seq::empty());
    assert(pairs_bytes(m.kv.subrange(0, 0)).len() == 0);
    lemma_pairs_read(m.kv, 0, a + b, c + q);
    let at = 12 + p.len() as int;
    assert(s.subrange(at, at + 4) =~= c);
    assert(s =~= (a + b + p + c) + q + Seq::<u8>::empty());
    assert(m.sessions.subrange(0, 0) =~= Seq::empty());
    assert(sessions_bytes(m.sessions.subrange(0, 0)).len() == 0);
    lemma_sessions_read(m.sessions, 0, a + b + p + c, Seq::empty());
    assert(restored(other, s).0 =~= m);
}

/// A snapshot followed by anything is rejected.
pub proof fn law_trailing_snapshot_bytes_are_rejected(m: KvModel, other: KvModel, tail: Seq<u8>)
    requires
        m.wf(),
        m.kv.len() <= u32::MAX,
        m.sessions.len() <= u32::MAX,
        tail.len() > 0,
    ensures
        !restored(other, state_bytes(m) + tail).1,
{
    let s = state_bytes(m) + tail;
    let a = bytes::u64_bytes(m.applied);
    let b = bytes::u32_bytes(m.kv.len() as u32);
    let p = pairs_bytes(m.kv);
    let c = bytes::u32_bytes(m.sessions.len() as u32);
    let q = sessions_bytes(m.sessions);
    bytes::lemma_u64_bytes(m.applied);
    bytes::lemma_u32_bytes(m.kv.len() as u32);
    bytes::lemma_u32_bytes(m.sessions.len() as u32);
    assert(s.subrange(0, 8) =~= a);
    assert(s.subrange(8, 12) =~= b);
    assert(s =~= (a + b) + p + (c + q + tail));
    assert(m.kv.subrange(0, 0) =~= Seq::empty());
    assert(pairs_bytes(m.kv.subrange(0, 0)).len() == 0);
    lemma_pairs_read(m.kv, 0, a + b, c + q + tail);
    let at = 12 + p.len() as int;
    assert(s.subrange(at, at + 4) =~= c);
    assert(s =~= (a + b + p + c) + q + tail);
    assert(m.sessions.subrange(0, 0) =~= Seq::empty());
    assert(sessions_bytes(m.sessions.subrange(0, 0)).len() == 0);
    lemma_sessions_read(m.sessions, 0, a + b + p + c, tail);
}

} // verus!
