//! What every command and every snapshot comes to, whole or not.
use vstd::prelude::*;

use crate::state_machine::kv::{KvError, KvModel};
use crate::state_machine::sorted::SessionKey;
use crate::bytes;
use crate::state_machine::kv;
use crate::state_machine::sorted;

verus! {

// ---------------------------------------------------------------------------
// Commands
// ---------------------------------------------------------------------------
/// A command starts with its kind, the client and the sequence number, each number
/// lowest byte first; key and value follow, each with its length in front.
pub proof fn law_command_layout(client_id: u64, seq_no: u64, key: Seq<u8>, value: Seq<u8>)
    requires
        key.len() <= u32::MAX,
        value.len() <= u32::MAX,
    ensures
        ({
            let put = kv::put_bytes(client_id, seq_no, key, value);
            let n = key.len() as int;
            &&& put.len() == 25 + key.len() + value.len()
            &&& put[0] == 0
            &&& bytes::le_value(put.subrange(1, 9)) == client_id
            &&& bytes::le_value(put.subrange(9, 17)) == seq_no
            &&& bytes::le_value(put.subrange(17, 21)) == key.len()
            &&& put.subrange(21, 21 + n) == key
            &&& bytes::le_value(put.subrange(21 + n, 25 + n)) == value.len()
            &&& put.subrange(25 + n, 25 + n + value.len()) == value
        }),
        ({
            let delete = kv::delete_bytes(client_id, seq_no, key);
            &&& delete.len() == 21 + key.len()
            &&& delete[0] == 1
            &&& bytes::le_value(delete.subrange(1, 9)) == client_id
            &&& bytes::le_value(delete.subrange(9, 17)) == seq_no
            &&& bytes::le_value(delete.subrange(17, 21)) == key.len()
            &&& delete.subrange(21, 21 + key.len() as int) == key
        }),
{
    bytes::lemma_u64_bytes(client_id);
    bytes::lemma_u64_bytes(seq_no);
    bytes::lemma_u32_bytes(key.len() as u32);
    bytes::lemma_u32_bytes(value.len() as u32);
    let put = kv::put_bytes(client_id, seq_no, key, value);
    let delete = kv::delete_bytes(client_id, seq_no, key);
    let n = key.len() as int;
    assert(put.subrange(1, 9) =~= bytes::u64_bytes(client_id));
    assert(put.subrange(9, 17) =~= bytes::u64_bytes(seq_no));
    assert(put.subrange(17, 21) =~= bytes::u32_bytes(key.len() as u32));
    assert(put.subrange(21, 21 + n) =~= key);
    assert(put.subrange(21 + n, 25 + n) =~= bytes::u32_bytes(value.len() as u32));
    assert(put.subrange(25 + n, 25 + n + value.len()) =~= value);
    assert(delete.subrange(1, 9) =~= bytes::u64_bytes(client_id));
    assert(delete.subrange(9, 17) =~= bytes::u64_bytes(seq_no));
    assert(delete.subrange(17, 21) =~= bytes::u32_bytes(key.len() as u32));
    assert(delete.subrange(21, 21 + n) =~= key);
}

proof fn lemma_block_extends(s: Seq<u8>, t: Seq<u8>, offset: int)
    requires
        0 <= offset,
        kv::block_at(s, offset) is Some,
    ensures
        kv::block_at(s + t, offset) == kv::block_at(s, offset),
        offset + 4 <= (kv::block_at(s, offset)->0).1 <= s.len(),
{
    assert((s + t).subrange(offset, offset + 4) =~= s.subrange(offset, offset + 4));
    let end = (kv::block_at(s, offset)->0).1;
    assert((s + t).subrange(offset + 4, end) =~= s.subrange(offset + 4, end));
}

/// A command that was cut short anywhere is no command; neither is one of an unknown
/// kind. Bytes after the value of a put do not matter, but a delete ends with its key.
pub proof fn law_broken_commands_are_rejected(cmd: Seq<u8>, tail: Seq<u8>)
    requires
        tail.len() > 0,
    ensures
        cmd.len() < 17 ==> kv::decoded_command(cmd) is None,
        cmd.len() > 0 && cmd[0] > 1 ==> kv::decoded_command(cmd) is None,
        kv::decoded_command(cmd) is Some && cmd[0] == 0 ==> kv::decoded_command(cmd + tail)
            == kv::decoded_command(cmd),
        kv::decoded_command(cmd) is Some && cmd[0] == 1 ==> kv::decoded_command(cmd + tail) is None,
{
    if kv::decoded_command(cmd) is Some {
        assert((cmd + tail).subrange(1, 9) =~= cmd.subrange(1, 9));
        assert((cmd + tail).subrange(9, 17) =~= cmd.subrange(9, 17));
        lemma_block_extends(cmd, tail, 17);
        let next = (kv::block_at(cmd, 17)->0).1;
        if cmd[0] == 0 {
            lemma_block_extends(cmd, tail, next);
        }
    }
}

/// A put that was cut short anywhere is no command, and neither is such a delete.
pub proof fn law_cut_commands_are_rejected(
    client_id: u64,
    seq_no: u64,
    key: Seq<u8>,
    value: Seq<u8>,
    n: int,
)
    requires
        key.len() <= u32::MAX,
        value.len() <= u32::MAX,
        0 <= n,
    ensures
        n < kv::put_bytes(client_id, seq_no, key, value).len() ==> kv::decoded_command(
            kv::put_bytes(client_id, seq_no, key, value).subrange(0, n),
        ) is None,
        n < kv::delete_bytes(client_id, seq_no, key).len() ==> kv::decoded_command(
            kv::delete_bytes(client_id, seq_no, key).subrange(0, n),
        ) is None,
{
    let put = kv::put_bytes(client_id, seq_no, key, value);
    let delete = kv::delete_bytes(client_id, seq_no, key);
    law_command_layout(client_id, seq_no, key, value);
    if 17 <= n < put.len() {
        let cut = put.subrange(0, n);
        let tail = put.subrange(n, put.len() as int);
        assert(cut + tail =~= put);
        if kv::decoded_command(cut) is Some {
            lemma_block_extends(cut, tail, 17);
            let next = (kv::block_at(cut, 17)->0).1;
            assert(next == 21 + key.len());
            lemma_block_extends(cut, tail, next);
            assert((kv::block_at(put, next)->0).1 == put.len());
        }
    }
    if 17 <= n < delete.len() {
        let cut = delete.subrange(0, n);
        let tail = delete.subrange(n, delete.len() as int);
        assert(cut + tail =~= delete);
        if kv::decoded_command(cut) is Some {
            lemma_block_extends(cut, tail, 17);
            assert((kv::block_at(delete, 17)->0).1 == delete.len());
        }
    }
}

/// A new machine holds nothing and has applied nothing.
pub proof fn law_new_machine_is_empty(key: Seq<u8>, session: SessionKey)
    ensures
        kv::new_state().applied == 0,
        !kv::new_state().store().dom().contains(key),
        !kv::new_state().session_table().dom().contains(session),
{
}

/// An entry that is not the next one is refused and changes nothing; so is one that is
/// no command. An empty entry only moves the index. A command whose session is known
/// only moves the index too, and gives the result that is kept for the session.
pub proof fn law_only_new_commands_change_the_store(m: KvModel, index: u64, cmd: Seq<u8>)
    ensures
        ({
            let (n, result) = kv::applied_entry(m, index, cmd);
            let next = index == m.applied + 1;
            &&& !next ==> n == m && result == Err::<Option<Seq<u8>>, KvError>(
                KvError::IndexViolation { index },
            )
            &&& next && cmd.len() == 0 ==> n == (KvModel { applied: index, ..m }) && result == Ok::<
                Option<Seq<u8>>,
                KvError,
            >(None)
            &&& next && cmd.len() > 0 && kv::decoded_command(cmd) is None ==> n == m && result
                == Err::<Option<Seq<u8>>, KvError>(KvError::MalformedCommand)
            &&& next && cmd.len() > 0 && kv::decoded_command(cmd) is Some ==> {
                let session = kv::decoded_command(cmd)->0.session;
                &&& result is Ok
                &&& n.applied == index
                &&& m.session_table().dom().contains(session) ==> n == (KvModel {
                    applied: index,
                    ..m
                }) && result->Ok_0 == m.session_table()[session]
            }
        }),
{
}

// ---------------------------------------------------------------------------
// Snapshots
// ---------------------------------------------------------------------------
proof fn lemma_pairs_extend(
    s: Seq<u8>,
    t: Seq<u8>,
    offset: int,
    n: nat,
    list: Seq<(Seq<u8>, Seq<u8>)>,
)
    requires
        0 <= offset <= s.len(),
        kv::pairs_read(s, offset, n, list).1 is Some,
    ensures
        kv::pairs_read(s + t, offset, n, list) == kv::pairs_read(s, offset, n, list),
        offset <= kv::pairs_read(s, offset, n, list).1->0 <= s.len(),
    decreases n,
{
    if n > 0 {
        lemma_block_extends(s, t, offset);
        let (key, middle) = kv::block_at(s, offset)->0;
        lemma_block_extends(s, t, middle);
        let (value, next) = kv::block_at(s, middle)->0;
        lemma_pairs_extend(
            s,
            t,
            next,
            (n - 1) as nat,
            sorted::put::<Vec<u8>, Seq<u8>>(list, key, value),
        );
    }
}

proof fn lemma_sessions_extend(
    s: Seq<u8>,
    t: Seq<u8>,
    offset: int,
    n: nat,
    list: Seq<(SessionKey, Option<Seq<u8>>)>,
)
    requires
        0 <= offset <= s.len(),
        kv::sessions_read(s, offset, n, list).1 is Some,
    ensures
        kv::sessions_read(s + t, offset, n, list) == kv::sessions_read(s, offset, n, list),
    decreases n,
{
    if n > 0 {
        assert((s + t).subrange(offset, offset + 8) =~= s.subrange(offset, offset + 8));
        assert((s + t).subrange(offset + 8, offset + 16) =~= s.subrange(offset + 8, offset + 16));
        if s[offset + 16] == 1 {
            lemma_block_extends(s, t, offset + 17);
        }
        let (item, next) = kv::session_at(s, offset)->0;
        lemma_sessions_extend(
            s,
            t,
            next,
            (n - 1) as nat,
            sorted::put::<SessionKey, Option<Seq<u8>>>(
                list,
                item.0,
                item.1,
            ),
        );
    }
}

/// No snapshot is the beginning of another: what restores a machine no longer does
/// with anything added to it.
pub proof fn law_snapshots_end_where_they_end(m: KvModel, s: Seq<u8>, tail: Seq<u8>)
    requires
        kv::restored(m, s).1,
        tail.len() > 0,
    ensures
        !kv::restored(m, s + tail).1,
{
    assert((s + tail).subrange(0, 8) =~= s.subrange(0, 8));
    assert((s + tail).subrange(8, 12) =~= s.subrange(8, 12));
    let n = bytes::u32_at(s, 8) as nat;
    lemma_pairs_extend(s, tail, 12, n, Seq::empty());
    let at = kv::pairs_read(s, 12, n, Seq::empty()).1->0;
    assert((s + tail).subrange(at, at + 4) =~= s.subrange(at, at + 4));
    lemma_sessions_extend(s, tail, at + 4, bytes::u32_at(s, at) as nat, Seq::empty());
}

/// A snapshot that was cut short anywhere is rejected.
pub proof fn law_cut_snapshots_are_rejected(m: KvModel, other: KvModel, n: int)
    requires
        m.wf(),
        m.kv.len() <= u32::MAX,
        m.sessions.len() <= u32::MAX,
        0 <= n < kv::state_bytes(m).len(),
    ensures
        !kv::restored(other, kv::state_bytes(m).subrange(0, n)).1,
{
    let all = kv::state_bytes(m);
    let cut = all.subrange(0, n);
    let tail = all.subrange(n, all.len() as int);
    assert(cut + tail =~= all);
    kv::law_snapshot_round_trip(m, other);
    if kv::restored(other, cut).1 {
        law_snapshots_end_where_they_end(other, cut, tail);
    }
}

/// A snapshot starts with the applied index and the number of keys, lowest byte first.
pub proof fn law_snapshot_layout(m: KvModel)
    ensures
        bytes::le_value(kv::state_bytes(m).subrange(0, 8)) == m.applied,
        m.kv.len() <= u32::MAX ==> bytes::le_value(kv::state_bytes(m).subrange(8, 12))
            == m.kv.len(),
{
    bytes::lemma_u64_bytes(m.applied);
    bytes::lemma_u32_bytes(m.kv.len() as u32);
    bytes::lemma_u32_bytes(m.sessions.len() as u32);
    assert(kv::state_bytes(m).subrange(0, 8) =~= bytes::u64_bytes(m.applied));
    assert(kv::state_bytes(m).subrange(8, 12) =~= bytes::u32_bytes(m.kv.len() as u32));
}

} // verus!
