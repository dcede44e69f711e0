//! The key-value state machine.
use arachne::state_machine::{ApplyOutcome, KvError, KvStateMachine};

fn get(sm: &KvStateMachine, key: &[u8]) -> Option<Vec<u8>> {
    sm.get(&key.to_vec())
}

#[test]
fn put_and_get() {
    let mut sm = KvStateMachine::new();
    let cmd = KvStateMachine::encode_put(1, 1, b"key", b"value");
    let outcome = sm.apply(1, &cmd).unwrap();
    assert_eq!(outcome, ApplyOutcome::Value(b"value".to_vec()));
    assert_eq!(get(&sm, b"key"), Some(b"value".to_vec()));
}

#[test]
fn delete_removes_key() {
    let mut sm = KvStateMachine::new();
    sm.apply(1, &KvStateMachine::encode_put(1, 1, b"key", b"value"))
        .unwrap();
    let outcome = sm
        .apply(2, &KvStateMachine::encode_delete(1, 2, b"key"))
        .unwrap();
    assert_eq!(outcome, ApplyOutcome::NoValue);
    assert_eq!(get(&sm, b"key"), None);
}

#[test]
fn session_dedup_applies_exactly_once() {
    let mut sm = KvStateMachine::new();
    let cmd = KvStateMachine::encode_put(1, 1, b"key", b"value");
    let o1 = sm.apply(1, &cmd).unwrap();
    // The same session at index 2.
    let o2 = sm.apply(2, &cmd).unwrap();
    assert_eq!(o1, o2);
    assert_eq!(get(&sm, b"key"), Some(b"value".to_vec()));
    assert_eq!(sm.applied_index(), 2);
}

#[test]
fn dedup_does_not_reapply_delete() {
    let mut sm = KvStateMachine::new();
    let put = KvStateMachine::encode_put(1, 1, b"key", b"v1");
    let delete = KvStateMachine::encode_delete(1, 2, b"key");
    let later_put = KvStateMachine::encode_put(1, 3, b"key", b"v2");

    sm.apply(1, &put).unwrap(); // key = v1
    sm.apply(2, &delete).unwrap(); // key removed
    sm.apply(3, &later_put).unwrap(); // key = v2
    // The delete once more, at index 4, must not remove v2.
    sm.apply(4, &delete).unwrap();
    assert_eq!(get(&sm, b"key"), Some(b"v2".to_vec()));
}

#[test]
fn empty_command_is_a_no_op() {
    let mut sm = KvStateMachine::new();
    let outcome = sm.apply(1, &[]).unwrap();
    assert_eq!(outcome, ApplyOutcome::NoValue);
    assert_eq!(sm.applied_index(), 1);
    assert!(get(&sm, b"x").is_none());
}

#[test]
fn index_violation_duplicate_and_gap() {
    let mut sm = KvStateMachine::new();
    sm.apply(1, &KvStateMachine::encode_put(1, 1, b"a", b"b"))
        .unwrap();
    // Duplicate (index 1 again).
    assert!(matches!(
        sm.apply(1, &KvStateMachine::encode_put(1, 2, b"c", b"d")),
        Err(KvError::IndexViolation { index: 1 })
    ));
    // Gap (jump to index 3).
    assert!(matches!(
        sm.apply(3, &KvStateMachine::encode_put(1, 3, b"c", b"d")),
        Err(KvError::IndexViolation { index: 3 })
    ));
    // The correct next index (2) still succeeds after the rejections.
    sm.apply(2, &KvStateMachine::encode_put(1, 4, b"a", b"z")).unwrap();
    assert_eq!(get(&sm, b"a"), Some(b"z".to_vec()));
}

#[test]
fn malformed_command_rejected() {
    let mut sm = KvStateMachine::new();
    // Too short for the header.
    assert!(matches!(
        sm.apply(1, &[0, 0, 0]),
        Err(KvError::MalformedCommand)
    ));
    // Unknown operation.
    assert!(matches!(
        sm.apply(1, &[9, 0, 0, 0, 0, 0, 0, 0, 0, 0]),
        Err(KvError::MalformedCommand)
    ));
    // A full header plus a key length that promises bytes which are not there.
    let mut truncated = vec![0u8];
    truncated.extend_from_slice(&0u64.to_le_bytes()); // client_id
    truncated.extend_from_slice(&0u64.to_le_bytes()); // seq_no
    truncated.extend_from_slice(&5u32.to_le_bytes()); // key_len = 5, no key
    assert!(matches!(
        sm.apply(1, &truncated),
        Err(KvError::MalformedCommand)
    ));
}

#[test]
fn snapshot_restore_roundtrip_includes_sessions() {
    let mut sm = KvStateMachine::new();
    sm.apply(1, &KvStateMachine::encode_put(1, 1, b"a", b"1"))
        .unwrap();
    sm.apply(2, &KvStateMachine::encode_put(1, 2, b"b", b"2"))
        .unwrap();
    sm.apply(3, &KvStateMachine::encode_delete(1, 3, b"a"))
        .unwrap();

    let snap = sm.snapshot();
    let mut sm2 = KvStateMachine::new();
    sm2.restore(&snap).unwrap();
    assert_eq!(sm2.applied_index(), 3);
    assert_eq!(get(&sm2, b"a"), None);
    assert_eq!(get(&sm2, b"b"), Some(b"2".to_vec()));
    // The rebuilt machine snapshots identically.
    assert_eq!(sm2.snapshot(), snap);
    // The session table survived: session (1, 1) is still deduplicated.
    let replay = sm2.apply(4, &KvStateMachine::encode_put(1, 1, b"a", b"1"));
    assert_eq!(replay.unwrap(), ApplyOutcome::Value(b"1".to_vec()));
}

#[test]
fn malformed_snapshot_rejected() {
    let mut sm = KvStateMachine::new();
    // Trailing bytes after a valid empty snapshot.
    let mut snap = KvStateMachine::new().snapshot();
    snap.push(0xFF);
    assert!(matches!(
        sm.restore(&snap),
        Err(KvError::MalformedSnapshot)
    ));
    // Too short (missing the count field).
    assert!(matches!(
        sm.restore(&[0u8; 4]),
        Err(KvError::MalformedSnapshot)
    ));
}

#[test]
fn command_sessions_are_read() {
    let cmd = KvStateMachine::encode_put(7, 9, b"k", b"v");
    assert_eq!(KvStateMachine::command_session(&cmd), Some((7, 9)));
    let cmd = KvStateMachine::encode_delete(7, 10, b"k");
    assert_eq!(KvStateMachine::command_session(&cmd), Some((7, 10)));
    assert_eq!(KvStateMachine::command_session(&[]), None);
    assert_eq!(KvStateMachine::command_session(&[9; 40]), None);
}

#[test]
fn the_order_of_writes_does_not_change_the_snapshot() {
    let mut a = KvStateMachine::new();
    a.apply(1, &KvStateMachine::encode_put(1, 1, b"a", b"1")).unwrap();
    a.apply(2, &KvStateMachine::encode_put(2, 1, b"b", b"2")).unwrap();
    let mut b = KvStateMachine::new();
    b.apply(1, &KvStateMachine::encode_put(2, 1, b"b", b"2")).unwrap();
    b.apply(2, &KvStateMachine::encode_put(1, 1, b"a", b"1")).unwrap();
    assert_eq!(a.snapshot(), b.snapshot());
    assert_eq!(a.session_count(), 2);
    assert!(a.fits_snapshot());
}

#[test]
fn state_machine_errors_say_what_happened() {
    assert_eq!(KvError::MalformedCommand.message(), "malformed command");
    assert_eq!(KvError::MalformedSnapshot.message(), "malformed snapshot");
    assert_eq!(
        KvError::IndexViolation { index: 12 }.message(),
        "index ordering violation at 12"
    );
}
