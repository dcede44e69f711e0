//! Snapshot files.
use arachne::storage::crc32c::crc32c;
use arachne::storage::meta::FORMAT_VERSION;
use arachne::storage::snapshot::{
    decode_snapshot, encode_snapshot, parse_snapshot_file_name, snapshot_file_name, SnapshotError,
};
use arachne::{ConfState, Snapshot, SnapshotMeta};

fn sample() -> Snapshot {
    Snapshot {
        meta: SnapshotMeta {
            index: 7,
            term: 3,
            conf_state: ConfState {
                voters: vec![1, 2, 3],
                learners: vec![9],
            },
        },
        data: b"serialized state machine".to_vec(),
    }
}

#[test]
fn round_trips() {
    let snap = sample();
    let bytes = encode_snapshot(&snap);
    assert_eq!(decode_snapshot(&bytes).expect("decode"), snap);
}

#[test]
fn round_trips_empty_state_and_membership() {
    let snap = Snapshot {
        meta: SnapshotMeta {
            index: 0,
            term: 0,
            conf_state: ConfState::default(),
        },
        data: Vec::new(),
    };
    let bytes = encode_snapshot(&snap);
    assert_eq!(decode_snapshot(&bytes).expect("decode"), snap);
}

#[test]
fn rejects_bad_magic() {
    let mut bytes = encode_snapshot(&sample());
    bytes[0] ^= 0xFF;
    assert!(decode_snapshot(&bytes).is_err());
}

#[test]
fn rejects_a_flipped_payload_bit() {
    let mut bytes = encode_snapshot(&sample());
    let last_data = bytes.len() - 5; // last byte before the checksum
    bytes[last_data] ^= 0x01;
    match decode_snapshot(&bytes) {
        Err(SnapshotError::ChecksumMismatch { .. }) => {}
        other => panic!("expected a checksum mismatch, got {other:?}"),
    }
}

#[test]
fn rejects_truncation() {
    let bytes = encode_snapshot(&sample());
    for cut in 0..bytes.len() {
        assert!(
            decode_snapshot(&bytes[..cut]).is_err(),
            "a {cut}-byte prefix must not decode"
        );
    }
}

#[test]
fn rejects_a_wrong_format_version() {
    let snap = sample();
    let mut bytes = encode_snapshot(&snap);
    // Change the version and fix the checksum, so that the version is what is
    // rejected.
    bytes[4..8].copy_from_slice(&(FORMAT_VERSION + 1).to_le_bytes());
    let (body, _) = bytes.split_at(bytes.len() - 4);
    let crc = crc32c(body);
    let n = bytes.len();
    bytes[n - 4..].copy_from_slice(&crc.to_le_bytes());
    match decode_snapshot(&bytes) {
        Err(SnapshotError::BadFormatVersion { found }) => {
            assert_eq!(found, FORMAT_VERSION + 1);
        }
        other => panic!("expected a version rejection, got {other:?}"),
    }
}

#[test]
fn file_names_round_trip() {
    let name = snapshot_file_name(42, 7);
    assert_eq!(name, "snapshot-00000000000000000042-00000000000000000007.snap");
    assert_eq!(parse_snapshot_file_name(&name), Some((42, 7)));
}

#[test]
fn foreign_file_names_are_ignored() {
    for name in [
        "snapshot-.snap",
        "snapshot-1-2.snap",
        "snapshot-00000000000000000001-2.snap",
        "snapshot-00000000000000000001-00000000000000000002.txt",
        "wal-00000000000000000001.log",
        "META",
        "",
    ] {
        assert_eq!(parse_snapshot_file_name(name), None, "name: {name}");
    }
}

#[test]
fn a_bad_magic_with_a_right_checksum_is_named() {
    let mut bytes = encode_snapshot(&sample());
    bytes[0] ^= 0xFF;
    let n = bytes.len();
    let crc = crc32c(&bytes[..n - 4]);
    bytes[n - 4..].copy_from_slice(&crc.to_le_bytes());
    assert_eq!(decode_snapshot(&bytes), Err(SnapshotError::BadMagic));
    assert_eq!(decode_snapshot(&[1, 2, 3]), Err(SnapshotError::TooShort));
}

#[test]
fn any_damage_to_a_snapshot_file_is_noticed() {
    let bytes = encode_snapshot(&sample());
    for i in 0..bytes.len() {
        let mut broken = bytes.clone();
        broken[i] ^= 0x40;
        assert!(
            matches!(
                decode_snapshot(&broken),
                Err(SnapshotError::ChecksumMismatch { .. })
            ),
            "byte {i}"
        );
    }
    for cut in 0..bytes.len() {
        assert!(decode_snapshot(&bytes[..cut]).is_err(), "cut at {cut}");
    }
    for tail in 1..9 {
        let mut long = bytes.clone();
        long.extend(vec![0u8; tail]);
        assert!(decode_snapshot(&long).is_err(), "{tail} more bytes");
    }
}

#[test]
fn an_accepted_snapshot_file_is_its_encoding() {
    let bytes = encode_snapshot(&sample());
    let back = decode_snapshot(&bytes).expect("decode");
    assert_eq!(encode_snapshot(&back), bytes);
}
