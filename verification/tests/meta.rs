//! The identity file.
use arachne::storage::crc32c::crc32c;
use arachne::storage::meta::{
    decode_meta, encode_meta, meta_path, Meta, MetaError, FORMAT_VERSION,
};

fn test_meta() -> Meta {
    Meta {
        cluster_id: "test-cluster".into(),
        node_id: "node-1".into(),
        format_version: FORMAT_VERSION,
        created_at: 1_700_000_000_000,
        snapshot_index: 0,
        snapshot_term: 0,
    }
}

#[test]
fn encode_decode_roundtrip() {
    let meta = test_meta();
    let blob = encode_meta(&meta);
    let decoded = decode_meta(&blob).unwrap();
    assert_eq!(decoded, meta);
}

#[test]
fn encode_decode_roundtrip_empty_strings() {
    let meta = Meta {
        cluster_id: String::new(),
        node_id: String::new(),
        format_version: 1,
        created_at: 0,
        snapshot_index: 0,
        snapshot_term: 0,
    };
    let blob = encode_meta(&meta);
    let decoded = decode_meta(&blob).unwrap();
    assert_eq!(decoded, meta);
}

#[test]
fn snapshot_pointer_roundtrips_and_old_files_decode_as_none() {
    let mut meta = test_meta();
    meta.snapshot_index = 42;
    meta.snapshot_term = 7;
    let blob = encode_meta(&meta);
    assert_eq!(decode_meta(&blob).unwrap(), meta);

    let stale = Meta {
        snapshot_index: 0,
        snapshot_term: 0,
        ..meta.clone()
    };
    let mut body = encode_meta(&stale);
    // Drop the trailing 16-byte pointer and re-stamp the checksum, which covers
    // the payload from offset 12 on.
    let n = body.len();
    body.truncate(n - 16);
    let crc = crc32c(&body[12..]);
    body[8..12].copy_from_slice(&crc.to_le_bytes());
    let decoded = decode_meta(&body).expect("a file without the pointer must decode");
    assert_eq!(decoded.snapshot_index, 0);
    assert_eq!(decoded.snapshot_term, 0);
    assert_eq!(decoded.cluster_id, meta.cluster_id);
}

#[test]
fn format_version_is_one() {
    assert_eq!(FORMAT_VERSION, 1);
}

#[test]
fn meta_path_is_in_data_dir() {
    let path = meta_path("/tmp/arachne");
    assert_eq!(path, "/tmp/arachne/META");
}

#[test]
fn display_errors_are_non_empty() {
    assert!(!MetaError::BadMagic.message().is_empty());
    assert!(!MetaError::TooShort.message().is_empty());
    assert!(!MetaError::TruncatedField.message().is_empty());
    let e = MetaError::ChecksumMismatch {
        expected: 1,
        actual: 2,
    };
    assert!(e.message().contains("checksum"));
}

#[test]
fn corrupt_meta_returns_error() {
    let mut blob = encode_meta(&test_meta());
    blob[20] ^= 0xFF;
    assert!(matches!(
        decode_meta(&blob),
        Err(MetaError::ChecksumMismatch { .. })
    ));
}

#[test]
fn bad_magic_returns_error() {
    let mut blob = encode_meta(&test_meta());
    blob[0] = 0x00;
    assert_eq!(decode_meta(&blob), Err(MetaError::BadMagic));
}

#[test]
fn too_short_returns_error() {
    assert_eq!(decode_meta(b"short"), Err(MetaError::TooShort));
}

#[test]
fn an_id_that_is_no_text_is_an_error() {
    let mut blob = encode_meta(&test_meta());
    // The first byte of the cluster id, behind its length.
    blob[14] = 0xFF;
    let crc = crc32c(&blob[12..]);
    blob[8..12].copy_from_slice(&crc.to_le_bytes());
    assert_eq!(decode_meta(&blob), Err(MetaError::TruncatedField));
}

#[test]
fn ids_beyond_ascii_survive() {
    let meta = Meta {
        cluster_id: "\u{4e2d}-cluster".into(),
        node_id: "n\u{e4}me".into(),
        ..test_meta()
    };
    assert_eq!(decode_meta(&encode_meta(&meta)).unwrap(), meta);
}
