//! Segment names and contents.
use arachne::storage::record::{decode_entry, encode_entry, encode_hard_state, RecordType};
use arachne::storage::segment::{
    list_segment_indices, parse_segment_name, segment_name, segment_path, Segment, SegmentError, DEFAULT_SEGMENT_BYTES,
};

#[test]
fn segment_name_format() {
    assert_eq!(segment_name(1), "wal-00000000000000000001.log");
    assert_eq!(segment_name(0), "wal-00000000000000000000.log");
    assert_eq!(segment_name(42), "wal-00000000000000000042.log");
    assert_eq!(
        segment_name(1_000_000_000_000),
        "wal-00000001000000000000.log"
    );
}

#[test]
fn segment_name_parse_roundtrip() {
    for idx in [0u64, 1, 42, 999_999, u64::MAX] {
        let name = segment_name(idx);
        assert_eq!(parse_segment_name(&name).unwrap(), idx);
    }
}

#[test]
fn parse_invalid_names() {
    assert!(parse_segment_name("wal-1.log").is_err());
    assert!(parse_segment_name("wal-.log").is_err());
    assert!(parse_segment_name("foo-00000000000000000001.log").is_err());
    assert!(parse_segment_name("wal-00000000000000000001.txt").is_err());
    assert!(parse_segment_name("").is_err());
    // Non-numeric digits.
    assert!(parse_segment_name("wal-xxxxxxxxxxxxxxxxxxxx.log").is_err());
}

#[test]
fn default_rollover_is_128mib() {
    assert_eq!(DEFAULT_SEGMENT_BYTES, 128 * 1024 * 1024);
}

#[test]
fn segment_path_is_in_data_dir() {
    let path = segment_path("/tmp/test-arachne", 1);
    assert_eq!(path, "/tmp/test-arachne/wal-00000000000000000001.log");
}

#[test]
fn invalid_names_say_why() {
    for (name, why) in [
        ("wal-1.txt", "wal-1.txt does not end with .log"),
        ("foo.log", "foo.log does not start with wal-"),
        ("wal-1.log", "segment name has 1 digits, expected 20"),
        (
            "wal-99999999999999999999.log",
            "segment name digits are not a valid u64: 99999999999999999999",
        ),
    ] {
        let err = parse_segment_name(name).unwrap_err();
        assert_eq!(err, SegmentError::InvalidName(why.to_string()));
        assert_eq!(err.message(), format!("invalid segment file name: {why}"));
    }
}

#[test]
fn rollover_threshold_selection() {
    let mut seg = Segment::open_with_max_bytes(1, 0, 100);
    assert!(!seg.should_rollover());
    let payload = vec![0u8; 200];
    let framed = seg.append_record(RecordType::Entry, &payload);
    assert_eq!(framed.len(), 209);
    assert_eq!(seg.size(), 209);
    assert!(seg.should_rollover());
    seg.truncate_at(99);
    assert!(!seg.should_rollover());
}

#[test]
fn append_and_read_roundtrip() {
    let mut seg = Segment::open(1, 0);
    let mut raw = seg.append_record(RecordType::Entry, &encode_entry(1, 1, 0, b"hello"));
    raw.extend(seg.append_record(RecordType::HardState, &encode_hard_state(1, Some(7), 0)));
    let records = Segment::read_all_records(&raw).unwrap();
    assert_eq!(records.len(), 2);
    assert_eq!(records[0].0, RecordType::Entry);
    assert_eq!(records[1].0, RecordType::HardState);
    let (index, term, etype, data) = decode_entry(&records[0].1).unwrap();
    assert_eq!((index, term, etype), (1, 1, 0));
    assert_eq!(data, b"hello");
    assert_eq!(seg.size(), raw.len() as u64);
}

#[test]
fn truncated_record_at_end_is_ignored() {
    let mut seg = Segment::open(1, 0);
    let mut raw = seg.append_record(RecordType::Entry, &encode_entry(1, 1, 0, b"ok"));
    let mut partial = [0u8; 8];
    partial[0..4].copy_from_slice(&10u32.to_le_bytes());
    raw.extend_from_slice(&partial);
    assert_eq!(Segment::read_all_records(&raw).unwrap().len(), 1);
}

#[test]
fn empty_segment_reads_zero_records() {
    assert!(Segment::read_all_records(&[]).unwrap().is_empty());
}

#[test]
fn a_damaged_record_is_an_error() {
    let mut seg = Segment::open(1, 0);
    let mut raw = seg.append_record(RecordType::Entry, &encode_entry(1, 1, 0, b"ok"));
    raw[12] ^= 1;
    assert!(matches!(
        Segment::read_all_records(&raw),
        Err(SegmentError::Decode(_))
    ));
}

#[test]
fn segments_are_listed_in_order() {
    let names: Vec<String> = [
        "META",
        "wal-00000000000000000012.log",
        "snap-1",
        "wal-00000000000000000003.log",
        "wal-7.log",
    ]
    .iter()
    .map(|name| name.to_string())
    .collect();
    assert_eq!(list_segment_indices(&names), [3, 12]);
}

#[test]
fn segment_names_sort_by_index() {
    let indices = [0, 1, 9, 10, 99, 100, 12_345, u64::MAX - 1, u64::MAX];
    for pair in indices.windows(2) {
        assert!(segment_name(pair[0]) < segment_name(pair[1]));
    }
}
