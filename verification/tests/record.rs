//! Record framing and payloads.
use arachne::storage::crc32c::crc32c;
use arachne::storage::record::{
    decode_conf_state, decode_entry, decode_hard_state, decode_record, encode_conf_state,
    encode_entry, encode_hard_state, encode_record, DecodeError, RecordType, MAX_RECORD_BYTES,
};

#[test]
fn record_type_discriminants() {
    assert_eq!(u8::from(RecordType::Entry), 0x01);
    assert_eq!(u8::from(RecordType::HardState), 0x02);
    assert_eq!(u8::from(RecordType::Meta), 0x03);
}

#[test]
fn record_type_try_from_valid() {
    assert_eq!(RecordType::try_from(0x01).unwrap(), RecordType::Entry);
    assert_eq!(RecordType::try_from(0x02).unwrap(), RecordType::HardState);
    assert_eq!(RecordType::try_from(0x03).unwrap(), RecordType::Meta);
}

#[test]
fn record_type_try_from_invalid() {
    assert!(matches!(
        RecordType::try_from(0x00),
        Err(DecodeError::UnknownRecordType(0x00))
    ));
    assert!(matches!(
        RecordType::try_from(0x7F),
        Err(DecodeError::UnknownRecordType(0x7F))
    ));
    assert!(matches!(
        RecordType::try_from(0xFF),
        Err(DecodeError::UnknownRecordType(0xFF))
    ));
}

#[test]
fn roundtrip_entry_empty_data() {
    let payload = encode_entry(1, 1, 0, b"");
    let record = encode_record(RecordType::Entry, &payload);
    let (rt, decoded) = decode_record(&record).unwrap();
    assert_eq!(rt, RecordType::Entry);
    let (index, term, etype, data) = decode_entry(&decoded).unwrap();
    assert_eq!(index, 1);
    assert_eq!(term, 1);
    assert_eq!(etype, 0);
    assert_eq!(data, b"");
}

#[test]
fn roundtrip_entry_with_data() {
    let data = b"hello world".to_vec();
    let payload = encode_entry(42, 7, 1, &data);
    let record = encode_record(RecordType::Entry, &payload);
    let (rt, decoded) = decode_record(&record).unwrap();
    assert_eq!(rt, RecordType::Entry);
    let (index, term, etype, d) = decode_entry(&decoded).unwrap();
    assert_eq!(index, 42);
    assert_eq!(term, 7);
    assert_eq!(etype, 1);
    assert_eq!(d, data);
}

#[test]
fn roundtrip_entry_large_payload() {
    let data = vec![0xAB; 1024 * 1024]; // 1 MiB
    let payload = encode_entry(999, 5, 2, &data);
    let record = encode_record(RecordType::Entry, &payload);
    let (rt, decoded) = decode_record(&record).unwrap();
    assert_eq!(rt, RecordType::Entry);
    let (index, term, _etype, d) = decode_entry(&decoded).unwrap();
    assert_eq!(index, 999);
    assert_eq!(term, 5);
    assert_eq!(d.len(), 1024 * 1024);
}

#[test]
fn roundtrip_hard_state_vote_none() {
    let payload = encode_hard_state(5, None, 3);
    let record = encode_record(RecordType::HardState, &payload);
    let (rt, decoded) = decode_record(&record).unwrap();
    assert_eq!(rt, RecordType::HardState);
    let (term, vote, commit) = decode_hard_state(&decoded).unwrap();
    assert_eq!(term, 5);
    assert_eq!(vote, None);
    assert_eq!(commit, 3);
}

#[test]
fn roundtrip_hard_state_vote_some() {
    let payload = encode_hard_state(10, Some(42), 7);
    let record = encode_record(RecordType::HardState, &payload);
    let (rt, decoded) = decode_record(&record).unwrap();
    assert_eq!(rt, RecordType::HardState);
    let (term, vote, commit) = decode_hard_state(&decoded).unwrap();
    assert_eq!(term, 10);
    assert_eq!(vote, Some(42));
    assert_eq!(commit, 7);
}

#[test]
fn roundtrip_boundary_indices() {
    let payload = encode_entry(u64::MAX, u64::MAX, 0, b"x");
    let record = encode_record(RecordType::Entry, &payload);
    let (_, decoded) = decode_record(&record).unwrap();
    let (index, term, _, data) = decode_entry(&decoded).unwrap();
    assert_eq!(index, u64::MAX);
    assert_eq!(term, u64::MAX);
    assert_eq!(data, b"x");
}

#[test]
fn corruption_flip_bit_in_payload() {
    let payload = encode_entry(1, 1, 0, b"hello");
    let mut record = encode_record(RecordType::Entry, &payload);
    // Flip a bit in the payload region (after the 9-byte header+type).
    record[15] ^= 0x01;
    let err = decode_record(&record).unwrap_err();
    assert!(
        matches!(err, DecodeError::ChecksumMismatch { .. }),
        "expected ChecksumMismatch, got {err:?}"
    );
}

#[test]
fn truncation_never_panics() {
    let payload = encode_entry(5, 3, 0, b"test data");
    let record = encode_record(RecordType::Entry, &payload);
    let full_len = record.len();
    for len in 0..full_len {
        let result = decode_record(&record[..len]);
        assert!(result.is_err(), "expected Err at truncation length {len}");
    }
    assert!(decode_record(&record).is_ok());
}

#[test]
fn bogus_len_too_small() {
    let payload = encode_entry(1, 1, 0, b"hi");
    let mut record = encode_record(RecordType::Entry, &payload);
    record[0..4].copy_from_slice(&1u32.to_le_bytes());
    let result = decode_record(&record);
    assert!(result.is_err());
}

#[test]
fn bogus_len_too_large() {
    let payload = encode_entry(1, 1, 0, b"hi");
    let mut record = encode_record(RecordType::Entry, &payload);
    record[0..4].copy_from_slice(&9999u32.to_le_bytes());
    let result = decode_record(&record);
    assert!(result.is_err());
}

#[test]
fn len_exceeds_max_record_bytes() {
    let mut buf = Vec::new();
    buf.extend_from_slice(&(MAX_RECORD_BYTES + 1).to_le_bytes());
    buf.extend_from_slice(&0u32.to_le_bytes());
    buf.extend_from_slice(&[0x01]); // type byte
    let result = decode_record(&buf);
    assert!(matches!(result, Err(DecodeError::BadLength)));
}

#[test]
fn unknown_type_byte_zero() {
    let body = vec![0x00u8, 0xAA, 0xBB];
    let crc = crc32c(&body);
    let mut buf = Vec::new();
    buf.extend_from_slice(&(body.len() as u32).to_le_bytes());
    buf.extend_from_slice(&crc.to_le_bytes());
    buf.extend_from_slice(&body);
    let err = decode_record(&buf).unwrap_err();
    assert!(matches!(err, DecodeError::UnknownRecordType(0x00)));
}

#[test]
fn unknown_type_byte_0x7f() {
    let body = vec![0x7Fu8, 0xAA];
    let crc = crc32c(&body);
    let mut buf = Vec::new();
    buf.extend_from_slice(&(body.len() as u32).to_le_bytes());
    buf.extend_from_slice(&crc.to_le_bytes());
    buf.extend_from_slice(&body);
    let err = decode_record(&buf).unwrap_err();
    assert!(matches!(err, DecodeError::UnknownRecordType(0x7F)));
}

#[test]
fn meta_type_is_unsupported() {
    let payload = vec![0x01, 0x02];
    let mut body = vec![0x03u8];
    body.extend_from_slice(&payload);
    let crc = crc32c(&body);
    let mut buf = Vec::new();
    buf.extend_from_slice(&(body.len() as u32).to_le_bytes());
    buf.extend_from_slice(&crc.to_le_bytes());
    buf.extend_from_slice(&body);
    let err = decode_record(&buf).unwrap_err();
    assert!(matches!(
        err,
        DecodeError::UnsupportedRecordType(RecordType::Meta)
    ));
}

#[test]
fn decode_error_display() {
    assert!(!DecodeError::TooShort.message().is_empty());
    assert!(!DecodeError::BadLength.message().is_empty());
    let e = DecodeError::ChecksumMismatch {
        expected: 0xDEAD,
        actual: 0xBEEF,
    };
    assert!(e.message().contains("checksum mismatch"));
    assert!(!DecodeError::UnknownRecordType(0x42).message().is_empty());
    assert!(!DecodeError::TrailingBytes.message().is_empty());
}

#[test]
fn decode_entry_too_short() {
    assert!(matches!(
        decode_entry(&[0u8; 16]),
        Err(DecodeError::TooShort)
    ));
}

#[test]
fn decode_hard_state_too_short() {
    assert!(matches!(
        decode_hard_state(&[0u8; 24]),
        Err(DecodeError::TooShort)
    ));
}

#[test]
fn conf_state_round_trips() {
    let payload = encode_conf_state(42, &[1, 2, 3], &[9]);
    let (index, voters, learners) =
        decode_conf_state(&payload).expect("a freshly encoded payload must decode");
    assert_eq!(index, 42);
    assert_eq!(voters, vec![1, 2, 3]);
    assert_eq!(learners, vec![9]);

    let empty = encode_conf_state(0, &[], &[]);
    let (index, voters, learners) =
        decode_conf_state(&empty).expect("empty member tables must decode");
    assert_eq!((index, voters.len(), learners.len()), (0, 0, 0));
}

#[test]
fn decode_conf_state_rejects_truncated_payloads() {
    let payload = encode_conf_state(7, &[1, 2], &[3]);
    for cut in 0..payload.len() {
        assert!(
            matches!(
                decode_conf_state(&payload[..cut]),
                Err(DecodeError::TooShort)
            ),
            "truncating to {cut} bytes must be rejected"
        );
    }
    assert!(decode_conf_state(&payload).is_ok());
}

#[test]
fn trailing_bytes_are_rejected() {
    let mut record = encode_record(RecordType::Entry, &encode_entry(1, 1, 0, b"hi"));
    record.push(0);
    assert_eq!(decode_record(&record), Err(DecodeError::BadLength));
}

#[test]
fn record_bytes_are_exact() {
    // len 1, then the checksum of the one type byte, then the byte.
    let record = encode_record(RecordType::HardState, b"");
    assert_eq!(&record[0..4], &[1, 0, 0, 0]);
    assert_eq!(&record[4..8], &crc32c(&[2]).to_le_bytes());
    assert_eq!(&record[8..], &[2]);
}

#[test]
fn an_accepted_record_is_its_encoding() {
    let payload = encode_entry(7, 2, 1, b"data");
    let bytes = encode_record(RecordType::Entry, &payload);
    let (record_type, back) = decode_record(&bytes).expect("decode");
    assert_eq!(encode_record(record_type, &back), bytes);
    let (index, term, entry_type, data) = decode_entry(&back).expect("decode");
    assert_eq!(encode_entry(index, term, entry_type, &data), payload);
}
