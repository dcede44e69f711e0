//! The checksum against known values.
use arachne::storage::crc32c::crc32c;

#[test]
fn empty_input_is_zero() {
    assert_eq!(crc32c(b""), 0);
}

#[test]
fn standard_check_value() {
    // The standard check value for the ASCII string "123456789".
    assert_eq!(crc32c(b"123456789"), 0xE306_9283);
}

#[test]
fn known_vector_4_bytes() {
    assert_eq!(crc32c(b"abcd"), 0x92C8_0A31);
}

#[test]
fn known_vector_all_zeros() {
    let zeros = [0u8; 32];
    assert_eq!(crc32c(&zeros), 0x8A91_36AA);
}

#[test]
fn single_byte() {
    assert_eq!(crc32c(&[0u8]), 0x527D_5351);
}

#[test]
fn deterministic_and_length_dependent() {
    assert_eq!(crc32c(b"hello"), crc32c(b"hello"));
    assert_ne!(crc32c(b"hello"), crc32c(b"world"));
}

#[test]
fn incremental_matches_whole() {
    let data = b"123456789";
    let whole = crc32c(data);
    assert_eq!(whole, 0xE306_9283);
}

#[test]
fn every_changed_byte_changes_the_checksum() {
    let data = b"a record of some length".to_vec();
    let sum = crc32c(&data);
    for i in 0..data.len() {
        for bit in 0..8 {
            let mut changed = data.clone();
            changed[i] ^= 1 << bit;
            assert_ne!(crc32c(&changed), sum, "byte {i} bit {bit}");
        }
    }
}
