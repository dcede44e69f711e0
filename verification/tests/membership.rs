//! The membership file.
use arachne::storage::membership::{
    encode_membership, read_membership, Damage, MembershipError,
};
use arachne::ConfState;

fn conf(voters: &[u64], learners: &[u64]) -> ConfState {
    ConfState {
        voters: voters.to_vec(),
        learners: learners.to_vec(),
    }
}

#[test]
fn absent_file_reads_as_none() {
    assert_eq!(read_membership(None), Ok(None));
}

#[test]
fn membership_round_trips() {
    for (index, c) in [
        (7, conf(&[1, 2, 3], &[])),
        (9, conf(&[1, 2], &[3])),
        (0, conf(&[], &[])),
    ] {
        let bytes = encode_membership(index, &c);
        assert_eq!(read_membership(Some(&bytes)), Ok(Some((index, c))));
    }
}

#[test]
fn a_corrupt_file_is_an_error_not_a_silent_fallback() {
    let mut bytes = encode_membership(4, &conf(&[1, 2, 3], &[]));
    let last = bytes.len() - 1;
    bytes[last] ^= 0xff; // a byte of the checksum
    match read_membership(Some(&bytes)) {
        Err(MembershipError::Corrupt(damage)) => {
            assert!(matches!(damage, Damage::Crc { .. }));
            assert!(damage.message().contains("crc"));
        }
        other => panic!("expected a checksum error, got {other:?}"),
    }
    bytes[last] ^= 0xff;
    bytes[16] ^= 0xff; // a byte that the checksum covers
    assert!(matches!(
        read_membership(Some(&bytes)),
        Err(MembershipError::Corrupt(_))
    ));
}

#[test]
fn short_and_bad_magic_files_are_rejected() {
    assert_eq!(
        read_membership(Some(b"tiny")),
        Err(MembershipError::Corrupt(Damage::TooShort { len: 4 }))
    );
    let mut blob = vec![0u8; 32];
    blob[0..4].copy_from_slice(&0xDEAD_BEEFu32.to_le_bytes());
    match read_membership(Some(&blob)) {
        Err(MembershipError::Corrupt(damage)) => {
            assert_eq!(damage, Damage::BadMagic { found: 0xDEAD_BEEF });
            assert!(damage.message().contains("magic"));
        }
        other => panic!("expected a magic error, got {other:?}"),
    }
}

#[test]
fn any_damage_to_a_membership_file_is_named() {
    let bytes = encode_membership(4, &conf(&[1, 2, 3], &[4]));
    for i in 0..bytes.len() {
        let mut broken = bytes.clone();
        broken[i] ^= 0x40;
        let Err(MembershipError::Corrupt(damage)) = read_membership(Some(&broken)) else {
            panic!("byte {i} went unnoticed");
        };
        match damage {
            Damage::BadMagic { .. } => assert!(i < 4),
            Damage::BadVersion { .. } => assert!((4..8).contains(&i)),
            Damage::Crc { .. } => assert!(i >= 8),
            other => panic!("byte {i}: {other:?}"),
        }
    }
    for cut in 0..bytes.len() {
        assert!(read_membership(Some(&bytes[..cut])).is_err(), "cut at {cut}");
    }
}
