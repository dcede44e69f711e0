//! The version and the crash points.
use arachne::fault_injection::{arm, armed, check, disarm, CrashPoint, Stage};
use arachne::version;

#[test]
fn version_matches_pkg_version() {
    assert_eq!(version(), "0.1.0");
    assert!(!version().is_empty());
}

#[test]
fn arm_is_one_shot_and_stage_specific() {
    let mut point = CrashPoint::new();
    disarm(&mut point);
    assert!(!armed(&point));
    assert!(!check(&mut point, Stage::AfterDeliver));
    arm(&mut point, Stage::AfterPersist);
    assert!(armed(&point));
    // A check at another stage leaves it armed.
    assert!(!check(&mut point, Stage::AfterDeliver));
    assert!(armed(&point));
    assert!(check(&mut point, Stage::AfterPersist));
    assert!(!armed(&point));
    assert!(!check(&mut point, Stage::AfterPersist));
    assert!(!check(&mut point, Stage::AfterDeliver));
}
