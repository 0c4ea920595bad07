use capslock_lite::monitor::{Outcome, Violation};
use capslock_lite::tags::{TagMap, TagRecord, REVOKED_TAG};

#[test]
fn registered_tag_passes() {
    let mut m = TagMap::new();
    let tag = m.register(0x1000, 64);
    assert_ne!(tag, REVOKED_TAG);
    assert_eq!(tag, 1);
    assert_eq!(m.check(0x1000, tag), Ok(Outcome::Enforced));
    assert_eq!(
        m.record(0x1000),
        Some(TagRecord { base: 0x1000, size: 64, active_tag: tag })
    );
}

#[test]
fn wrong_tag_fails() {
    let mut m = TagMap::new();
    let tag = m.register(0x1000, 64);
    assert_eq!(
        m.check(0x1000, tag + 100),
        Err(Violation::TagMismatch { base: 0x1000, recorded: tag, presented: tag + 100 })
    );
}

#[test]
fn reregistration_rotates_tag() {
    let mut m = TagMap::new();
    let old = m.register(0x2000, 16);
    let new = m.register(0x2000, 16);
    assert_ne!(old, new);
    assert_eq!(new, 2);
    assert!(m.check(0x2000, old).is_err());
    assert_eq!(m.check(0x2000, new), Ok(Outcome::Enforced));
}

#[test]
fn revoked_allocation_fails_every_tag() {
    let mut m = TagMap::new();
    let tag = m.register(0x3000, 8);
    m.revoke(0x3000);
    assert!(m.check(0x3000, tag).is_err());
    assert_eq!(
        m.check(0x3000, REVOKED_TAG),
        Err(Violation::TagMismatch { base: 0x3000, recorded: REVOKED_TAG, presented: REVOKED_TAG })
    );
}

#[test]
fn never_issued_tag_fails() {
    let mut m = TagMap::new();
    let a = m.register(0x4000, 8);
    let b = m.register(0x5000, 8);
    // `b` was issued, but for another base.
    assert!(m.check(0x4000, b).is_err());
    assert!(m.check(0x4000, 12345).is_err());
    assert!(m.check(0x4000, REVOKED_TAG).is_err());
    assert_eq!(m.check(0x4000, a), Ok(Outcome::Enforced));
}

#[test]
fn revoke_twice_equals_once() {
    let mut m = TagMap::new();
    m.register(0x6000, 32);
    m.revoke(0x6000);
    let once = m.record(0x6000);
    m.revoke(0x6000);
    assert_eq!(m.record(0x6000), once);
    assert_eq!(once, Some(TagRecord { base: 0x6000, size: 32, active_tag: REVOKED_TAG }));
}

#[test]
fn untracked_base_passes_unchecked() {
    let mut m = TagMap::new();
    assert_eq!(m.check(0x7000, 99), Ok(Outcome::Untracked));
    m.revoke(0x7000);
    assert_eq!(m.record(0x7000), None);
    assert_eq!(m.check(0x7000, 99), Ok(Outcome::Untracked));
}
