use capslock_lite::monitor::{Outcome, Runtime, Violation};
use capslock_lite::tree::Perm;

fn valid_at(rt: &Runtime, addr: usize) -> bool {
    let id = rt.node_of(addr).expect("address is tracked");
    rt.tree().is_valid(id)
}

#[test]
fn sibling_revocation_by_writer() {
    let mut rt = Runtime::new();
    assert_eq!(rt.handle_alloc(0x100), Ok(()));
    assert_eq!(rt.handle_reborrow(0x100, 0x101, Perm::Shared), Ok(()));
    assert_eq!(rt.handle_reborrow(0x100, 0x102, Perm::Shared), Ok(()));
    assert_eq!(rt.handle_access(0x101), Ok(Outcome::Enforced));
    assert_eq!(rt.handle_access(0x102), Ok(Outcome::Enforced));
    assert_eq!(rt.handle_reborrow(0x100, 0x103, Perm::Mutable), Ok(()));
    assert_eq!(rt.handle_access(0x103), Ok(Outcome::Enforced));
    assert_eq!(
        rt.handle_access(0x101),
        Err(Violation::UseAfterRevocation { addr: 0x101 })
    );
}

#[test]
fn lazy_revocation_reader_first() {
    let mut rt = Runtime::new();
    rt.handle_alloc(0x200).unwrap();
    rt.handle_reborrow(0x200, 0x201, Perm::Shared).unwrap();
    rt.handle_reborrow(0x200, 0x202, Perm::Mutable).unwrap();
    // The dormant writer did not revoke the reader at creation.
    assert_eq!(rt.handle_access(0x201), Ok(Outcome::Enforced));
    assert_eq!(
        rt.handle_access(0x202),
        Err(Violation::UseAfterRevocation { addr: 0x202 })
    );
}

#[test]
fn lazy_revocation_writer_first() {
    let mut rt = Runtime::new();
    rt.handle_alloc(0x200).unwrap();
    rt.handle_reborrow(0x200, 0x201, Perm::Shared).unwrap();
    rt.handle_reborrow(0x200, 0x202, Perm::Mutable).unwrap();
    assert_eq!(rt.handle_access(0x202), Ok(Outcome::Enforced));
    assert_eq!(
        rt.handle_access(0x201),
        Err(Violation::UseAfterRevocation { addr: 0x201 })
    );
}

#[test]
fn reader_coexistence() {
    let mut rt = Runtime::new();
    rt.handle_alloc(0x300).unwrap();
    rt.handle_reborrow(0x300, 0x301, Perm::Shared).unwrap();
    rt.handle_reborrow(0x300, 0x302, Perm::Shared).unwrap();
    assert_eq!(rt.handle_access(0x301), Ok(Outcome::Enforced));
    assert_eq!(rt.handle_access(0x302), Ok(Outcome::Enforced));
    assert_eq!(rt.handle_access(0x301), Ok(Outcome::Enforced));
    for addr in [0x300, 0x301, 0x302] {
        assert!(valid_at(&rt, addr));
    }
}

#[test]
fn vertical_freeze() {
    let mut rt = Runtime::new();
    rt.handle_alloc(0x400).unwrap();
    rt.handle_reborrow(0x400, 0x401, Perm::Mutable).unwrap();
    rt.handle_reborrow(0x401, 0x402, Perm::Shared).unwrap();
    assert_eq!(rt.handle_access(0x401), Ok(Outcome::Enforced));
    assert_eq!(
        rt.handle_access(0x402),
        Err(Violation::UseAfterRevocation { addr: 0x402 })
    );
}

#[test]
fn untracked_parent() {
    let mut rt = Runtime::new();
    assert_eq!(
        rt.handle_reborrow(0xDEAD, 0xBEEF, Perm::Shared),
        Err(Violation::UntrackedParent { addr: 0xDEAD })
    );
    assert_eq!(rt.node_of(0xBEEF), None);
}

#[test]
fn invalidated_parent() {
    let mut rt = Runtime::new();
    rt.handle_alloc(0x500).unwrap();
    rt.handle_reborrow(0x500, 0x501, Perm::Shared).unwrap();
    rt.handle_reborrow(0x500, 0x502, Perm::Mutable).unwrap();
    rt.handle_access(0x501).unwrap();
    assert_eq!(
        rt.handle_reborrow(0x502, 0x503, Perm::Shared),
        Err(Violation::InvalidatedParent { addr: 0x502 })
    );
    assert_eq!(rt.node_of(0x503), None);
}

#[test]
fn alloc_of_tracked_address_fails() {
    let mut rt = Runtime::new();
    assert_eq!(rt.handle_alloc(0x600), Ok(()));
    assert_eq!(
        rt.handle_alloc(0x600),
        Err(Violation::AlreadyTracked { addr: 0x600 })
    );
    assert_eq!(rt.node_of(0x600), Some(0));
    assert_eq!(rt.tree().len(), 1);
}

#[test]
fn untracked_access_is_ignored() {
    let mut rt = Runtime::new();
    rt.handle_alloc(0x700).unwrap();
    assert_eq!(rt.handle_access(0x999), Ok(Outcome::Untracked));
    assert!(valid_at(&rt, 0x700));
}

#[test]
fn failed_access_changes_nothing() {
    let mut rt = Runtime::new();
    rt.handle_alloc(0x800).unwrap();
    rt.handle_reborrow(0x800, 0x801, Perm::Mutable).unwrap();
    rt.handle_reborrow(0x801, 0x802, Perm::Mutable).unwrap();
    rt.handle_reborrow(0x800, 0x803, Perm::Mutable).unwrap();
    rt.handle_access(0x803).unwrap();
    assert_eq!(
        rt.handle_access(0x801),
        Err(Violation::UseAfterRevocation { addr: 0x801 })
    );
    assert!(valid_at(&rt, 0x803));
    assert!(!valid_at(&rt, 0x802));
}

#[test]
fn free_then_register_again() {
    let mut rt = Runtime::new();
    rt.handle_alloc(0x900).unwrap();
    rt.handle_reborrow(0x900, 0x901, Perm::Shared).unwrap();
    assert_eq!(rt.handle_free(0x900), Outcome::Enforced);
    assert_eq!(rt.node_of(0x900), None);
    assert_eq!(
        rt.handle_access(0x901),
        Err(Violation::UseAfterRevocation { addr: 0x901 })
    );
    assert_eq!(rt.handle_free(0x900), Outcome::Untracked);
    assert_eq!(rt.handle_alloc(0x900), Ok(()));
    assert_eq!(rt.node_of(0x900), Some(2));
    assert_eq!(rt.handle_access(0x900), Ok(Outcome::Enforced));
}

#[test]
fn dead_nodes_stay_dead() {
    let mut rt = Runtime::new();
    rt.handle_alloc(0xA00).unwrap();
    rt.handle_reborrow(0xA00, 0xA01, Perm::Shared).unwrap();
    rt.handle_reborrow(0xA00, 0xA02, Perm::Mutable).unwrap();
    rt.handle_access(0xA02).unwrap();
    assert!(!valid_at(&rt, 0xA01));
    rt.handle_access(0xA00).unwrap();
    rt.handle_reborrow(0xA00, 0xA03, Perm::Shared).unwrap();
    rt.handle_access(0xA03).unwrap();
    assert!(!valid_at(&rt, 0xA01));
    assert!(rt.handle_access(0xA01).is_err());
    assert!(!valid_at(&rt, 0xA01));
}

#[test]
fn writer_kills_every_sibling() {
    let mut rt = Runtime::new();
    rt.handle_alloc(0xB00).unwrap();
    rt.handle_reborrow(0xB00, 0xB01, Perm::Shared).unwrap();
    rt.handle_reborrow(0xB00, 0xB02, Perm::Mutable).unwrap();
    rt.handle_reborrow(0xB00, 0xB03, Perm::Mutable).unwrap();
    rt.handle_reborrow(0xB01, 0xB04, Perm::Shared).unwrap();
    rt.handle_access(0xB03).unwrap();
    for addr in [0xB01, 0xB02, 0xB04] {
        assert!(!valid_at(&rt, addr));
    }
    assert!(valid_at(&rt, 0xB03));
    assert!(valid_at(&rt, 0xB00));
}

#[test]
fn reader_keeps_shared_siblings() {
    let mut rt = Runtime::new();
    rt.handle_alloc(0xC00).unwrap();
    rt.handle_reborrow(0xC00, 0xC01, Perm::Shared).unwrap();
    rt.handle_reborrow(0xC00, 0xC02, Perm::Shared).unwrap();
    rt.handle_reborrow(0xC00, 0xC03, Perm::Mutable).unwrap();
    rt.handle_access(0xC01).unwrap();
    assert!(valid_at(&rt, 0xC02));
    assert!(!valid_at(&rt, 0xC03));
}

#[test]
fn root_access_stays_in_its_allocation() {
    let mut rt = Runtime::new();
    rt.handle_alloc(0xD00).unwrap();
    rt.handle_alloc(0xE00).unwrap();
    rt.handle_reborrow(0xD00, 0xD01, Perm::Shared).unwrap();
    rt.handle_reborrow(0xE00, 0xE01, Perm::Mutable).unwrap();
    rt.handle_access(0xD00).unwrap();
    assert!(!valid_at(&rt, 0xD01));
    assert!(valid_at(&rt, 0xE00));
    assert!(valid_at(&rt, 0xE01));
}
