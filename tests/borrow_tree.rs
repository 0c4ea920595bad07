use capslock_lite::tree::{BorrowTree, Perm};

#[test]
fn roots_are_mutable_and_parentless() {
    let mut t = BorrowTree::new();
    assert_eq!(t.len(), 0);
    assert_eq!(t.spawn_root(), 0);
    assert_eq!(t.spawn_root(), 1);
    assert_eq!(t.get_perm(0), Perm::Mutable);
    assert_eq!(t.get_parent(1), None);
    assert!(t.is_valid(0) && t.is_valid(1));
}

#[test]
fn child_links_to_parent() {
    let mut t = BorrowTree::new();
    let r = t.spawn_root();
    let c = t.spawn_child(r, Perm::Shared).unwrap();
    assert_eq!(c, 1);
    assert_eq!(t.get_parent(c), Some(r));
    assert_eq!(t.get_perm(c), Perm::Shared);
    assert_eq!(t.len(), 2);
}

#[test]
fn child_of_unknown_or_dead_parent_is_rejected() {
    let mut t = BorrowTree::new();
    let r = t.spawn_root();
    assert_eq!(t.spawn_child(7, Perm::Shared), None);
    let c = t.spawn_child(r, Perm::Mutable).unwrap();
    t.deep_revoke(c);
    assert_eq!(t.spawn_child(c, Perm::Shared), None);
    assert_eq!(t.len(), 2);
}

#[test]
fn deep_revoke_kills_subtree_only() {
    let mut t = BorrowTree::new();
    let r = t.spawn_root();
    let a = t.spawn_child(r, Perm::Mutable).unwrap();
    let b = t.spawn_child(a, Perm::Shared).unwrap();
    let c = t.spawn_child(b, Perm::Shared).unwrap();
    let d = t.spawn_child(r, Perm::Shared).unwrap();
    t.deep_revoke(a);
    assert!(!t.is_valid(a) && !t.is_valid(b) && !t.is_valid(c));
    assert!(t.is_valid(r) && t.is_valid(d));
}

#[test]
fn deep_revoke_twice_equals_once() {
    let mut t = BorrowTree::new();
    let r = t.spawn_root();
    let a = t.spawn_child(r, Perm::Mutable).unwrap();
    let b = t.spawn_child(a, Perm::Shared).unwrap();
    let d = t.spawn_child(r, Perm::Shared).unwrap();
    t.deep_revoke(a);
    let once: Vec<bool> = (0..t.len()).map(|i| t.is_valid(i)).collect();
    t.deep_revoke(a);
    let twice: Vec<bool> = (0..t.len()).map(|i| t.is_valid(i)).collect();
    assert_eq!(once, twice);
    assert_eq!(once, vec![true, false, false, true]);
    assert_eq!((b, d), (2, 3));
}

#[test]
fn deep_revoke_of_unknown_id_is_ignored() {
    let mut t = BorrowTree::new();
    let r = t.spawn_root();
    t.deep_revoke(42);
    assert!(t.is_valid(r));
}

#[test]
fn deep_revoke_handles_long_chains() {
    let mut t = BorrowTree::new();
    let mut last = t.spawn_root();
    for _ in 0..200_000 {
        last = t.spawn_child(last, Perm::Mutable).unwrap();
    }
    t.deep_revoke(0);
    assert!(!t.is_valid(last));
    assert!(!t.is_valid(100_000));
}

#[test]
fn dead_ancestor_makes_descendants_invalid() {
    let mut t = BorrowTree::new();
    let r = t.spawn_root();
    let a = t.spawn_child(r, Perm::Shared).unwrap();
    let b = t.spawn_child(a, Perm::Shared).unwrap();
    t.deep_revoke(r);
    assert!(!t.is_valid(a));
    assert!(!t.is_valid(b));
}

#[test]
fn is_valid_is_stable() {
    let mut t = BorrowTree::new();
    let r = t.spawn_root();
    let a = t.spawn_child(r, Perm::Shared).unwrap();
    let b = t.spawn_child(r, Perm::Mutable).unwrap();
    t.revoke_mutable_siblings(r, a);
    for _ in 0..3 {
        assert!(t.is_valid(a));
        assert!(!t.is_valid(b));
        assert!(!t.is_valid(99));
    }
    assert_eq!(t.len(), 3);
}

#[test]
fn revoke_all_children_freezes_descendants() {
    let mut t = BorrowTree::new();
    let r = t.spawn_root();
    let a = t.spawn_child(r, Perm::Shared).unwrap();
    let b = t.spawn_child(a, Perm::Mutable).unwrap();
    let c = t.spawn_child(r, Perm::Mutable).unwrap();
    t.revoke_all_children(r);
    assert!(t.is_valid(r));
    assert!(!t.is_valid(a) && !t.is_valid(b) && !t.is_valid(c));
    let d = t.spawn_child(r, Perm::Shared).unwrap();
    assert!(t.is_valid(d));
    t.revoke_all_children(17);
    assert!(t.is_valid(d));
}

#[test]
fn revoke_siblings_except_keeps_survivor_subtree() {
    let mut t = BorrowTree::new();
    let r = t.spawn_root();
    let a = t.spawn_child(r, Perm::Shared).unwrap();
    let b = t.spawn_child(r, Perm::Mutable).unwrap();
    let a1 = t.spawn_child(a, Perm::Shared).unwrap();
    let b1 = t.spawn_child(b, Perm::Shared).unwrap();
    t.revoke_siblings_except(r, b);
    assert!(!t.is_valid(a) && !t.is_valid(a1));
    assert!(t.is_valid(b) && t.is_valid(b1) && t.is_valid(r));
    // A later writer among the children still kills the survivor.
    let c = t.spawn_child(r, Perm::Mutable).unwrap();
    t.revoke_siblings_except(r, c);
    assert!(!t.is_valid(b) && !t.is_valid(b1));
    assert!(t.is_valid(c));
}

#[test]
fn revoke_mutable_siblings_spares_readers() {
    let mut t = BorrowTree::new();
    let r = t.spawn_root();
    let a = t.spawn_child(r, Perm::Shared).unwrap();
    let b = t.spawn_child(r, Perm::Shared).unwrap();
    let m = t.spawn_child(r, Perm::Mutable).unwrap();
    let m1 = t.spawn_child(m, Perm::Shared).unwrap();
    t.revoke_mutable_siblings(r, a);
    assert!(t.is_valid(a) && t.is_valid(b));
    assert!(!t.is_valid(m) && !t.is_valid(m1));
}

#[test]
fn revoke_mutable_siblings_spares_mutable_survivor() {
    let mut t = BorrowTree::new();
    let r = t.spawn_root();
    let m = t.spawn_child(r, Perm::Mutable).unwrap();
    let n = t.spawn_child(r, Perm::Mutable).unwrap();
    t.revoke_mutable_siblings(r, m);
    assert!(t.is_valid(m));
    assert!(!t.is_valid(n));
}
