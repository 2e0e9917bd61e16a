use user_balance_merkle_tree::MerkleTree;

#[test]
fn test_add_balance() {
    let mut tree = MerkleTree::new();
    tree.add_balance("user1".to_string(), 100);
    assert_eq!(tree.get_balance("user1"), Some(100));
}

#[test]
fn test_get_root() {
    let mut tree: MerkleTree = MerkleTree::new();
    tree.add_balance("user1".to_string(), 100);
    tree.add_balance("user2".to_string(), 200);
    assert!(tree.get_root().is_some());
}

#[test]
fn test_multiple_balances() {
    let mut tree: MerkleTree = MerkleTree::new();
    tree.add_balance("user1".to_string(), 100);
    tree.add_balance("user2".to_string(), 200);
    tree.add_balance("user3".to_string(), 300);
    assert_eq!(tree.get_balance("user1"), Some(100));
    assert_eq!(tree.get_balance("user2"), Some(200));
    assert_eq!(tree.get_balance("user3"), Some(300));
}

#[test]
fn test_nonexistent_balance() {
    let tree = MerkleTree::new();
    assert_eq!(tree.get_balance("nonexistent"), None);
}

#[test]
fn test_root_none_iff_empty() {
    let mut tree = MerkleTree::new();
    assert_eq!(tree.get_root(), None);
    tree.add_balance("user1".to_string(), 100);
    assert!(tree.get_root().is_some());
    tree.add_balance("user1".to_string(), 100);
    assert!(tree.get_root().is_some());
}

#[test]
fn test_single_leaf_root_is_leaf_digest() {
    let mut tree = MerkleTree::new();
    tree.add_balance("user1".to_string(), 100);
    // SHA-256 of the bytes of "user1" followed by "100", in lowercase hex.
    let expected = "3c5761b855271ad682248bab3edf4dc3824f5cfdbea4dceaf0433e753121af85";
    assert_eq!(tree.get_root(), Some(expected.to_string()));
    assert_eq!(tree.leaf_hashes(), &vec![expected.to_string()]);
}

#[test]
fn test_two_leaf_root_pairs_the_leaves() {
    let mut tree = MerkleTree::new();
    tree.add_balance("user1".to_string(), 100);
    tree.add_balance("user2".to_string(), 200);
    let leaf1 = "3c5761b855271ad682248bab3edf4dc3824f5cfdbea4dceaf0433e753121af85";
    let leaf2 = "cc2447643077cc57d9741dbc8de84b68434d72c3537b1f8a3369535432cc57ef";
    assert_eq!(tree.leaf_hashes(), &vec![leaf1.to_string(), leaf2.to_string()]);
    // The root hashes the two leaf hex strings together.
    let expected_root = "d2f8e779b37a7580ba0e261b113409180086ce9939d63b735145282c690947ee";
    assert_eq!(tree.get_root(), Some(expected_root.to_string()));
    assert_eq!(tree.get_balance("user1"), Some(100));
}

#[test]
fn test_three_leaf_promotion() {
    let mut tree = MerkleTree::new();
    tree.add_balance("user1".to_string(), 100);
    tree.add_balance("user2".to_string(), 200);
    tree.add_balance("user3".to_string(), 300);
    // With three leaves the last is promoted unhashed, so the root is
    // hash_pair(hash_pair(leaf1, leaf2), leaf3).
    let expected_root = "3c75b5660528e5e81303b6bb5f0bc187f739df95604e816368afd42cf9753b3f";
    assert_eq!(tree.get_root(), Some(expected_root.to_string()));
}

#[test]
fn test_reinsert_updates_balance_but_keeps_leaf() {
    let mut tree = MerkleTree::new();
    tree.add_balance("user1".to_string(), 100);
    let root_before = tree.get_root();
    tree.add_balance("user1".to_string(), 250);
    assert_eq!(tree.get_balance("user1"), Some(250));
    assert_eq!(tree.leaf_hashes().len(), 2);
    assert_ne!(tree.get_root(), root_before);
}

#[test]
fn test_root_deterministic() {
    let mut a = MerkleTree::new();
    let mut b = MerkleTree::new();
    for (user, balance) in [("alice", 1u64), ("bob", 2), ("carol", 3)] {
        a.add_balance(user.to_string(), balance);
        b.add_balance(user.to_string(), balance);
    }
    assert_eq!(a.get_root(), b.get_root());
    assert!(a.get_root().is_some());
}

#[test]
fn test_entries_hold_latest_balances() {
    let mut tree = MerkleTree::new();
    tree.add_balance("user1".to_string(), 100);
    tree.add_balance("user2".to_string(), 200);
    tree.add_balance("user1".to_string(), 300);
    let entries = tree.entries();
    assert_eq!(entries.len(), 2);
    assert!(entries.contains(&("user1".to_string(), 300)));
    assert!(entries.contains(&("user2".to_string(), 200)));
}

#[test]
fn test_empty_identifier_accepted() {
    let mut tree = MerkleTree::new();
    tree.add_balance(String::new(), 42);
    assert_eq!(tree.get_balance(""), Some(42));
    assert!(tree.get_root().is_some());
}
