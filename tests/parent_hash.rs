use aws_mls::kdf::CipherSuite;
use aws_mls::node::{KeyPackage, LeafIndex, Node, NodeVec, Parent};
use aws_mls::parent_hash::{InvalidReason, ParentHash, RatchetTree, RatchetTreeError, UpdatePath};

fn get_test_key_package(public_key: Vec<u8>) -> KeyPackage {
    KeyPackage { public_key, parent_hash: None }
}

fn leaf(public_key: &[u8]) -> Option<Node> {
    Some(Node::Leaf(get_test_key_package(public_key.to_vec())))
}

fn get_test_node_vec() -> NodeVec {
    NodeVec(vec![
        leaf(b"A"),
        None,
        None,
        None,
        leaf(b"C"),
        Some(Node::Parent(Parent {
            public_key: b"CD".to_vec(),
            parent_hash: ParentHash::empty(),
            unmerged_leaves: vec![LeafIndex(2)],
        })),
        leaf(b"D"),
    ])
}

fn get_phash_test_tree(cipher_suite: CipherSuite) -> RatchetTree {
    let mut nodes = Vec::new();
    for i in 0..4u8 {
        nodes.push(leaf(&[b'A' + i]));
        if i < 3 {
            nodes.push(Some(Node::Parent(Parent {
                public_key: vec![i],
                parent_hash: ParentHash::empty(),
                unmerged_leaves: vec![],
            })));
        }
    }
    RatchetTree { cipher_suite, nodes: NodeVec(nodes) }
}

#[test]
fn test_original_child_resolution() {
    let node_vec = get_test_node_vec();
    let expected = vec![vec![67u8, 68u8]];
    let parent = node_vec.borrow_as_parent(5).unwrap();
    let child_resolution = node_vec.original_child_resolution(parent, 5).unwrap();
    assert_eq!(expected, child_resolution);
}

#[test]
fn test_missing_parent_hash() {
    let cipher_suite = CipherSuite::Curve25519Aes128;

    let test_tree = get_phash_test_tree(cipher_suite);
    let test_key_package = get_test_key_package(b"foo".to_vec());

    let test_update_path = UpdatePath { leaf_key_package: test_key_package, nodes: vec![] };

    let mut tree = test_tree;
    let missing_parent_hash_res = tree.update_parent_hashes(LeafIndex(0), Some(&test_update_path));

    assert!(missing_parent_hash_res.is_err());
    assert!(matches!(missing_parent_hash_res, Err(RatchetTreeError::ParentHashNotFound)));
}

#[test]
fn test_invalid_parent_hash() {
    let cipher_suite = CipherSuite::Curve25519Aes128;

    let mut test_tree = get_phash_test_tree(cipher_suite);
    let mut test_key_package = get_test_key_package(b"foo".to_vec());
    test_key_package.parent_hash = Some(ParentHash::from_bytes(vec![0xf0, 0x0d]));

    let test_update_path = UpdatePath { leaf_key_package: test_key_package, nodes: vec![] };

    let invalid_parent_hash_res = test_tree.update_parent_hashes(LeafIndex(0), Some(&test_update_path));

    assert!(invalid_parent_hash_res.is_err());
    assert!(matches!(invalid_parent_hash_res, Err(RatchetTreeError::ParentHashMismatch)));
}

/// Four leaves, parents 1 and 3 filled, parent 5 blank.
fn round_trip_tree() -> RatchetTree {
    let mut tree = get_phash_test_tree(CipherSuite::Curve25519Aes128);
    tree.nodes.0[5] = None;
    tree
}

fn parent_at(tree: &RatchetTree, i: usize) -> &Parent {
    match &tree.nodes.0[i] {
        Some(Node::Parent(p)) => p,
        _ => panic!("no parent at {}", i),
    }
}

fn committed_tree() -> (RatchetTree, ParentHash) {
    let mut tree = round_trip_tree();
    let hash = tree.update_parent_hashes(LeafIndex(0), None).unwrap();
    if let Some(Node::Leaf(kp)) = &mut tree.nodes.0[0] {
        kp.parent_hash = Some(hash.clone());
    }
    (tree, hash)
}

#[test]
fn parent_hash_round_trip_validates() {
    let (tree, hash) = committed_tree();
    assert_eq!(hash.as_slice().len(), 32);
    assert!(parent_at(&tree, 3).parent_hash.as_slice().is_empty());
    assert_eq!(parent_at(&tree, 1).parent_hash.as_slice().len(), 32);
    assert_ne!(parent_at(&tree, 1).parent_hash, hash);
    assert_eq!(tree.validate_parent_hashes(), Ok(()));
}

#[test]
fn matching_update_path_is_accepted() {
    let (tree, hash) = committed_tree();
    let mut again = round_trip_tree();
    let path = UpdatePath {
        leaf_key_package: KeyPackage { public_key: b"A".to_vec(), parent_hash: Some(hash.clone()) },
        nodes: vec![],
    };
    assert_eq!(again.update_parent_hashes(LeafIndex(0), Some(&path)), Ok(hash));
    assert_eq!(parent_at(&again, 1), parent_at(&tree, 1));
}

#[test]
fn parent_hash_tamper_public_key_is_detected() {
    let (mut tree, _) = committed_tree();
    if let Some(Node::Parent(p)) = &mut tree.nodes.0[1] {
        p.public_key[0] ^= 1;
    }
    assert!(matches!(tree.validate_parent_hashes(), Err(RatchetTreeError::InvalidParentHash(_))));
}

#[test]
fn parent_hash_tamper_root_key_is_detected() {
    let (mut tree, _) = committed_tree();
    if let Some(Node::Parent(p)) = &mut tree.nodes.0[3] {
        p.public_key[0] ^= 0x80;
    }
    assert!(matches!(tree.validate_parent_hashes(), Err(RatchetTreeError::InvalidParentHash(_))));
}

#[test]
fn parent_hash_tamper_stored_hash_is_detected() {
    let (mut tree, _) = committed_tree();
    if let Some(Node::Parent(p)) = &mut tree.nodes.0[1] {
        let mut bytes = p.parent_hash.as_slice().to_vec();
        bytes[0] ^= 1;
        p.parent_hash = ParentHash::from_bytes(bytes);
    }
    assert!(matches!(tree.validate_parent_hashes(), Err(RatchetTreeError::InvalidParentHash(_))));
}

#[test]
fn parent_hash_tamper_unmerged_leaves_is_detected() {
    let (mut tree, _) = committed_tree();
    if let Some(Node::Parent(p)) = &mut tree.nodes.0[1] {
        p.unmerged_leaves.push(LeafIndex(1));
    }
    assert!(matches!(tree.validate_parent_hashes(), Err(RatchetTreeError::InvalidParentHash(_))));
}

#[test]
fn update_parent_hashes_twice_is_stable() {
    let mut tree = get_phash_test_tree(CipherSuite::P384Aes256);
    let first = tree.update_parent_hashes(LeafIndex(2), None).unwrap();
    let after_first = tree.nodes.clone();
    let second = tree.update_parent_hashes(LeafIndex(2), None).unwrap();
    assert_eq!(first, second);
    assert_eq!(first.as_slice().len(), 48);
    assert_eq!(tree.nodes, after_first);
}

#[test]
fn single_leaf_tree_has_empty_parent_hash() {
    let mut tree = RatchetTree { cipher_suite: CipherSuite::Curve25519Aes128, nodes: NodeVec(vec![leaf(b"A")]) };
    let hash = tree.update_parent_hashes(LeafIndex(0), None).unwrap();
    assert!(hash.as_slice().is_empty());
    assert_eq!(tree.validate_parent_hashes(), Ok(()));
}

#[test]
fn blank_leaf_under_blank_right_subtree_is_rejected() {
    let mut tree = round_trip_tree();
    tree.nodes.0[1] = None;
    tree.nodes.0[4] = None;
    tree.nodes.0[6] = None;
    assert_eq!(
        tree.validate_parent_hashes(),
        Err(RatchetTreeError::InvalidParentHash(InvalidReason::BlankLeaf))
    );
}

#[test]
fn out_of_range_leaf_is_an_error() {
    let mut tree = round_trip_tree();
    assert!(tree.update_parent_hashes(LeafIndex(4), None).is_err());
}

#[test]
fn parent_hash_matches_compares_bytes() {
    let a = ParentHash::from_bytes(vec![1, 2, 3]);
    assert!(a.matches(ParentHash::from_bytes(vec![1, 2, 3])));
    assert!(!a.matches(ParentHash::from_bytes(vec![1, 2, 4])));
    assert!(!a.matches(ParentHash::from_bytes(vec![1, 2])));
    assert!(ParentHash::empty().matches(ParentHash::empty()));
}

#[test]
fn non_blank_parent_off_the_path_fails_after_commit() {
    let mut tree = get_phash_test_tree(CipherSuite::Curve25519Aes128);
    let hash = tree.update_parent_hashes(LeafIndex(0), None).unwrap();
    if let Some(Node::Leaf(kp)) = &mut tree.nodes.0[0] {
        kp.parent_hash = Some(hash);
    }
    assert_eq!(
        tree.validate_parent_hashes(),
        Err(RatchetTreeError::InvalidParentHash(InvalidReason::NoMatchFound))
    );
}

#[test]
fn first_failing_parent_reports_its_error() {
    // parent 1 (no match) comes before the blank-leaf failure at parent 3
    let mut tree = round_trip_tree();
    tree.nodes.0[4] = None;
    tree.nodes.0[6] = None;
    assert_eq!(
        tree.validate_parent_hashes(),
        Err(RatchetTreeError::InvalidParentHash(InvalidReason::NoMatchFound))
    );
}

#[test]
fn committed_leaf_hash_has_the_suite_length() {
    for (cs, len) in [
        (CipherSuite::Curve25519Aes128, 32),
        (CipherSuite::P384Aes256, 48),
        (CipherSuite::P521Aes256, 64),
    ] {
        let mut tree = get_phash_test_tree(cs);
        let hash = tree.update_parent_hashes(LeafIndex(3), None).unwrap();
        assert_eq!(hash.as_slice().len(), len);
    }
}

#[test]
fn committed_hashes_follow_the_direct_path() {
    let cs = CipherSuite::Curve25519Aes128;
    let mut tree = get_phash_test_tree(cs);
    let before = tree.nodes.clone();
    let h = tree.update_parent_hashes(LeafIndex(0), None).unwrap();
    let ocr = |i: usize, c: usize| {
        let p = before.borrow_as_parent(i).unwrap();
        before.original_child_resolution(p, c).unwrap()
    };
    let expected_1 = ParentHash::new(cs, &[1u8], &ParentHash::empty(), ocr(3, 5)).unwrap();
    assert!(parent_at(&tree, 3).parent_hash.as_slice().is_empty());
    assert_eq!(parent_at(&tree, 1).parent_hash, expected_1);
    assert_eq!(h, ParentHash::new(cs, &[0u8], &expected_1, ocr(1, 2)).unwrap());
    assert_eq!(tree.nodes.0[5], before.0[5]);
}
