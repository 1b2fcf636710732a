use mtree::hashing::{join_hashes, HashValue};
use mtree::sub_tree::{SubTree, ELEMENTS_IN_SUB_TREE, SUB_TREE_LEAFS, SUB_TREE_SIZE};

fn idx_hash(i: usize) -> HashValue {
    let mut hash = [0u8; 32];
    hash[0] = i as u8;
    hash
}

/// A serialized image holding the given filled leaves, parsed back into a
/// shard: the parse recomputes the internal slots, which mirrors placing the
/// leaves by hand and recomputing bottom-up.
fn shard_with_leaves(leaves: &[HashValue]) -> SubTree {
    let mut bytes = vec![0u8; SUB_TREE_SIZE];
    for (j, leaf) in leaves.iter().enumerate() {
        let off = 32 * (SUB_TREE_LEAFS - 1 + j);
        bytes[off..off + 32].copy_from_slice(leaf);
    }
    let next_index = (SUB_TREE_LEAFS - 1 + leaves.len()) as u32;
    bytes[SUB_TREE_SIZE - 4..].copy_from_slice(&next_index.to_be_bytes());
    SubTree::from_bytes(&bytes).unwrap()
}

#[test]
fn test_sub_tree_leafs_is_even() {
    assert_eq!(SUB_TREE_LEAFS % 2, 0, "SUB_TREE_LEAFS must be even");
    assert_eq!(
        ELEMENTS_IN_SUB_TREE,
        2 * SUB_TREE_LEAFS - 1,
        "ELEMENTS_IN_SUB_TREE calculation is correct"
    );
}

#[test]
fn test_node_borsh_size() {
    let node = SubTree::new();
    let size = node.to_bytes().len();
    assert_eq!(size, SUB_TREE_SIZE);
}

#[test]
fn test_sub_tree_new() {
    let tree: SubTree = SubTree::new();

    assert_eq!(tree.next_leaf_slot() as usize, SUB_TREE_LEAFS - 1);

    for i in (SUB_TREE_LEAFS - 1)..ELEMENTS_IN_SUB_TREE {
        assert_eq!(tree.node_at(i), [0u8; 32]);
    }

    for i in (0..SUB_TREE_LEAFS - 1).rev() {
        let expected = join_hashes(&tree.node_at(2 * i + 1), &tree.node_at(2 * i + 2));
        assert_eq!(tree.node_at(i), expected);
    }

    assert_eq!(tree.root_hash(), tree.node_at(0));
}

#[test]
fn test_insert_leaf() {
    let mut tree = SubTree::new();
    assert!(!tree.is_full());

    let mut inserted: Vec<HashValue> = Vec::new();
    for i in 0..SUB_TREE_LEAFS {
        assert!(!tree.is_full());
        assert!(tree.insert_leaf(idx_hash(i)));
        inserted.push(idx_hash(i));
        let expected_tree = shard_with_leaves(&inserted);
        assert_eq!(tree.to_bytes(), expected_tree.to_bytes());
    }
    assert!(tree.is_full());
}

#[test]
fn test_insert_when_full_leaves_state_unchanged() {
    let mut tree = SubTree::new();
    for i in 0..SUB_TREE_LEAFS {
        assert!(tree.insert_leaf(idx_hash(i)));
    }
    assert!(tree.is_full());
    let before = tree.to_bytes();
    assert!(!tree.insert_leaf(idx_hash(99)));
    assert_eq!(tree.to_bytes(), before);
}

#[test]
fn test_update_leaf() {
    let mut tree = SubTree::new();

    for i in 0..SUB_TREE_LEAFS - 1 {
        tree.insert_leaf(idx_hash(i));
    }

    assert!(!tree.update_leaf(SUB_TREE_LEAFS - 2, idx_hash(100)));
    assert!(!tree.update_leaf(ELEMENTS_IN_SUB_TREE, idx_hash(100)));

    let update_idx = SUB_TREE_LEAFS - 1;
    let original_root = tree.root_hash();
    assert!(tree.update_leaf(update_idx, idx_hash(99)));

    assert_ne!(original_root, tree.root_hash());

    let before_update = tree.root_hash();
    assert!(tree.update_leaf(update_idx, idx_hash(88)));
    assert_ne!(before_update, tree.root_hash());
}

#[test]
fn test_root_depends_only_on_leaves() {
    // two shards fed the same leaf sequence end with the same root, however
    // many unrelated reads happen in between
    let mut a = SubTree::new();
    let mut b = SubTree::new();
    for i in 0..5 {
        assert!(a.insert_leaf(idx_hash(i)));
        let _ = a.get_leaf(SUB_TREE_LEAFS - 1);
        let _ = a.get_leaf(SUB_TREE_LEAFS - 1 + i);
        assert!(b.insert_leaf(idx_hash(i)));
    }
    assert_eq!(a.root_hash(), b.root_hash());
    assert_eq!(a.to_bytes(), b.to_bytes());
}

#[test]
fn test_get_leaf_bounds() {
    let mut tree = SubTree::new();
    assert!(tree.get_leaf(SUB_TREE_LEAFS - 1).is_none());
    assert!(tree.insert_leaf(idx_hash(7)));
    assert_eq!(tree.get_leaf(SUB_TREE_LEAFS - 1), Some(idx_hash(7)));
    assert!(tree.get_leaf(SUB_TREE_LEAFS).is_none());
    assert!(tree.get_leaf(0).is_none());
    assert!(tree.get_leaf(ELEMENTS_IN_SUB_TREE).is_none());
}

#[test]
fn test_sub_tree_bytes_round_trip() {
    let mut tree = SubTree::new();
    for i in 0..3 {
        assert!(tree.insert_leaf(idx_hash(40 + i)));
    }
    let bytes = tree.to_bytes();
    let parsed = SubTree::from_bytes(&bytes).unwrap();
    assert_eq!(parsed.to_bytes(), bytes);
    assert_eq!(parsed.next_leaf_slot(), tree.next_leaf_slot());
    assert_eq!(parsed.root_hash(), tree.root_hash());

    // wrong length or an out-of-range cursor is rejected
    assert!(SubTree::from_bytes(&bytes[1..]).is_none());
    let mut bad = bytes.clone();
    bad[SUB_TREE_SIZE - 4..].copy_from_slice(&3u32.to_be_bytes());
    assert!(SubTree::from_bytes(&bad).is_none());
}
