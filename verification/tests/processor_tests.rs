use std::collections::HashMap;

use mtree::error::MtreeError;
use mtree::hashing::{hash_leaf, HashValue};
use mtree::info::Info;
use mtree::path::get_path_to_root;
use mtree::processor::insert_leaf;
use mtree::sub_tree::{SubTree, SUB_TREE_LEAFS};

/// Loads the path's shards from the byte store, runs one insertion, and
/// persists every mutated record, as the surrounding program would.
fn do_insert(
    state: &mut Option<Info>,
    store: &mut HashMap<u32, Vec<u8>>,
    payload: &[u8],
) -> Result<HashValue, MtreeError> {
    let active = state.map(|i| i.node_id).unwrap_or(0);
    let path = get_path_to_root(active);
    let shards: Vec<Option<SubTree>> = path
        .iter()
        .map(|id| store.get(id).map(|b| SubTree::from_bytes(b).unwrap()))
        .collect();
    let out = insert_leaf(*state, shards, payload.to_vec())?;
    for (id, shard) in path.iter().zip(out.shards.iter()) {
        store.insert(*id, shard.to_bytes());
    }
    *state = Some(out.info);
    Ok(out.info.root_hash)
}

#[test]
fn test_init() {
    let mut state: Option<Info> = None;
    let mut store: HashMap<u32, Vec<u8>> = HashMap::new();

    assert!(state.is_none());
    assert!(store.get(&0).is_none());

    let test_data = "test_data".as_bytes().to_vec();
    let root = do_insert(&mut state, &mut store, &test_data).unwrap();

    let info = state.unwrap();
    assert_eq!(info.node_id, 0);

    let mut tree = SubTree::new();
    tree.insert_leaf(hash_leaf(test_data));
    assert_eq!(tree.root_hash(), info.root_hash);
    assert_eq!(root, info.root_hash);
}

#[test]
fn test_full_root_sub_tree() {
    let mut state: Option<Info> = None;
    let mut store: HashMap<u32, Vec<u8>> = HashMap::new();

    let mut expected_tree = SubTree::new();
    for i in 0..SUB_TREE_LEAFS {
        let test_data = format!("test_data_{}", i).as_bytes().to_vec();
        do_insert(&mut state, &mut store, &test_data).unwrap();
        expected_tree.insert_leaf(hash_leaf(test_data));
    }

    let info = state.unwrap();
    assert_eq!(info.node_id, 1);
    assert_eq!(info.root_hash, expected_tree.root_hash());
}

#[test]
fn test_overflow_root_sub_tree() {
    // a full leaf shard addressed by a stale cursor is rejected outright
    let mut full = SubTree::new();
    for i in 0..SUB_TREE_LEAFS {
        let test_data = format!("test_data_{}", i).as_bytes().to_vec();
        assert!(full.insert_leaf(hash_leaf(test_data)));
    }
    let info = Info { node_id: 0, root_hash: full.root_hash() };
    let r = insert_leaf(Some(info), vec![Some(full)], "test_data".as_bytes().to_vec());
    assert_eq!(r.err(), Some(MtreeError::SubTreeFull));
}

#[test]
fn insert_to_wrong_sub_tree() {
    // handles that do not line up with the computed path are rejected with
    // no mutation
    let test_data = "test_data".as_bytes().to_vec();
    let r = insert_leaf(None, Vec::new(), test_data);
    assert_eq!(r.err(), Some(MtreeError::InvalidNodeAccount));
}

#[test]
fn test_missing_ancestor() {
    // a descendant whose ancestor was never materialized is an invariant
    // violation, distinct from first-time creation
    let info = Info { node_id: 1, root_hash: [7u8; 32] };
    let r = insert_leaf(Some(info), vec![None, None], "test_data".as_bytes().to_vec());
    assert_eq!(r.err(), Some(MtreeError::UninitializedSubTree));
}

#[test]
fn test_full_tree() {
    // fill shard 0, then one further insertion targets the lazily created
    // shard 1: its first leaf migrates down from shard 0's child slot, and
    // shard 1's root takes that slot in shard 0
    let mut state: Option<Info> = None;
    let mut store: HashMap<u32, Vec<u8>> = HashMap::new();

    let mut payloads: Vec<Vec<u8>> = Vec::new();
    for i in 0..SUB_TREE_LEAFS {
        payloads.push(format!("test_data_{}", i).as_bytes().to_vec());
    }
    for p in payloads.iter() {
        do_insert(&mut state, &mut store, p).unwrap();
    }
    assert_eq!(state.unwrap().node_id, 1);

    let extra = "test_data".as_bytes().to_vec();
    let root = do_insert(&mut state, &mut store, &extra).unwrap();
    assert_eq!(state.unwrap().node_id, 1);

    let mut shard0 = SubTree::new();
    for p in payloads.iter() {
        assert!(shard0.insert_leaf(hash_leaf(p.clone())));
    }
    let migrated = shard0.get_leaf(SUB_TREE_LEAFS - 1).unwrap();

    let mut shard1 = SubTree::new();
    assert!(shard1.insert_leaf(hash_leaf(extra)));
    assert!(shard1.insert_leaf(migrated));

    assert!(shard0.update_leaf(SUB_TREE_LEAFS - 1, shard1.root_hash()));
    assert_eq!(root, shard0.root_hash());

    // the persisted shards match the expectation too
    assert_eq!(store.get(&1).unwrap(), &shard1.to_bytes());
    assert_eq!(store.get(&0).unwrap(), &shard0.to_bytes());
}

#[test]
fn test_fee_and_creation_flags() {
    let first = insert_leaf(None, vec![None], b"a".to_vec()).unwrap();
    assert!(!first.fee_due);
    assert!(first.created_leaf_shard);

    let state = Some(first.info);
    let shard = SubTree::from_bytes(&first.shards[0].to_bytes()).unwrap();
    let second = insert_leaf(state, vec![Some(shard)], b"b".to_vec()).unwrap();
    assert!(second.fee_due);
    assert!(!second.created_leaf_shard);
}

#[test]
fn test_third_shard_migration_from_second_slot() {
    // fill shard 0 and shard 1; the next insertion targets the lazily
    // created shard 2 and migrates the leaf that sat in shard 0's second
    // child slot
    let mut state: Option<Info> = None;
    let mut store: HashMap<u32, Vec<u8>> = HashMap::new();

    let mut payloads: Vec<Vec<u8>> = Vec::new();
    for i in 0..16 {
        payloads.push(format!("payload_{}", i).as_bytes().to_vec());
    }
    for p in payloads.iter() {
        do_insert(&mut state, &mut store, p).unwrap();
    }
    assert_eq!(state.unwrap().node_id, 2);

    let extra = "payload_extra".as_bytes().to_vec();
    let root = do_insert(&mut state, &mut store, &extra).unwrap();
    assert_eq!(state.unwrap().node_id, 2);

    let h = |p: &Vec<u8>| hash_leaf(p.clone());

    // shard 1 took payload 8 first, then the leaf migrated down from shard
    // 0's first child slot, then payloads 9..=14
    let mut shard1 = SubTree::new();
    assert!(shard1.insert_leaf(h(&payloads[8])));
    assert!(shard1.insert_leaf(h(&payloads[0])));
    for p in payloads[9..15].iter() {
        assert!(shard1.insert_leaf(hash_leaf(p.clone())));
    }

    // shard 2 took payload 15, then the leaf migrated down from shard 0's
    // second child slot
    let mut shard2 = SubTree::new();
    assert!(shard2.insert_leaf(h(&payloads[15])));
    assert!(shard2.insert_leaf(h(&payloads[1])));
    assert!(shard2.insert_leaf(hash_leaf(extra)));

    // shard 0 holds its original eight leaves, with the first two child
    // slots replaced by the completed shard roots
    let mut shard0 = SubTree::new();
    for p in payloads[0..8].iter() {
        assert!(shard0.insert_leaf(hash_leaf(p.clone())));
    }
    assert!(shard0.update_leaf(SUB_TREE_LEAFS - 1, shard1.root_hash()));
    assert!(shard0.update_leaf(SUB_TREE_LEAFS, shard2.root_hash()));

    assert_eq!(root, shard0.root_hash());
    assert_eq!(store.get(&2).unwrap(), &shard2.to_bytes());
    assert_eq!(store.get(&1).unwrap(), &shard1.to_bytes());
    assert_eq!(store.get(&0).unwrap(), &shard0.to_bytes());
}
