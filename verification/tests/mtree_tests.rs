use mtree::error::MtreeError;
use mtree::hashing::{join_hashes, HashValue};
use mtree::tree::MTree;

fn idx(i: usize) -> HashValue {
    let mut hash = [0u8; 32];
    hash[0] = i as u8;
    hash
}

fn join(left: &HashValue, right: &HashValue) -> HashValue {
    join_hashes(left, right)
}

#[test]
fn test_mtree() {
    let acc = vec![0u8; MTree::<10>::size()];
    let mut mtree = MTree::<10>::new(acc);

    assert_eq!(mtree.len(), 0);
    assert!(!mtree.is_full());
    assert!(mtree.is_init());

    mtree.insert_leaf(idx(0)).unwrap();
    assert_eq!(mtree.len(), 1);

    let root = join(&idx(0), &[0u8; 32]);
    assert_eq!(mtree.root_hash(), root);

    mtree.insert_leaf(idx(1)).unwrap();
    assert_eq!(mtree.len(), 2);
    let root = join(&idx(0), &idx(1));
    assert_eq!(mtree.root_hash(), root);

    mtree.insert_leaf(idx(2)).unwrap();
    assert_eq!(mtree.len(), 3);
    let root = join(&join(&idx(0), &[0u8; 32]), &join(&idx(1), &idx(2)));
    assert_eq!(mtree.root_hash(), root);

    mtree.insert_leaf(idx(3)).unwrap();
    assert_eq!(mtree.len(), 4);
    let root = join(&join(&idx(0), &idx(1)), &join(&idx(2), &idx(3)));
    assert_eq!(mtree.root_hash(), root);

    mtree.insert_leaf(idx(4)).unwrap();
    assert_eq!(mtree.len(), 5);
    mtree.insert_leaf(idx(5)).unwrap();
    assert_eq!(mtree.len(), 6);
    mtree.insert_leaf(idx(6)).unwrap();
    assert_eq!(mtree.len(), 7);
    mtree.insert_leaf(idx(7)).unwrap();
    assert_eq!(mtree.len(), 8);
    mtree.insert_leaf(idx(8)).unwrap();
    assert_eq!(mtree.len(), 9);
    mtree.insert_leaf(idx(9)).unwrap();
    assert_eq!(mtree.len(), 10);
    assert!(mtree.is_full());

    let left = join(
        &join(&idx(0), &idx(1)),
        &join(&join(&idx(2), &[0u8; 32]), &join(&idx(3), &idx(4))),
    );

    let right = join(
        &join(&idx(5), &idx(6)),
        &join(&join(&idx(7), &[0u8; 32]), &join(&idx(8), &idx(9))),
    );
    assert_eq!(mtree.root_hash(), join(&left, &right));
}

#[test]
fn test_mtree_full_insert_fails() {
    let mut mtree = MTree::<2>::new(vec![0u8; MTree::<2>::size()]);
    mtree.insert_leaf(idx(0)).unwrap();
    mtree.insert_leaf(idx(1)).unwrap();
    assert!(mtree.is_full());
    assert_eq!(mtree.insert_leaf(idx(2)), Err(MtreeError::SubTreeFull));
    assert_eq!(mtree.len(), 2);
    assert_eq!(mtree.root_hash(), join(&idx(0), &idx(1)));
}

#[test]
fn test_mtree_get_leaf() {
    let mut mtree = MTree::<4>::new(vec![0u8; MTree::<4>::size()]);
    assert!(mtree.is_empty());
    assert!(mtree.get_leaf(0).is_none());
    mtree.insert_leaf(idx(5)).unwrap();
    assert!(!mtree.is_empty());
    assert_eq!(mtree.get_leaf(0), Some(idx(5)));
    assert!(mtree.get_leaf(1).is_none());

    let uninit = MTree::<4>::new(Vec::new());
    assert!(!uninit.is_init());
}
