use mtree::error::MtreeError;
use mtree::events::MTreeEvent;
use mtree::hashing::{hash_leaf, join_hashes, make_zero_hash};

#[test]
fn test_event_log_round_trip() {
    let mut root = [0u8; 32];
    for (i, b) in root.iter_mut().enumerate() {
        *b = i as u8;
    }
    let event = MTreeEvent::NewRootHash(root);
    let line = event.encode_log_line();
    match MTreeEvent::decode(&line).unwrap() {
        MTreeEvent::NewRootHash(h) => assert_eq!(h, root),
    }
}

#[test]
fn test_event_encoding_is_hex() {
    let event = MTreeEvent::NewRootHash([0xab; 32]);
    let line = event.encode_log_line();
    let mut expected = b"EVENT:00".to_vec();
    for _ in 0..32 {
        expected.extend_from_slice(b"ab");
    }
    assert_eq!(line, expected);
}

#[test]
fn test_event_decode_rejects_malformed_lines() {
    assert!(MTreeEvent::decode(b"EVENT:zz").is_none());
    assert!(MTreeEvent::decode(b"OTHER:00").is_none());
    assert!(MTreeEvent::decode(b"EVENT:0").is_none());
    assert!(MTreeEvent::decode(b"EVENT:00").is_none());
    assert!(MTreeEvent::decode(b"EVE").is_none());
    // a well-formed length with a wrong tag byte
    let event = MTreeEvent::NewRootHash([1u8; 32]);
    let mut line = event.encode_log_line();
    line[6] = b'0';
    line[7] = b'1';
    assert!(MTreeEvent::decode(&line).is_none());
    // decode accepts uppercase digits for the same value
    let upper: Vec<u8> = MTreeEvent::NewRootHash([0xab; 32])
        .encode_log_line()
        .iter()
        .map(|c| c.to_ascii_uppercase())
        .collect();
    let mut fixed = upper.clone();
    fixed[0..6].copy_from_slice(b"EVENT:");
    match MTreeEvent::decode(&fixed).unwrap() {
        MTreeEvent::NewRootHash(h) => assert_eq!(h, [0xab; 32]),
    }
}

#[test]
fn test_hash_leaf_is_a_real_digest() {
    // were the primitive the identity, both checks would fail
    assert_ne!(hash_leaf(vec![0u8; 32]).to_vec(), vec![0u8; 32]);
    assert_eq!(hash_leaf(b"abc".to_vec()), hash_leaf(b"abc".to_vec()));
    assert_ne!(hash_leaf(b"abc".to_vec()), hash_leaf(b"abd".to_vec()));
}

#[test]
fn test_join_is_order_sensitive() {
    let a = hash_leaf(b"left".to_vec());
    let b = hash_leaf(b"right".to_vec());
    assert_ne!(join_hashes(&a, &b), join_hashes(&b, &a));
    let z = make_zero_hash();
    assert_eq!(z, [0u8; 32]);
}

#[test]
fn test_error_codes_and_messages() {
    assert_eq!(MtreeError::InvalidInstruction.code(), 0);
    assert_eq!(MtreeError::ExpectedSignerAccount.code(), 1);
    assert_eq!(MtreeError::InvalidInfoAccount.code(), 2);
    assert_eq!(MtreeError::ExpectedWritableAccount.code(), 3);
    assert_eq!(MtreeError::InvalidSystemProgram.code(), 4);
    assert_eq!(MtreeError::InvalidNodeAccount.code(), 5);
    assert_eq!(MtreeError::SubTreeFull.code(), 6);
    assert_eq!(MtreeError::UninitializedSubTree.code(), 7);
    assert_eq!(MtreeError::SubTreeFull.message(), "Invalid sub tree account");
    assert_eq!(
        MtreeError::UninitializedSubTree.message(),
        "Uninitialized sub tree account"
    );
}
