use mtree::info::Info;

#[test]
fn test_borsh_info_size() {
    let info = Info::default();
    let size = info.to_bytes().len();
    assert_eq!(size, Info::LEN);
}

#[test]
fn test_info_default() {
    let info = Info::default();
    assert_eq!(info.node_id, 0);
    assert_eq!(info.root_hash, [0u8; 32]);
}

#[test]
fn test_info_bytes_round_trip() {
    let mut root = [0u8; 32];
    root[0] = 0xde;
    root[31] = 0xad;
    let info = Info { node_id: 0x01020304, root_hash: root };
    let bytes = info.to_bytes();
    assert_eq!(bytes.len(), Info::LEN);
    // the identifier field is little-endian
    assert_eq!(&bytes[0..4], &[0x04, 0x03, 0x02, 0x01]);
    let parsed = Info::from_bytes(&bytes).unwrap();
    assert_eq!(parsed.node_id, info.node_id);
    assert_eq!(parsed.root_hash, info.root_hash);
    assert!(Info::from_bytes(&bytes[..35]).is_none());
}
