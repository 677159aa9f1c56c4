use git_queue::oid::ObjectId;

#[test]
fn hex_round_trip() {
    let id = ObjectId::from_hex(b"0123456789abcdef0123456789abcdef01234567").unwrap();
    assert_eq!(id.to_hex(), b"0123456789abcdef0123456789abcdef01234567".to_vec());
}

#[test]
fn uppercase_hex_is_read_and_written_lowercase() {
    let id = ObjectId::from_hex(b"0123456789ABCDEF0123456789ABCDEF01234567").unwrap();
    assert_eq!(id.to_hex(), b"0123456789abcdef0123456789abcdef01234567".to_vec());
}

#[test]
fn bad_hex_is_rejected() {
    assert!(ObjectId::from_hex(b"0123").is_none());
    assert!(ObjectId::from_hex(b"g123456789abcdef0123456789abcdef01234567").is_none());
    assert!(ObjectId::from_hex(b"0123456789abcdef0123456789abcdef0123456").is_none());
}

#[test]
fn from_bytes_needs_twenty() {
    assert!(ObjectId::from_bytes(vec![0u8; 20]).is_some());
    assert!(ObjectId::from_bytes(vec![0u8; 19]).is_none());
    assert!(ObjectId::from_bytes(vec![0u8; 21]).is_none());
}

#[test]
fn equality_is_by_content() {
    let a = ObjectId::from_hex(b"0123456789abcdef0123456789abcdef01234567").unwrap();
    let b = ObjectId::from_hex(b"0123456789ABCDEF0123456789abcdef01234567").unwrap();
    let c = ObjectId::from_hex(b"aaaaaaaaaaaaaaaaaaaaaaaaaaaaaaaaaaaaaaaa").unwrap();
    assert!(a == b);
    assert!(!(a == c));
}
