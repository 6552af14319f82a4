use lkh::bytes::{u64_from_be, u64_to_be};
use lkh::packet::KeyUpdatePacket;

#[test]
fn packet_to_bytes_layout() {
    let p = KeyUpdatePacket { new_key: vec![0xaa, 0xbb], new_key_id: 0x0102030405060708, is_session_key: true, delete_new_key: false };
    assert_eq!(p.to_bytes(), vec![1, 1, 2, 3, 4, 5, 6, 7, 8, 0xaa, 0xbb]);
    let q = KeyUpdatePacket { new_key: vec![5], new_key_id: 1, is_session_key: false, delete_new_key: true };
    assert_eq!(q.to_bytes(), vec![2, 0, 0, 0, 0, 0, 0, 0, 1, 5]);
    let r = KeyUpdatePacket { new_key: vec![5], new_key_id: 1, is_session_key: true, delete_new_key: true };
    assert_eq!(r.to_bytes()[0], 3);
}

#[test]
fn packet_roundtrip() {
    let p = KeyUpdatePacket { new_key: vec![1, 2, 3], new_key_id: u64::MAX - 3, is_session_key: true, delete_new_key: true };
    assert_eq!(KeyUpdatePacket::from_bytes(p.to_bytes()), Some(p));
}

#[test]
fn packet_from_bytes_rejects_short() {
    assert_eq!(KeyUpdatePacket::from_bytes(vec![0; 9]), None);
    assert_eq!(KeyUpdatePacket::from_bytes(Vec::new()), None);
    // an empty key does not survive the round trip: nine bytes are too few
    let p = KeyUpdatePacket { new_key: Vec::new(), new_key_id: 4, is_session_key: false, delete_new_key: false };
    assert_eq!(KeyUpdatePacket::from_bytes(p.to_bytes()), None);
}

#[test]
fn packet_flags_bits() {
    let parsed = KeyUpdatePacket::from_bytes(vec![0xfd, 0, 0, 0, 0, 0, 0, 0, 9, 1]).unwrap();
    assert!(parsed.is_session_key);
    assert!(!parsed.delete_new_key);
    assert_eq!(parsed.new_key_id, 9);
    assert_eq!(parsed.new_key, vec![1]);
}

#[test]
fn bytes_big_endian() {
    assert_eq!(u64_to_be(0x0102030405060708), vec![1, 2, 3, 4, 5, 6, 7, 8]);
    assert_eq!(u64_from_be(&[1, 2, 3, 4, 5, 6, 7, 8, 9]), 0x0102030405060708);
    assert_eq!(u64_from_be(&u64_to_be(u64::MAX)), u64::MAX);
}
