use lkh::algorithm::Algorithm;
use lkh::member::{TestUser, TreeTestUser};
use lkh::packet::KeyUpdatePacket;
use lkh::text::decimal_string;
use std::collections::HashMap;

fn member(name: &str) -> TestUser {
    TestUser { user_id: name.to_string(), keys: HashMap::new(), algorithm: Algorithm::AesGcm256, session_key_id: None, in_tree: false }
}

#[test]
fn member_receive_single() {
    let mut u = member("a");
    u.receive_single(KeyUpdatePacket { new_key: vec![1; 32], new_key_id: 5, is_session_key: false, delete_new_key: false }.to_bytes());
    assert_eq!(u.keys.get(&5), Some(&vec![1; 32]));
    assert_eq!(u.session_key_id, None);
    u.receive_single(KeyUpdatePacket { new_key: vec![2; 32], new_key_id: 6, is_session_key: true, delete_new_key: false }.to_bytes());
    assert_eq!(u.session_key_id, Some(6));
    // garbage is ignored
    u.receive_single(vec![1, 2, 3]);
    assert_eq!(u.keys.len(), 2);
}

#[test]
fn member_receive_group() {
    let a = Algorithm::AesGcm256;
    let mut u = member("a");
    let update = KeyUpdatePacket { new_key: vec![9; 32], new_key_id: 77, is_session_key: true, delete_new_key: false }.to_bytes();
    let w = a.wrap(&update, &vec![4; 32], 3).unwrap();
    // without the key-encryption key nothing happens
    u.receive_group(w.clone());
    assert!(u.keys.is_empty());
    u.keys.insert(3, vec![4; 32]);
    u.receive_group(w.clone());
    assert_eq!(u.keys.get(&77), Some(&vec![9; 32]));
    assert_eq!(u.session_key_id, Some(77));
    // a wrong key under the right id does not authenticate
    let mut v = member("b");
    v.keys.insert(3, vec![5; 32]);
    v.receive_group(w);
    assert_eq!(v.keys.len(), 1);
    // too short
    v.receive_group(vec![0; 55]);
    assert_eq!(v.keys.len(), 1);
}

#[test]
fn members_new_user_and_lookup() {
    let mut t = TreeTestUser { users: Vec::new() };
    for i in 0..12 {
        assert_eq!(t.new_user(), i);
    }
    assert_eq!(t.users[11].user_id, "User11");
    assert_eq!(t.get_user_by_id(&"User10".to_string()), Some(10));
    assert_eq!(t.get_user_by_id(&"User12".to_string()), None);
    assert!(t.get_user(12).is_none());
    t.get_user(3).unwrap().session_key_id = Some(4);
    assert_eq!(t.users[3].session_key_id, Some(4));
    t.add_user_to_tree(3);
    assert!(t.users[3].in_tree);
    t.remove_user_from_tree(3);
    assert!(!t.users[3].in_tree);
    assert_eq!(decimal_string(0), "0");
    assert_eq!(decimal_string(1234567890123), "1234567890123");
}

#[test]
fn members_check_session_key() {
    let mut t = TreeTestUser { users: Vec::new() };
    assert!(!t.check_session_key(1));
    t.new_user();
    t.add_user_to_tree(0);
    assert!(!t.check_session_key(1));
    t.users[0].session_key_id = Some(1);
    assert!(t.check_session_key(1));
    t.new_user();
    // a member out of the tree that does not hold the session key agrees
    assert!(t.check_session_key(2));
}
