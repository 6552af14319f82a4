use lkh::algorithm::Algorithm;
use lkh::lkh::{Lkh, Outbound};
use lkh::member::TreeTestUser;
use std::cell::RefCell;
use std::rc::Rc;

type Channel = Box<dyn Fn(Vec<u8>)>;

/// Hands the server's messages to the group channel and to the members'
/// private channels, in order.
fn deliver(lkh: &Lkh<Channel>, send_group: &dyn Fn(Vec<u8>), out: Vec<Outbound>) {
    for message in out {
        match message {
            Outbound::Group(data) => send_group(data),
            Outbound::Unicast(user_id, data) => {
                let user = lkh.user(&user_id).expect("unicast to a member that is not there");
                (user.send)(data)
            }
        }
    }
}

fn root_key_id(lkh: &Lkh<Channel>) -> u64 {
    lkh.tree().get_root().expect("No root").key_id
}

fn add_realist_user(lkh: &mut Lkh<Channel>, users: &Rc<RefCell<TreeTestUser>>, send_group: &dyn Fn(Vec<u8>), user_id: usize) {
    let unicast_user = users.clone();
    let unicast_user_id = unicast_user
        .borrow_mut()
        .get_user(user_id)
        .expect("invalid id")
        .user_id
        .clone();
    users.borrow_mut().add_user_to_tree(user_id);
    let out = lkh
        .add_user(
            unicast_user_id,
            Box::new(move |data| {
                unicast_user
                    .borrow_mut()
                    .get_user(user_id)
                    .expect("invalid id")
                    .receive_single(data)
            }),
        )
        .unwrap();
    deliver(lkh, send_group, out);
}

fn describe_members(users: &Rc<RefCell<TreeTestUser>>) -> String {
    let users = users.borrow();
    let mut s = String::from("TreeTestUser : ");
    for u in users.users.iter() {
        s.push_str(&format!("\n\t{} (in tree: {}, session key: {:?}, {} keys)", u.user_id, u.in_tree, u.session_key_id, u.keys.len()));
    }
    s
}

#[test]
fn test_create() {
    let send_group: Channel = Box::new(|data| println!("Sending group data: {:?}", data));
    let lkh: Lkh<Channel> = Lkh::new(Algorithm::AesGcm256);
    send_group(Vec::new());
    println!("{}", lkh.describe());
    assert_eq!(lkh.describe(), "LKH Tree of 0 users using [AES-GCM-256] : \nEmpty Tree\n");
}

#[test]
fn test_add_one_user() {
    let send_group: Channel = Box::new(|data| println!("recieved group data: {:x?}", data));
    let mut lkh: Lkh<Channel> = Lkh::new(Algorithm::AesGcm256);
    println!("{}", lkh.describe());
    let out = lkh
        .add_user("User0".to_string(), Box::new(|data| println!("Recieved privately : {:x?}", data)))
        .unwrap();
    deliver(&lkh, &send_group, out);
    println!("{}", lkh.describe());
    assert_eq!(lkh.get_user_count(), 1);
}

#[test]
fn test_add_three_user() {
    let send_group: Channel = Box::new(|data| println!("Sending group data: {:?}", data));
    let mut lkh: Lkh<Channel> = Lkh::new(Algorithm::AesGcm256);
    println!("{}", lkh.describe());
    let out = lkh
        .add_user("User0".to_string(), Box::new(|data| println!("0 Recieved privately : {:?}", data)))
        .unwrap();
    deliver(&lkh, &send_group, out);
    println!("{}", lkh.describe());
    let out = lkh
        .add_user("User1".to_string(), Box::new(|data| println!("1 Recieved privately : {:?}", data)))
        .unwrap();
    deliver(&lkh, &send_group, out);
    println!("{}", lkh.describe());
    let out = lkh
        .add_user("User2".to_string(), Box::new(|data| println!("2 Recieved privately : {:?}", data)))
        .unwrap();
    deliver(&lkh, &send_group, out);
    println!("{}", lkh.describe());
    assert_eq!(lkh.get_user_count(), 3);
}

#[test]
fn test_adding_one_user_realist() {
    let users = Rc::new(RefCell::new(TreeTestUser { users: Vec::new() }));
    let users_lkh = users.clone();
    let send_group: Channel = Box::new(move |data| users_lkh.borrow_mut().receive_group(data));
    let mut lkh: Lkh<Channel> = Lkh::new(Algorithm::AesGcm256);

    let user_id = users.borrow_mut().new_user();
    add_realist_user(&mut lkh, &users, &send_group, user_id);

    println!("{}", lkh.describe());
    println!("{}", describe_members(&users));
}

#[test]
fn test_adding_three_user_realist() {
    let users = Rc::new(RefCell::new(TreeTestUser { users: Vec::new() }));
    let users_lkh = users.clone();
    let send_group: Channel = Box::new(move |data| users_lkh.borrow_mut().receive_group(data));
    let mut lkh: Lkh<Channel> = Lkh::new(Algorithm::AesGcm256);
    for _ in 0..3 {
        let user_id = users.borrow_mut().new_user();
        add_realist_user(&mut lkh, &users, &send_group, user_id);
        let rootkeyid = root_key_id(&lkh);
        assert!(users.borrow().check_session_key(rootkeyid));
        println!("{}", lkh.describe());
    }
    println!("{}", describe_members(&users));
    let rootkeyid = root_key_id(&lkh);
    assert!(users.borrow().check_session_key(rootkeyid));
}

#[test]
fn test_adding_32_user_realist() {
    let users = Rc::new(RefCell::new(TreeTestUser { users: Vec::new() }));
    let users_lkh = users.clone();
    let send_group: Channel = Box::new(move |data| users_lkh.borrow_mut().receive_group(data));
    let mut lkh: Lkh<Channel> = Lkh::new(Algorithm::AesGcm256);
    for _ in 0..32 {
        let user_id = users.borrow_mut().new_user();
        add_realist_user(&mut lkh, &users, &send_group, user_id);
        let rootkeyid = root_key_id(&lkh);
        assert!(users.borrow().check_session_key(rootkeyid));
        println!("{}", lkh.describe());
    }
    println!("{}", describe_members(&users));
    let rootkeyid = root_key_id(&lkh);
    assert!(users.borrow().check_session_key(rootkeyid));
}

#[test]
fn test_remove_user() {
    let users = Rc::new(RefCell::new(TreeTestUser { users: Vec::new() }));
    let users_lkh = users.clone();
    let send_group: Channel = Box::new(move |data| users_lkh.borrow_mut().receive_group(data));
    let mut lkh: Lkh<Channel> = Lkh::new(Algorithm::AesGcm256);
    for _ in 0..3 {
        let user_id = users.borrow_mut().new_user();
        add_realist_user(&mut lkh, &users, &send_group, user_id);
    }
    println!("{}", lkh.describe());
    println!("{}", describe_members(&users));
    let out = lkh.remove_user(&"User1".to_string()).unwrap();
    deliver(&lkh, &send_group, out);
    let user_id = users
        .borrow_mut()
        .get_user_by_id(&"User1".to_string())
        .unwrap();
    users.borrow_mut().remove_user_from_tree(user_id);
    println!("After removing User1");
    println!("{}", lkh.describe());
    println!("{}", describe_members(&users));
    let rootkeyid = root_key_id(&lkh);
    assert!(users.borrow().check_session_key(rootkeyid));
}

#[test]
fn test_remove_all_user() {
    let users = Rc::new(RefCell::new(TreeTestUser { users: Vec::new() }));
    let users_lkh = users.clone();
    let send_group: Channel = Box::new(move |data| users_lkh.borrow_mut().receive_group(data));
    let mut lkh: Lkh<Channel> = Lkh::new(Algorithm::AesGcm256);
    for _ in 0..3 {
        let user_id = users.borrow_mut().new_user();
        add_realist_user(&mut lkh, &users, &send_group, user_id);
        let rootkeyid = root_key_id(&lkh);
        assert!(users.borrow().check_session_key(rootkeyid));
    }
    println!("{}", lkh.describe());
    println!("{}", describe_members(&users));
    for i in 0..3 {
        let out = lkh.remove_user(&format!("User{}", i)).unwrap();
        deliver(&lkh, &send_group, out);
        let user_id = users
            .borrow_mut()
            .get_user_by_id(&format!("User{}", i))
            .unwrap();
        users.borrow_mut().remove_user_from_tree(user_id);
        if lkh.get_user_count() > 0 {
            println!("Users count : {}", lkh.get_user_count());
            let rootkeyid = root_key_id(&lkh);
            assert!(users.borrow().check_session_key(rootkeyid));
        }
    }
    println!("After removing all users");
    println!("{}", lkh.describe());
    println!("{}", describe_members(&users));
}

#[test]
fn random_test() {
    let users = Rc::new(RefCell::new(TreeTestUser { users: Vec::new() }));
    let users_lkh = users.clone();
    let n = 32;
    let send_group: Channel = Box::new(move |data| users_lkh.borrow_mut().receive_group(data));
    let mut lkh: Lkh<Channel> = Lkh::new(Algorithm::AesGcm256);
    for _ in 0..n {
        users.borrow_mut().new_user();
    }
    let mut actions = Vec::new();
    for _ in 0..10000 {
        let user_id = (rand::random::<u64>() % n) as usize;
        let user_in_vec = users
            .borrow_mut()
            .get_user_by_id(&format!("User{}", user_id).to_string())
            .expect("User unexpectedly not in array");
        let in_tree = users
            .borrow_mut()
            .get_user(user_in_vec)
            .expect("Unexpectedly not in array")
            .in_tree;
        if !in_tree {
            actions.push(format!("Adding User{}", user_id));
            add_realist_user(&mut lkh, &users, &send_group, user_id);
        } else {
            actions.push(format!("Removing User{}", user_id));
            let out = lkh.remove_user(&format!("User{}", user_id)).unwrap();
            deliver(&lkh, &send_group, out);
            users.borrow_mut().remove_user_from_tree(user_id);
        }
        let members = users.borrow().users.iter().filter(|u| u.in_tree).count() as u64;
        assert_eq!(lkh.get_user_count(), members);
        if members > 0 {
            let rootkeyid = root_key_id(&lkh);
            assert!(users.borrow().check_session_key(rootkeyid));
        }
    }
    println!("Actions : {}", actions.len());
}

/// Every member in the tree takes the root's key id as its session key and
/// holds the root's key under it.
fn every_member_holds_root_key(lkh: &Lkh<Channel>, users: &Rc<RefCell<TreeTestUser>>) -> bool {
    let root = lkh.tree().get_root().expect("No root");
    users.borrow().users.iter().filter(|u| u.in_tree).all(|u| {
        u.session_key_id == Some(root.key_id) && u.keys.get(&root.key_id) == Some(&root.key)
    })
}

#[test]
fn every_member_learns_the_session_key() {
    let users = Rc::new(RefCell::new(TreeTestUser { users: Vec::new() }));
    let users_lkh = users.clone();
    let send_group: Channel = Box::new(move |data| users_lkh.borrow_mut().receive_group(data));
    let mut lkh: Lkh<Channel> = Lkh::new(Algorithm::AesGcm256);
    for _ in 0..6 {
        let user_id = users.borrow_mut().new_user();
        add_realist_user(&mut lkh, &users, &send_group, user_id);
        assert!(every_member_holds_root_key(&lkh, &users));
    }
    for name in ["User2", "User0", "User5"] {
        let out = lkh.remove_user(&name.to_string()).unwrap();
        deliver(&lkh, &send_group, out);
        let user_id = users.borrow().get_user_by_id(&name.to_string()).unwrap();
        users.borrow_mut().remove_user_from_tree(user_id);
        assert!(every_member_holds_root_key(&lkh, &users));
    }
    assert_eq!(lkh.get_user_count(), 3);
}

#[test]
fn removed_member_is_shut_out() {
    let users = Rc::new(RefCell::new(TreeTestUser { users: Vec::new() }));
    let users_lkh = users.clone();
    let send_group: Channel = Box::new(move |data| users_lkh.borrow_mut().receive_group(data));
    let mut lkh: Lkh<Channel> = Lkh::new(Algorithm::AesGcm256);
    for _ in 0..4 {
        let user_id = users.borrow_mut().new_user();
        add_realist_user(&mut lkh, &users, &send_group, user_id);
    }
    let out = lkh.remove_user(&"User1".to_string()).unwrap();
    assert!(out.iter().all(|o| match o {
        Outbound::Unicast(u, _) => u != "User1",
        Outbound::Group(_) => true,
    }));
    deliver(&lkh, &send_group, out);
    let user_id = users.borrow().get_user_by_id(&"User1".to_string()).unwrap();
    users.borrow_mut().remove_user_from_tree(user_id);
    assert!(every_member_holds_root_key(&lkh, &users));
    let root = lkh.tree().get_root().expect("No root");
    let users_ref = users.borrow();
    let removed = &users_ref.users[user_id];
    assert!(removed.keys.values().all(|k| k != &root.key));
}

#[test]
fn adding_a_member_twice_is_refused() {
    let mut lkh: Lkh<Channel> = Lkh::new(Algorithm::AesGcm256);
    let out = lkh.add_user("User0".to_string(), Box::new(|_data| {})).unwrap();
    assert_eq!(out.len(), 1);
    let root_before = lkh.tree().get_root().unwrap().key.clone();
    let again = lkh.add_user("User0".to_string(), Box::new(|_data| {}));
    assert!(matches!(again, Err(lkh::Error::RekeyingError)));
    assert_eq!(lkh.get_user_count(), 1);
    assert_eq!(lkh.tree().get_root().unwrap().key, root_before);
}

#[test]
fn members_keep_their_own_channels() {
    let heard: Rc<RefCell<Vec<String>>> = Rc::new(RefCell::new(Vec::new()));
    let mut lkh: Lkh<Channel> = Lkh::new(Algorithm::AesGcm256);
    for name in ["User0", "User1", "User2", "User3"] {
        let h = heard.clone();
        let tag = name.to_string();
        lkh.add_user(name.to_string(), Box::new(move |_data| h.borrow_mut().push(tag.clone()))).unwrap();
    }
    lkh.remove_user(&"User1".to_string()).unwrap();
    for name in ["User0", "User2", "User3"] {
        heard.borrow_mut().clear();
        let user = lkh.user(&name.to_string()).unwrap();
        (user.send)(Vec::new());
        assert_eq!(*heard.borrow(), vec![name.to_string()]);
    }
    assert!(lkh.user(&"User1".to_string()).is_none());
}
