use lkh::node::Node;
use lkh::tree::Tree;
use lkh::user::User;

type Channel = Box<dyn Fn(Vec<u8>)>;

#[test]
fn test_creation() {
    let mut a: Tree<Channel> = Tree::new();
    println!("{:?}", a.get_root().map(|n| n.id));
    let node = Node {
        depth: 0,
        id: 5,
        key: vec![0; 8],
        key_id: 0,
        user: None,
    };
    assert_eq!(a.add_node(node), Some(1));
    println!("{}", a.render());
    let node2 = Node {
        depth: 0,
        id: 5,
        key: vec![1; 8],
        key_id: 1,
        user: None,
    };
    assert_eq!(a.add_node(node2), Some(1));
    println!("{}", a.render());
}

#[test]
fn test_medium_tree() {
    let mut a: Tree<Channel> = Tree::new();
    for i in 1..16 {
        let node = Node {
            depth: 0,
            id: 5,
            key: vec![1; 8],
            key_id: i,
            user: None,
        };
        a.add_node(node);
        println!("{}", a.render());
    }
}

#[test]
fn tree_ids_follow_places() {
    let mut a: Tree<Channel> = Tree::new();
    let mut ids = Vec::new();
    for i in 0..4u64 {
        let node = Node { depth: 9, id: 99, key: vec![i as u8; 4], key_id: i, user: None };
        ids.push(a.add_node(node).unwrap());
    }
    // the root, then the split leaves: 1, then 2 (leftmost shallowest), then 3
    assert_eq!(ids, vec![1, 1, 2, 3]);
    for id in [1u64, 2, 3, 4, 5, 6, 7] {
        let n = a.get_node_by_id(id).unwrap();
        assert_eq!(n.id, id);
        assert_eq!(n.depth as u64, 63 - id.leading_zeros() as u64);
    }
    // the content of a split leaf moves to its left child
    assert_eq!(a.get_node_by_id(2).unwrap().key_id, 0);
    assert_eq!(a.get_node_by_id(3).unwrap().key_id, 1);
    assert_eq!(a.get_left_child(1).unwrap().id, 2);
    assert_eq!(a.get_right_child(1).unwrap().id, 3);
    assert_eq!(a.get_parent(5).unwrap().id, 2);
    assert!(a.get_parent(1).is_none());
    assert!(a.get_left_child(4).is_none());
    assert!(a.get_node_by_id(0).is_none());
    assert!(a.get_node_by_id(8).is_none());
}

#[test]
fn tree_render_exact() {
    let mut a: Tree<Channel> = Tree::new();
    assert_eq!(a.render(), "Empty Tree\n");
    let u: User<Channel> = User { user_id: "A".to_string(), send: Box::new(|_| {}) };
    a.add_node(Node { depth: 0, id: 0, key: vec![0; 4], key_id: 7, user: Some(u) });
    let v: User<Channel> = User { user_id: "B".to_string(), send: Box::new(|_| {}) };
    a.add_node(Node { depth: 0, id: 0, key: vec![1; 4], key_id: 12, user: Some(v) });
    assert_eq!(
        a.render(),
        "Binary Tree:\n- [ID: 1] key 7\n    - [ID: 2] key 7 user A\n    - [ID: 3] key 12 user B\n"
    );
}

#[test]
fn tree_merge_lifts_sibling() {
    let mut a: Tree<Channel> = Tree::new();
    for i in 0..3u64 {
        let u: User<Channel> = User { user_id: format!("U{}", i), send: Box::new(|_| {}) };
        a.add_node(Node { depth: 0, id: 0, key: vec![0; 4], key_id: 10 + i, user: Some(u) });
    }
    // leaves: 4 (U0), 5 (U2), 3 (U1)
    assert_eq!(a.get_user_node(&"U2".to_string()), Some(5));
    assert_eq!(a.get_user_count(), 3);
    // removing 3 lifts the subtree at 2 to the root
    assert_eq!(a.merge_nodes(3), 1);
    assert_eq!(a.get_user_count(), 2);
    assert_eq!(a.get_user_node(&"U0".to_string()), Some(2));
    assert_eq!(a.get_user_node(&"U2".to_string()), Some(3));
    assert_eq!(a.get_node_by_id(2).unwrap().key_id, 10);
    assert_eq!(a.get_node_by_id(2).unwrap().depth, 1);
    assert_eq!(a.get_user_node(&"U1".to_string()), None);
    // not a leaf: nothing happens
    assert_eq!(a.merge_nodes(1), 0);
    assert_eq!(a.merge_nodes(0), 0);
    assert_eq!(a.merge_nodes(9), 0);
    assert_eq!(a.get_user_count(), 2);
    assert_eq!(a.merge_nodes(2), 1);
    assert_eq!(a.merge_nodes(1), 0);
    assert!(a.get_root().is_none());
    assert_eq!(a.get_user_count(), 0);
}

#[test]
fn tree_update_node() {
    let mut a: Tree<Channel> = Tree::new();
    a.add_node(Node { depth: 0, id: 0, key: vec![0; 4], key_id: 1, user: None });
    assert!(a.update_node(1, Some(vec![9; 4]), Some(77)));
    assert_eq!(a.get_root().unwrap().key, vec![9; 4]);
    assert_eq!(a.get_root().unwrap().key_id, 77);
    assert!(!a.update_node(2, Some(vec![1]), None));
    assert!(!a.update_node(0, None, Some(1)));
    assert_eq!(a.shallowest_depth(), Some(0));
}

#[test]
fn format_node_at_any_indent() {
    let mut a: Tree<Channel> = Tree::new();
    for i in 0..3u64 {
        a.add_node(Node { depth: 0, id: 0, key: vec![0; 4], key_id: 10 + i, user: None });
    }
    // root 1 (key 10), split into 2 (key 10) and 3 (key 11); then 2 split into 4 (key 10) and 5 (key 12)
    let mut s = String::new();
    a.format_node(2, 3, &mut s);
    assert_eq!(
        s,
        "            - [ID: 2] key 10\n                - [ID: 4] key 10\n                - [ID: 5] key 12\n"
    );
    let mut t = String::from("x");
    a.format_node(9, 0, &mut t);
    assert_eq!(t, "x");
}
