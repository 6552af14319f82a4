//! A node of the key tree.
use crate::user::User;
use vstd::prelude::*;

verus! {

/// A node of the key tree: a key with its id, the node's place in the tree
/// (`id`: 1 for the root, `2p` and `2p + 1` for the children of `p`), its
/// depth, and the member it stands for when it is a leaf.
pub struct Node<S> {
    pub id: u64,
    pub key: Vec<u8>,
    pub key_id: u64,
    pub user: Option<User<S>>,
    pub depth: u32,
}

/// What a node holds, with the member named by its identifier.
pub struct NodeView {
    pub id: u64,
    pub key: Seq<u8>,
    pub key_id: u64,
    pub user: Option<Seq<char>>,
    pub depth: u32,
}

impl<S> View for Node<S> {
    type V = NodeView;

    open spec fn view(&self) -> NodeView {
        NodeView {
            id: self.id,
            key: self.key@,
            key_id: self.key_id,
            user: match self.user {
                Some(u) => Some(u.user_id@),
                None => None,
            },
            depth: self.depth,
        }
    }
}

} // verus!
