//! The key tree: a binary tree whose leaves stand for the members of the
//! group and whose inner nodes hold the keys shared by the members below them.
//! A node's place is its id: 1 for the root, `2p` and `2p + 1` for the left
//! and right children of `p`. Every inner node has two children.
use crate::node::{Node, NodeView};
use crate::text::{decimal, decimal_string, push_spaces, spaces};
use crate::user::User;
use vstd::prelude::*;
use vstd::string::*;

verus! {

/// Nodes lie at most this deep, so that ids fit in 64 bits.
pub const MAX_DEPTH: u32 = 62;

/// The id of the node reached from the root by the directions `p`
/// (`false` for left, `true` for right).
pub open spec fn id_of(p: Seq<bool>) -> nat
    decreases p.len(),
{
    if p.len() == 0 {
        1
    } else {
        2 * id_of(p.drop_last()) + (if p.last() { 1nat } else { 0nat })
    }
}

/// The directions from the root to the node with id `id`.
pub open spec fn path_of_id(id: nat) -> Seq<bool>
    decreases id,
{
    if id <= 1 {
        seq![]
    } else {
        path_of_id(id / 2).push(id % 2 == 1)
    }
}

pub open spec fn two_pow(n: nat) -> nat
    decreases n,
{
    if n == 0 {
        1
    } else {
        2 * two_pow((n - 1) as nat)
    }
}

pub proof fn lemma_id_of_push(p: Seq<bool>, b: bool)
    ensures
        id_of(p.push(b)) == 2 * id_of(p) + (if b { 1nat } else { 0nat }),
{
    assert(p.push(b).drop_last() =~= p);
}

/// Paths and ids correspond one to one.
pub proof fn lemma_path_of_id_of(p: Seq<bool>)
    ensures
        path_of_id(id_of(p)) == p,
        id_of(p) >= 1,
        two_pow(p.len()) <= id_of(p) < two_pow(p.len() + 1),
    decreases p.len(),
{
    if p.len() > 0 {
        lemma_path_of_id_of(p.drop_last());
        assert(p.drop_last().push(p.last()) =~= p);
    }
}

pub proof fn lemma_id_of_path_of(id: nat)
    requires
        id >= 1,
    ensures
        id_of(path_of_id(id)) == id,
    decreases id,
{
    if id > 1 {
        lemma_id_of_path_of(id / 2);
        lemma_id_of_push(path_of_id(id / 2), id % 2 == 1);
    }
}

proof fn lemma_two_pow_is_pow2(n: nat)
    ensures
        two_pow(n) == vstd::arithmetic::power2::pow2(n),
    decreases n,
{
    if n > 0 {
        vstd::arithmetic::power2::lemma_pow2_unfold(n);
        lemma_two_pow_is_pow2((n - 1) as nat);
    } else {
        vstd::arithmetic::power2::lemma2_to64();
    }
}

pub proof fn lemma_two_pow_62()
    ensures
        two_pow(62) == 0x4000_0000_0000_0000,
        two_pow(63) == 0x8000_0000_0000_0000,
{
    lemma_two_pow_is_pow2(62);
    lemma_two_pow_is_pow2(63);
    vstd::arithmetic::power2::lemma2_to64_rest();
}

pub proof fn lemma_two_pow_mono(a: nat, b: nat)
    requires
        a <= b,
    ensures
        two_pow(a) <= two_pow(b),
    decreases b,
{
    if a < b {
        lemma_two_pow_mono(a, (b - 1) as nat);
    }
}

/// A path of depth at most `MAX_DEPTH` has an id below 2^63.
pub proof fn lemma_id_bound(p: Seq<bool>)
    requires
        p.len() <= MAX_DEPTH,
    ensures
        id_of(p) < 0x8000_0000_0000_0000,
        p.len() < MAX_DEPTH ==> id_of(p) < 0x4000_0000_0000_0000,
{
    lemma_path_of_id_of(p);
    lemma_two_pow_62();
    lemma_two_pow_mono(p.len() + 1, 63);
    if p.len() < MAX_DEPTH {
        lemma_two_pow_mono(p.len() + 1, 62);
    }
}

/// The subtrees of the key tree.
pub enum Subtree<S> {
    Leaf(Node<S>),
    Branch(Node<S>, Box<Subtree<S>>, Box<Subtree<S>>),
}

impl<S> Subtree<S> {
    pub open spec fn node(self) -> Node<S> {
        match self {
            Subtree::Leaf(n) => n,
            Subtree::Branch(n, _, _) => n,
        }
    }

    /// The subtree reached by the directions `p`.
    pub open spec fn sub(self, p: Seq<bool>) -> Option<Subtree<S>>
        decreases p.len(),
    {
        if p.len() == 0 {
            Some(self)
        } else {
            match self {
                Subtree::Leaf(_) => None,
                Subtree::Branch(_, l, r) => if p[0] {
                    r.sub(p.drop_first())
                } else {
                    l.sub(p.drop_first())
                },
            }
        }
    }

    /// The node reached by the directions `p`.
    pub open spec fn get(self, p: Seq<bool>) -> Option<NodeView> {
        match self.sub(p) {
            Some(s) => Some(s.node()@),
            None => None,
        }
    }

    /// The private channel of the member of the node reached by `p`, where
    /// there is such a node and it stands for a member.
    pub open spec fn chan(self, p: Seq<bool>) -> Option<S> {
        match self.sub(p) {
            Some(s) => match s.node().user {
                Some(u) => Some(u.send),
                None => None,
            },
            None => None,
        }
    }

    /// The subtree lies at `base`: ids and depths match places, inner nodes
    /// stand for no member, and nothing lies deeper than `MAX_DEPTH`.
    pub open spec fn wf(self, base: Seq<bool>) -> bool
        decreases self,
    {
        &&& self.node().id == id_of(base)
        &&& self.node().depth == base.len()
        &&& base.len() <= MAX_DEPTH
        &&& match self {
            Subtree::Leaf(_) => true,
            Subtree::Branch(n, l, r) => {
                &&& n.user is None
                &&& l.wf(base.push(false))
                &&& r.wf(base.push(true))
            },
        }
    }

    /// Number of nodes that stand for a member.
    pub open spec fn users(self) -> nat
        decreases self,
    {
        match self {
            Subtree::Leaf(n) => if n.user is Some { 1 } else { 0 },
            Subtree::Branch(n, l, r) => (if n.user is Some { 1nat } else { 0nat }) + l.users() + r.users(),
        }
    }

    /// Depth of the shallowest leaf, counted from this subtree's root.
    pub open spec fn min_leaf_depth(self) -> nat
        decreases self,
    {
        match self {
            Subtree::Leaf(_) => 0,
            Subtree::Branch(_, l, r) => {
                let dl = l.min_leaf_depth();
                let dr = r.min_leaf_depth();
                1 + if dl <= dr {
                    dl
                } else {
                    dr
                }
            },
        }
    }

    /// The leftmost of the shallowest leaves.
    pub open spec fn shallowest(self) -> Seq<bool>
        decreases self,
    {
        match self {
            Subtree::Leaf(_) => seq![],
            Subtree::Branch(_, l, r) => if l.min_leaf_depth() <= r.min_leaf_depth() {
                seq![false] + l.shallowest()
            } else {
                seq![true] + r.shallowest()
            },
        }
    }
}

pub proof fn lemma_sub_push<S>(t: Subtree<S>, p: Seq<bool>, b: bool)
    ensures
        t.sub(p.push(b)) == match t.sub(p) {
            Some(Subtree::Branch(_, l, r)) => Some(if b { *r } else { *l }),
            _ => None,
        },
    decreases p.len(),
{
    assert(p.push(b)[0] == if p.len() == 0 { b } else { p[0] });
    if p.len() == 0 {
        assert(p.push(b).drop_first() =~= seq![]);
        match t {
            Subtree::Leaf(_) => {},
            Subtree::Branch(_, l, r) => {
                assert(l.sub(seq![]) == Some(*l));
                assert(r.sub(seq![]) == Some(*r));
            },
        }
    } else {
        assert(p.push(b).drop_first() =~= p.drop_first().push(b));
        match t {
            Subtree::Leaf(_) => {},
            Subtree::Branch(_, l, r) => {
                if p[0] {
                    lemma_sub_push(*r, p.drop_first(), b);
                } else {
                    lemma_sub_push(*l, p.drop_first(), b);
                }
            },
        }
    }
}

pub proof fn lemma_sub_wf<S>(t: Subtree<S>, base: Seq<bool>, p: Seq<bool>)
    requires
        t.wf(base),
        t.sub(p) is Some,
    ensures
        t.sub(p).unwrap().wf(base + p),
    decreases p.len(),
{
    if p.len() == 0 {
        assert(base + p =~= base);
    } else {
        match t {
            Subtree::Leaf(_) => {},
            Subtree::Branch(_, l, r) => {
                let b = p[0];
                assert(base.push(b) + p.drop_first() =~= base + p);
                if b {
                    lemma_sub_wf(*r, base.push(true), p.drop_first());
                } else {
                    lemma_sub_wf(*l, base.push(false), p.drop_first());
                }
            },
        }
    }
}

pub proof fn lemma_min_leaf_depth<S>(t: Subtree<S>, base: Seq<bool>)
    requires
        t.wf(base),
    ensures
        base.len() + t.min_leaf_depth() <= MAX_DEPTH,
        t.shallowest().len() == t.min_leaf_depth(),
        t.sub(t.shallowest()) matches Some(s) && s is Leaf,
    decreases t,
{
    match t {
        Subtree::Leaf(_) => {},
        Subtree::Branch(_, l, r) => {
            lemma_min_leaf_depth(*l, base.push(false));
            lemma_min_leaf_depth(*r, base.push(true));
            if l.min_leaf_depth() <= r.min_leaf_depth() {
                assert((seq![false] + l.shallowest()).drop_first() =~= l.shallowest());
            } else {
                assert((seq![true] + r.shallowest()).drop_first() =~= r.shallowest());
            }
        },
    }
}


/// The directions from the root to the node with id `id`.
pub fn dirs_of_id(id: u64) -> (dirs: Vec<bool>)
    requires
        id >= 1,
    ensures
        dirs@ == path_of_id(id as nat),
{
    let mut dirs: Vec<bool> = Vec::new();
    let mut x: u64 = id;
    while x > 1
        invariant
            1 <= x <= id,
            path_of_id(id as nat) == path_of_id(x as nat) + dirs@,
        decreases x,
    {
        let b = x % 2 == 1;
        proof {
            assert(path_of_id(x as nat) == path_of_id((x / 2) as nat).push(b));
            assert(path_of_id((x / 2) as nat).push(b) + dirs@ =~= path_of_id((x / 2) as nat) + (seq![b] + dirs@));
        }
        dirs.insert(0, b);
        x = x / 2;
    }
    assert(path_of_id(x as nat) + dirs@ =~= dirs@);
    dirs
}

/// The subtree reached from `t` by the directions `dirs[i..]`.
fn lookup<'a, S>(t: &'a Subtree<S>, dirs: &Vec<bool>, i: usize) -> (res: Option<&'a Subtree<S>>)
    requires
        i <= dirs@.len(),
    ensures
        match res {
            Some(s) => t.sub(dirs@.subrange(i as int, dirs@.len() as int)) == Some(*s),
            None => t.sub(dirs@.subrange(i as int, dirs@.len() as int)) is None,
        },
    decreases dirs@.len() - i,
{
    let ghost rest = dirs@.subrange(i as int, dirs@.len() as int);
    if i == dirs.len() {
        assert(rest.len() == 0);
        return Some(t);
    }
    assert(rest.drop_first() =~= dirs@.subrange(i + 1, dirs@.len() as int));
    match t {
        Subtree::Leaf(_) => None,
        Subtree::Branch(_, l, r) => {
            if dirs[i] {
                lookup(r, dirs, i + 1)
            } else {
                lookup(l, dirs, i + 1)
            }
        },
    }
}

/// `p` is `b` followed by `q`.
proof fn lemma_cons<A>(p: Seq<A>, b: A, q: Seq<A>)
    ensures
        (p == seq![b] + q) <==> (p.len() > 0 && p[0] == b && p.drop_first() == q),
        (seq![b] + q).drop_first() == q,
        (seq![b] + q)[0] == b,
{
    assert((seq![b] + q).drop_first() =~= q);
    if p.len() > 0 && p[0] == b && p.drop_first() == q {
        assert(p =~= seq![b] + q);
    }
}

/// The node views after the leaf at `q` is split: the leaf becomes an inner
/// node (no member), its content moves to the new left child, and `nv` is
/// placed as the new right child.
pub open spec fn split_node(old: NodeView, q: Seq<bool>, nv: NodeView, p: Seq<bool>, rest: Option<NodeView>) -> Option<NodeView> {
    if p == q {
        Some(NodeView { id: old.id, key: old.key, key_id: old.key_id, user: None, depth: old.depth })
    } else if p == q.push(false) {
        Some(NodeView { id: (2 * old.id) as u64, key: old.key, key_id: old.key_id, user: old.user, depth: (old.depth + 1) as u32 })
    } else if p == q.push(true) {
        Some(NodeView { id: (2 * old.id + 1) as u64, key: nv.key, key_id: nv.key_id, user: nv.user, depth: (old.depth + 1) as u32 })
    } else {
        rest
    }
}

/// The channel of the member `u`, if any.
pub open spec fn user_chan<S>(u: Option<User<S>>) -> Option<S> {
    match u {
        Some(u) => Some(u.send),
        None => None,
    }
}

/// Where the channels stand once the leaf at `q` (channel `old`) is split for
/// a node with channel `new`: the leaf's moves to its left child, the new one
/// goes to its right child, every other stays.
pub open spec fn split_chan<S>(old: Option<S>, q: Seq<bool>, new: Option<S>, p: Seq<bool>, rest: Option<S>) -> Option<S> {
    if p == q {
        None
    } else if p == q.push(false) {
        old
    } else if p == q.push(true) {
        new
    } else {
        rest
    }
}

/// The tree `m` after its leaf at `q` is split to make room for `nv`.
pub open spec fn split_leaf(m: Map<Seq<bool>, NodeView>, q: Seq<bool>, nv: NodeView) -> Map<Seq<bool>, NodeView> {
    let old = m[q];
    m.insert(q, NodeView { id: old.id, key: old.key, key_id: old.key_id, user: None, depth: old.depth })
        .insert(q.push(false), NodeView { id: (2 * old.id) as u64, key: old.key, key_id: old.key_id, user: old.user, depth: (old.depth + 1) as u32 })
        .insert(q.push(true), NodeView { id: (2 * old.id + 1) as u64, key: nv.key, key_id: nv.key_id, user: nv.user, depth: (old.depth + 1) as u32 })
}

fn min_leaf_depth_of<S>(t: &Subtree<S>, Ghost(base): Ghost<Seq<bool>>) -> (d: u32)
    requires
        t.wf(base),
    ensures
        d == t.min_leaf_depth(),
    decreases t,
{
    proof {
        lemma_min_leaf_depth(*t, base);
    }
    match t {
        Subtree::Leaf(_) => 0,
        Subtree::Branch(_, l, r) => {
            let dl = min_leaf_depth_of(l, Ghost(base.push(false)));
            let dr = min_leaf_depth_of(r, Ghost(base.push(true)));
            if dl <= dr {
                1 + dl
            } else {
                1 + dr
            }
        },
    }
}

fn split_at_shallowest<S>(t: Subtree<S>, new_node: Node<S>, Ghost(base): Ghost<Seq<bool>>) -> (res: (Subtree<S>, u64))
    requires
        t.wf(base),
        base.len() + t.min_leaf_depth() < MAX_DEPTH,
    ensures
        res.0.wf(base),
        res.1 == id_of(base + t.shallowest().push(true)),
        t.get(t.shallowest()) is Some,
        res.0.users() == t.users() + (if new_node.user is Some { 1nat } else { 0nat }),
        forall|p: Seq<bool>| #[trigger] res.0.get(p) == split_node(t.get(t.shallowest()).unwrap(), t.shallowest(), new_node@, p, t.get(p)),
        forall|p: Seq<bool>| #[trigger] res.0.chan(p) == split_chan(t.chan(t.shallowest()), t.shallowest(), user_chan(new_node.user), p, t.chan(p)),
    decreases t,
{
    proof {
        lemma_min_leaf_depth(t, base);
    }
    match t {
        Subtree::Leaf(n) => {
            proof {
                lemma_id_bound(base);
                lemma_id_of_push(base, false);
                lemma_id_of_push(base, true);
            }
            let parent = Node { id: n.id, key: n.key.clone(), key_id: n.key_id, user: None, depth: n.depth };
            assert(parent.key@ =~= n.key@);
            let mut left = n;
            left.id = 2 * parent.id;
            left.depth = parent.depth + 1;
            let mut right = new_node;
            right.id = 2 * parent.id + 1;
            right.depth = parent.depth + 1;
            let rid = right.id;
            let ghost lt = Subtree::Leaf(left);
            let ghost rt = Subtree::Leaf(right);
            assert(lt.wf(base.push(false)));
            assert(rt.wf(base.push(true)));
            assert(lt.users() == (if n.user is Some { 1nat } else { 0nat }));
            assert(rt.users() == (if new_node.user is Some { 1nat } else { 0nat }));
            let res = Subtree::Branch(parent, Box::new(Subtree::Leaf(left)), Box::new(Subtree::Leaf(right)));
            proof {
                let q = t.shallowest();
                assert(q =~= seq![]);
                assert(base + q.push(true) =~= base.push(true));
                assert forall|p: Seq<bool>| #[trigger] res.get(p) == split_node(t.get(q).unwrap(), q, new_node@, p, t.get(p)) by {
                    if p.len() > 0 {
                        let c = if p[0] { rt } else { lt };
                        assert(res.sub(p) == c.sub(p.drop_first()));
                        if p.len() == 1 {
                            assert(p.drop_first() =~= seq![]);
                            assert(c.sub(p.drop_first()) == Some(c));
                            assert(p =~= q.push(p[0]));
                        } else {
                            assert(c.sub(p.drop_first()) is None);
                            assert(p.len() != q.push(false).len());
                            assert(p != q.push(false) && p != q.push(true));
                        }
                    } else {
                        assert(p =~= q);
                    }
                }
                assert forall|p: Seq<bool>| #[trigger] res.chan(p) == split_chan(t.chan(q), q, user_chan(new_node.user), p, t.chan(p)) by {
                    if p.len() > 0 {
                        let c = if p[0] { rt } else { lt };
                        assert(res.sub(p) == c.sub(p.drop_first()));
                        if p.len() == 1 {
                            assert(p.drop_first() =~= seq![]);
                            assert(c.sub(p.drop_first()) == Some(c));
                            assert(p =~= q.push(p[0]));
                        } else {
                            assert(c.sub(p.drop_first()) is None);
                            assert(p.len() != q.push(false).len());
                            assert(p != q.push(false) && p != q.push(true));
                        }
                    } else {
                        assert(p =~= q);
                    }
                }
            }
            (res, rid)
        },
        Subtree::Branch(n, l, r) => {
            let dl = min_leaf_depth_of(&*l, Ghost(base.push(false)));
            let dr = min_leaf_depth_of(&*r, Ghost(base.push(true)));
            if dl <= dr {
                let ghost q1 = l.shallowest();
                let (l2, id) = split_at_shallowest(*l, new_node, Ghost(base.push(false)));
                let res = Subtree::Branch(n, Box::new(l2), r);
                proof {
                    let q = t.shallowest();
                    assert(q == seq![false] + q1);
                    assert(base + q.push(true) =~= base.push(false) + q1.push(true));
                    lemma_cons(q, false, q1);
                    assert(t.sub(q) == l.sub(q1));
                    assert forall|p: Seq<bool>| #[trigger] res.get(p) == split_node(t.get(q).unwrap(), q, new_node@, p, t.get(p)) by {
                        assert(q.push(false) =~= seq![false] + q1.push(false));
                        assert(q.push(true) =~= seq![false] + q1.push(true));
                        lemma_cons(p, false, q1);
                        lemma_cons(p, false, q1.push(false));
                        lemma_cons(p, false, q1.push(true));
                        lemma_cons(q.push(false), false, q1.push(false));
                        lemma_cons(q.push(true), false, q1.push(true));
                        if p.len() > 0 && !p[0] {
                            assert(res.get(p) == l2.get(p.drop_first()));
                        }
                    }
                    assert forall|p: Seq<bool>| #[trigger] res.chan(p) == split_chan(t.chan(q), q, user_chan(new_node.user), p, t.chan(p)) by {
                        assert(q.push(false) =~= seq![false] + q1.push(false));
                        assert(q.push(true) =~= seq![false] + q1.push(true));
                        lemma_cons(p, false, q1);
                        lemma_cons(p, false, q1.push(false));
                        lemma_cons(p, false, q1.push(true));
                        lemma_cons(q.push(false), false, q1.push(false));
                        lemma_cons(q.push(true), false, q1.push(true));
                        if p.len() > 0 && !p[0] {
                            assert(res.chan(p) == l2.chan(p.drop_first()));
                        }
                    }
                }
                (res, id)
            } else {
                let ghost q1 = r.shallowest();
                let (r2, id) = split_at_shallowest(*r, new_node, Ghost(base.push(true)));
                let res = Subtree::Branch(n, l, Box::new(r2));
                proof {
                    let q = t.shallowest();
                    assert(q == seq![true] + q1);
                    assert(base + q.push(true) =~= base.push(true) + q1.push(true));
                    lemma_cons(q, true, q1);
                    assert(t.sub(q) == r.sub(q1));
                    assert forall|p: Seq<bool>| #[trigger] res.get(p) == split_node(t.get(q).unwrap(), q, new_node@, p, t.get(p)) by {
                        assert(q.push(false) =~= seq![true] + q1.push(false));
                        assert(q.push(true) =~= seq![true] + q1.push(true));
                        lemma_cons(p, true, q1);
                        lemma_cons(p, true, q1.push(false));
                        lemma_cons(p, true, q1.push(true));
                        lemma_cons(q.push(false), true, q1.push(false));
                        lemma_cons(q.push(true), true, q1.push(true));
                        if p.len() > 0 && p[0] {
                            assert(res.get(p) == r2.get(p.drop_first()));
                        }
                    }
                    assert forall|p: Seq<bool>| #[trigger] res.chan(p) == split_chan(t.chan(q), q, user_chan(new_node.user), p, t.chan(p)) by {
                        assert(q.push(false) =~= seq![true] + q1.push(false));
                        assert(q.push(true) =~= seq![true] + q1.push(true));
                        lemma_cons(p, true, q1);
                        lemma_cons(p, true, q1.push(false));
                        lemma_cons(p, true, q1.push(true));
                        lemma_cons(q.push(false), true, q1.push(false));
                        lemma_cons(q.push(true), true, q1.push(true));
                        if p.len() > 0 && p[0] {
                            assert(res.chan(p) == r2.chan(p.drop_first()));
                        }
                    }
                }
                (res, id)
            }
        },
    }
}

/// The bytes of an optional key.
pub open spec fn key_view(k: Option<Vec<u8>>) -> Option<Seq<u8>> {
    match k {
        Some(k) => Some(k@),
        None => None,
    }
}

/// `v` with its key and key id replaced where new ones are given.
pub open spec fn rekeyed(v: NodeView, key: Option<Seq<u8>>, key_id: Option<u64>) -> NodeView {
    NodeView {
        id: v.id,
        key: match key {
            Some(k) => k,
            None => v.key,
        },
        key_id: match key_id {
            Some(k) => k,
            None => v.key_id,
        },
        user: v.user,
        depth: v.depth,
    }
}

/// Replaces the key and/or key id of the node reached by `dirs[i..]`.
fn update_at<S>(t: Subtree<S>, dirs: &Vec<bool>, i: usize, key: Option<Vec<u8>>, key_id: Option<u64>, Ghost(base): Ghost<Seq<bool>>) -> (res: Subtree<S>)
    requires
        t.wf(base),
        i <= dirs@.len(),
    ensures
        res.wf(base),
        res.users() == t.users(),
        forall|p: Seq<bool>| #[trigger] res.get(p) == if p == dirs@.subrange(i as int, dirs@.len() as int) && t.get(p) is Some {
            Some(rekeyed(t.get(p).unwrap(), key_view(key), key_id))
        } else {
            t.get(p)
        },
        forall|p: Seq<bool>| #[trigger] res.chan(p) == t.chan(p),
    decreases dirs@.len() - i,
{
    let ghost q = dirs@.subrange(i as int, dirs@.len() as int);
    let ghost kv = key_view(key);
    if i == dirs.len() {
        assert(q =~= seq![]);
        match t {
            Subtree::Leaf(n) => {
                let mut n = n;
                match key { Some(k) => { n.key = k; }, None => {} }
                match key_id { Some(k) => { n.key_id = k; }, None => {} }
                let res = Subtree::Leaf(n);
                proof {
                    assert forall|p: Seq<bool>| #[trigger] res.get(p) == if p == q && t.get(p) is Some { Some(rekeyed(t.get(p).unwrap(), kv, key_id)) } else { t.get(p) } by {
                        if p.len() == 0 { assert(p =~= q); }
                    }
                    assert forall|p: Seq<bool>| #[trigger] res.chan(p) == t.chan(p) by {
                        if p.len() == 0 { assert(p =~= q); }
                    }
                }
                res
            },
            Subtree::Branch(n, l, r) => {
                let mut n = n;
                match key { Some(k) => { n.key = k; }, None => {} }
                match key_id { Some(k) => { n.key_id = k; }, None => {} }
                let res = Subtree::Branch(n, l, r);
                proof {
                    assert forall|p: Seq<bool>| #[trigger] res.get(p) == if p == q && t.get(p) is Some { Some(rekeyed(t.get(p).unwrap(), kv, key_id)) } else { t.get(p) } by {
                        if p.len() == 0 { assert(p =~= q); }
                    }
                    assert forall|p: Seq<bool>| #[trigger] res.chan(p) == t.chan(p) by {
                        if p.len() == 0 { assert(p =~= q); }
                    }
                }
                res
            },
        }
    } else {
        match t {
            Subtree::Leaf(n) => {
                let res = Subtree::Leaf(n);
                proof {
                    assert forall|p: Seq<bool>| #[trigger] res.get(p) == if p == q && t.get(p) is Some { Some(rekeyed(t.get(p).unwrap(), kv, key_id)) } else { t.get(p) } by {
                        if p == q { assert(p.len() > 0); }
                    }
                    assert forall|p: Seq<bool>| #[trigger] res.chan(p) == t.chan(p) by {
                        if p == q { assert(p.len() > 0); }
                    }
                }
                res
            },
            Subtree::Branch(n, l, r) => {
                let ghost q1 = dirs@.subrange(i + 1, dirs@.len() as int);
                assert(q =~= seq![dirs@[i as int]] + q1);
                if dirs[i] {
                    let r2 = update_at(*r, dirs, i + 1, key, key_id, Ghost(base.push(true)));
                    let res = Subtree::Branch(n, l, Box::new(r2));
                    proof {
                        assert forall|p: Seq<bool>| #[trigger] res.get(p) == if p == q && t.get(p) is Some { Some(rekeyed(t.get(p).unwrap(), kv, key_id)) } else { t.get(p) } by {
                            lemma_cons(p, true, q1);
                            if p.len() > 0 && p[0] {
                                assert(res.get(p) == r2.get(p.drop_first()));
                                assert(t.get(p) == r.get(p.drop_first()));
                            }
                        }
                        assert forall|p: Seq<bool>| #[trigger] res.chan(p) == t.chan(p) by {
                            lemma_cons(p, true, q1);
                            if p.len() > 0 && p[0] {
                                assert(res.chan(p) == r2.chan(p.drop_first()));
                                assert(t.chan(p) == r.chan(p.drop_first()));
                            }
                        }
                    }
                    res
                } else {
                    let l2 = update_at(*l, dirs, i + 1, key, key_id, Ghost(base.push(false)));
                    let res = Subtree::Branch(n, Box::new(l2), r);
                    proof {
                        assert forall|p: Seq<bool>| #[trigger] res.get(p) == if p == q && t.get(p) is Some { Some(rekeyed(t.get(p).unwrap(), kv, key_id)) } else { t.get(p) } by {
                            lemma_cons(p, false, q1);
                            if p.len() > 0 && !p[0] {
                                assert(res.get(p) == l2.get(p.drop_first()));
                                assert(t.get(p) == l.get(p.drop_first()));
                            }
                        }
                        assert forall|p: Seq<bool>| #[trigger] res.chan(p) == t.chan(p) by {
                            lemma_cons(p, false, q1);
                            if p.len() > 0 && !p[0] {
                                assert(res.chan(p) == l2.chan(p.drop_first()));
                                assert(t.chan(p) == l.chan(p.drop_first()));
                            }
                        }
                    }
                    res
                }
            },
        }
    }
}

/// `v` placed at `p`: id and depth follow the place.
pub open spec fn relabeled(v: NodeView, p: Seq<bool>) -> NodeView {
    NodeView { id: id_of(p) as u64, key: v.key, key_id: v.key_id, user: v.user, depth: p.len() as u32 }
}

/// `pre` is a prefix of `p`.
pub open spec fn has_prefix(p: Seq<bool>, pre: Seq<bool>) -> bool {
    pre.len() <= p.len() && p.subrange(0, pre.len() as int) == pre
}

/// What lies at `p` once the leaf at `q` (not the root) is removed from the
/// tree whose nodes are given by `get`: the leaf's sibling subtree moves up
/// into the place of their parent, its nodes keeping their content and taking
/// the ids and depths of their new places.
pub open spec fn lift_get(get: spec_fn(Seq<bool>) -> Option<NodeView>, q: Seq<bool>, base: Seq<bool>, p: Seq<bool>) -> Option<NodeView> {
    let parent = q.drop_last();
    let sibling = parent.push(!q.last());
    if has_prefix(p, parent) {
        match get(sibling + p.subrange(parent.len() as int, p.len() as int)) {
            Some(v) => Some(relabeled(v, base + p)),
            None => None,
        }
    } else {
        get(p)
    }
}

/// The tree `m` once its leaf at `q` (not the root) is removed.
pub open spec fn remove_leaf(m: Map<Seq<bool>, NodeView>, q: Seq<bool>) -> Map<Seq<bool>, NodeView> {
    let get = |p: Seq<bool>| if m.contains_key(p) { Some(m[p]) } else { None };
    Map::new(
        |p: Seq<bool>| lift_get(get, q, seq![], p) is Some,
        |p: Seq<bool>| lift_get(get, q, seq![], p).unwrap(),
    )
}

/// Where the node that ends up at `p` came from, once the leaf at `q` is
/// removed.
pub open spec fn origin(q: Seq<bool>, p: Seq<bool>) -> Seq<bool> {
    let parent = q.drop_last();
    if has_prefix(p, parent) {
        parent.push(!q.last()) + p.subrange(parent.len() as int, p.len() as int)
    } else {
        p
    }
}

/// Reading the tree once the leaf at `q` is removed.
pub proof fn lemma_remove_leaf_get(m: Map<Seq<bool>, NodeView>, q: Seq<bool>, p: Seq<bool>)
    ensures
        remove_leaf(m, q).contains_key(p) == m.contains_key(origin(q, p)),
        remove_leaf(m, q).contains_key(p) ==> remove_leaf(m, q)[p] == if has_prefix(p, q.drop_last()) {
            relabeled(m[origin(q, p)], p)
        } else {
            m[p]
        },
{
    assert(seq![] + p =~= p);
}

/// Moves a subtree from `old_base` up to `new_base`, giving its nodes the ids
/// and depths of their new places.
fn relabel<S>(t: Subtree<S>, id: u64, depth: u32, Ghost(old_base): Ghost<Seq<bool>>, Ghost(new_base): Ghost<Seq<bool>>) -> (res: Subtree<S>)
    requires
        t.wf(old_base),
        new_base.len() < old_base.len(),
        id == id_of(new_base),
        depth == new_base.len(),
    ensures
        res.wf(new_base),
        res.users() == t.users(),
        forall|p: Seq<bool>| #[trigger] res.get(p) == match t.get(p) {
            Some(v) => Some(relabeled(v, new_base + p)),
            None => None,
        },
        forall|p: Seq<bool>| #[trigger] res.chan(p) == t.chan(p),
    decreases t,
{
    proof {
        assert(new_base + seq![] =~= new_base);
    }
    match t {
        Subtree::Leaf(n) => {
            let mut n = n;
            n.id = id;
            n.depth = depth;
            let res = Subtree::Leaf(n);
            proof {
                assert forall|p: Seq<bool>| #[trigger] res.get(p) == match t.get(p) {
                    Some(v) => Some(relabeled(v, new_base + p)),
                    None => None,
                } by {
                    if p.len() == 0 {
                        assert(p =~= seq![]);
                    }
                }
                assert forall|p: Seq<bool>| #[trigger] res.chan(p) == t.chan(p) by {
                    if p.len() == 0 {
                        assert(p =~= seq![]);
                    }
                }
            }
            res
        },
        Subtree::Branch(n, l, r) => {
            proof {
                lemma_id_bound(new_base);
                lemma_id_of_push(new_base, false);
                lemma_id_of_push(new_base, true);
            }
            let mut n = n;
            n.id = id;
            n.depth = depth;
            let l2 = relabel(*l, 2 * id, depth + 1, Ghost(old_base.push(false)), Ghost(new_base.push(false)));
            let r2 = relabel(*r, 2 * id + 1, depth + 1, Ghost(old_base.push(true)), Ghost(new_base.push(true)));
            let res = Subtree::Branch(n, Box::new(l2), Box::new(r2));
            proof {
                assert forall|p: Seq<bool>| #[trigger] res.get(p) == match t.get(p) {
                    Some(v) => Some(relabeled(v, new_base + p)),
                    None => None,
                } by {
                    if p.len() == 0 {
                        assert(p =~= seq![]);
                    } else {
                        let b = p[0];
                        assert(new_base.push(b) + p.drop_first() =~= new_base + p);
                        if b {
                            assert(res.get(p) == r2.get(p.drop_first()));
                            assert(t.get(p) == r.get(p.drop_first()));
                        } else {
                            assert(res.get(p) == l2.get(p.drop_first()));
                            assert(t.get(p) == l.get(p.drop_first()));
                        }
                    }
                }
                assert forall|p: Seq<bool>| #[trigger] res.chan(p) == t.chan(p) by {
                    if p.len() == 0 {
                        assert(p =~= seq![]);
                    } else {
                        let b = p[0];
                        assert(new_base.push(b) + p.drop_first() =~= new_base + p);
                        if b {
                            assert(res.chan(p) == r2.chan(p.drop_first()));
                            assert(t.chan(p) == r.chan(p.drop_first()));
                        } else {
                            assert(res.chan(p) == l2.chan(p.drop_first()));
                            assert(t.chan(p) == l.chan(p.drop_first()));
                        }
                    }
                }
            }
            res
        },
    }
}

/// The channel at `p` once the leaf at `q` of `t` is removed: the sibling
/// subtree's channels move up with its nodes.
pub open spec fn lift_chan<S>(t: Subtree<S>, q: Seq<bool>, p: Seq<bool>) -> Option<S> {
    let parent = q.drop_last();
    let sibling = parent.push(!q.last());
    if has_prefix(p, parent) {
        t.chan(sibling + p.subrange(parent.len() as int, p.len() as int))
    } else {
        t.chan(p)
    }
}

/// Removes the leaf reached by `dirs[i..]` (a non-empty path): its sibling
/// subtree moves up into their parent's place. Returns whether there was such
/// a leaf; otherwise the subtree is unchanged.
fn remove_at<S>(t: Subtree<S>, dirs: &Vec<bool>, i: usize, Ghost(base): Ghost<Seq<bool>>) -> (res: (Subtree<S>, bool))
    requires
        t.wf(base),
        i < dirs@.len(),
    ensures
        res.0.wf(base),
        res.1 == (t.sub(dirs@.subrange(i as int, dirs@.len() as int)) matches Some(s) && s is Leaf),
        res.1 ==> res.0.users() + (if t.sub(dirs@.subrange(i as int, dirs@.len() as int)).unwrap().node().user is Some { 1nat } else { 0nat }) == t.users(),
        res.1 ==> forall|p: Seq<bool>| #[trigger] res.0.get(p) == lift_get(|x: Seq<bool>| t.get(x), dirs@.subrange(i as int, dirs@.len() as int), base, p),
        res.1 ==> forall|p: Seq<bool>| #[trigger] res.0.chan(p) == lift_chan(t, dirs@.subrange(i as int, dirs@.len() as int), p),
        !res.1 ==> res.0 == t,
    decreases dirs@.len() - i,
{
    let ghost q = dirs@.subrange(i as int, dirs@.len() as int);
    match t {
        Subtree::Leaf(n) => {
            (Subtree::Leaf(n), false)
        },
        Subtree::Branch(n, l, r) => {
            let ghost q1 = dirs@.subrange(i + 1, dirs@.len() as int);
            assert(q =~= seq![dirs@[i as int]] + q1);
            let b = dirs[i];
            if i == dirs.len() - 1 {
                assert(q1 =~= seq![]);
                proof {
                    lemma_cons(q, b, q1);
                }
                let target_is_leaf = if b {
                    match &*r { Subtree::Leaf(_) => true, Subtree::Branch(..) => false }
                } else {
                    match &*l { Subtree::Leaf(_) => true, Subtree::Branch(..) => false }
                };
                assert(t.sub(q) == if b { r.sub(seq![]) } else { l.sub(seq![]) });
                assert(l.sub(seq![]) == Some(*l));
                assert(r.sub(seq![]) == Some(*r));
                if !target_is_leaf {
                    return (Subtree::Branch(n, l, r), false);
                }
                let id = n.id;
                let depth = n.depth;
                let sib = if b { *l } else { *r };
                let ghost sb = base.push(!b);
                let res = relabel(sib, id, depth, Ghost(sb), Ghost(base));
                proof {
                    let c = if b { *r } else { *l };
                    assert(t.sub(q) == Some(c));
                    assert(c.users() == (if c.node().user is Some { 1nat } else { 0nat }));
                    let parent = q.drop_last();
                    assert(parent =~= seq![]);
                    assert(parent.push(!q.last()) =~= seq![!b]);
                    assert forall|p: Seq<bool>| #[trigger] res.get(p) == lift_get(|x: Seq<bool>| t.get(x), q, base, p) by {
                        assert(p.subrange(0, 0) =~= parent);
                        assert(has_prefix(p, parent));
                        assert(p.subrange(parent.len() as int, p.len() as int) =~= p);
                        let x = seq![!b] + p;
                        lemma_cons(x, !b, p);
                        assert(t.get(x) == sib.get(p));
                    }
                    assert forall|p: Seq<bool>| #[trigger] res.chan(p) == lift_chan(t, q, p) by {
                        assert(p.subrange(0, 0) =~= parent);
                        assert(has_prefix(p, parent));
                        assert(p.subrange(parent.len() as int, p.len() as int) =~= p);
                        let x = seq![!b] + p;
                        lemma_cons(x, !b, p);
                        assert(t.chan(x) == sib.chan(p));
                    }
                }
                (res, true)
            } else {
                if b {
                    let (r2, done) = remove_at(*r, dirs, i + 1, Ghost(base.push(true)));
                    let res = Subtree::Branch(n, l, Box::new(r2));
                    proof {
                        lemma_cons(q, true, q1);
                        assert(t.sub(q) == r.sub(q1));
                        if done {
                            lift_step(t, res, *r, r2, true, q1, base);
                            lift_step_chan(t, res, *r, r2, true, q1);
                        }
                    }
                    (res, done)
                } else {
                    let (l2, done) = remove_at(*l, dirs, i + 1, Ghost(base.push(false)));
                    let res = Subtree::Branch(n, Box::new(l2), r);
                    proof {
                        lemma_cons(q, false, q1);
                        assert(t.sub(q) == l.sub(q1));
                        if done {
                            lift_step(t, res, *l, l2, false, q1, base);
                            lift_step_chan(t, res, *l, l2, false, q1);
                        }
                    }
                    (res, done)
                }
            }
        },
    }
}

/// One level of the recursion of `remove_at`: removing below child `b`.
proof fn lift_step<S>(t: Subtree<S>, res: Subtree<S>, c: Subtree<S>, c2: Subtree<S>, b: bool, q1: Seq<bool>, base: Seq<bool>)
    requires
        t matches Subtree::Branch(n, l, r) && (if b { *r == c } else { *l == c }),
        res matches Subtree::Branch(n2, l2, r2) && n2 == t.node() && (if b { *l2 == t->Branch_1 && *r2 == c2 } else { *r2 == t->Branch_2 && *l2 == c2 }),
        q1.len() > 0,
        forall|p: Seq<bool>| #[trigger] c2.get(p) == lift_get(|x: Seq<bool>| c.get(x), q1, base.push(b), p),
    ensures
        forall|p: Seq<bool>| #[trigger] res.get(p) == lift_get(|x: Seq<bool>| t.get(x), seq![b] + q1, base, p),
{
    let q = seq![b] + q1;
    let parent = q.drop_last();
    let parent1 = q1.drop_last();
    assert(parent =~= seq![b] + parent1);
    assert(q.last() == q1.last());
    let sib = parent.push(!q.last());
    let sib1 = parent1.push(!q1.last());
    assert(sib =~= seq![b] + sib1);
    assert forall|p: Seq<bool>| #[trigger] res.get(p) == lift_get(|x: Seq<bool>| t.get(x), q, base, p) by {
        if p.len() > 0 && p[0] == b {
            let p1 = p.drop_first();
            assert(p =~= seq![b] + p1);
            assert(res.get(p) == c2.get(p1));
            assert(has_prefix(p, parent) == has_prefix(p1, parent1)) by {
                if parent1.len() <= p1.len() {
                    let x = p.subrange(0, parent.len() as int);
                    assert(x =~= seq![b] + p1.subrange(0, parent1.len() as int));
                    lemma_cons(x, b, parent1);
                    assert(x.drop_first() =~= p1.subrange(0, parent1.len() as int));
                }
            }
            if has_prefix(p1, parent1) {
                let rest = p.subrange(parent.len() as int, p.len() as int);
                assert(rest =~= p1.subrange(parent1.len() as int, p1.len() as int));
                let x = sib + rest;
                assert(x =~= seq![b] + (sib1 + rest));
                lemma_cons(x, b, sib1 + rest);
                assert(t.get(x) == c.get(sib1 + rest));
                assert(base.push(b) + p1 =~= base + p);
            } else {
                assert(t.get(p) == c.get(p1));
            }
        } else {
            assert(!has_prefix(p, parent)) by {
                if has_prefix(p, parent) {
                    assert(p[0] == p.subrange(0, parent.len() as int)[0]);
                }
            }
            if p.len() > 0 {
                assert(res.get(p) == t.get(p));
            } else {
                assert(res.get(p) == t.get(p));
            }
        }
    }
}

/// One level of the recursion of `remove_at`, for the channels.
proof fn lift_step_chan<S>(t: Subtree<S>, res: Subtree<S>, c: Subtree<S>, c2: Subtree<S>, b: bool, q1: Seq<bool>)
    requires
        t matches Subtree::Branch(n, l, r) && (if b { *r == c } else { *l == c }),
        res matches Subtree::Branch(n2, l2, r2) && n2 == t.node() && (if b { *l2 == t->Branch_1 && *r2 == c2 } else { *r2 == t->Branch_2 && *l2 == c2 }),
        q1.len() > 0,
        forall|p: Seq<bool>| #[trigger] c2.chan(p) == lift_chan(c, q1, p),
    ensures
        forall|p: Seq<bool>| #[trigger] res.chan(p) == lift_chan(t, seq![b] + q1, p),
{
    let q = seq![b] + q1;
    let parent = q.drop_last();
    let parent1 = q1.drop_last();
    assert(parent =~= seq![b] + parent1);
    assert(q.last() == q1.last());
    let sib = parent.push(!q.last());
    let sib1 = parent1.push(!q1.last());
    assert(sib =~= seq![b] + sib1);
    assert forall|p: Seq<bool>| #[trigger] res.chan(p) == lift_chan(t, q, p) by {
        if p.len() > 0 && p[0] == b {
            let p1 = p.drop_first();
            assert(p =~= seq![b] + p1);
            assert(res.chan(p) == c2.chan(p1));
            assert(has_prefix(p, parent) == has_prefix(p1, parent1)) by {
                if parent1.len() <= p1.len() {
                    let x = p.subrange(0, parent.len() as int);
                    assert(x =~= seq![b] + p1.subrange(0, parent1.len() as int));
                    lemma_cons(x, b, parent1);
                    assert(x.drop_first() =~= p1.subrange(0, parent1.len() as int));
                }
            }
            if has_prefix(p1, parent1) {
                let rest = p.subrange(parent.len() as int, p.len() as int);
                assert(rest =~= p1.subrange(parent1.len() as int, p1.len() as int));
                let x = sib + rest;
                assert(x =~= seq![b] + (sib1 + rest));
                lemma_cons(x, b, sib1 + rest);
                assert(t.chan(x) == c.chan(sib1 + rest));
            } else {
                assert(t.chan(p) == c.chan(p1));
            }
        } else {
            assert(!has_prefix(p, parent)) by {
                if has_prefix(p, parent) {
                    assert(p[0] == p.subrange(0, parent.len() as int)[0]);
                }
            }
            if p.len() > 0 {
                assert(res.chan(p) == t.chan(p));
            } else {
                assert(res.chan(p) == t.chan(p));
            }
        }
    }
}

/// Looks for the node that stands for the member `user_id`.
fn find_user<S>(t: &Subtree<S>, user_id: &String) -> (res: Option<u64>)
    ensures
        match res {
            Some(id) => exists|p: Seq<bool>| #[trigger] t.get(p) matches Some(v) && v.user == Some(user_id@) && v.id == id,
            None => forall|p: Seq<bool>| #[trigger] t.get(p) is Some ==> t.get(p).unwrap().user != Some(user_id@),
        },
    decreases t,
{
    let n = match t {
        Subtree::Leaf(n) => n,
        Subtree::Branch(n, _, _) => n,
    };
    let here = match &n.user {
        Some(u) => u.user_id == *user_id,
        None => false,
    };
    if here {
        assert(t.get(seq![]) matches Some(v) && v.user == Some(user_id@) && v.id == n.id);
        return Some(n.id);
    }
    match t {
        Subtree::Leaf(_) => {
            assert forall|p: Seq<bool>| #[trigger] t.get(p) is Some implies t.get(p).unwrap().user != Some(user_id@) by {
                if p.len() == 0 {
                    assert(p =~= seq![]);
                }
            }
            None
        },
        Subtree::Branch(_, l, r) => {
            match find_user(l, user_id) {
                Some(id) => {
                    let ghost p1 = choose|p: Seq<bool>| #[trigger] l.get(p) matches Some(v) && v.user == Some(user_id@) && v.id == id;
                    proof {
                        lemma_cons(seq![false] + p1, false, p1);
                        assert(t.get(seq![false] + p1) == l.get(p1));
                    }
                    return Some(id);
                },
                None => {},
            }
            match find_user(r, user_id) {
                Some(id) => {
                    let ghost p1 = choose|p: Seq<bool>| #[trigger] r.get(p) matches Some(v) && v.user == Some(user_id@) && v.id == id;
                    proof {
                        lemma_cons(seq![true] + p1, true, p1);
                        assert(t.get(seq![true] + p1) == r.get(p1));
                    }
                    Some(id)
                },
                None => {
                    assert forall|p: Seq<bool>| #[trigger] t.get(p) is Some implies t.get(p).unwrap().user != Some(user_id@) by {
                        if p.len() == 0 {
                            assert(p =~= seq![]);
                        } else if p[0] {
                            assert(t.get(p) == r.get(p.drop_first()));
                        } else {
                            assert(t.get(p) == l.get(p.drop_first()));
                        }
                    }
                    None
                },
            }
        },
    }
}

/// Ids from 2^63 on are the ids of paths longer than `MAX_DEPTH`.
proof fn lemma_big_id_deep(id: nat)
    requires
        id >= 0x8000_0000_0000_0000,
    ensures
        path_of_id(id).len() > MAX_DEPTH,
{
    lemma_id_of_path_of(id);
    lemma_path_of_id_of(path_of_id(id));
    if path_of_id(id).len() <= MAX_DEPTH {
        lemma_two_pow_mono(path_of_id(id).len() + 1, 63);
        lemma_two_pow_62();
    }
}

proof fn lemma_path_of_child(id: nat, b: bool)
    requires
        id >= 1,
    ensures
        path_of_id(2 * id + (if b { 1nat } else { 0nat })) == path_of_id(id).push(b),
{
    let c = 2 * id + (if b { 1nat } else { 0nat });
    assert(c / 2 == id);
    assert((c % 2 == 1) == b);
}

proof fn lemma_users_bound<S>(t: Subtree<S>, base: Seq<bool>)
    requires
        t.wf(base),
    ensures
        t.users() <= two_pow((MAX_DEPTH - base.len()) as nat),
    decreases t,
{
    match t {
        Subtree::Leaf(_) => {
            lemma_two_pow_mono(0, (MAX_DEPTH - base.len()) as nat);
        },
        Subtree::Branch(_, l, r) => {
            lemma_users_bound(*l, base.push(false));
            lemma_users_bound(*r, base.push(true));
            let k = (MAX_DEPTH - base.len()) as nat;
            assert(l.wf(base.push(false)));
            assert(base.push(false).len() <= MAX_DEPTH);
            assert(k >= 1);
            assert(two_pow(k) == 2 * two_pow((k - 1) as nat));
        },
    }
}

fn count_users<S>(t: &Subtree<S>, Ghost(base): Ghost<Seq<bool>>) -> (n: u64)
    requires
        t.wf(base),
    ensures
        n == t.users(),
    decreases t,
{
    proof {
        lemma_users_bound(*t, base);
        lemma_two_pow_62();
        lemma_two_pow_mono((MAX_DEPTH - base.len()) as nat, 62);
    }
    match t {
        Subtree::Leaf(n) => if n.user.is_some() { 1 } else { 0 },
        Subtree::Branch(n, l, r) => {
            proof {
                lemma_users_bound(**l, base.push(false));
                lemma_users_bound(**r, base.push(true));
            }
            let here: u64 = if n.user.is_some() { 1 } else { 0 };
            here + count_users(l, Ghost(base.push(false))) + count_users(r, Ghost(base.push(true)))
        },
    }
}

/// The line that shows a node at depth `indent`.
pub open spec fn node_line(v: NodeView, indent: nat) -> Seq<char> {
    spaces(4 * indent) + "- [ID: "@ + decimal(v.id as nat) + "] key "@ + decimal(v.key_id as nat) + match v.user {
        Some(u) => " user "@ + u,
        None => seq![],
    } + "\n"@
}

/// The lines that show the subtree of `m` at `p`, in depth-first order,
/// left before right, the subtree's root indented by `indent` steps and
/// each node one step more than its parent.
pub open spec fn render_at(m: Map<Seq<bool>, NodeView>, p: Seq<bool>, indent: nat) -> Seq<char>
    decreases MAX_DEPTH + 1 - p.len(),
{
    if p.len() > MAX_DEPTH || !m.contains_key(p) {
        seq![]
    } else {
        node_line(m[p], indent) + render_at(m, p.push(false), indent + 1) + render_at(m, p.push(true), indent + 1)
    }
}

/// The text form of a tree.
pub open spec fn render_tree(m: Map<Seq<bool>, NodeView>) -> Seq<char> {
    if m.contains_key(seq![]) {
        "Binary Tree:\n"@ + render_at(m, seq![], 0)
    } else {
        "Empty Tree\n"@
    }
}

fn node_line_into<S>(n: &Node<S>, indent: usize, out: &mut String)
    requires
        4 * indent <= usize::MAX,
    ensures
        final(out)@ == old(out)@ + node_line(n@, indent as nat),
{
    push_spaces(out, 4 * indent);
    out.append("- [ID: ");
    out.append(decimal_string(n.id).as_str());
    out.append("] key ");
    out.append(decimal_string(n.key_id).as_str());
    match &n.user {
        Some(u) => {
            out.append(" user ");
            out.append(u.user_id.as_str());
        },
        None => {},
    }
    out.append("\n");
    proof {
        let v = n@;
        let user_part = match v.user {
            Some(u) => " user "@ + u,
            None => Seq::<char>::empty(),
        };
        assert(final(out)@ =~= old(out)@ + (spaces(4 * indent as nat) + "- [ID: "@ + decimal(v.id as nat) + "] key "@ + decimal(v.key_id as nat) + user_part + "\n"@));
    }
}

fn render_into<S>(t: &Subtree<S>, Ghost(root): Ghost<Subtree<S>>, Ghost(m): Ghost<Map<Seq<bool>, NodeView>>, Ghost(p): Ghost<Seq<bool>>, indent: usize, out: &mut String)
    requires
        root.wf(seq![]),
        root.sub(p) == Some(*t),
        4 * (indent + MAX_DEPTH - p.len()) <= usize::MAX,
        forall|q: Seq<bool>| #[trigger] m.contains_key(q) == (root.get(q) is Some),
        forall|q: Seq<bool>| #[trigger] m.contains_key(q) ==> m[q] == root.get(q).unwrap(),
    ensures
        final(out)@ == old(out)@ + render_at(m, p, indent as nat),
    decreases t,
{
    proof {
        lemma_sub_props(root, p);
        lemma_sub_push(root, p, false);
        lemma_sub_push(root, p, true);
    }
    let n = match t {
        Subtree::Leaf(n) => n,
        Subtree::Branch(n, _, _) => n,
    };
    assert(n@ == t.node()@);
    assert(root.get(p) == Some(t.node()@));
    assert(m.contains_key(p));
    assert(m[p] == n@);
    node_line_into(n, indent, out);
    match t {
        Subtree::Leaf(_) => {
            assert(render_at(m, p.push(false), indent as nat + 1) == Seq::<char>::empty());
            assert(render_at(m, p.push(true), indent as nat + 1) == Seq::<char>::empty());
            assert(final(out)@ =~= old(out)@ + render_at(m, p, indent as nat));
        },
        Subtree::Branch(_, l, r) => {
            let ghost mid = out@;
            render_into(l, Ghost(root), Ghost(m), Ghost(p.push(false)), indent + 1, out);
            render_into(r, Ghost(root), Ghost(m), Ghost(p.push(true)), indent + 1, out);
            assert(final(out)@ =~= old(out)@ + render_at(m, p, indent as nat));
        },
    }
}

/// The set `a` with `b` put in front of each of its paths.
pub open spec fn prefixed(a: Set<Seq<bool>>, b: bool) -> Set<Seq<bool>> {
    a.map(|q: Seq<bool>| seq![b] + q)
}

impl<S> Subtree<S> {
    /// The places of the nodes of the subtree that satisfy `f`.
    pub open spec fn places_where(self, f: spec_fn(Node<S>) -> bool) -> Set<Seq<bool>>
        decreases self,
    {
        let here = if f(self.node()) { set![Seq::<bool>::empty()] } else { Set::<Seq<bool>>::empty() };
        match self {
            Subtree::Leaf(_) => here,
            Subtree::Branch(_, l, r) => here + prefixed(l.places_where(f), false) + prefixed(r.places_where(f), true),
        }
    }
}

/// Putting `b` in front keeps a set finite and its size.
proof fn lemma_prefixed(a: Set<Seq<bool>>, b: bool)
    requires
        a.finite(),
    ensures
        prefixed(a, b).finite(),
        prefixed(a, b).len() == a.len(),
        forall|p: Seq<bool>| #[trigger] prefixed(a, b).contains(p) <==> (p.len() > 0 && p[0] == b && a.contains(p.drop_first())),
{
    let f = |q: Seq<bool>| seq![b] + q;
    assert forall|x: Seq<bool>, y: Seq<bool>| a.contains(x) && a.contains(y) && #[trigger] f(x) == #[trigger] f(y) implies x == y by {
        lemma_cons(f(x), b, x);
        lemma_cons(f(y), b, y);
    }
    vstd::set_lib::lemma_map_size(a, prefixed(a, b), f);
    assert forall|p: Seq<bool>| #[trigger] prefixed(a, b).contains(p) <==> (p.len() > 0 && p[0] == b && a.contains(p.drop_first())) by {
        if p.len() > 0 && p[0] == b && a.contains(p.drop_first()) {
            lemma_cons(p, b, p.drop_first());
            assert(f(p.drop_first()) == p);
        }
        if prefixed(a, b).contains(p) {
            let x = choose|x: Seq<bool>| a.contains(x) && f(x) == p;
            lemma_cons(p, b, x);
        }
    }
}

/// The places of the nodes that satisfy `f`: finitely many, counted by
/// `count`, and exactly the places whose node satisfies `f`.
proof fn lemma_places_where<S>(t: Subtree<S>, f: spec_fn(Node<S>) -> bool)
    ensures
        t.places_where(f).finite(),
        forall|p: Seq<bool>| #[trigger] t.places_where(f).contains(p) <==> (t.sub(p) matches Some(x) && f(x.node())),
    decreases t,
{
    let here = if f(t.node()) { set![Seq::<bool>::empty()] } else { Set::<Seq<bool>>::empty() };
    match t {
        Subtree::Leaf(_) => {
            assert forall|p: Seq<bool>| #[trigger] t.places_where(f).contains(p) <==> (t.sub(p) matches Some(x) && f(x.node())) by {
                if p.len() == 0 {
                    assert(p =~= Seq::<bool>::empty());
                }
            }
        },
        Subtree::Branch(_, l, r) => {
            lemma_places_where(*l, f);
            lemma_places_where(*r, f);
            lemma_prefixed(l.places_where(f), false);
            lemma_prefixed(r.places_where(f), true);
            assert forall|p: Seq<bool>| #[trigger] t.places_where(f).contains(p) <==> (t.sub(p) matches Some(x) && f(x.node())) by {
                if p.len() == 0 {
                    assert(p =~= Seq::<bool>::empty());
                } else {
                    assert(p != Seq::<bool>::empty());
                    if p[0] {
                        assert(t.sub(p) == r.sub(p.drop_first()));
                    } else {
                        assert(t.sub(p) == l.sub(p.drop_first()));
                    }
                }
            }
        },
    }
}

/// The number of members of a subtree is the number of places that stand
/// for a member.
proof fn lemma_users_places<S>(t: Subtree<S>)
    ensures
        t.places_where(|n: Node<S>| n.user is Some).finite(),
        t.users() == t.places_where(|n: Node<S>| n.user is Some).len(),
    decreases t,
{
    let f = |n: Node<S>| n.user is Some;
    lemma_places_where(t, f);
    let here = if f(t.node()) { set![Seq::<bool>::empty()] } else { Set::<Seq<bool>>::empty() };
    match t {
        Subtree::Leaf(n) => {
            assert(here.len() == if n.user is Some { 1nat } else { 0nat });
        },
        Subtree::Branch(n, l, r) => {
            lemma_users_places(*l);
            lemma_users_places(*r);
            let a = prefixed(l.places_where(f), false);
            let b = prefixed(r.places_where(f), true);
            lemma_prefixed(l.places_where(f), false);
            lemma_prefixed(r.places_where(f), true);
            assert(a.disjoint(b)) by {
                assert forall|p: Seq<bool>| a.contains(p) implies !b.contains(p) by {}
            }
            assert(here.disjoint(a + b)) by {
                assert forall|p: Seq<bool>| here.contains(p) implies !(a + b).contains(p) by {
                    assert(p.len() == 0);
                }
            }
            vstd::set_lib::lemma_set_disjoint_lens(a, b);
            vstd::set_lib::lemma_set_disjoint_lens(here, a + b);
            assert(here + a + b == here + (a + b));
            assert(here.len() == if n.user is Some { 1nat } else { 0nat });
        },
    }
}

/// The leaves of `m`.
pub open spec fn leaves(m: Map<Seq<bool>, NodeView>) -> Set<Seq<bool>> {
    m.dom().filter(|p: Seq<bool>| is_leaf(m, p))
}

/// Splitting a leaf adds exactly one leaf: the leaf goes, its two new
/// children come.
pub proof fn lemma_split_adds_leaf(m: Map<Seq<bool>, NodeView>, s: Seq<bool>, nv: NodeView)
    requires
        is_key_tree(m),
        m.dom().finite(),
        is_leaf(m, s),
    ensures
        split_leaf(m, s, nv).dom().finite(),
        leaves(m).finite(),
        leaves(split_leaf(m, s, nv)).len() == leaves(m).len() + 1,
{
    let m2 = split_leaf(m, s, nv);
    let l = s.push(false);
    let r = s.push(true);
    assert(l != r) by {
        assert(l[s.len() as int] != r[s.len() as int]);
    }
    assert(m2.dom() =~= m.dom().insert(l).insert(r));
    let lv = leaves(m);
    assert(lv.finite()) by {
        vstd::set_lib::lemma_set_subset_finite(m.dom(), lv);
    }
    assert(!m.contains_key(r));
    assert(!m.contains_key(l.push(false))) by {
        assert(l.push(false).drop_last() =~= l);
        assert(l.push(false).len() > 0);
    }
    assert(!m.contains_key(r.push(false))) by {
        assert(r.push(false).drop_last() =~= r);
        assert(r.push(false).len() > 0);
    }
    assert(leaves(m2) =~= lv.remove(s).insert(l).insert(r)) by {
        assert forall|p: Seq<bool>| leaves(m2).contains(p) <==> lv.remove(s).insert(l).insert(r).contains(p) by {
            if p != l && p != r && p != s {
                assert(p.push(false) != l && p.push(false) != r) by {
                    if p.push(false) == l || p.push(false) == r {
                        assert(p =~= p.push(false).drop_last());
                        assert(s =~= l.drop_last());
                        assert(s =~= r.drop_last());
                    }
                }
            }
            if p == s {
                assert(m2.contains_key(l));
            }
            if p == l {
                assert(l.push(false) != l && l.push(false) != r) by {
                    assert(l.push(false).len() != l.len());
                }
            }
            if p == r {
                assert(r.push(false) != l && r.push(false) != r) by {
                    assert(r.push(false).len() != l.len());
                }
            }
        }
    }
    assert(!lv.remove(s).contains(l));
    assert(!lv.remove(s).insert(l).contains(r));
}

/// The leaves of `m` lie at most one level apart.
pub open spec fn balanced(m: Map<Seq<bool>, NodeView>) -> bool {
    forall|p: Seq<bool>, q: Seq<bool>| #[trigger] is_leaf(m, p) && #[trigger] is_leaf(m, q) ==> p.len() <= q.len() + 1
}

/// Splitting a shallowest leaf keeps the leaves of a tree at most one level
/// apart.
pub proof fn lemma_split_keeps_balance(m: Map<Seq<bool>, NodeView>, s: Seq<bool>, nv: NodeView)
    requires
        is_key_tree(m),
        is_leaf(m, s),
        forall|p: Seq<bool>| #[trigger] is_leaf(m, p) ==> s.len() <= p.len(),
        balanced(m),
    ensures
        balanced(split_leaf(m, s, nv)),
{
    let m2 = split_leaf(m, s, nv);
    let l = s.push(false);
    let r = s.push(true);
    assert(!m.contains_key(r));
    assert(l != r) by {
        assert(l[s.len() as int] != r[s.len() as int]);
    }
    assert forall|p: Seq<bool>| #[trigger] is_leaf(m2, p) implies p == l || p == r || (is_leaf(m, p) && p != s) by {
        if p != l && p != r {
            assert(p != s) by {
                if p == s {
                    assert(m2.contains_key(l));
                }
            }
            assert(m.contains_key(p));
            assert(p.push(false) != l && p.push(false) != r) by {
                if p.push(false) == l || p.push(false) == r {
                    assert(p =~= p.push(false).drop_last());
                    assert(s =~= l.drop_last());
                    assert(s =~= r.drop_last());
                }
            }
        }
    }
    assert forall|p: Seq<bool>, q: Seq<bool>| #[trigger] is_leaf(m2, p) && #[trigger] is_leaf(m2, q) implies p.len() <= q.len() + 1 by {
        if (p == l || p == r) && !(q == l || q == r) {
            assert(is_leaf(m, q) && is_leaf(m, s));
            assert(s.len() <= q.len());
        }
        if !(p == l || p == r) && (q == l || q == r) {
            assert(is_leaf(m, p) && is_leaf(m, s));
        }
        if !(p == l || p == r) && !(q == l || q == r) {
            assert(is_leaf(m, p) && is_leaf(m, q));
        }
    }
}

/// The key tree.
pub struct Tree<S> {
    root: Option<Subtree<S>>,
}

/// The nodes of a key tree, by path.
pub open spec fn tree_get<S>(root: Option<Subtree<S>>, p: Seq<bool>) -> Option<NodeView> {
    match root {
        Some(t) => t.get(p),
        None => None,
    }
}

impl<S> View for Tree<S> {
    type V = Map<Seq<bool>, NodeView>;

    closed spec fn view(&self) -> Map<Seq<bool>, NodeView> {
        Map::new(|p: Seq<bool>| tree_get(self.root, p) is Some, |p: Seq<bool>| tree_get(self.root, p).unwrap())
    }
}

/// `m` has the shape of a key tree: ids and depths match places, a node's
/// parent is present, a node has two children or none, an inner node stands
/// for no member, and nothing lies deeper than `MAX_DEPTH`.
pub open spec fn is_key_tree(m: Map<Seq<bool>, NodeView>) -> bool {
    &&& forall|p: Seq<bool>| #[trigger] m.contains_key(p) ==> m[p].id == id_of(p) && m[p].depth == p.len() && p.len() <= MAX_DEPTH
    &&& forall|p: Seq<bool>| #[trigger] m.contains_key(p) && p.len() > 0 ==> m.contains_key(p.drop_last())
    &&& forall|p: Seq<bool>|
        #![trigger m.contains_key(p.push(false))]
        #![trigger m.contains_key(p.push(true))]
        m.contains_key(p) ==> (m.contains_key(p.push(false)) <==> m.contains_key(p.push(true)))
    &&& forall|p: Seq<bool>| #[trigger] m.contains_key(p.push(false)) && m.contains_key(p) ==> m[p].user is None
}

/// `p` is a leaf of `m`.
pub open spec fn is_leaf(m: Map<Seq<bool>, NodeView>, p: Seq<bool>) -> bool {
    m.contains_key(p) && !m.contains_key(p.push(false))
}

impl<S> Tree<S> {
    /// The tree's internal structure is consistent.
    pub closed spec fn well_formed(&self) -> bool {
        match self.root {
            Some(t) => t.wf(seq![]),
            None => true,
        }
    }

    /// Number of members in the tree.
    pub closed spec fn spec_user_count(&self) -> nat {
        match self.root {
            Some(t) => t.users(),
            None => 0,
        }
    }

    /// The private channel of the member standing at `p`, if any.
    pub closed spec fn channel(&self, p: Seq<bool>) -> Option<S> {
        match self.root {
            Some(t) => t.chan(p),
            None => None,
        }
    }

    /// The leftmost of the shallowest leaves, where the tree is not empty.
    pub closed spec fn spec_shallowest(&self) -> Seq<bool> {
        match self.root {
            Some(t) => t.shallowest(),
            None => seq![],
        }
    }

    /// Adds `node` to the tree. An empty tree gets it as its root (id 1);
    /// otherwise the leftmost of the shallowest leaves is split: it becomes an
    /// inner node, its content moves to its new left child, and `node` becomes
    /// its new right child (whose id is twice the split leaf's, plus one).
    /// Returns the id of the split leaf (1 for an empty tree), or `None` (tree
    /// unchanged) when the shallowest leaf lies at `MAX_DEPTH`.
    pub fn add_node(&mut self, node: Node<S>) -> (res: Option<u64>)
        requires
            old(self).well_formed(),
        ensures
            final(self).well_formed(),
            !old(self)@.contains_key(seq![]) ==> res == Some(1u64) && final(self)@ == map![Seq::<bool>::empty() => NodeView {
                id: 1,
                key: node@.key,
                key_id: node@.key_id,
                user: node@.user,
                depth: 0,
            }],
            old(self)@.contains_key(seq![]) && old(self).spec_shallowest().len() >= MAX_DEPTH ==> res is None
                && final(self)@ == old(self)@,
            old(self)@.contains_key(seq![]) && old(self).spec_shallowest().len() < MAX_DEPTH ==> res == Some(
                id_of(old(self).spec_shallowest()) as u64,
            ) && final(self)@ == split_leaf(old(self)@, old(self).spec_shallowest(), node@),
            res is Some ==> final(self).spec_user_count() == old(self).spec_user_count() + (if node.user is Some { 1nat } else { 0nat }),
            res is None ==> final(self).spec_user_count() == old(self).spec_user_count(),
            !old(self)@.contains_key(seq![]) ==> forall|p: Seq<bool>| #[trigger] final(self).channel(p) == if p == Seq::<bool>::empty() {
                user_chan(node.user)
            } else {
                None
            },
            old(self)@.contains_key(seq![]) && old(self).spec_shallowest().len() < MAX_DEPTH ==> forall|p: Seq<bool>| #[trigger] final(self).channel(p)
                == split_chan(old(self).channel(old(self).spec_shallowest()), old(self).spec_shallowest(), user_chan(node.user), p, old(self).channel(p)),
            res is None ==> forall|p: Seq<bool>| #[trigger] final(self).channel(p) == old(self).channel(p),
            balanced(old(self)@) ==> balanced(final(self)@),
            !old(self)@.contains_key(seq![]) ==> leaves(final(self)@).len() == 1,
            old(self)@.contains_key(seq![]) && res is Some ==> leaves(final(self)@).len() == leaves(old(self)@).len() + 1,
    {
        match self.root.take() {
            None => {
                let mut node = node;
                node.id = 1;
                node.depth = 0;
                self.root = Some(Subtree::Leaf(node));
                proof {
                    let ghost m = map![Seq::<bool>::empty() => NodeView { id: 1, key: node@.key, key_id: node@.key_id, user: node@.user, depth: 0 }];
                    let t = Subtree::Leaf(node);
                    assert(t.get(seq![]) == Some(node@));
                    assert forall|p: Seq<bool>| #[trigger] self@.contains_key(p) == m.contains_key(p)
                        && (self@.contains_key(p) ==> self@[p] == m[p]) by {
                        if p.len() > 0 {
                            assert(p != Seq::<bool>::empty());
                            assert(t.get(p) is None);
                        } else {
                            assert(p =~= Seq::<bool>::empty());
                        }
                    }
                    assert(self@ =~= m);
                    assert forall|p: Seq<bool>, q: Seq<bool>| #[trigger] is_leaf(self@, p) && #[trigger] is_leaf(self@, q) implies p.len() <= q.len() + 1 by {
                        assert(p.len() == 0);
                    }
                    assert(leaves(self@) =~= set![Seq::<bool>::empty()]) by {
                        assert(!m.contains_key(Seq::<bool>::empty().push(false)));
                    }
                    assert forall|p: Seq<bool>| #[trigger] self.channel(p) == if p == Seq::<bool>::empty() {
                        user_chan(node.user)
                    } else {
                        None
                    } by {
                        if p.len() > 0 {
                            assert(p != Seq::<bool>::empty());
                            assert(t.sub(p) is None);
                        } else {
                            assert(p =~= Seq::<bool>::empty());
                        }
                    }
                }
                Some(1)
            },
            Some(t) => {
                let d = min_leaf_depth_of(&t, Ghost(Seq::empty()));
                proof {
                    lemma_min_leaf_depth(t, seq![]);
                }
                if d >= MAX_DEPTH {
                    self.root = Some(t);
                    return None;
                }
                let ghost m = old(self)@;
                let (t2, id) = split_at_shallowest(t, node, Ghost(Seq::empty()));
                self.root = Some(t2);
                proof {
                    let q = t.shallowest();
                    assert(seq![] + q.push(true) =~= q.push(true));
                    lemma_sub_props(t, q);
                    lemma_id_bound(q.push(true));
                    lemma_id_of_push(q, true);
                    assert(m.contains_key(q));
                    assert(self@ =~= split_leaf(m, q, node@));
                    lemma_tree_shape(old(self));
                    old(self).lemma_counts();
                    lemma_split_adds_leaf(m, q, node@);
                    if balanced(m) {
                        lemma_split_keeps_balance(m, q, node@);
                    }
                }
                Some(id / 2)
            },
        }
    }

    /// A tree has finitely many nodes, and its member count is the number of
    /// its nodes that stand for a member.
    pub proof fn lemma_counts(&self)
        ensures
            self@.dom().finite(),
            self.spec_user_count() == self@.dom().filter(|p: Seq<bool>| self@[p].user is Some).len(),
    {
        match self.root {
            None => {
                assert(self@.dom() =~= Set::<Seq<bool>>::empty());
                assert(self@.dom().filter(|p: Seq<bool>| self@[p].user is Some) =~= Set::<Seq<bool>>::empty());
            },
            Some(t) => {
                let all = |n: Node<S>| true;
                let mem = |n: Node<S>| n.user is Some;
                lemma_places_where(t, all);
                lemma_places_where(t, mem);
                lemma_users_places(t);
                assert(self@.dom() =~= t.places_where(all));
                assert(self@.dom().filter(|p: Seq<bool>| self@[p].user is Some) =~= t.places_where(mem));
            },
        }
    }

    /// Appends the lines of the subtree of the node with id `id` to `out`,
    /// depth first, left before right: the node indented by `indent` steps of
    /// four spaces, each node one step more than its parent. Appends nothing
    /// when there is no such node.
    pub fn format_node(&self, id: u64, indent: usize, out: &mut String)
        requires
            self.well_formed(),
            id >= 1,
            4 * (indent + MAX_DEPTH) <= usize::MAX,
        ensures
            final(out)@ == old(out)@ + render_at(self@, path_of_id(id as nat), indent as nat),
    {
        let dirs = dirs_of_id(id);
        assert(dirs@.subrange(0, dirs@.len() as int) =~= dirs@);
        let ghost p = path_of_id(id as nat);
        match &self.root {
            None => {
                assert(!self@.contains_key(p));
                assert(out@ =~= old(out)@ + render_at(self@, p, indent as nat));
            },
            Some(t) => match lookup(t, &dirs, 0) {
                Some(s) => {
                    proof {
                        lemma_sub_props(*t, p);
                    }
                    render_into(s, Ghost(*t), Ghost(self@), Ghost(p), indent, out);
                },
                None => {
                    assert(t.get(p) is None);
                    assert(!self@.contains_key(p));
                    assert(out@ =~= old(out)@ + render_at(self@, p, indent as nat));
                },
            },
        }
    }

    /// The text form of the tree: a header, then one line per node, indented
    /// by depth, depth first, left before right.
    pub fn render(&self) -> (res: String)
        requires
            self.well_formed(),
        ensures
            res@ == render_tree(self@),
    {
        match &self.root {
            None => String::from_str("Empty Tree\n"),
            Some(t) => {
                let mut out = String::from_str("Binary Tree:\n");
                proof {
                    assert(path_of_id(1) =~= Seq::<bool>::empty());
                    assert(self@.contains_key(seq![])) by {
                        assert(t.sub(seq![]) == Some(*t));
                    }
                }
                self.format_node(1, 0, &mut out);
                out
            },
        }
    }

    /// Number of members in the tree.
    pub fn get_user_count(&self) -> (n: u64)
        requires
            self.well_formed(),
        ensures
            n == self.spec_user_count(),
    {
        match &self.root {
            Some(t) => count_users(t, Ghost(Seq::empty())),
            None => 0,
        }
    }

    /// Depth of the leftmost of the shallowest leaves; `None` for an empty
    /// tree.
    pub fn shallowest_depth(&self) -> (res: Option<u32>)
        requires
            self.well_formed(),
        ensures
            match res {
                Some(d) => self@.contains_key(seq![]) && d == self.spec_shallowest().len(),
                None => !self@.contains_key(seq![]),
            },
    {
        match &self.root {
            Some(t) => {
                proof {
                    lemma_min_leaf_depth(*t, seq![]);
                }
                Some(min_leaf_depth_of(t, Ghost(Seq::empty())))
            },
            None => None,
        }
    }

    /// The root node, if any.
    pub fn get_root(&self) -> (res: Option<&Node<S>>)
        ensures
            match res {
                Some(n) => self@.contains_key(seq![]) && n@ == self@[seq![]],
                None => !self@.contains_key(seq![]),
            },
    {
        match &self.root {
            Some(t) => match t {
                Subtree::Leaf(n) => Some(n),
                Subtree::Branch(n, _, _) => Some(n),
            },
            None => None,
        }
    }

    /// The node with id `id`, if any.
    pub fn get_node_by_id(&self, id: u64) -> (res: Option<&Node<S>>)
        ensures
            match res {
                Some(n) => id >= 1 && self@.contains_key(path_of_id(id as nat)) && n@ == self@[path_of_id(id as nat)]
                    && user_chan(n.user) == self.channel(path_of_id(id as nat)),
                None => id == 0 || !self@.contains_key(path_of_id(id as nat)),
            },
    {
        if id == 0 {
            return None;
        }
        let dirs = dirs_of_id(id);
        assert(dirs@.subrange(0, dirs@.len() as int) =~= dirs@);
        match &self.root {
            Some(t) => match lookup(t, &dirs, 0) {
                Some(s) => match s {
                    Subtree::Leaf(n) => Some(n),
                    Subtree::Branch(n, _, _) => Some(n),
                },
                None => None,
            },
            None => None,
        }
    }

    /// Gives the node with id `id` a new key and/or key id; returns whether
    /// there is such a node.
    pub fn update_node(&mut self, id: u64, key: Option<Vec<u8>>, key_id: Option<u64>) -> (res: bool)
        requires
            old(self).well_formed(),
        ensures
            final(self).well_formed(),
            final(self).spec_user_count() == old(self).spec_user_count(),
            res == (id >= 1 && old(self)@.contains_key(path_of_id(id as nat))),
            res ==> final(self)@ == old(self)@.insert(
                path_of_id(id as nat),
                rekeyed(old(self)@[path_of_id(id as nat)], key_view(key), key_id),
            ),
            !res ==> final(self)@ == old(self)@,
            forall|p: Seq<bool>| #[trigger] final(self).channel(p) == old(self).channel(p),
    {
        if id == 0 {
            return false;
        }
        let dirs = dirs_of_id(id);
        assert(dirs@.subrange(0, dirs@.len() as int) =~= dirs@);
        let ghost m = old(self)@;
        let ghost q = path_of_id(id as nat);
        match self.root.take() {
            Some(t) => {
                let found = match lookup(&t, &dirs, 0) {
                    Some(_) => true,
                    None => false,
                };
                let t2 = update_at(t, &dirs, 0, key, key_id, Ghost(Seq::empty()));
                self.root = Some(t2);
                proof {
                    if found {
                        assert(self@ =~= m.insert(q, rekeyed(m[q], key_view(key), key_id)));
                    } else {
                        assert(self@ =~= m);
                    }
                }
                found
            },
            None => {
                assert(self@ =~= m);
                false
            },
        }
    }

    /// Removes the leaf with id `node_id`: its sibling subtree moves up into
    /// their parent's place (each moved node keeps its key and key id and
    /// takes the id and depth of its new place). Returns the id of that place,
    /// the node whose keys are now to be renewed; 0 when the removed leaf was
    /// the root (the tree is then empty) or when there is no leaf with that id
    /// (the tree is then unchanged).
    pub fn merge_nodes(&mut self, node_id: u64) -> (res: u64)
        requires
            old(self).well_formed(),
        ensures
            final(self).well_formed(),
            !(node_id >= 1 && is_leaf(old(self)@, path_of_id(node_id as nat))) ==> res == 0 && final(self)@ == old(self)@,
            node_id == 1 && is_leaf(old(self)@, seq![]) ==> res == 0 && final(self)@ == Map::<Seq<bool>, NodeView>::empty(),
            node_id > 1 && is_leaf(old(self)@, path_of_id(node_id as nat)) ==> res == node_id / 2
                && res == id_of(path_of_id(node_id as nat).drop_last())
                && final(self)@ == remove_leaf(old(self)@, path_of_id(node_id as nat)),
            node_id >= 1 && is_leaf(old(self)@, path_of_id(node_id as nat)) ==> final(self).spec_user_count() + (if old(self)@[path_of_id(node_id as nat)].user is Some { 1nat } else { 0nat }) == old(self).spec_user_count(),
            !(node_id >= 1 && is_leaf(old(self)@, path_of_id(node_id as nat))) ==> final(self).spec_user_count() == old(self).spec_user_count(),
            !(node_id >= 1 && is_leaf(old(self)@, path_of_id(node_id as nat))) ==> forall|p: Seq<bool>| #[trigger] final(self).channel(p) == old(self).channel(p),
            node_id > 1 && is_leaf(old(self)@, path_of_id(node_id as nat)) ==> forall|p: Seq<bool>| #[trigger] final(self).channel(p)
                == old(self).channel(origin(path_of_id(node_id as nat), p)),
    {
        let ghost m = old(self)@;
        if node_id == 0 {
            return 0;
        }
        let dirs = dirs_of_id(node_id);
        let ghost q = path_of_id(node_id as nat);
        assert(dirs@.subrange(0, dirs@.len() as int) =~= dirs@);
        proof {
            lemma_id_of_path_of(node_id as nat);
        }
        match self.root.take() {
            None => {
                assert(self@ =~= m);
                0
            },
            Some(t) => {
                proof {
                    lemma_sub_props(t, q);
                }
                if dirs.len() == 0 {
                    assert(q =~= seq![]);
                    match t {
                        Subtree::Leaf(n) => {
                            assert(self@ =~= Map::<Seq<bool>, NodeView>::empty());
                            0
                        },
                        Subtree::Branch(n, l, r) => {
                            self.root = Some(Subtree::Branch(n, l, r));
                            assert(self@ =~= m);
                            0
                        },
                    }
                } else {
                    let (t2, done) = remove_at(t, &dirs, 0, Ghost(Seq::empty()));
                    self.root = Some(t2);
                    if done {
                        proof {
                            assert(node_id > 1);
                            assert(q == path_of_id((node_id / 2) as nat).push(node_id % 2 == 1));
                            assert(q.drop_last() =~= path_of_id((node_id / 2) as nat));
                            lemma_id_of_path_of((node_id / 2) as nat);
                            let get = |p: Seq<bool>| if m.contains_key(p) { Some(m[p]) } else { None };
                            assert forall|p: Seq<bool>| #[trigger] self@.contains_key(p) == remove_leaf(m, q).contains_key(p)
                                && (self@.contains_key(p) ==> self@[p] == remove_leaf(m, q)[p]) by {
                                assert(t2.get(p) == lift_get(|x: Seq<bool>| t.get(x), q, Seq::empty(), p));
                                let parent = q.drop_last();
                                let x = parent.push(!q.last()) + p.subrange(parent.len() as int, p.len() as int);
                                assert(get(x) == t.get(x));
                                assert(get(p) == t.get(p));
                            }
                            assert(self@ =~= remove_leaf(m, q));
                            assert forall|p: Seq<bool>| #[trigger] self.channel(p) == old(self).channel(origin(q, p)) by {
                                assert(t2.chan(p) == lift_chan(t, q, p));
                            }
                        }
                        node_id / 2
                    } else {
                        assert(self@ =~= m);
                        0
                    }
                }
            },
        }
    }

    /// The node that stands for the member `user_id`, by id.
    pub fn get_user_node(&self, user_id: &String) -> (res: Option<u64>)
        requires
            self.well_formed(),
        ensures
            match res {
                Some(id) => id >= 1 && self@.contains_key(path_of_id(id as nat)) && self@[path_of_id(id as nat)].user == Some(user_id@),
                None => forall|p: Seq<bool>| #[trigger] self@.contains_key(p) ==> self@[p].user != Some(user_id@),
            },
    {
        match &self.root {
            None => None,
            Some(t) => {
                let res = find_user(t, user_id);
                proof {
                    match res {
                        Some(id) => {
                            let p = choose|p: Seq<bool>| #[trigger] t.get(p) matches Some(v) && v.user == Some(user_id@) && v.id == id;
                            lemma_sub_props(*t, p);
                            lemma_path_of_id_of(p);
                        },
                        None => {},
                    }
                }
                res
            },
        }
    }

    /// The left child of the node with id `id`.
    pub fn get_left_child(&self, id: u64) -> (res: Option<&Node<S>>)
        requires
            self.well_formed(),
        ensures
            match res {
                Some(n) => id >= 1 && self@.contains_key(path_of_id(id as nat).push(false)) && n@ == self@[path_of_id(id as nat).push(false)],
                None => id == 0 || !self@.contains_key(path_of_id(id as nat).push(false)),
            },
    {
        if id == 0 {
            return None;
        }
        proof {
            lemma_path_of_child(id as nat, false);
        }
        if id >= 0x8000_0000_0000_0000 {
            proof {
                lemma_big_id_deep(id as nat);
                self.lemma_deep_absent(path_of_id(id as nat).push(false));
            }
            return None;
        }
        self.get_node_by_id(2 * id)
    }

    /// The right child of the node with id `id`.
    pub fn get_right_child(&self, id: u64) -> (res: Option<&Node<S>>)
        requires
            self.well_formed(),
        ensures
            match res {
                Some(n) => id >= 1 && self@.contains_key(path_of_id(id as nat).push(true)) && n@ == self@[path_of_id(id as nat).push(true)],
                None => id == 0 || !self@.contains_key(path_of_id(id as nat).push(true)),
            },
    {
        if id == 0 {
            return None;
        }
        proof {
            lemma_path_of_child(id as nat, true);
        }
        if id >= 0x8000_0000_0000_0000 {
            proof {
                lemma_big_id_deep(id as nat);
                self.lemma_deep_absent(path_of_id(id as nat).push(true));
            }
            return None;
        }
        self.get_node_by_id(2 * id + 1)
    }

    /// The parent of the node with id `id`.
    pub fn get_parent(&self, id: u64) -> (res: Option<&Node<S>>)
        ensures
            match res {
                Some(n) => id >= 2 && self@.contains_key(path_of_id(id as nat).drop_last()) && n@ == self@[path_of_id(id as nat).drop_last()],
                None => id <= 1 || !self@.contains_key(path_of_id(id as nat).drop_last()),
            },
    {
        if id <= 1 {
            return None;
        }
        assert(path_of_id(id as nat).drop_last() =~= path_of_id((id / 2) as nat));
        self.get_node_by_id(id / 2)
    }

    proof fn lemma_deep_absent(&self, p: Seq<bool>)
        requires
            self.well_formed(),
            p.len() > MAX_DEPTH,
        ensures
            !self@.contains_key(p),
    {
        match self.root {
            Some(t) => lemma_sub_props(t, p),
            None => {},
        }
    }

    /// An empty tree.
    pub fn new() -> (t: Self)
        ensures
            t.well_formed(),
            t.spec_user_count() == 0,
            t@ == Map::<Seq<bool>, NodeView>::empty(),
    {
        let t = Tree { root: None };
        assert(t@ =~= Map::<Seq<bool>, NodeView>::empty());
        t
    }
}


proof fn lemma_sub_props<S>(t: Subtree<S>, p: Seq<bool>)
    requires
        t.wf(seq![]),
    ensures
        t.sub(p) matches Some(s) ==> s.node().id == id_of(p) && s.node().depth == p.len() && p.len() <= MAX_DEPTH
            && (s is Branch ==> s.node().user is None),
        t.sub(p) is Some && p.len() > 0 ==> t.sub(p.drop_last()) is Some,
        t.sub(p.push(false)) is Some <==> (t.sub(p) matches Some(s) && s is Branch),
        t.sub(p.push(true)) is Some <==> (t.sub(p) matches Some(s) && s is Branch),
{
    if t.sub(p) is Some {
        lemma_sub_wf(t, seq![], p);
        assert(seq![] + p =~= p);
    }
    lemma_sub_push(t, p, false);
    lemma_sub_push(t, p, true);
    if p.len() > 0 {
        assert(p.drop_last().push(p.last()) =~= p);
        lemma_sub_push(t, p.drop_last(), p.last());
    }
}

proof fn lemma_leaf_depth<S>(t: Subtree<S>, p: Seq<bool>)
    requires
        t.sub(p) matches Some(s) && s is Leaf,
    ensures
        p.len() >= t.min_leaf_depth(),
    decreases p.len(),
{
    if p.len() > 0 {
        match t {
            Subtree::Leaf(_) => {},
            Subtree::Branch(_, l, r) => {
                if p[0] {
                    lemma_leaf_depth(*r, p.drop_first());
                } else {
                    lemma_leaf_depth(*l, p.drop_first());
                }
            },
        }
    }
}

/// A well-formed tree has the shape of a key tree, and its shallowest leaf is
/// a leaf no deeper than any other.
pub proof fn lemma_tree_shape<S>(t: &Tree<S>)
    requires
        t.well_formed(),
    ensures
        is_key_tree(t@),
        !t@.contains_key(seq![]) ==> t@ == Map::<Seq<bool>, NodeView>::empty(),
        t@.contains_key(seq![]) ==> is_leaf(t@, t.spec_shallowest()),
        forall|p: Seq<bool>| #[trigger] is_leaf(t@, p) ==> t.spec_shallowest().len() <= p.len(),
{
    match t.root {
        None => {
            assert(t@ =~= Map::<Seq<bool>, NodeView>::empty());
        },
        Some(root) => {
            let m = t@;
            assert forall|p: Seq<bool>| #[trigger] m.contains_key(p) implies m[p].id == id_of(p) && m[p].depth == p.len()
                && p.len() <= MAX_DEPTH by {
                lemma_sub_props(root, p);
            }
            assert forall|p: Seq<bool>| #[trigger] m.contains_key(p) && p.len() > 0 implies m.contains_key(p.drop_last()) by {
                lemma_sub_props(root, p);
            }
            assert forall|p: Seq<bool>| m.contains_key(p) implies (#[trigger] m.contains_key(p.push(false))
                <==> m.contains_key(p.push(true))) by {
                lemma_sub_props(root, p);
            }
            assert forall|p: Seq<bool>| #[trigger] m.contains_key(p.push(false)) && m.contains_key(p) implies m[p].user is None by {
                lemma_sub_props(root, p);
            }
            lemma_min_leaf_depth(root, seq![]);
            lemma_sub_props(root, root.shallowest());
            assert forall|p: Seq<bool>| #[trigger] is_leaf(m, p) implies t.spec_shallowest().len() <= p.len() by {
                lemma_sub_props(root, p);
                lemma_leaf_depth(root, p);
            }
        },
    }
}

} // verus!
