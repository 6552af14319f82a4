//! The key server: keeps the key tree, and on every change of membership
//! renews the keys that the change exposes and says what to send to whom.
//!
//! Sending is left to the caller: every operation returns the messages in the
//! order in which they are to go out, group messages for the multicast tree
//! and unicast messages for one member's private channel.
use crate::algorithm::{aes_256_gcm_seal, is_wrapping, RandomSource, spec_iv_size, spec_key_len, Algorithm, MAX_CRYPTO_LEN};
use crate::bytes::{be_bytes, u64_from_be};
use crate::node::{Node, NodeView};
use crate::packet::{encode, KeyUpdate, KeyUpdatePacket};
use crate::text::{decimal, decimal_string};
use crate::tree::{user_chan, 
    render_tree, has_prefix, lemma_remove_leaf_get, origin, relabeled, remove_leaf, id_of, is_key_tree, is_leaf, lemma_path_of_id_of, lemma_tree_shape, path_of_id, split_leaf, Tree, MAX_DEPTH,
};
use crate::user::User;
use crate::Error;
use vstd::prelude::*;
use vstd::string::*;

verus! {

/// A message that the key server hands to the network.
pub enum Outbound {
    /// A wrapped key update for the whole multicast group.
    Group(Vec<u8>),
    /// A key update in clear for one member, over its private channel.
    Unicast(String, Vec<u8>),
}

/// Fresh random material for one renewal of the keys along a path: a new key
/// id for the parent of the node where the path starts, one new key per node
/// of the path (from the bottom up), and two IVs per node of the path (for its
/// left and right child).
pub struct FreshKeys {
    pub parent_key_id: u64,
    pub keys: Vec<Vec<u8>>,
    pub ivs: Vec<Vec<u8>>,
}

/// A message as planned: to the holders of the key of the node at `child`,
/// or to a member.
pub enum Planned {
    GroupTo { child: Seq<bool>, update: KeyUpdate, iv: Seq<u8> },
    UnicastTo { user: Seq<char>, update: KeyUpdate },
}

pub open spec fn seqs_view(v: Seq<Vec<u8>>) -> Seq<Seq<u8>> {
    v.map_values(|x: Vec<u8>| x@)
}

/// The `k`-th ancestor of the node at `t` (the node itself for 0).
pub open spec fn ancestor(t: Seq<bool>, k: nat) -> Seq<bool> {
    t.subrange(0, t.len() - k)
}

/// `p` is one of the `k` lowest nodes of the path from `t` to the root.
pub open spec fn on_path_below(t: Seq<bool>, p: Seq<bool>, k: nat) -> bool {
    &&& p.len() <= t.len()
    &&& t.len() - p.len() < k
    &&& p == t.subrange(0, p.len() as int)
}

/// `m` with the keys of the `k` lowest nodes of the path from `t` to the root
/// replaced by `keys` (from the bottom up).
pub open spec fn rekey_path(m: Map<Seq<bool>, NodeView>, t: Seq<bool>, keys: Seq<Seq<u8>>, k: nat) -> Map<Seq<bool>, NodeView> {
    Map::new(
        |p: Seq<bool>| m.contains_key(p),
        |p: Seq<bool>| if on_path_below(t, p, k) {
            NodeView { id: m[p].id, key: keys[t.len() - p.len()], key_id: m[p].key_id, user: m[p].user, depth: m[p].depth }
        } else {
            m[p]
        },
    )
}

/// `m` with a new key id for the parent of the node at `t`, if it has one.
pub open spec fn with_parent_key_id(m: Map<Seq<bool>, NodeView>, t: Seq<bool>, key_id: u64) -> Map<Seq<bool>, NodeView> {
    if t.len() > 0 {
        let q = t.drop_last();
        m.insert(q, NodeView { id: m[q].id, key: m[q].key, key_id: key_id, user: m[q].user, depth: m[q].depth })
    } else {
        m
    }
}

/// The tree `m` once the path from `t` to the root is renewed with `fresh`.
pub open spec fn renewed(m: Map<Seq<bool>, NodeView>, t: Seq<bool>, parent_key_id: u64, keys: Seq<Seq<u8>>) -> Map<Seq<bool>, NodeView> {
    rekey_path(with_parent_key_id(m, t, parent_key_id), t, keys, t.len() + 1)
}

/// The update announcing the key of the node at `p`.
pub open spec fn node_update(m: Map<Seq<bool>, NodeView>, p: Seq<bool>) -> KeyUpdate {
    KeyUpdate {
        new_key: m[p].key,
        new_key_id: m[p].key_id,
        is_session_key: m[p].key_id == m[seq![]].key_id,
        delete_new_key: false,
    }
}

/// The group messages announcing the key of the `j`-th node of the path from
/// `t`: one for each of its children, under that child's key.
pub open spec fn level_plan(m: Map<Seq<bool>, NodeView>, t: Seq<bool>, ivs: Seq<Seq<u8>>, j: nat) -> Seq<Planned> {
    let p = ancestor(t, j);
    if m.contains_key(p.push(false)) {
        seq![
            Planned::GroupTo { child: p.push(false), update: node_update(m, p), iv: ivs[2 * j as int] },
            Planned::GroupTo { child: p.push(true), update: node_update(m, p), iv: ivs[2 * j as int + 1] },
        ]
    } else {
        seq![]
    }
}

/// The group messages for the `k` lowest nodes of the path from `t`, from
/// the bottom up.
pub open spec fn group_plan(m: Map<Seq<bool>, NodeView>, t: Seq<bool>, ivs: Seq<Seq<u8>>, k: nat) -> Seq<Planned>
    decreases k,
{
    if k == 0 {
        seq![]
    } else {
        group_plan(m, t, ivs, (k - 1) as nat) + level_plan(m, t, ivs, (k - 1) as nat)
    }
}

/// The unicast messages giving `user` the keys of the `k` lowest nodes of the
/// path from `t`, from the bottom up.
pub open spec fn unicast_plan(m: Map<Seq<bool>, NodeView>, t: Seq<bool>, user: Seq<char>, k: nat) -> Seq<Planned>
    decreases k,
{
    if k == 0 {
        seq![]
    } else {
        unicast_plan(m, t, user, (k - 1) as nat).push(Planned::UnicastTo { user: user, update: node_update(m, ancestor(t, (k - 1) as nat)) })
    }
}

/// All messages of a renewal of the path from `t` in the renewed tree `m`:
/// the group messages, then, when the node at `t` stands for a member, the
/// whole path in clear to that member.
pub open spec fn renewal_plan(m: Map<Seq<bool>, NodeView>, t: Seq<bool>, ivs: Seq<Seq<u8>>) -> Seq<Planned> {
    group_plan(m, t, ivs, t.len() + 1) + match m[t].user {
        Some(u) => unicast_plan(m, t, u, t.len() + 1),
        None => seq![],
    }
}

/// `o` is the message planned as `pl`, keys being those of `m`.
pub open spec fn realizes(alg: Algorithm, m: Map<Seq<bool>, NodeView>, o: Outbound, pl: Planned) -> bool {
    match pl {
        Planned::GroupTo { child, update, iv } => match o {
            Outbound::Group(w) => is_wrapping(alg, w@, encode(update), m[child].key, m[child].key_id)
                && w@.subrange(8, 8 + spec_iv_size(alg) as int) == iv,
            Outbound::Unicast(_, _) => false,
        },
        Planned::UnicastTo { user, update } => match o {
            Outbound::Unicast(u, b) => u@ == user && b@ == encode(update),
            Outbound::Group(_) => false,
        },
    }
}

/// `out` are the messages planned as `plan`.
pub open spec fn realizes_all(alg: Algorithm, m: Map<Seq<bool>, NodeView>, out: Seq<Outbound>, plan: Seq<Planned>) -> bool {
    &&& out.len() == plan.len()
    &&& forall|i: int| 0 <= i < out.len() ==> realizes(alg, m, #[trigger] out[i], plan[i])
}

/// The cipher accepts every group message of `plan`: sealing the update
/// under the receiving child's key, with the planned IV and the child's key id
/// as additional data, gives a result.
pub open spec fn seals_ok(m: Map<Seq<bool>, NodeView>, plan: Seq<Planned>) -> bool {
    forall|i: int| 0 <= i < plan.len() ==> seal_ok(m, #[trigger] plan[i])
}

/// The cipher accepts the planned message `pl`, where it is a group message.
pub open spec fn seal_ok(m: Map<Seq<bool>, NodeView>, pl: Planned) -> bool {
    match pl {
        Planned::GroupTo { child, update, iv } => aes_256_gcm_seal(m[child].key, iv, be_bytes(m[child].key_id), encode(update)) is Some,
        Planned::UnicastTo { .. } => true,
    }
}

/// Messages that are planned ones were all accepted by the cipher.
proof fn lemma_realized_seals(alg: Algorithm, m: Map<Seq<bool>, NodeView>, out: Seq<Outbound>, plan: Seq<Planned>)
    requires
        realizes_all(alg, m, out, plan),
    ensures
        seals_ok(m, plan),
{
    assert forall|i: int| 0 <= i < plan.len() implies seal_ok(m, #[trigger] plan[i]) by {
        assert(realizes(alg, m, out[i], plan[i]));
    }
}

/// Invariant of the key server's tree: every key has the algorithm's length,
/// every leaf stands for a member, and no member appears twice.
pub open spec fn lkh_inv(m: Map<Seq<bool>, NodeView>, alg: Algorithm) -> bool {
    &&& is_key_tree(m)
    &&& forall|p: Seq<bool>| #[trigger] m.contains_key(p) ==> m[p].key.len() == spec_key_len(alg)
    &&& forall|p: Seq<bool>| #[trigger] is_leaf(m, p) ==> m[p].user is Some
    &&& forall|p1: Seq<bool>, p2: Seq<bool>|
        #![trigger m[p1], m[p2]]
        m.contains_key(p1) && m.contains_key(p2) && m[p1].user is Some && m[p1].user == m[p2].user ==> p1 == p2
}

/// `fresh` holds enough material of the right lengths for a path of `len`
/// nodes.
pub open spec fn fresh_fits(fresh: &FreshKeys, len: nat, alg: Algorithm) -> bool {
    &&& fresh.keys@.len() >= len
    &&& fresh.ivs@.len() >= 2 * len
    &&& forall|i: int| 0 <= i < fresh.keys@.len() ==> (#[trigger] fresh.keys@[i])@.len() == spec_key_len(alg)
    &&& forall|i: int| 0 <= i < fresh.ivs@.len() ==> (#[trigger] fresh.ivs@[i])@.len() == spec_iv_size(alg)
}


/// The group messages announcing the key of the node at `p` to its children,
/// with `session_key_id` naming the session key.
pub open spec fn children_plan(m: Map<Seq<bool>, NodeView>, p: Seq<bool>, session_key_id: u64, iv_left: Seq<u8>, iv_right: Seq<u8>) -> Seq<Planned> {
    let update = KeyUpdate {
        new_key: m[p].key,
        new_key_id: m[p].key_id,
        is_session_key: m[p].key_id == session_key_id,
        delete_new_key: false,
    };
    if m.contains_key(p.push(false)) {
        seq![
            Planned::GroupTo { child: p.push(false), update: update, iv: iv_left },
            Planned::GroupTo { child: p.push(true), update: update, iv: iv_right },
        ]
    } else {
        seq![]
    }
}

/// `o` carries `update` in clear to `user`.
pub open spec fn is_unicast(o: Outbound, user: Seq<char>, update: KeyUpdate) -> bool {
    match o {
        Outbound::Unicast(u, b) => u@ == user && b@ == encode(update),
        Outbound::Group(_) => false,
    }
}

/// The update announcing the key `e.1` with id `e.0`.
pub open spec fn path_update(e: (u64, Vec<u8>), session_key_id: u64) -> KeyUpdate {
    KeyUpdate { new_key: e.1@, new_key_id: e.0, is_session_key: e.0 == session_key_id, delete_new_key: false }
}

/// Some node of `m` stands for the member `user`.
pub open spec fn has_member(m: Map<Seq<bool>, NodeView>, user: Seq<char>) -> bool {
    exists|p: Seq<bool>| #[trigger] m.contains_key(p) && m[p].user == Some(user)
}

/// The tree `m` (whose leftmost shallowest leaf is at `s`) once `nv` is
/// placed in it: as the root of an empty tree, else by splitting that leaf.
pub open spec fn with_member(m: Map<Seq<bool>, NodeView>, s: Seq<bool>, nv: NodeView) -> Map<Seq<bool>, NodeView> {
    if m.contains_key(seq![]) {
        split_leaf(m, s, nv)
    } else {
        map![Seq::<bool>::empty() => NodeView { id: 1, key: nv.key, key_id: nv.key_id, user: nv.user, depth: 0 }]
    }
}

/// Where a new member is placed in `m` (whose leftmost shallowest leaf is at
/// `s`).
pub open spec fn new_leaf_path(m: Map<Seq<bool>, NodeView>, s: Seq<bool>) -> Seq<bool> {
    if m.contains_key(seq![]) {
        s.push(true)
    } else {
        seq![]
    }
}

/// `m1` and `m2` have the same nodes, standing for the same members.
pub open spec fn same_members(m1: Map<Seq<bool>, NodeView>, m2: Map<Seq<bool>, NodeView>) -> bool {
    &&& m1.dom() == m2.dom()
    &&& forall|p: Seq<bool>| #[trigger] m1.contains_key(p) ==> m1[p].user == m2[p].user
}

/// The place of the member `user` in `m`, where it has one.
pub open spec fn member_path(m: Map<Seq<bool>, NodeView>, user: Seq<char>) -> Seq<bool> {
    choose|p: Seq<bool>| #[trigger] m.contains_key(p) && m[p].user == Some(user)
}

/// In a tree of the key server, the place of a member is the one node that
/// stands for it.
proof fn lemma_member_path_unique(m: Map<Seq<bool>, NodeView>, alg: Algorithm, p: Seq<bool>, user: Seq<char>)
    requires
        lkh_inv(m, alg),
        m.contains_key(p),
        m[p].user == Some(user),
    ensures
        member_path(m, user) == p,
{
    let q = member_path(m, user);
    assert(m.contains_key(q) && m[q].user == Some(user));
}

/// `lkh_inv` survives a change of key or key id.
proof fn lemma_inv_rekeyed(m: Map<Seq<bool>, NodeView>, p: Seq<bool>, v: NodeView, alg: Algorithm)
    requires
        lkh_inv(m, alg),
        m.contains_key(p),
        v.id == m[p].id,
        v.depth == m[p].depth,
        v.user == m[p].user,
        v.key.len() == spec_key_len(alg),
    ensures
        lkh_inv(m.insert(p, v), alg),
{
    let m2 = m.insert(p, v);
    assert(m2.dom() =~= m.dom());
    assert forall|q: Seq<bool>| #[trigger] is_leaf(m2, q) implies m2[q].user is Some by {
        assert(is_leaf(m, q));
    }
    assert forall|p1: Seq<bool>, p2: Seq<bool>|
        #![trigger m2[p1], m2[p2]]
        m2.contains_key(p1) && m2.contains_key(p2) && m2[p1].user is Some && m2[p1].user == m2[p2].user implies p1 == p2 by {
        assert(m[p1].user == m2[p1].user);
        assert(m[p2].user == m2[p2].user);
    }
}

/// The `k`-th ancestor of `t`, for `k <= t.len()`.
pub(crate) proof fn lemma_ancestor(t: Seq<bool>, k: nat)
    requires
        k <= t.len(),
    ensures
        ancestor(t, k).len() == t.len() - k,
        on_path_below(t, ancestor(t, k), k + 1),
        !on_path_below(t, ancestor(t, k), k),
        k < t.len() ==> ancestor(t, k).drop_last() == ancestor(t, k + 1),
        k == t.len() ==> ancestor(t, k) == Seq::<bool>::empty(),
{
    if k < t.len() {
        assert(ancestor(t, k).drop_last() =~= ancestor(t, k + 1));
    }
    if k == t.len() {
        assert(ancestor(t, k) =~= Seq::<bool>::empty());
    }
    assert(ancestor(t, k) =~= t.subrange(0, ancestor(t, k).len() as int));
}

/// The prefixes of a node of a key tree are nodes of it.
pub(crate) proof fn lemma_prefix_in_tree(m: Map<Seq<bool>, NodeView>, t: Seq<bool>, a: Seq<bool>)
    requires
        is_key_tree(m),
        m.contains_key(t),
        a.len() <= t.len(),
        a == t.subrange(0, a.len() as int),
    ensures
        m.contains_key(a),
    decreases t.len() - a.len(),
{
    if a.len() < t.len() {
        let b = t.subrange(0, a.len() as int + 1);
        assert(b.drop_last() =~= a);
        assert(b =~= t.subrange(0, b.len() as int));
        lemma_prefix_in_tree(m, t, b);
    } else {
        assert(a =~= t);
    }
}

/// The planned unicast messages, one by one.
pub(crate) proof fn lemma_unicast_plan(m: Map<Seq<bool>, NodeView>, t: Seq<bool>, u: Seq<char>, k: nat)
    ensures
        unicast_plan(m, t, u, k).len() == k,
        forall|j: int| 0 <= j < k ==> #[trigger] unicast_plan(m, t, u, k)[j] == (Planned::UnicastTo { user: u, update: node_update(m, ancestor(t, j as nat)) }),
    decreases k,
{
    if k > 0 {
        lemma_unicast_plan(m, t, u, (k - 1) as nat);
    }
}

/// Renewing one more node of the path.
proof fn lemma_rekey_path_step(m: Map<Seq<bool>, NodeView>, t: Seq<bool>, keys: Seq<Seq<u8>>, k: nat)
    requires
        k <= t.len(),
        m.contains_key(ancestor(t, k)),
    ensures
        rekey_path(m, t, keys, k + 1) == rekey_path(m, t, keys, k).insert(
            ancestor(t, k),
            (NodeView {
                id: m[ancestor(t, k)].id,
                key: keys[k as int],
                key_id: m[ancestor(t, k)].key_id,
                user: m[ancestor(t, k)].user,
                depth: m[ancestor(t, k)].depth,
            }),
        ),
{
    lemma_ancestor(t, k);
    let a = ancestor(t, k);
    let lhs = rekey_path(m, t, keys, k + 1);
    let rhs = rekey_path(m, t, keys, k).insert(a, NodeView { id: m[a].id, key: keys[k as int], key_id: m[a].key_id, user: m[a].user, depth: m[a].depth });
    assert forall|p: Seq<bool>| #[trigger] lhs.contains_key(p) implies lhs[p] == rhs[p] by {
        if p != a && on_path_below(t, p, k + 1) {
            assert(t.len() - p.len() != k) by {
                if t.len() - p.len() == k {
                    assert(p =~= a);
                }
            }
        }
    }
    assert(lhs =~= rhs);
}

/// Nodes below the `k`-th node of the path are renewed for good once `k + 1`
/// nodes are.
proof fn lemma_rekey_path_settled(m: Map<Seq<bool>, NodeView>, t: Seq<bool>, keys: Seq<Seq<u8>>, k: nat, q: Seq<bool>)
    requires
        k <= t.len(),
        q.len() >= t.len() - k,
        m.contains_key(q),
    ensures
        rekey_path(m, t, keys, k + 1)[q] == rekey_path(m, t, keys, t.len() + 1)[q],
{
}


/// A planned group message realized with the keys of `m1` is realized with
/// those of `m2` when the receiving child has the same key and key id there.
proof fn lemma_realizes_transfer(alg: Algorithm, m1: Map<Seq<bool>, NodeView>, m2: Map<Seq<bool>, NodeView>, o: Outbound, pl: Planned)
    requires
        realizes(alg, m1, o, pl),
        pl matches Planned::GroupTo { child, .. } ==> m1[child].key == m2[child].key && m1[child].key_id == m2[child].key_id,
    ensures
        realizes(alg, m2, o, pl),
{
}

/// The messages of the `k`-th node of the path are those planned.
#[verifier::rlimit(40)]
proof fn lemma_level_messages(
    alg: Algorithm,
    m1: Map<Seq<bool>, NodeView>,
    mf: Map<Seq<bool>, NodeView>,
    cur: Map<Seq<bool>, NodeView>,
    t: Seq<bool>,
    keys: Seq<Seq<u8>>,
    ivs: Seq<Seq<u8>>,
    k: nat,
    session_key_id: u64,
    added: Seq<Outbound>,
)
    requires
        k <= t.len(),
        m1.contains_key(ancestor(t, k)),
        m1.contains_key(ancestor(t, k).push(false)) ==> m1.contains_key(ancestor(t, k).push(true)),
        mf == rekey_path(m1, t, keys, t.len() + 1),
        cur == rekey_path(m1, t, keys, k + 1),
        session_key_id == mf[seq![]].key_id,
        2 * k + 1 < ivs.len(),
        realizes_all(alg, cur, added, children_plan(cur, ancestor(t, k), session_key_id, ivs[2 * k as int], ivs[2 * k as int + 1])),
    ensures
        realizes_all(alg, mf, added, level_plan(mf, t, ivs, k)),
{
    let a = ancestor(t, k);
    lemma_ancestor(t, k);
    lemma_rekey_path_settled(m1, t, keys, k, a);
    if m1.contains_key(a.push(false)) {
        lemma_rekey_path_settled(m1, t, keys, k, a.push(false));
        lemma_rekey_path_settled(m1, t, keys, k, a.push(true));
    }
    let lp = level_plan(mf, t, ivs, k);
    assert(children_plan(cur, a, session_key_id, ivs[2 * k as int], ivs[2 * k as int + 1]) == lp);
    assert forall|i: int| 0 <= i < added.len() implies realizes(alg, mf, #[trigger] added[i], lp[i]) by {
        lemma_realizes_transfer(alg, cur, mf, added[i], lp[i]);
    }
}

/// The cipher refuses some group message of the renewal that follows adding
/// the member `user` (leaf key `key`, id `key_id`) to `m`, whose shallowest
/// leaf is `s`, with the fresh material `pk`, `keys` and `ivs`.
pub open spec fn add_seals_fail(
    m: Map<Seq<bool>, NodeView>,
    s: Seq<bool>,
    user: Seq<char>,
    key: Seq<u8>,
    key_id: u64,
    pk: u64,
    keys: Seq<Seq<u8>>,
    ivs: Seq<Seq<u8>>,
) -> bool {
    let t = new_leaf_path(m, s);
    let mm = renewed(with_member(m, s, NodeView { id: 0, key: key, key_id: key_id, user: Some(user), depth: 0 }), t, pk, keys);
    !seals_ok(mm, renewal_plan(mm, t, ivs))
}

/// The cipher refuses some group message of the renewal that follows
/// removing the member at the leaf `q` of `m`, with the fresh material `pk`,
/// `keys` and `ivs`.
pub open spec fn remove_seals_fail(m: Map<Seq<bool>, NodeView>, q: Seq<bool>, pk: u64, keys: Seq<Seq<u8>>, ivs: Seq<Seq<u8>>) -> bool {
    let mm = renewed(remove_leaf(m, q), q.drop_last(), pk, keys);
    !seals_ok(mm, renewal_plan(mm, q.drop_last(), ivs))
}

/// Seals accepted for a whole plan are accepted for each part of it.
proof fn lemma_seals_split(m: Map<Seq<bool>, NodeView>, a: Seq<Planned>, b: Seq<Planned>)
    requires
        seals_ok(m, a + b),
    ensures
        seals_ok(m, a),
        seals_ok(m, b),
{
    assert forall|i: int| 0 <= i < a.len() implies seal_ok(m, #[trigger] a[i]) by {
        assert((a + b)[i] == a[i]);
    }
    assert forall|i: int| 0 <= i < b.len() implies seal_ok(m, #[trigger] b[i]) by {
        assert((a + b)[a.len() + i] == b[i]);
    }
}

/// The group messages of the lowest `k` levels come first among those of
/// the lowest `n`.
proof fn lemma_group_plan_extends(m: Map<Seq<bool>, NodeView>, t: Seq<bool>, ivs: Seq<Seq<u8>>, k: nat, n: nat) -> (rest: Seq<Planned>)
    requires
        k <= n,
    ensures
        group_plan(m, t, ivs, n) == group_plan(m, t, ivs, k) + rest,
    decreases n - k,
{
    if n == k {
        assert(group_plan(m, t, ivs, n) =~= group_plan(m, t, ivs, k) + Seq::<Planned>::empty());
        Seq::<Planned>::empty()
    } else {
        let r = lemma_group_plan_extends(m, t, ivs, k, (n - 1) as nat);
        let lv = level_plan(m, t, ivs, (n - 1) as nat);
        assert(group_plan(m, t, ivs, n) =~= group_plan(m, t, ivs, k) + (r + lv));
        r + lv
    }
}

/// Whether the cipher accepts the messages of one level does not depend on
/// whether they are read in the tree renewed up to that level or in the
/// fully renewed one.
proof fn lemma_level_seals(
    m1: Map<Seq<bool>, NodeView>,
    mf: Map<Seq<bool>, NodeView>,
    cur: Map<Seq<bool>, NodeView>,
    t: Seq<bool>,
    keys: Seq<Seq<u8>>,
    ivs: Seq<Seq<u8>>,
    k: nat,
    session_key_id: u64,
)
    requires
        k <= t.len(),
        m1.contains_key(ancestor(t, k)),
        m1.contains_key(ancestor(t, k).push(false)) ==> m1.contains_key(ancestor(t, k).push(true)),
        mf == rekey_path(m1, t, keys, t.len() + 1),
        cur == rekey_path(m1, t, keys, k + 1),
        session_key_id == mf[seq![]].key_id,
        2 * k + 1 < ivs.len(),
    ensures
        seals_ok(cur, children_plan(cur, ancestor(t, k), session_key_id, ivs[2 * k as int], ivs[2 * k as int + 1]))
            == seals_ok(mf, level_plan(mf, t, ivs, k)),
{
    let a = ancestor(t, k);
    lemma_ancestor(t, k);
    lemma_rekey_path_settled(m1, t, keys, k, a);
    if m1.contains_key(a.push(false)) {
        lemma_rekey_path_settled(m1, t, keys, k, a.push(false));
        lemma_rekey_path_settled(m1, t, keys, k, a.push(true));
    }
    let lp = level_plan(mf, t, ivs, k);
    let cp = children_plan(cur, a, session_key_id, ivs[2 * k as int], ivs[2 * k as int + 1]);
    assert(cp == lp);
    assert forall|i: int| 0 <= i < lp.len() implies seal_ok(cur, #[trigger] lp[i]) == seal_ok(mf, lp[i]) by {}
}

/// One step of the renewal loop: the messages of the `k`-th node of the path,
/// sent from the tree renewed up to that node, are those planned for the
/// renewed tree.
proof fn lemma_level_step(
    alg: Algorithm,
    m1: Map<Seq<bool>, NodeView>,
    mf: Map<Seq<bool>, NodeView>,
    cur: Map<Seq<bool>, NodeView>,
    t: Seq<bool>,
    keys: Seq<Seq<u8>>,
    ivs: Seq<Seq<u8>>,
    k: nat,
    session_key_id: u64,
    before: Seq<Outbound>,
    out: Seq<Outbound>,
)
    requires
        k <= t.len(),
        m1.contains_key(ancestor(t, k)),
        mf == rekey_path(m1, t, keys, t.len() + 1),
        cur == rekey_path(m1, t, keys, k + 1),
        is_key_tree(cur),
        session_key_id == mf[seq![]].key_id,
        2 * k + 1 < ivs.len(),
        realizes_all(alg, mf, before, group_plan(mf, t, ivs, k)),
        out.len() >= before.len(),
        out.subrange(0, before.len() as int) == before,
        realizes_all(
            alg,
            cur,
            out.subrange(before.len() as int, out.len() as int),
            children_plan(cur, ancestor(t, k), session_key_id, ivs[2 * k as int], ivs[2 * k as int + 1]),
        ),
    ensures
        realizes_all(alg, mf, out, group_plan(mf, t, ivs, k + 1)),
{
    let a = ancestor(t, k);
    let added = out.subrange(before.len() as int, out.len() as int);
    assert(cur.contains_key(a));
    assert(cur.contains_key(a.push(false)) ==> cur.contains_key(a.push(true)));
    lemma_level_messages(alg, m1, mf, cur, t, keys, ivs, k, session_key_id, added);
    let gp = group_plan(mf, t, ivs, k);
    let lp = level_plan(mf, t, ivs, k);
    assert(group_plan(mf, t, ivs, k + 1) == gp + lp);
    assert forall|i: int| 0 <= i < out.len() implies realizes(alg, mf, #[trigger] out[i], (gp + lp)[i]) by {
        if i < before.len() {
            assert(out[i] == out.subrange(0, before.len() as int)[i]);
        } else {
            assert(out[i] == added[i - before.len()]);
        }
    }
}

/// The unicast part of a renewal: the path in clear to the member.
proof fn lemma_unicast_realized(
    alg: Algorithm,
    mf: Map<Seq<bool>, NodeView>,
    t: Seq<bool>,
    ivs: Seq<Seq<u8>>,
    groups: Seq<Outbound>,
    out: Seq<Outbound>,
    path: Seq<(u64, Vec<u8>)>,
    session_key_id: u64,
)
    requires
        mf[t].user is Some,
        session_key_id == mf[seq![]].key_id,
        realizes_all(alg, mf, groups, group_plan(mf, t, ivs, t.len() + 1)),
        path.len() == t.len() + 1,
        forall|j: int| 0 <= j < t.len() + 1 ==> (#[trigger] path[j]).0 == mf[ancestor(t, j as nat)].key_id
            && path[j].1@ == mf[ancestor(t, j as nat)].key,
        out.len() == groups.len() + path.len(),
        out.subrange(0, groups.len() as int) == groups,
        forall|j: int| 0 <= j < path.len() ==> is_unicast(#[trigger] out[groups.len() + j], mf[t].user.unwrap(), path_update(path[j], session_key_id)),
    ensures
        realizes_all(alg, mf, out, renewal_plan(mf, t, ivs)),
{
    let u = mf[t].user.unwrap();
    let gp = group_plan(mf, t, ivs, t.len() + 1);
    let up = unicast_plan(mf, t, u, t.len() + 1);
    lemma_unicast_plan(mf, t, u, t.len() + 1);
    assert(renewal_plan(mf, t, ivs) == gp + up);
    assert forall|i: int| 0 <= i < out.len() implies realizes(alg, mf, #[trigger] out[i], (gp + up)[i]) by {
        if i < groups.len() {
            assert(out[i] == out.subrange(0, groups.len() as int)[i]);
        } else {
            let j = i - groups.len();
            assert(out[i] == out[groups.len() + j]);
            assert(is_unicast(out[groups.len() + j], u, path_update(path[j], session_key_id)));
            assert(path_update(path[j], session_key_id) == node_update(mf, ancestor(t, j as nat)));
        }
    }
}

/// `lkh_inv` survives the split of a leaf to place a new member.
proof fn lemma_inv_split(m: Map<Seq<bool>, NodeView>, q: Seq<bool>, nv: NodeView, alg: Algorithm)
    requires
        lkh_inv(m, alg),
        is_leaf(m, q),
        is_key_tree(split_leaf(m, q, nv)),
        nv.key.len() == spec_key_len(alg),
        nv.user is Some,
        forall|p: Seq<bool>| #[trigger] m.contains_key(p) ==> m[p].user != nv.user,
    ensures
        lkh_inv(split_leaf(m, q, nv), alg),
{
    let m2 = split_leaf(m, q, nv);
    let l = q.push(false);
    let r = q.push(true);
    assert(!m.contains_key(r));
    assert(l != r) by {
        assert(l[l.len() - 1] != r[r.len() - 1]);
    }
    assert forall|p: Seq<bool>| #[trigger] m2.contains_key(p) implies m2[p].key.len() == spec_key_len(alg) by {
        if p != l && p != r {
            assert(m.contains_key(p));
        }
    }
    assert forall|p: Seq<bool>| #[trigger] is_leaf(m2, p) implies m2[p].user is Some by {
        if p == q {
            assert(m2.contains_key(l));
        } else if p != l && p != r {
            assert(m.contains_key(p));
            assert(p.push(false) != l) by {
                if p.push(false) == l {
                    assert(p =~= p.push(false).drop_last());
                    assert(q =~= l.drop_last());
                }
            }
            assert(p.push(false) != r) by {
                assert(p.push(false)[p.len() as int] != r[q.len() as int] || p.len() != q.len());
            }
            assert(is_leaf(m, p));
        }
    }
    assert forall|p1: Seq<bool>, p2: Seq<bool>|
        #![trigger m2[p1], m2[p2]]
        m2.contains_key(p1) && m2.contains_key(p2) && m2[p1].user is Some && m2[p1].user == m2[p2].user implies p1 == p2 by {
        if p1 != l && p1 != r && p1 != q {
            assert(m.contains_key(p1) && m2[p1] == m[p1]);
        }
        if p2 != l && p2 != r && p2 != q {
            assert(m.contains_key(p2) && m2[p2] == m[p2]);
        }
        if p1 == l && p2 != l && p2 != r && p2 != q {
            assert(m[q].user == m[p2].user);
        }
        if p2 == l && p1 != l && p1 != r && p1 != q {
            assert(m[q].user == m[p1].user);
        }
        if p1 == l && p2 == r {
            assert(m.contains_key(q));
        }
        if p2 == l && p1 == r {
            assert(m.contains_key(q));
        }
    }
}

/// Distinct places come from distinct places, none of them the removed leaf.
pub(crate) proof fn lemma_origin_injective(q: Seq<bool>, p1: Seq<bool>, p2: Seq<bool>)
    requires
        q.len() > 0,
    ensures
        p1 != p2 ==> origin(q, p1) != origin(q, p2),
        origin(q, p1) != q,
        has_prefix(p1, q.drop_last()) ==> has_prefix(origin(q, p1), q.drop_last()),
{
    let pa = q.drop_last();
    let sb = pa.push(!q.last());
    assert(q =~= pa.push(q.last()));
    if has_prefix(p1, pa) {
        let o1 = origin(q, p1);
        assert(o1[pa.len() as int] == !q.last());
        assert(o1.subrange(0, pa.len() as int) =~= pa);
        assert(o1 != q);
    } else {
        assert(has_prefix(q, pa)) by {
            assert(q.subrange(0, pa.len() as int) =~= pa);
        }
    }
    if p1 != p2 {
        if has_prefix(p1, pa) && has_prefix(p2, pa) {
            let r1 = p1.subrange(pa.len() as int, p1.len() as int);
            let r2 = p2.subrange(pa.len() as int, p2.len() as int);
            assert(p1 =~= pa + r1);
            assert(p2 =~= pa + r2);
            if sb + r1 == sb + r2 {
                assert(r1 =~= (sb + r1).subrange(sb.len() as int, (sb + r1).len() as int));
                assert(r2 =~= (sb + r2).subrange(sb.len() as int, (sb + r2).len() as int));
            }
        } else if has_prefix(p1, pa) && !has_prefix(p2, pa) {
            let o1 = origin(q, p1);
            assert(o1.subrange(0, pa.len() as int) =~= pa);
        } else if !has_prefix(p1, pa) && has_prefix(p2, pa) {
            let o2 = origin(q, p2);
            assert(o2.subrange(0, pa.len() as int) =~= pa);
        }
    }
}

/// A child of `p` in the tree after the removal is where a child of its
/// origin was.
pub(crate) proof fn lemma_origin_child(m: Map<Seq<bool>, NodeView>, q: Seq<bool>, p: Seq<bool>, b: bool)
    requires
        is_key_tree(m),
        is_leaf(m, q),
        q.len() > 0,
        m.contains_key(origin(q, p)),
    ensures
        remove_leaf(m, q).contains_key(p.push(b)) == m.contains_key(origin(q, p).push(b)),
{
    let pa = q.drop_last();
    let sb = pa.push(!q.last());
    lemma_remove_leaf_get(m, q, p.push(b));
    assert(q =~= pa.push(q.last()));
    if has_prefix(p, pa) {
        assert(has_prefix(p.push(b), pa)) by {
            assert(p.push(b).subrange(0, pa.len() as int) =~= p.subrange(0, pa.len() as int));
        }
        assert(origin(q, p.push(b)) =~= origin(q, p).push(b));
    } else if has_prefix(p.push(b), pa) {
        assert(pa.len() == p.len() + 1) by {
            if pa.len() <= p.len() {
                assert(p.subrange(0, pa.len() as int) =~= p.push(b).subrange(0, pa.len() as int));
            }
        }
        assert(p.push(b) =~= pa);
        assert(origin(q, p.push(b)) =~= sb);
        assert(m.contains_key(pa));
        assert(m.contains_key(q));
        assert(m.contains_key(pa.push(q.last())));
        if q.last() {
            assert(m.contains_key(pa.push(false)));
        } else {
            assert(m.contains_key(pa.push(true)));
        }
    } else {
        assert(origin(q, p.push(b)) == p.push(b));
    }
}

/// `lkh_inv` survives the removal of a member's leaf, and the member is
/// gone.
proof fn lemma_inv_remove(m: Map<Seq<bool>, NodeView>, q: Seq<bool>, alg: Algorithm)
    requires
        lkh_inv(m, alg),
        is_leaf(m, q),
        q.len() > 0,
        is_key_tree(remove_leaf(m, q)),
    ensures
        lkh_inv(remove_leaf(m, q), alg),
        forall|p: Seq<bool>| #[trigger] remove_leaf(m, q).contains_key(p) ==> remove_leaf(m, q)[p].user != m[q].user,
        forall|u: Seq<char>| has_member(remove_leaf(m, q), u) ==> has_member(m, u),
{
    let m2 = remove_leaf(m, q);
    assert forall|p: Seq<bool>| #[trigger] m2.contains_key(p) implies m2[p].key == m[origin(q, p)].key && m2[p].user == m[origin(q, p)].user
        && m.contains_key(origin(q, p)) by {
        lemma_remove_leaf_get(m, q, p);
    }
    assert forall|p: Seq<bool>| #[trigger] m2.contains_key(p) implies m2[p].key.len() == spec_key_len(alg) by {
        assert(m.contains_key(origin(q, p)));
    }
    assert forall|p: Seq<bool>| #[trigger] is_leaf(m2, p) implies m2[p].user is Some by {
        assert(m.contains_key(origin(q, p)));
        lemma_origin_child(m, q, p, false);
        assert(is_leaf(m, origin(q, p)));
    }
    assert forall|p1: Seq<bool>, p2: Seq<bool>|
        #![trigger m2[p1], m2[p2]]
        m2.contains_key(p1) && m2.contains_key(p2) && m2[p1].user is Some && m2[p1].user == m2[p2].user implies p1 == p2 by {
        lemma_origin_injective(q, p1, p2);
        let o1 = origin(q, p1);
        let o2 = origin(q, p2);
        assert(m.contains_key(o1) && m.contains_key(o2));
        assert(m[o1].user == m[o2].user);
    }
    assert forall|p: Seq<bool>| #[trigger] m2.contains_key(p) implies m2[p].user != m[q].user by {
        lemma_origin_injective(q, p, p);
        let o = origin(q, p);
        assert(m.contains_key(o));
        assert(m[q].user is Some);
        if m[o].user == m[q].user {
            assert(m.contains_key(q));
        }
    }
    assert forall|u: Seq<char>| has_member(m2, u) implies has_member(m, u) by {
        let p = choose|p: Seq<bool>| #[trigger] m2.contains_key(p) && m2[p].user == Some(u);
        let o = origin(q, p);
        assert(m.contains_key(o) && m[o].user == Some(u));
    }
}

/// A node strictly below the parent of the leaf at `q` lies below the leaf
/// or below its sibling.
pub(crate) proof fn lemma_below_parent(m: Map<Seq<bool>, NodeView>, q: Seq<bool>, p: Seq<bool>)
    requires
        is_key_tree(m),
        is_leaf(m, q),
        q.len() > 0,
        m.contains_key(p),
        p != q,
        p != q.drop_last(),
        has_prefix(p, q.drop_last()),
    ensures
        has_prefix(p, q.drop_last().push(!q.last())),
{
    let pa = q.drop_last();
    let sb = pa.push(!q.last());
    assert(q =~= pa.push(q.last()));
    assert(p.len() > pa.len()) by {
        if p.len() == pa.len() {
            assert(p =~= pa);
        }
    }
    if p[pa.len() as int] == q.last() {
        assert(p.subrange(0, q.len() as int) =~= q);
        assert(p.len() > q.len()) by {
            if p.len() == q.len() {
                assert(p =~= q);
            }
        }
        lemma_prefix_of_leaf(m, q, p);
    } else {
        assert(p.subrange(0, sb.len() as int) =~= sb);
    }
}

/// A member below the removed leaf's sibling keeps a place after the removal.
proof fn lemma_member_kept_moved(m: Map<Seq<bool>, NodeView>, q: Seq<bool>, p: Seq<bool>)
    requires
        q.len() > 0,
        m.contains_key(p),
        has_prefix(p, q.drop_last().push(!q.last())),
    ensures
        remove_leaf(m, q).contains_key(q.drop_last() + p.subrange(q.len() as int, p.len() as int)),
        remove_leaf(m, q)[q.drop_last() + p.subrange(q.len() as int, p.len() as int)].user == m[p].user,
{
    let pa = q.drop_last();
    let sb = pa.push(!q.last());
    let r = p.subrange(sb.len() as int, p.len() as int);
    let np = pa + r;
    assert(p =~= sb + r);
    assert(np.subrange(0, pa.len() as int) =~= pa);
    assert(has_prefix(np, pa));
    assert(np.subrange(pa.len() as int, np.len() as int) =~= r);
    assert(origin(q, np) == p);
    lemma_remove_leaf_get(m, q, np);
}

/// A member not below the removed leaf's parent keeps its place.
proof fn lemma_member_kept_still(m: Map<Seq<bool>, NodeView>, q: Seq<bool>, p: Seq<bool>)
    requires
        m.contains_key(p),
        !has_prefix(p, q.drop_last()),
    ensures
        remove_leaf(m, q).contains_key(p),
        remove_leaf(m, q)[p].user == m[p].user,
{
    lemma_remove_leaf_get(m, q, p);
}

/// A member other than the removed one keeps a place after the removal.
proof fn lemma_member_kept(m: Map<Seq<bool>, NodeView>, q: Seq<bool>, p: Seq<bool>)
    requires
        is_key_tree(m),
        is_leaf(m, q),
        q.len() > 0,
        m.contains_key(p),
        p != q,
        p != q.drop_last(),
    ensures
        has_member(remove_leaf(m, q), m[p].user.unwrap()) || m[p].user is None,
{
    if m[p].user is Some {
        if has_prefix(p, q.drop_last()) {
            lemma_below_parent(m, q, p);
            lemma_member_kept_moved(m, q, p);
        } else {
            lemma_member_kept_still(m, q, p);
        }
    }
}

/// Nothing lies below a leaf.
pub(crate) proof fn lemma_prefix_of_leaf(m: Map<Seq<bool>, NodeView>, q: Seq<bool>, p: Seq<bool>)
    requires
        is_key_tree(m),
        is_leaf(m, q),
        p.len() > q.len(),
        p.subrange(0, q.len() as int) == q,
    ensures
        !m.contains_key(p),
    decreases p.len() - q.len(),
{
    if m.contains_key(p) {
        let d = p.drop_last();
        assert(m.contains_key(d));
        if d.len() == q.len() {
            assert(d =~= q);
            assert(p =~= q.push(p.last()));
            if p.last() {
                assert(m.contains_key(q.push(false)));
            }
        } else {
            assert(d.subrange(0, q.len() as int) =~= q);
            lemma_prefix_of_leaf(m, q, d);
        }
    }
}

/// A random key id: eight random bytes read in big endian.
fn random_key_id(random: &mut RandomSource) -> (res: Option<u64>)
    ensures
        final(random).failures() == old(random).failures() + if res is None { 1nat } else { 0nat },
{
    match random.bytes(8) {
        Some(b) => Some(u64_from_be(b.as_slice())),
        None => None,
    }
}

/// Fresh random material for a path of `len` nodes.
fn draw_fresh(random: &mut RandomSource, algorithm: Algorithm, len: usize) -> (res: Option<FreshKeys>)
    requires
        len <= 64,
    ensures
        res matches Some(f) ==> fresh_fits(&f, len as nat, algorithm),
        res matches Some(f) ==> f.keys@.len() == len && f.ivs@.len() == 2 * len,
        res is Some ==> final(random).failures() == old(random).failures(),
        res is None ==> final(random).failures() > old(random).failures(),
{
    let parent_key_id = match random_key_id(random) {
        Some(k) => k,
        None => return None,
    };
    let key_len = algorithm.key_len();
    let iv_len = algorithm.iv_size();
    let mut keys: Vec<Vec<u8>> = Vec::new();
    let mut i: usize = 0;
    while i < len
        invariant
            i <= len,
            keys@.len() == i,
            key_len == spec_key_len(algorithm),
            random.failures() == old(random).failures(),
            forall|j: int| 0 <= j < keys@.len() ==> (#[trigger] keys@[j])@.len() == spec_key_len(algorithm),
        decreases len - i,
    {
        match random.bytes(key_len) {
            Some(k) => keys.push(k),
            None => return None,
        }
        i = i + 1;
    }
    let mut ivs: Vec<Vec<u8>> = Vec::new();
    let mut i: usize = 0;
    while i < 2 * len
        invariant
            i <= 2 * len,
            len <= 64,
            ivs@.len() == i,
            iv_len == spec_iv_size(algorithm),
            random.failures() == old(random).failures(),
            forall|j: int| 0 <= j < ivs@.len() ==> (#[trigger] ivs@[j])@.len() == spec_iv_size(algorithm),
        decreases 2 * len - i,
    {
        match random.bytes(iv_len) {
            Some(v) => ivs.push(v),
            None => return None,
        }
        i = i + 1;
    }
    Some(FreshKeys { parent_key_id: parent_key_id, keys: keys, ivs: ivs })
}

/// The key server.
pub struct Lkh<S> {
    tree: Tree<S>,
    algorithm: Algorithm,
    random: RandomSource,
}

impl<S> Lkh<S> {
    /// The key tree, by path.
    pub closed spec fn spec_tree(&self) -> Map<Seq<bool>, NodeView> {
        self.tree@
    }

    /// How many draws from the server's source of randomness have failed.
    pub closed spec fn spec_draw_failures(&self) -> nat {
        self.random.failures()
    }

    pub closed spec fn spec_algorithm(&self) -> Algorithm {
        self.algorithm
    }

    pub closed spec fn spec_user_count(&self) -> nat {
        self.tree.spec_user_count()
    }

    /// The leftmost of the shallowest leaves.
    pub closed spec fn spec_shallowest(&self) -> Seq<bool> {
        self.tree.spec_shallowest()
    }

    /// The private channel of the member `user`, where it is a member.
    pub closed spec fn spec_channel(&self, user: Seq<char>) -> Option<S> {
        self.tree.channel(member_path(self.tree@, user))
    }

    /// The server's state is consistent.
    pub closed spec fn well_formed(&self) -> bool {
        &&& self.tree.well_formed()
        &&& lkh_inv(self.tree@, self.algorithm)
    }

    /// The shape of a consistent server's tree: the invariant of the key
    /// tree, and the leaf where the next member goes is a shallowest leaf.
    pub proof fn lemma_shape(&self)
        requires
            self.well_formed(),
        ensures
            lkh_inv(self.spec_tree(), self.spec_algorithm()),
            self.spec_tree().contains_key(seq![]) ==> is_leaf(self.spec_tree(), self.spec_shallowest()),
            forall|p: Seq<bool>| #[trigger] is_leaf(self.spec_tree(), p) ==> self.spec_shallowest().len() <= p.len(),
    {
        lemma_tree_shape(&self.tree);
    }

    /// The member count is the number of members: the identifiers that
    /// stand in the tree, of which there are finitely many.
    pub proof fn lemma_user_count(&self)
        requires
            self.well_formed(),
        ensures
            Set::new(|u: Seq<char>| has_member(self.spec_tree(), u)).finite(),
            self.spec_user_count() == Set::new(|u: Seq<char>| has_member(self.spec_tree(), u)).len(),
    {
        let m = self.tree@;
        self.tree.lemma_counts();
        let places = m.dom().filter(|p: Seq<bool>| m[p].user is Some);
        let f = |p: Seq<bool>| m[p].user.unwrap();
        let members = Set::new(|u: Seq<char>| has_member(m, u));
        vstd::set_lib::lemma_set_subset_finite(m.dom(), places);
        assert forall|x: Seq<bool>, y: Seq<bool>| places.contains(x) && places.contains(y) && #[trigger] f(x) == #[trigger] f(y) implies x == y by {
            assert(m[x].user == m[y].user);
        }
        assert(places.map(f) =~= members) by {
            assert forall|u: Seq<char>| members.contains(u) implies places.map(f).contains(u) by {
                let p = choose|p: Seq<bool>| #[trigger] m.contains_key(p) && m[p].user == Some(u);
                assert(places.contains(p) && f(p) == u);
            }
        }
        vstd::set_lib::lemma_map_size(places, members, f);
    }

    /// A key server with no member.
    pub fn new(algorithm: Algorithm) -> (res: Self)
        ensures
            res.well_formed(),
            res.spec_tree() == Map::<Seq<bool>, NodeView>::empty(),
            res.spec_algorithm() == algorithm,
            res.spec_user_count() == 0,
    {
        let tree = Tree::new();
        proof {
            lemma_tree_shape(&tree);
        }
        Lkh { tree, algorithm, random: RandomSource::new() }
    }

    /// Sends the key of the node `node_id` to its children: one group message
    /// per child, the key update wrapped under the child's key.
    #[verifier::rlimit(60)]
    fn send_key_to_children(&self, node_id: u64, session_key_id: u64, iv_left: &Vec<u8>, iv_right: &Vec<u8>, out: &mut Vec<Outbound>) -> (res: Result<(), Error>)
        requires
            self.tree.well_formed(),
            lkh_inv(self.tree@, self.algorithm),
            node_id >= 1,
            self.tree@.contains_key(seq![]),
            iv_left@.len() == spec_iv_size(self.algorithm),
            iv_right@.len() == spec_iv_size(self.algorithm),
        ensures
            final(out)@.len() >= old(out)@.len(),
            final(out)@.subrange(0, old(out)@.len() as int) == old(out)@,
            res is Ok ==> realizes_all(
                self.algorithm,
                self.tree@,
                final(out)@.subrange(old(out)@.len() as int, final(out)@.len() as int),
                children_plan(self.tree@, path_of_id(node_id as nat), session_key_id, iv_left@, iv_right@),
            ),
            res is Ok <==> seals_ok(self.tree@, children_plan(self.tree@, path_of_id(node_id as nat), session_key_id, iv_left@, iv_right@)),
            res is Err ==> forall|i: int| old(out)@.len() <= i < final(out)@.len() ==> #[trigger] final(out)@[i] is Group,
            res matches Err(e) ==> e == Error::EncryptError,
    {
        let ghost m = self.tree@;
        let ghost p = path_of_id(node_id as nat);
        let ghost n0 = old(out)@.len();
        proof {
            lemma_tree_shape(&self.tree);
        }
        let (key, key_id) = match self.tree.get_node_by_id(node_id) {
            Some(n) => (n.key.clone(), n.key_id),
            None => {
                proof {
                    assert(!m.contains_key(p.push(false))) by {
                        if m.contains_key(p.push(false)) {
                            assert(p.push(false).drop_last() =~= p);
                        }
                    }
                }
                assert(out@.subrange(0, n0 as int) =~= old(out)@);
                assert(out@.subrange(n0 as int, out@.len() as int) =~= Seq::<Outbound>::empty());
                return Ok(());
            },
        };
        assert(key@ =~= m[p].key);
        let packet = KeyUpdatePacket {
            new_key: key,
            new_key_id: key_id,
            is_session_key: key_id == session_key_id,
            delete_new_key: false,
        }.to_bytes();
        let ghost update = KeyUpdate {
            new_key: m[p].key,
            new_key_id: m[p].key_id,
            is_session_key: m[p].key_id == session_key_id,
            delete_new_key: false,
        };
        assert(packet@ == encode(update));
        self.send_packet_to_children(node_id, &packet, session_key_id, iv_left, iv_right, out)
    }

    /// Sends `packet`, the update of the node `node_id`, to that node's
    /// children: one group message per child, wrapped under the child's key.
    #[verifier::rlimit(60)]
    fn send_packet_to_children(&self, node_id: u64, packet: &Vec<u8>, session_key_id: u64, iv_left: &Vec<u8>, iv_right: &Vec<u8>, out: &mut Vec<Outbound>) -> (res: Result<(), Error>)
        requires
            self.tree.well_formed(),
            lkh_inv(self.tree@, self.algorithm),
            node_id >= 1,
            self.tree@.contains_key(path_of_id(node_id as nat)),
            packet@ == encode(KeyUpdate {
                new_key: self.tree@[path_of_id(node_id as nat)].key,
                new_key_id: self.tree@[path_of_id(node_id as nat)].key_id,
                is_session_key: self.tree@[path_of_id(node_id as nat)].key_id == session_key_id,
                delete_new_key: false,
            }),
            iv_left@.len() == spec_iv_size(self.algorithm),
            iv_right@.len() == spec_iv_size(self.algorithm),
        ensures
            final(out)@.len() >= old(out)@.len(),
            final(out)@.subrange(0, old(out)@.len() as int) == old(out)@,
            res is Ok ==> realizes_all(
                self.algorithm,
                self.tree@,
                final(out)@.subrange(old(out)@.len() as int, final(out)@.len() as int),
                children_plan(self.tree@, path_of_id(node_id as nat), session_key_id, iv_left@, iv_right@),
            ),
            res is Ok <==> seals_ok(self.tree@, children_plan(self.tree@, path_of_id(node_id as nat), session_key_id, iv_left@, iv_right@)),
            res is Err ==> forall|i: int| old(out)@.len() <= i < final(out)@.len() ==> #[trigger] final(out)@[i] is Group,
            res matches Err(e) ==> e == Error::EncryptError,
    {
        let ghost m = self.tree@;
        let ghost p = path_of_id(node_id as nat);
        let ghost n0 = old(out)@.len();
        let ghost cp = children_plan(m, p, session_key_id, iv_left@, iv_right@);
        proof {
            assert(m.contains_key(p.push(false)) ==> m.contains_key(p.push(true)));
            assert(packet@.len() <= MAX_CRYPTO_LEN);
        }
        match self.tree.get_left_child(node_id) {
            None => {
                assert(out@.subrange(0, n0 as int) =~= old(out)@);
                assert(out@.subrange(n0 as int, out@.len() as int) =~= Seq::<Outbound>::empty());
                assert(cp.len() == 0);
                return Ok(());
            },
            Some(left) => {
                assert(m.contains_key(p.push(true)));
                match self.algorithm.wrap_with_iv(packet.as_slice(), left.key.as_slice(), left.key_id, iv_left.as_slice()) {
                    Ok(w) => {
                        out.push(Outbound::Group(w));
                    },
                    Err(e) => {
                        assert(!seal_ok(m, cp[0]));
                        assert(out@.subrange(0, n0 as int) =~= old(out)@);
                        return Err(e);
                    },
                }
            },
        }
        match self.tree.get_right_child(node_id) {
            None => {
                assert(false);
            },
            Some(right) => {
                match self.algorithm.wrap_with_iv(packet.as_slice(), right.key.as_slice(), right.key_id, iv_right.as_slice()) {
                    Ok(w) => {
                        out.push(Outbound::Group(w));
                    },
                    Err(e) => {
                        assert(!seal_ok(m, cp[1]));
                        assert(out@.subrange(0, n0 as int) =~= old(out)@);
                        assert(out@.len() == n0 + 1);
                        return Err(e);
                    },
                }
            },
        }
        proof {
            let added = out@.subrange(n0 as int, out@.len() as int);
            assert(out@.subrange(0, n0 as int) =~= old(out)@);
            assert(added.len() == 2);
            assert(added[0] == out@[n0 as int]);
            assert(added[1] == out@[n0 as int + 1]);
            lemma_realized_seals(self.algorithm, m, added, cp);
        }
        Ok(())
    }

    /// Sends the keys of `path` in clear to the member of the node `node_id`.
    fn send_key_by_unicast(&self, node_id: u64, path: &Vec<(u64, Vec<u8>)>, session_key_id: u64, out: &mut Vec<Outbound>)
        requires
            node_id >= 1,
            self.tree@.contains_key(seq![]),
            path@.len() > 0 ==> self.tree@.contains_key(path_of_id(node_id as nat)) && self.tree@[path_of_id(node_id as nat)].user is Some,
        ensures
            final(out)@.len() == old(out)@.len() + path@.len(),
            final(out)@.subrange(0, old(out)@.len() as int) == old(out)@,
            forall|j: int| 0 <= j < path@.len() ==> is_unicast(#[trigger] final(out)@[old(out)@.len() + j], self.tree@[path_of_id(node_id as nat)].user.unwrap(), path_update(path@[j], session_key_id)),
    {
        let ghost n0 = old(out)@.len();
        let user_id = match self.tree.get_node_by_id(node_id) {
            Some(n) => match &n.user {
                Some(u) => u.user_id.clone(),
                None => {
                    assert(out@.subrange(0, n0 as int) =~= old(out)@);
                    return;
                },
            },
            None => {
                assert(out@.subrange(0, n0 as int) =~= old(out)@);
                return;
            },
        };
        let mut i: usize = 0;
        while i < path.len()
            invariant
                i <= path@.len(),
                out@.len() == n0 + i,
                out@.subrange(0, n0 as int) == old(out)@,
                user_id@ == self.tree@[path_of_id(node_id as nat)].user.unwrap(),
                forall|j: int| 0 <= j < i ==> is_unicast(#[trigger] out@[n0 + j], user_id@, path_update(path@[j], session_key_id)),
            decreases path@.len() - i,
        {
            let key_id = path[i].0;
            let key = path[i].1.clone();
            assert(key@ =~= path@[i as int].1@);
            let packet = KeyUpdatePacket {
                new_key: key,
                new_key_id: key_id,
                is_session_key: key_id == session_key_id,
                delete_new_key: false,
            };
            let bytes = packet.to_bytes();
            let ghost before = out@;
            out.push(Outbound::Unicast(user_id.clone(), bytes));
            assert(out@.subrange(0, n0 as int) =~= before.subrange(0, n0 as int));
            i = i + 1;
        }
    }

    /// Renews the keys along the path from the node `node_id` to the root:
    /// the parent of that node gets a new key id, every node of the path a new
    /// key (`fresh`, from the bottom up). Each new key goes to the children of
    /// its node, wrapped under their keys; when the node `node_id` stands for
    /// a member, the whole path then goes to that member in clear. Every node
    /// of the path is renewed: no node is skipped as already renewed, since a
    /// change of membership renews one path at a time. For a node that is not
    /// there, only its parent (where there is one) gets the new key id.
    #[verifier::rlimit(60)]
    fn update_keys(&mut self, node_id: u64, fresh: &FreshKeys) -> (res: Result<Vec<Outbound>, Error>)
        requires
            old(self).well_formed(),
            node_id >= 1,
            fresh_fits(fresh, path_of_id(node_id as nat).len() + 1, old(self).spec_algorithm()),
        ensures
            final(self).well_formed(),
            final(self).spec_algorithm() == old(self).spec_algorithm(),
            final(self).spec_user_count() == old(self).spec_user_count(),
            same_members(final(self).spec_tree(), old(self).spec_tree()),
            old(self).spec_tree().contains_key(path_of_id(node_id as nat)) && res is Ok ==> final(self).spec_tree() == renewed(
                old(self).spec_tree(),
                path_of_id(node_id as nat),
                fresh.parent_key_id,
                seqs_view(fresh.keys@),
            ),
            old(self).spec_tree().contains_key(path_of_id(node_id as nat)) ==> (res matches Ok(out) ==> realizes_all(
                final(self).spec_algorithm(),
                final(self).spec_tree(),
                out@,
                renewal_plan(final(self).spec_tree(), path_of_id(node_id as nat), seqs_view(fresh.ivs@)),
            )),
            old(self).spec_tree().contains_key(path_of_id(node_id as nat)) ==> (res is Ok <==> seals_ok(
                renewed(old(self).spec_tree(), path_of_id(node_id as nat), fresh.parent_key_id, seqs_view(fresh.keys@)),
                renewal_plan(
                    renewed(old(self).spec_tree(), path_of_id(node_id as nat), fresh.parent_key_id, seqs_view(fresh.keys@)),
                    path_of_id(node_id as nat),
                    seqs_view(fresh.ivs@),
                ),
            )),
            !old(self).spec_tree().contains_key(path_of_id(node_id as nat)) ==> (res matches Ok(out) && out@.len() == 0)
                && final(self).spec_tree() == if node_id > 1 && old(self).spec_tree().contains_key(path_of_id(node_id as nat).drop_last()) {
                    with_parent_key_id(old(self).spec_tree(), path_of_id(node_id as nat), fresh.parent_key_id)
                } else {
                    old(self).spec_tree()
                },
            res matches Err(e) ==> e == Error::EncryptError,
            forall|p: Seq<bool>| #[trigger] final(self).tree.channel(p) == old(self).tree.channel(p),
            final(self).spec_draw_failures() == old(self).spec_draw_failures(),
    {
        let ghost t = path_of_id(node_id as nat);
        let ghost m0 = self.tree@;
        let ghost alg = self.algorithm;
        let ghost keys = seqs_view(fresh.keys@);
        let ghost ivs = seqs_view(fresh.ivs@);
        proof {
            lemma_tree_shape(&self.tree);
            crate::tree::lemma_id_of_path_of(node_id as nat);
        }
        let is_carrying_user = match self.tree.get_node_by_id(node_id) {
            Some(n) => n.user.is_some(),
            None => {
                if node_id > 1 {
                    let ghost q = t.drop_last();
                    proof {
                        assert(q =~= path_of_id((node_id / 2) as nat));
                        if m0.contains_key(q) {
                            lemma_inv_rekeyed(m0, q, NodeView { id: m0[q].id, key: m0[q].key, key_id: fresh.parent_key_id, user: m0[q].user, depth: m0[q].depth }, alg);
                        }
                    }
                    self.tree.update_node(node_id / 2, None, Some(fresh.parent_key_id));
                    proof {
                        if m0.contains_key(q) {
                            assert(self.tree@ == with_parent_key_id(m0, t, fresh.parent_key_id));
                            assert(self.tree@.dom() =~= m0.dom());
                            assert(same_members(self.tree@, m0));
                        }
                    }
                }
                return Ok(Vec::new());
            },
        };
        if node_id > 1 {
            proof {
                assert(t.drop_last() =~= path_of_id((node_id / 2) as nat));
                let q = t.drop_last();
                lemma_inv_rekeyed(m0, q, NodeView { id: m0[q].id, key: m0[q].key, key_id: fresh.parent_key_id, user: m0[q].user, depth: m0[q].depth }, alg);
            }
            self.tree.update_node(node_id / 2, None, Some(fresh.parent_key_id));
        }
        let ghost m1 = self.tree@;
        assert(m1 == with_parent_key_id(m0, t, fresh.parent_key_id));
        assert(m1.dom() =~= m0.dom());
        assert(same_members(m1, m0));
        let ghost mf = rekey_path(m1, t, keys, t.len() + 1);
        proof {
            assert(t.subrange(0, 0) =~= Seq::<bool>::empty());
            lemma_prefix_in_tree(m0, t, Seq::<bool>::empty());
        }
        assert(rekey_path(m1, t, keys, 0) =~= m1);
        let session_key_id = match self.tree.get_root() {
            Some(r) => r.key_id,
            None => 0,
        };
        assert(session_key_id == mf[seq![]].key_id);
        let mut out: Vec<Outbound> = Vec::new();
        let mut path: Vec<(u64, Vec<u8>)> = Vec::new();
        let mut current: u64 = node_id;
        let mut k: usize = 0;
        while current >= 1
            invariant
                self.tree.well_formed(),
                lkh_inv(self.tree@, alg),
                self.algorithm == alg,
                self.tree.spec_user_count() == old(self).spec_user_count(),
                same_members(self.tree@, m0),
                m0 == old(self).tree@,
                self.random.failures() == old(self).random.failures(),
                forall|p: Seq<bool>| #[trigger] self.tree.channel(p) == old(self).tree.channel(p),
                t == path_of_id(node_id as nat),
                m1.dom() == m0.dom(),
                m1 == with_parent_key_id(m0, t, fresh.parent_key_id),
                m0.contains_key(t),
                m0.contains_key(seq![]),
                is_key_tree(m0),
                mf == rekey_path(m1, t, keys, t.len() + 1),
                keys == seqs_view(fresh.keys@),
                ivs == seqs_view(fresh.ivs@),
                fresh_fits(fresh, t.len() + 1, alg),
                session_key_id == mf[seq![]].key_id,
                k <= t.len() + 1,
                k <= t.len() ==> current >= 1 && path_of_id(current as nat) == ancestor(t, k as nat),
                k == t.len() + 1 ==> current == 0,
                self.tree@ == rekey_path(m1, t, keys, k as nat),
                realizes_all(alg, mf, out@, group_plan(mf, t, ivs, k as nat)),
                path@.len() == k,
                forall|j: int| 0 <= j < k ==> (#[trigger] path@[j]).0 == mf[ancestor(t, j as nat)].key_id
                    && path@[j].1@ == mf[ancestor(t, j as nat)].key,
            decreases t.len() + 1 - k,
        {
            let ghost a = ancestor(t, k as nat);
            proof {
                lemma_ancestor(t, k as nat);
                assert(m0.contains_key(a)) by {
                    lemma_prefix_in_tree(m0, t, a);
                }
                lemma_rekey_path_step(m1, t, keys, k as nat);
                crate::tree::lemma_id_of_path_of(current as nat);
                let cur = self.tree@;
                lemma_inv_rekeyed(cur, a, NodeView { id: cur[a].id, key: keys[k as int], key_id: cur[a].key_id, user: cur[a].user, depth: cur[a].depth }, alg);
            }
            let new_key = fresh.keys[k].clone();
            assert(new_key@ =~= keys[k as int]);
            self.tree.update_node(current, Some(new_key), None);
            assert(self.tree@ =~= rekey_path(m1, t, keys, (k + 1) as nat));
            assert(self.tree@.dom() =~= m0.dom());
            assert(same_members(self.tree@, m0));
            proof {
                lemma_rekey_path_settled(m1, t, keys, k as nat, a);
            }
            let entry = match self.tree.get_node_by_id(current) {
                Some(n) => (n.key_id, n.key.clone()),
                None => {
                    assert(false);
                    return Err(Error::MissingNode);
                },
            };
            assert(entry.1@ =~= mf[a].key);
            let ghost before = out@;
            let ghost before_path = path@;
            path.push(entry);
            let iv_left = &fresh.ivs[2 * k];
            let iv_right = &fresh.ivs[2 * k + 1];
            match self.send_key_to_children(current, session_key_id, iv_left, iv_right, &mut out) {
                Ok(()) => {},
                Err(e) => {
                    proof {
                        let cur = self.tree@;
                        assert(cur.contains_key(a.push(false)) ==> cur.contains_key(a.push(true)));
                        assert(m1.contains_key(a.push(false)) ==> m1.contains_key(a.push(true)));
                        assert(m1.contains_key(a));
                        lemma_level_seals(m1, mf, cur, t, keys, ivs, k as nat, session_key_id);
                        let rest = lemma_group_plan_extends(mf, t, ivs, (k + 1) as nat, t.len() + 1);
                        let gk = group_plan(mf, t, ivs, k as nat);
                        let lp = level_plan(mf, t, ivs, k as nat);
                        assert(group_plan(mf, t, ivs, (k + 1) as nat) == gk + lp);
                        let up = match mf[t].user {
                            Some(u) => unicast_plan(mf, t, u, t.len() + 1),
                            None => Seq::<Planned>::empty(),
                        };
                        let rp = renewal_plan(mf, t, ivs);
                        assert(rp == ((gk + lp) + rest) + up);
                        if seals_ok(mf, rp) {
                            lemma_seals_split(mf, (gk + lp) + rest, up);
                            lemma_seals_split(mf, gk + lp, rest);
                            lemma_seals_split(mf, gk, lp);
                        }
                        assert(mf == renewed(m0, t, fresh.parent_key_id, keys));
                    }
                    return Err(e);
                },
            }
            proof {
                lemma_level_step(alg, m1, mf, self.tree@, t, keys, ivs, k as nat, session_key_id, before, out@);
                assert forall|j: int| 0 <= j < k + 1 implies (#[trigger] path@[j]).0 == mf[ancestor(t, j as nat)].key_id
                    && path@[j].1@ == mf[ancestor(t, j as nat)].key by {
                    if j < k {
                        assert(path@[j] == before_path[j]);
                    }
                }
                if k < t.len() {
                    assert(path_of_id((current / 2) as nat) == path_of_id(current as nat).drop_last());
                }
            }
            current = current / 2;
            k = k + 1;
        }
        assert(self.tree@ == mf);
        let ghost groups = out@;
        let ghost path_entries = path@;
        proof {
            assert(mf[t].user == m0[t].user);
        }
        if is_carrying_user {
            self.send_key_by_unicast(node_id, &path, session_key_id, &mut out);
            proof {
                lemma_unicast_realized(alg, mf, t, ivs, groups, out@, path_entries, session_key_id);
            }
        } else {
            proof {
                assert(group_plan(mf, t, ivs, t.len() + 1) + Seq::<Planned>::empty() =~= group_plan(mf, t, ivs, t.len() + 1));
            }
        }
        proof {
            lemma_realized_seals(alg, mf, out@, renewal_plan(mf, t, ivs));
        }
        Ok(out)
    }

    /// Adds the member `user_id` (private channel `send`) with the leaf key
    /// `key` (id `key_id`), then renews the keys on its path with `fresh`.
    /// Fails with `RekeyingError`, changing nothing, when the tree has no room
    /// left (its shallowest leaf lies at `MAX_DEPTH`), and with `EncryptError`
    /// when the cipher fails.
    pub fn add_user_with(&mut self, user_id: String, send: S, key: Vec<u8>, key_id: u64, fresh: &FreshKeys) -> (res: Result<Vec<Outbound>, Error>)
        requires
            old(self).well_formed(),
            key@.len() == spec_key_len(old(self).spec_algorithm()),
            fresh_fits(fresh, new_leaf_path(old(self).spec_tree(), old(self).spec_shallowest()).len() + 1, old(self).spec_algorithm()),
        ensures
            final(self).well_formed(),
            final(self).spec_algorithm() == old(self).spec_algorithm(),
            (res matches Err(e) && e == Error::RekeyingError) <==> (has_member(old(self).spec_tree(), user_id@) || (old(self).spec_tree().contains_key(seq![])
                && old(self).spec_shallowest().len() >= MAX_DEPTH)),
            ({
                let t = new_leaf_path(old(self).spec_tree(), old(self).spec_shallowest());
                let mm = renewed(
                    with_member(old(self).spec_tree(), old(self).spec_shallowest(), NodeView { id: 0, key: key@, key_id: key_id, user: Some(user_id@), depth: 0 }),
                    t,
                    fresh.parent_key_id,
                    seqs_view(fresh.keys@),
                );
                (res matches Err(e) && e == Error::EncryptError) <==> !(res matches Err(e) && e == Error::RekeyingError)
                    && !seals_ok(mm, renewal_plan(mm, t, seqs_view(fresh.ivs@)))
            }),
            (res matches Err(e) && e == Error::RekeyingError) ==> final(self).spec_tree() == old(self).spec_tree()
                && final(self).spec_user_count() == old(self).spec_user_count(),
            !(res matches Err(e) && e == Error::RekeyingError) ==> final(self).spec_user_count() == old(self).spec_user_count() + 1
                && has_member(final(self).spec_tree(), user_id@)
                && forall|u: Seq<char>| #[trigger] has_member(old(self).spec_tree(), u) ==> has_member(final(self).spec_tree(), u),
            !(res matches Err(e) && e == Error::RekeyingError) ==> forall|u: Seq<char>| #[trigger] has_member(final(self).spec_tree(), u)
                ==> has_member(old(self).spec_tree(), u) || u == user_id@,
            res is Ok ==> final(self).spec_tree() == renewed(
                with_member(old(self).spec_tree(), old(self).spec_shallowest(), NodeView { id: 0, key: key@, key_id: key_id, user: Some(user_id@), depth: 0 }),
                new_leaf_path(old(self).spec_tree(), old(self).spec_shallowest()),
                fresh.parent_key_id,
                seqs_view(fresh.keys@),
            ),
            res matches Ok(out) ==> realizes_all(
                final(self).spec_algorithm(),
                final(self).spec_tree(),
                out@,
                renewal_plan(final(self).spec_tree(), new_leaf_path(old(self).spec_tree(), old(self).spec_shallowest()), seqs_view(fresh.ivs@)),
            ),
            res matches Err(e) ==> e == Error::RekeyingError || e == Error::EncryptError,
            !(res matches Err(e) && e == Error::RekeyingError) ==> final(self).spec_channel(user_id@) == Some(send)
                && forall|u: Seq<char>| #[trigger] has_member(old(self).spec_tree(), u) ==> final(self).spec_channel(u) == old(self).spec_channel(u),
            final(self).spec_draw_failures() == old(self).spec_draw_failures(),
    {
        let ghost m = self.tree@;
        let ghost alg = self.algorithm;
        let ghost s = self.tree.spec_shallowest();
        let ghost nv = NodeView { id: 0, key: key@, key_id: key_id, user: Some(user_id@), depth: 0 };
        proof {
            lemma_tree_shape(&self.tree);
        }
        if self.contains_user(&user_id) {
            return Err(Error::RekeyingError);
        }
        let ghost tr0 = self.tree;
        let ghost send0 = send;
        let node = Node { id: 0, key: key, key_id: key_id, user: Some(User { user_id: user_id, send: send }), depth: 0 };
        assert(node@ == nv);
        let was_empty = self.tree.get_root().is_none();
        let new_id = match self.tree.add_node(node) {
            Some(id) => if was_empty {
                id
            } else {
                proof {
                    crate::tree::lemma_id_bound(s.push(true));
                    crate::tree::lemma_id_of_push(s, true);
                }
                2 * id + 1
            },
            None => {
                return Err(Error::RekeyingError);
            },
        };
        proof {
            lemma_tree_shape(&self.tree);
            let m2 = self.tree@;
            if m.contains_key(seq![]) {
                assert(forall|p: Seq<bool>| #[trigger] m.contains_key(p) ==> m[p].user != nv.user);
                lemma_inv_split(m, s, nv, alg);
                lemma_path_of_id_of(s.push(true));
                crate::tree::lemma_id_bound(s.push(true));
            } else {
                assert(m2 == with_member(m, s, nv));
                assert forall|p: Seq<bool>| #[trigger] is_leaf(m2, p) implies m2[p].user is Some by {
                    assert(p =~= Seq::<bool>::empty());
                }
                assert(path_of_id(1) =~= Seq::<bool>::empty());
            }
            assert(path_of_id(new_id as nat) == new_leaf_path(m, s));
            let q = new_leaf_path(m, s);
            assert(m2.contains_key(q) && m2[q].user == Some(user_id@));
            assert forall|u: Seq<char>| #[trigger] has_member(m, u) implies has_member(m2, u) by {
                let p = choose|p: Seq<bool>| #[trigger] m.contains_key(p) && m[p].user == Some(u);
                if m.contains_key(seq![]) {
                    if p == s {
                        assert(m2.contains_key(s.push(false)) && m2[s.push(false)].user == Some(u));
                    } else {
                        assert(p != s.push(false) && p != s.push(true)) by {
                            assert(!m.contains_key(s.push(false)));
                            assert(!m.contains_key(s.push(true)));
                        }
                        assert(m2.contains_key(p) && m2[p].user == Some(u));
                    }
                }
            }
        }
        let ghost tr2 = self.tree;
        let res = self.update_keys(new_id, fresh);
        proof {
            let m2 = self.tree@;
            let q = new_leaf_path(m, s);
            assert(m2.contains_key(q) && m2[q].user == Some(user_id@));
            let mm = tr2@;
            lemma_tree_shape(&self.tree);
            lemma_member_path_unique(m2, alg, q, user_id@);
            assert(self.tree.channel(q) == tr2.channel(q));
            if m.contains_key(seq![]) {
                assert(q == s.push(true));
                assert(tr2.channel(q) == Some(send0));
            } else {
                assert(q == Seq::<bool>::empty());
            }
            assert forall|u: Seq<char>| #[trigger] has_member(m, u) implies self.spec_channel(u) == tr0.channel(member_path(m, u)) by {
                let p0 = member_path(m, u);
                assert(m.contains_key(p0) && m[p0].user == Some(u));
                let p1 = if m.contains_key(seq![]) && p0 == s { s.push(false) } else { p0 };
                if m.contains_key(seq![]) {
                    assert(!m.contains_key(s.push(false)));
                    assert(!m.contains_key(s.push(true)));
                    assert(p0 != s.push(false) && p0 != s.push(true));
                    assert(s.push(false) != s.push(true)) by {
                        assert(s.push(false)[s.len() as int] != s.push(true)[s.len() as int]);
                    }
                } else {
                    assert(false);
                }
                assert(mm.contains_key(p1) && mm[p1].user == Some(u));
                assert(tr2.channel(p1) == tr0.channel(p0));
                assert(m2.contains_key(p1) && m2[p1].user == Some(u));
                lemma_member_path_unique(m2, alg, p1, u);
            }
            assert forall|u: Seq<char>| #[trigger] has_member(m, u) implies has_member(m2, u) by {
                let m_mid = with_member(m, s, nv);
                assert(has_member(m_mid, u));
                let p = choose|p: Seq<bool>| #[trigger] m_mid.contains_key(p) && m_mid[p].user == Some(u);
                assert(m2.contains_key(p) && m2[p].user == Some(u));
            }
        }
        res
    }

    /// Removes the member `user_id`: its leaf goes, its sibling subtree moves
    /// up into their parent's place, and the keys on the path from that place
    /// to the root are renewed with `fresh`. Removing a member that is not
    /// there changes nothing; removing the last member empties the tree.
    /// Fails with `EncryptError` when the cipher fails (the member is gone
    /// even then).
    pub fn remove_user_with(&mut self, user_id: &String, fresh: &FreshKeys) -> (res: Result<Vec<Outbound>, Error>)
        requires
            old(self).well_formed(),
            has_member(old(self).spec_tree(), user_id@) ==> fresh_fits(
                fresh,
                member_path(old(self).spec_tree(), user_id@).len(),
                old(self).spec_algorithm(),
            ),
        ensures
            final(self).well_formed(),
            final(self).spec_algorithm() == old(self).spec_algorithm(),
            !has_member(final(self).spec_tree(), user_id@),
            forall|u: Seq<char>| #[trigger] has_member(final(self).spec_tree(), u) ==> has_member(old(self).spec_tree(), u),
            forall|u: Seq<char>| has_member(old(self).spec_tree(), u) && u != user_id@ ==> #[trigger] has_member(final(self).spec_tree(), u),
            !has_member(old(self).spec_tree(), user_id@) ==> (res matches Ok(out) && out@.len() == 0) && final(self).spec_tree() == old(self).spec_tree()
                && final(self).spec_user_count() == old(self).spec_user_count(),
            has_member(old(self).spec_tree(), user_id@) ==> final(self).spec_user_count() + 1 == old(self).spec_user_count(),
            has_member(old(self).spec_tree(), user_id@) && member_path(old(self).spec_tree(), user_id@).len() == 0 ==> (res matches Ok(out)
                && out@.len() == 0) && final(self).spec_tree() == Map::<Seq<bool>, NodeView>::empty(),
            has_member(old(self).spec_tree(), user_id@) && member_path(old(self).spec_tree(), user_id@).len() > 0 && res is Ok ==> final(self).spec_tree() == renewed(
                remove_leaf(old(self).spec_tree(), member_path(old(self).spec_tree(), user_id@)),
                member_path(old(self).spec_tree(), user_id@).drop_last(),
                fresh.parent_key_id,
                seqs_view(fresh.keys@),
            ),
            has_member(old(self).spec_tree(), user_id@) && member_path(old(self).spec_tree(), user_id@).len() > 0 ==> (res matches Ok(out) ==> realizes_all(
                final(self).spec_algorithm(),
                final(self).spec_tree(),
                out@,
                renewal_plan(final(self).spec_tree(), member_path(old(self).spec_tree(), user_id@).drop_last(), seqs_view(fresh.ivs@)),
            )),
            has_member(old(self).spec_tree(), user_id@) && member_path(old(self).spec_tree(), user_id@).len() > 0 ==> (res is Ok
                <==> !remove_seals_fail(old(self).spec_tree(), member_path(old(self).spec_tree(), user_id@), fresh.parent_key_id, seqs_view(fresh.keys@), seqs_view(fresh.ivs@))),
            res matches Err(e) ==> e == Error::EncryptError,
            forall|u: Seq<char>| has_member(old(self).spec_tree(), u) && u != user_id@ ==> #[trigger] final(self).spec_channel(u) == old(self).spec_channel(u),
            final(self).spec_draw_failures() == old(self).spec_draw_failures(),
    {
        let ghost m = self.tree@;
        let ghost alg = self.algorithm;
        proof {
            lemma_tree_shape(&self.tree);
        }
        let node_id = match self.tree.get_user_node(user_id) {
            Some(id) => id,
            None => {
                assert(!has_member(m, user_id@));
                return Ok(Vec::new());
            },
        };
        let ghost q = path_of_id(node_id as nat);
        proof {
            let qm = member_path(m, user_id@);
            assert(m.contains_key(q) && m[q].user == Some(user_id@));
            assert(has_member(m, user_id@));
            assert(qm == q);
            assert(is_leaf(m, q)) by {
                if m.contains_key(q.push(false)) {
                    assert(m[q].user is None);
                }
            }
        }
        let ghost tr0 = self.tree;
        let merged = self.tree.merge_nodes(node_id);
        if merged == 0 {
            proof {
                assert forall|p: Seq<bool>| #[trigger] m.contains_key(p) implies p =~= Seq::<bool>::empty() by {
                    if p.len() > 0 {
                        assert(p.subrange(0, 0) =~= Seq::<bool>::empty());
                        lemma_prefix_of_leaf(m, seq![], p);
                    }
                }
                crate::tree::lemma_id_of_path_of(node_id as nat);
                assert(q.len() == 0) by {
                    if q.len() > 0 {
                        assert(node_id > 1);
                    }
                }
                assert(node_id == 1);
                assert forall|u: Seq<char>| has_member(m, u) && u != user_id@ implies false by {
                    let p0 = choose|p: Seq<bool>| #[trigger] m.contains_key(p) && m[p].user == Some(u);
                    assert(p0 =~= Seq::<bool>::empty());
                    assert(q =~= Seq::<bool>::empty());
                }
            }
            return Ok(Vec::new());
        }
        proof {
            crate::tree::lemma_id_of_path_of(node_id as nat);
            assert(q.len() > 0) by {
                if q.len() == 0 {
                    assert(node_id == 1);
                }
            }
            lemma_tree_shape(&self.tree);
            lemma_inv_remove(m, q, alg);
            let pa = q.drop_last();
            lemma_path_of_id_of(pa);
            lemma_remove_leaf_get(m, q, pa);
            assert(has_prefix(pa, pa)) by {
                assert(pa.subrange(0, pa.len() as int) =~= pa);
            }
            assert(origin(q, pa) =~= pa.push(!q.last()));
            assert(q =~= pa.push(q.last()));
            if q.last() {
                assert(m.contains_key(pa.push(false)));
            } else {
                assert(m.contains_key(pa.push(true)));
            }
            assert(self.tree@.contains_key(pa));
            assert(path_of_id(merged as nat) == pa);
            let m2 = self.tree@;
            assert forall|u: Seq<char>| has_member(m, u) && u != user_id@ implies #[trigger] has_member(m2, u) by {
                let p = choose|p: Seq<bool>| #[trigger] m.contains_key(p) && m[p].user == Some(u);
                lemma_member_kept(m, q, p);
            }
        }
        let ghost m2 = self.tree@;
        let ghost tr2 = self.tree;
        let res = self.update_keys(merged, fresh);
        proof {
            let m3 = self.tree@;
            lemma_tree_shape(&self.tree);
            assert forall|u: Seq<char>| has_member(m, u) && u != user_id@ implies #[trigger] self.spec_channel(u) == tr0.channel(member_path(m, u)) by {
                let p0 = member_path(m, u);
                assert(m.contains_key(p0) && m[p0].user == Some(u));
                let pa = q.drop_last();
                assert(q =~= pa.push(q.last()));
                assert(p0 != q);
                assert(p0 != pa) by {
                    if p0 == pa {
                        if q.last() {
                            assert(m.contains_key(pa.push(false)));
                        }
                        assert(m.contains_key(pa.push(false)));
                    }
                }
                if has_prefix(p0, pa) {
                    lemma_below_parent(m, q, p0);
                }
                crate::sync::lemma_paths_after_removal(q, p0, p0);
                let y = crate::sync::placed_after_removal(q, p0);
                lemma_remove_leaf_get(m, q, y);
                assert(m2.contains_key(y) && m2[y].user == Some(u));
                assert(tr2.channel(y) == tr0.channel(p0));
                assert(m3.contains_key(y) && m3[y].user == Some(u));
                lemma_member_path_unique(m3, alg, y, u);
            }
            assert forall|u: Seq<char>| #[trigger] has_member(m3, u) implies has_member(m2, u) by {
                let p = choose|p: Seq<bool>| #[trigger] m3.contains_key(p) && m3[p].user == Some(u);
                assert(m2.contains_key(p));
            }
            assert forall|u: Seq<char>| has_member(m2, u) implies #[trigger] has_member(m3, u) by {
                let p = choose|p: Seq<bool>| #[trigger] m2.contains_key(p) && m2[p].user == Some(u);
                assert(m3.contains_key(p));
            }
        }
        res
    }

    /// Whether `user_id` is a member.
    pub fn contains_user(&self, user_id: &String) -> (res: bool)
        requires
            self.well_formed(),
        ensures
            res == has_member(self.spec_tree(), user_id@),
    {
        match self.tree.get_user_node(user_id) {
            Some(id) => true,
            None => false,
        }
    }

    /// Adds the member `user_id`, whose private channel is `send`, with a
    /// fresh random leaf key, and renews the keys on its path with fresh
    /// random keys. Fails with `RekeyingError`, changing nothing, when the
    /// tree has no room left or no randomness can be had, and with
    /// `EncryptError` when the cipher fails.
    #[verifier::rlimit(40)]
    pub fn add_user(&mut self, user_id: String, send: S) -> (res: Result<Vec<Outbound>, Error>)
        requires
            old(self).well_formed(),
        ensures
            final(self).well_formed(),
            final(self).spec_algorithm() == old(self).spec_algorithm(),
            (res matches Err(e) && e == Error::RekeyingError) ==> final(self).spec_tree() == old(self).spec_tree()
                && final(self).spec_user_count() == old(self).spec_user_count(),
            !(res matches Err(e) && e == Error::RekeyingError) ==> final(self).spec_user_count() == old(self).spec_user_count() + 1
                && has_member(final(self).spec_tree(), user_id@)
                && forall|u: Seq<char>| #[trigger] has_member(old(self).spec_tree(), u) ==> has_member(final(self).spec_tree(), u),
            !(res matches Err(e) && e == Error::RekeyingError) ==> forall|u: Seq<char>| #[trigger] has_member(final(self).spec_tree(), u)
                ==> has_member(old(self).spec_tree(), u) || u == user_id@,
            res matches Ok(out) ==> exists|key: Seq<u8>, key_id: u64, parent_key_id: u64, keys: Seq<Seq<u8>>, ivs: Seq<Seq<u8>>|
                {
                    &&& key.len() == spec_key_len(final(self).spec_algorithm())
                    &&& final(self).spec_tree() == renewed(
                        with_member(old(self).spec_tree(), old(self).spec_shallowest(), (NodeView { id: 0, key: key, key_id: key_id, user: Some(user_id@), depth: 0 })),
                        new_leaf_path(old(self).spec_tree(), old(self).spec_shallowest()),
                        parent_key_id,
                        keys,
                    )
                    &&& realizes_all(
                        final(self).spec_algorithm(),
                        final(self).spec_tree(),
                        out@,
                        renewal_plan(final(self).spec_tree(), new_leaf_path(old(self).spec_tree(), old(self).spec_shallowest()), ivs),
                    )
                },
            has_member(old(self).spec_tree(), user_id@) ==> (res matches Err(e) && e == Error::RekeyingError),
            (res matches Err(e) && e == Error::EncryptError) ==> exists|key: Seq<u8>, key_id: u64, parent_key_id: u64, keys: Seq<Seq<u8>>, ivs: Seq<Seq<u8>>|
                key.len() == spec_key_len(final(self).spec_algorithm()) && #[trigger] add_seals_fail(
                    old(self).spec_tree(),
                    old(self).spec_shallowest(),
                    user_id@,
                    key,
                    key_id,
                    parent_key_id,
                    keys,
                    ivs,
                ),
            res matches Err(e) ==> e == Error::RekeyingError || e == Error::EncryptError,
            !(res matches Err(e) && e == Error::RekeyingError) ==> final(self).spec_channel(user_id@) == Some(send)
                && forall|u: Seq<char>| #[trigger] has_member(old(self).spec_tree(), u) ==> final(self).spec_channel(u) == old(self).spec_channel(u),
            final(self).spec_draw_failures() >= old(self).spec_draw_failures(),
            (res matches Err(e) && e == Error::RekeyingError) && !has_member(old(self).spec_tree(), user_id@) && !(old(self).spec_tree().contains_key(seq![])
                && old(self).spec_shallowest().len() >= MAX_DEPTH) ==> final(self).spec_draw_failures() > old(self).spec_draw_failures(),
    {
        let ghost f0 = self.random.failures();
        let len: usize = match self.tree.shallowest_depth() {
            Some(d) => {
                if d >= MAX_DEPTH {
                    return Err(Error::RekeyingError);
                }
                d as usize + 2
            },
            None => 1,
        };
        let key_len = self.algorithm.key_len();
        let key = match self.random.bytes(key_len) {
            Some(k) => k,
            None => return Err(Error::RekeyingError),
        };
        let key_id = match random_key_id(&mut self.random) {
            Some(k) => k,
            None => return Err(Error::RekeyingError),
        };
        let fresh = match draw_fresh(&mut self.random, self.algorithm, len) {
            Some(f) => f,
            None => return Err(Error::RekeyingError),
        };
        assert(self.random.failures() == f0);
        assert(self.tree == old(self).tree);
        assert(self.spec_tree() == old(self).spec_tree());
        assert(self.spec_shallowest() == old(self).spec_shallowest());
        let ghost kv = key@;
        let ghost m0 = self.tree@;
        let ghost s0 = self.tree.spec_shallowest();
        let ghost user_id_v = user_id@;
        let res = self.add_user_with(user_id, send, key, key_id, &fresh);
        proof {
            if res matches Err(e) && e == Error::EncryptError {
                let keys = seqs_view(fresh.keys@);
                let ivs = seqs_view(fresh.ivs@);
                let t = new_leaf_path(m0, s0);
                let mm = renewed(
                    with_member(m0, s0, (NodeView { id: 0, key: kv, key_id: key_id, user: Some(user_id_v), depth: 0 })),
                    t,
                    fresh.parent_key_id,
                    keys,
                );
                assert(!seals_ok(mm, renewal_plan(mm, t, ivs)));
                assert(add_seals_fail(m0, s0, user_id_v, kv, key_id, fresh.parent_key_id, keys, ivs));
            }
            if res is Ok {
                let keys = seqs_view(fresh.keys@);
                let ivs = seqs_view(fresh.ivs@);
                assert(self.tree@ == renewed(
                    with_member(m0, s0, (NodeView { id: 0, key: kv, key_id: key_id, user: Some(user_id_v), depth: 0 })),
                    new_leaf_path(m0, s0),
                    fresh.parent_key_id,
                    keys,
                ));
            }
        }
        res
    }

    /// Removes the member `user_id` and renews the keys on the path from its
    /// parent's place to the root with fresh random keys. Removing a member
    /// that is not there changes nothing. Fails with `RekeyingError`,
    /// changing nothing, when no randomness can be had, and with
    /// `EncryptError` when the cipher fails (the member is gone even then).
    pub fn remove_user(&mut self, user_id: &String) -> (res: Result<Vec<Outbound>, Error>)
        requires
            old(self).well_formed(),
        ensures
            final(self).well_formed(),
            final(self).spec_algorithm() == old(self).spec_algorithm(),
            forall|u: Seq<char>| #[trigger] has_member(final(self).spec_tree(), u) ==> has_member(old(self).spec_tree(), u),
            (res matches Err(e) && e == Error::RekeyingError) ==> final(self).spec_tree() == old(self).spec_tree(),
            !(res matches Err(e) && e == Error::RekeyingError) ==> !has_member(final(self).spec_tree(), user_id@)
                && forall|u: Seq<char>| has_member(old(self).spec_tree(), u) && u != user_id@ ==> #[trigger] has_member(final(self).spec_tree(), u),
            !has_member(old(self).spec_tree(), user_id@) ==> (res matches Ok(out) && out@.len() == 0) && final(self).spec_tree() == old(self).spec_tree(),
            has_member(old(self).spec_tree(), user_id@) && !(res matches Err(e) && e == Error::RekeyingError) ==> final(self).spec_user_count() + 1 == old(self).spec_user_count(),
            has_member(old(self).spec_tree(), user_id@) && member_path(old(self).spec_tree(), user_id@).len() > 0 ==> (res matches Ok(out) ==> exists|parent_key_id: u64, keys: Seq<Seq<u8>>, ivs: Seq<Seq<u8>>|
                {
                    &&& final(self).spec_tree() == renewed(
                        remove_leaf(old(self).spec_tree(), member_path(old(self).spec_tree(), user_id@)),
                        member_path(old(self).spec_tree(), user_id@).drop_last(),
                        parent_key_id,
                        keys,
                    )
                    &&& realizes_all(
                        final(self).spec_algorithm(),
                        final(self).spec_tree(),
                        out@,
                        renewal_plan(final(self).spec_tree(), member_path(old(self).spec_tree(), user_id@).drop_last(), ivs),
                    )
                }),
            has_member(old(self).spec_tree(), user_id@) && member_path(old(self).spec_tree(), user_id@).len() == 0 ==> (res matches Ok(out)
                && out@.len() == 0) && final(self).spec_tree() == Map::<Seq<bool>, NodeView>::empty(),
            (res matches Err(e) && e == Error::EncryptError) ==> has_member(old(self).spec_tree(), user_id@) && exists|parent_key_id: u64, keys: Seq<Seq<u8>>, ivs: Seq<Seq<u8>>|
                #[trigger] remove_seals_fail(old(self).spec_tree(), member_path(old(self).spec_tree(), user_id@), parent_key_id, keys, ivs),
            res matches Err(e) ==> e == Error::RekeyingError || e == Error::EncryptError,
            !(res matches Err(e) && e == Error::RekeyingError) ==> forall|u: Seq<char>| has_member(old(self).spec_tree(), u) && u != user_id@
                ==> #[trigger] final(self).spec_channel(u) == old(self).spec_channel(u),
            final(self).spec_draw_failures() >= old(self).spec_draw_failures(),
            (res matches Err(e) && e == Error::RekeyingError) ==> final(self).spec_draw_failures() > old(self).spec_draw_failures(),
    {
        let ghost m = self.tree@;
        proof {
            lemma_tree_shape(&self.tree);
        }
        let len: usize = match self.tree.get_user_node(user_id) {
            Some(id) => match self.tree.get_node_by_id(id) {
                Some(n) => n.depth as usize,
                None => 0,
            },
            None => 0,
        };
        proof {
            if !has_member(m, user_id@) {
                assert(len == 0);
            }
            if has_member(m, user_id@) {
                let q = member_path(m, user_id@);
                assert(len == q.len());
            }
        }
        let fresh = if len == 0 {
            FreshKeys { parent_key_id: 0, keys: Vec::new(), ivs: Vec::new() }
        } else {
            match draw_fresh(&mut self.random, self.algorithm, len) {
                Some(f) => f,
                None => return Err(Error::RekeyingError),
            }
        };
        assert(self.tree@ == m);
        assert(self.well_formed());
        let res = self.remove_user_with(user_id, &fresh);
        proof {
            if res matches Err(e) && e == Error::EncryptError {
                assert(m == old(self).spec_tree());
                assert(has_member(m, user_id@));
                assert(member_path(m, user_id@).len() > 0);
                assert(remove_seals_fail(m, member_path(m, user_id@), fresh.parent_key_id, seqs_view(fresh.keys@), seqs_view(fresh.ivs@)));
            }
            if res is Ok && has_member(m, user_id@) && member_path(m, user_id@).len() > 0 {
                let keys = seqs_view(fresh.keys@);
                let q = member_path(m, user_id@);
                assert(self.tree@ == renewed(remove_leaf(m, q), q.drop_last(), fresh.parent_key_id, keys));
            }
        }
        res
    }

    /// The key tree.
    pub fn tree(&self) -> (res: &Tree<S>)
        ensures
            res@ == self.spec_tree(),
            self.well_formed() ==> res.well_formed(),
    {
        &self.tree
    }

    /// The cipher in use.
    pub fn algorithm(&self) -> (res: Algorithm)
        ensures
            res == self.spec_algorithm(),
    {
        self.algorithm
    }

    /// The member `user_id`, with its private channel.
    pub fn user(&self, user_id: &String) -> (res: Option<&User<S>>)
        requires
            self.well_formed(),
        ensures
            match res {
                Some(u) => u.user_id@ == user_id@ && has_member(self.spec_tree(), user_id@) && self.spec_channel(user_id@) == Some(u.send),
                None => !has_member(self.spec_tree(), user_id@),
            },
    {
        proof {
            lemma_tree_shape(&self.tree);
        }
        match self.tree.get_user_node(user_id) {
            Some(id) => match self.tree.get_node_by_id(id) {
                Some(n) => {
                    proof {
                        lemma_member_path_unique(self.tree@, self.algorithm, path_of_id(id as nat), user_id@);
                    }
                    n.user.as_ref()
                },
                None => None,
            },
            None => None,
        }
    }

    /// The text form of the server: number of members, algorithm, tree.
    pub fn describe(&self) -> (res: String)
        requires
            self.well_formed(),
        ensures
            res@ == "LKH Tree of "@ + decimal(self.spec_user_count()) + " users using ["@ + "AES-GCM-256"@ + "] : \n"@ + render_tree(self.spec_tree()),
    {
        let mut s = String::from_str("LKH Tree of ");
        s.append(decimal_string(self.tree.get_user_count()).as_str());
        s.append(" users using [");
        s.append(self.algorithm.name());
        s.append("] : \n");
        s.append(self.tree.render().as_str());
        s
    }

    /// Number of members.
    pub fn get_user_count(&self) -> (n: u64)
        requires
            self.well_formed(),
        ensures
            n == self.spec_user_count(),
    {
        self.tree.get_user_count()
    }
}

} // verus!
