//! What members learn from the messages of a key renewal: every member ends
//! up holding the keys of its whole path, the session key among them.
use crate::algorithm::{MAX_CRYPTO_LEN, is_wrapping, lemma_unwrap_wrapping, spec_key_len, spec_unwrap, Algorithm};
use crate::bytes::{be_bytes, from_be, lemma_from_be_bytes};
use crate::lkh::{
    ancestor, group_plan, lemma_ancestor, lemma_unicast_plan, lemma_prefix_in_tree, lemma_prefix_of_leaf, level_plan, lkh_inv,
    node_update, realizes, realizes_all, renewal_plan, unicast_plan, Outbound, Planned,
};
use crate::member::{apply_update, spec_receive_group, spec_receive_single, MemberState};
use crate::node::NodeView;
use crate::packet::{decode, encode, lemma_decode_encode, KeyUpdate};
use crate::tree::{is_key_tree, is_leaf};
use vstd::prelude::*;

verus! {

/// What the member `user` makes of one message: every member takes in the
/// group messages, only the addressee a unicast one.
pub open spec fn receive_one(alg: Algorithm, st: MemberState, user: Seq<char>, o: Outbound) -> MemberState {
    match o {
        Outbound::Group(w) => spec_receive_group(alg, st, w@),
        Outbound::Unicast(u, b) => if u@ == user {
            spec_receive_single(st, b@)
        } else {
            st
        },
    }
}

/// What the member `user` makes of the messages `out`, in order.
pub open spec fn receive_all(alg: Algorithm, st: MemberState, user: Seq<char>, out: Seq<Outbound>) -> MemberState
    decreases out.len(),
{
    if out.len() == 0 {
        st
    } else {
        receive_one(alg, receive_all(alg, st, user, out.drop_last()), user, out.last())
    }
}

/// The member holds the key of the node at `p`, under its id.
pub open spec fn knows(st: MemberState, m: Map<Seq<bool>, NodeView>, p: Seq<bool>) -> bool {
    st.keys.contains_key(m[p].key_id) && st.keys[m[p].key_id] == m[p].key
}

/// `p` lies on the path from the root to `y`.
pub open spec fn is_prefix(p: Seq<bool>, y: Seq<bool>) -> bool {
    p.len() <= y.len() && y.subrange(0, p.len() as int) == p
}

/// No two nodes of `m` share a key id.
pub open spec fn distinct_key_ids(m: Map<Seq<bool>, NodeView>) -> bool {
    forall|p1: Seq<bool>, p2: Seq<bool>|
        #![trigger m[p1].key_id, m[p2].key_id]
        m.contains_key(p1) && m.contains_key(p2) && m[p1].key_id == m[p2].key_id ==> p1 == p2
}

/// Among the nodes of `m`, the member holds key ids of nodes of its own path
/// (the path to `y`) only.
pub open spec fn holds_only_path(st: MemberState, m: Map<Seq<bool>, NodeView>, y: Seq<bool>) -> bool {
    forall|p: Seq<bool>| #[trigger] m.contains_key(p) && st.keys.contains_key(m[p].key_id) ==> is_prefix(p, y)
}

/// The member holds no key id of a node of `m`.
pub open spec fn holds_none(st: MemberState, m: Map<Seq<bool>, NodeView>) -> bool {
    forall|p: Seq<bool>| #[trigger] m.contains_key(p) ==> !st.keys.contains_key(m[p].key_id)
}

/// The member at `y` is in step with the tree `m`: it holds the key of every
/// node of its path, holds under the key id of a node of `m` only that node's
/// key and only for the nodes of its path, and takes the root's key as its
/// session key.
pub open spec fn in_sync(st: MemberState, m: Map<Seq<bool>, NodeView>, y: Seq<bool>) -> bool {
    &&& forall|p: Seq<bool>| #[trigger] m.contains_key(p) && is_prefix(p, y) ==> knows(st, m, p)
    &&& forall|p: Seq<bool>|
        #[trigger] m.contains_key(p) && st.keys.contains_key(m[p].key_id) ==> st.keys[m[p].key_id] == m[p].key && is_prefix(p, y)
    &&& st.session == Some(m[seq![]].key_id)
}

/// Before a renewal of the path from `t`, the member at the leaf `y` holds
/// the keys of the nodes of its own path that the renewal leaves alone, holds
/// no wrong key for such a node, and holds the id of a renewed node only when
/// that node lies on its own path.
pub open spec fn member_ready(st: MemberState, m: Map<Seq<bool>, NodeView>, t: Seq<bool>, y: Seq<bool>) -> bool {
    &&& forall|p: Seq<bool>| #[trigger] m.contains_key(p) && is_prefix(p, y) && !is_prefix(p, t) ==> knows(st, m, p)
    &&& forall|p: Seq<bool>|
        #[trigger] m.contains_key(p) && !is_prefix(p, t) && st.keys.contains_key(m[p].key_id) ==> st.keys[m[p].key_id] == m[p].key
    &&& forall|p: Seq<bool>| #[trigger] m.contains_key(p) && is_prefix(p, t) && st.keys.contains_key(m[p].key_id) ==> is_prefix(p, y)
}

/// Taking in messages one list after another.
pub proof fn lemma_receive_all_concat(alg: Algorithm, st: MemberState, user: Seq<char>, a: Seq<Outbound>, b: Seq<Outbound>)
    ensures
        receive_all(alg, st, user, a + b) == receive_all(alg, receive_all(alg, st, user, a), user, b),
    decreases b.len(),
{
    if b.len() == 0 {
        assert(a + b =~= a);
    } else {
        assert((a + b).drop_last() =~= a + b.drop_last());
        assert((a + b).last() == b.last());
        lemma_receive_all_concat(alg, st, user, a, b.drop_last());
    }
}

/// A group message wrapped under the key of the node at `c` leaves a member
/// that does not hold that key id unchanged, and gives a member that holds the
/// right key the update it carries.
pub proof fn lemma_receive_wrapped(alg: Algorithm, st: MemberState, w: Seq<u8>, update: KeyUpdate, key: Seq<u8>, key_id: u64)
    requires
        is_wrapping(alg, w, encode(update), key, key_id),
        update.new_key.len() >= 1,
    ensures
        !st.keys.contains_key(key_id) ==> spec_receive_group(alg, st, w) == st,
        st.keys.contains_key(key_id) && st.keys[key_id] == key && key.len() <= MAX_CRYPTO_LEN && w.len() <= MAX_CRYPTO_LEN ==> spec_receive_group(alg, st, w) == apply_update(st, Some(update)),
{
    lemma_from_be_bytes(key_id);
    assert(from_be(w) == from_be(w.subrange(0, 8)));
    if st.keys.contains_key(key_id) && st.keys[key_id] == key && key.len() <= MAX_CRYPTO_LEN && w.len() <= MAX_CRYPTO_LEN {
        lemma_unwrap_wrapping(alg, w, encode(update), key, key_id, st.keys);
        lemma_decode_encode(update);
    }
}

/// The node at `p` is one of the nodes of the path from `t` that the renewal
/// announces at level `j` or above (level 0 being `t` itself).
pub open spec fn renewed_from(p: Seq<bool>, t: Seq<bool>, j: nat) -> bool {
    is_prefix(p, t) && p.len() + j <= t.len()
}

/// Where the member at `y` stands once the levels below `j` of a renewal of
/// the path from `t` went out: it holds the keys of its path but those still
/// to come, and every key it holds under the id of a node is that node's key,
/// but stale keys of nodes of its own path still to come.
#[verifier::opaque]
pub open spec fn progress(st: MemberState, m: Map<Seq<bool>, NodeView>, t: Seq<bool>, y: Seq<bool>, j: nat) -> bool {
    &&& forall|p: Seq<bool>| #[trigger] m.contains_key(p) && is_prefix(p, y) && !renewed_from(p, t, j) ==> knows(st, m, p)
    &&& forall|p: Seq<bool>|
        #[trigger] m.contains_key(p) && st.keys.contains_key(m[p].key_id) ==> st.keys[m[p].key_id] == m[p].key
            || (renewed_from(p, t, j) && is_prefix(p, y))
}

/// Taking in the same update twice is taking it in once.
proof fn lemma_apply_twice(st: MemberState, u: KeyUpdate)
    ensures
        apply_update(apply_update(st, Some(u)), Some(u)) == apply_update(st, Some(u)),
{
    assert(apply_update(apply_update(st, Some(u)), Some(u)).keys =~= apply_update(st, Some(u)).keys);
}

/// A leaf on the path from `t` is `t` itself.
proof fn lemma_leaf_on_path(m: Map<Seq<bool>, NodeView>, t: Seq<bool>, y: Seq<bool>)
    requires
        is_key_tree(m),
        m.contains_key(t),
        is_leaf(m, y),
        is_prefix(y, t),
    ensures
        y == t,
{
    if y.len() < t.len() {
        lemma_prefix_of_leaf(m, y, t);
    } else {
        assert(y =~= t);
    }
}

/// What one group message of the plan does to a member whose keys are those
/// of the tree.
proof fn lemma_group_message(alg: Algorithm, m: Map<Seq<bool>, NodeView>, st: MemberState, user: Seq<char>, o: Outbound, c: Seq<bool>, u: KeyUpdate, iv: Seq<u8>)
    requires
        realizes(alg, m, o, Planned::GroupTo { child: c, update: u, iv: iv }),
        u.new_key.len() >= 1,
        st.keys.contains_key(m[c].key_id) ==> st.keys[m[c].key_id] == m[c].key && m[c].key.len() <= MAX_CRYPTO_LEN
            && u.new_key.len() <= spec_key_len(alg),
    ensures
        receive_one(alg, st, user, o) == if st.keys.contains_key(m[c].key_id) {
            apply_update(st, Some(u))
        } else {
            st
        },
{
    match o {
        Outbound::Group(w) => {
            lemma_receive_wrapped(alg, st, w@, u, m[c].key, m[c].key_id);
        },
        Outbound::Unicast(_, _) => {},
    }
}

/// Two messages, one after the other.
proof fn lemma_receive_two(alg: Algorithm, st: MemberState, user: Seq<char>, out: Seq<Outbound>)
    requires
        out.len() == 2,
    ensures
        receive_all(alg, st, user, out) == receive_one(alg, receive_one(alg, st, user, out[0]), user, out[1]),
{
    let d = out.drop_last();
    assert(d.drop_last() =~= Seq::<Outbound>::empty());
    assert(receive_all(alg, st, user, d.drop_last()) == st);
    assert(receive_all(alg, st, user, d) == receive_one(alg, st, user, out[0]));
}

/// Two prefixes of `t` of one length are one node.
proof fn lemma_same_prefix(t: Seq<bool>, p: Seq<bool>, q: Seq<bool>)
    requires
        is_prefix(p, t),
        is_prefix(q, t),
        p.len() == q.len(),
    ensures
        p == q,
{
    assert(p =~= q);
}

/// Once the level `j` of the path from `t` went out, the member either took
/// in the announcement of the node `p` of that level or did not; it did when
/// `p` lies on its own path. Either way it moved on to the next level.
proof fn lemma_progress_step(m: Map<Seq<bool>, NodeView>, t: Seq<bool>, y: Seq<bool>, st: MemberState, st2: MemberState, j: nat, p: Seq<bool>)
    requires
        distinct_key_ids(m),
        m.contains_key(p),
        p == ancestor(t, j),
        j <= t.len(),
        progress(st, m, t, y, j),
        st2 == st || st2 == apply_update(st, Some(node_update(m, p))),
        is_prefix(p, y) ==> st2 == apply_update(st, Some(node_update(m, p))),
    ensures
        progress(st2, m, t, y, j + 1),
{
    reveal(progress);
    lemma_ancestor(t, j);
    assert forall|q: Seq<bool>| #[trigger] m.contains_key(q) && renewed_from(q, t, j) && !renewed_from(q, t, j + 1) implies q == p by {
        lemma_same_prefix(t, p, q);
    }
    assert forall|q: Seq<bool>| #[trigger] m.contains_key(q) && is_prefix(q, y) && !renewed_from(q, t, j + 1) implies knows(st2, m, q) by {
        if q != p {
            assert(m[q].key_id != m[p].key_id);
        }
    }
    assert forall|q: Seq<bool>|
        #[trigger] m.contains_key(q) && st2.keys.contains_key(m[q].key_id) implies st2.keys[m[q].key_id] == m[q].key
            || (renewed_from(q, t, j + 1) && is_prefix(q, y)) by {
        if q != p {
            assert(m[q].key_id != m[p].key_id);
        }
    }
}

/// The root, once a leaf, is every node.
proof fn lemma_root_leaf(m: Map<Seq<bool>, NodeView>, q: Seq<bool>)
    requires
        is_key_tree(m),
        is_leaf(m, Seq::<bool>::empty()),
        m.contains_key(q),
    ensures
        q == Seq::<bool>::empty(),
{
    if q.len() > 0 {
        assert(q.subrange(0, 0) =~= Seq::<bool>::empty());
        lemma_prefix_of_leaf(m, Seq::<bool>::empty(), q);
    }
}

/// The two messages of one level, to the holders of the keys of the children
/// `c0` and `c1` of a node, carrying that node's update `u`: a member whose
/// keys for the children are right takes `u` in once if it holds either.
proof fn lemma_level_pair(alg: Algorithm, m: Map<Seq<bool>, NodeView>, out: Seq<Outbound>, st: MemberState, user: Seq<char>, pl: Seq<Planned>, c0: Seq<bool>, c1: Seq<bool>, u: KeyUpdate)
    requires
        out.len() == 2,
        pl.len() == 2,
        realizes(alg, m, out[0], pl[0]),
        realizes(alg, m, out[1], pl[1]),
        pl[0] matches Planned::GroupTo { child, update, iv } && child == c0 && update == u,
        pl[1] matches Planned::GroupTo { child, update, iv } && child == c1 && update == u,
        u.new_key.len() >= 1,
        m[c1].key_id != u.new_key_id,
        st.keys.contains_key(m[c0].key_id) ==> st.keys[m[c0].key_id] == m[c0].key,
        st.keys.contains_key(m[c1].key_id) ==> st.keys[m[c1].key_id] == m[c1].key,
        m[c0].key.len() <= MAX_CRYPTO_LEN,
        m[c1].key.len() <= MAX_CRYPTO_LEN,
        u.new_key.len() <= spec_key_len(alg),
    ensures
        receive_all(alg, st, user, out) == if st.keys.contains_key(m[c0].key_id) || st.keys.contains_key(m[c1].key_id) {
            apply_update(st, Some(u))
        } else {
            st
        },
{
    lemma_receive_two(alg, st, user, out);
    let st1 = receive_one(alg, st, user, out[0]);
    let iv0 = pl[0]->GroupTo_iv;
    let iv1 = pl[1]->GroupTo_iv;
    lemma_group_message(alg, m, st, user, out[0], c0, u, iv0);
    if st.keys.contains_key(m[c0].key_id) {
        assert(st1.keys.contains_key(m[c1].key_id) == st.keys.contains_key(m[c1].key_id));
        lemma_group_message(alg, m, st1, user, out[1], c1, u, iv1);
        lemma_apply_twice(st, u);
    } else {
        lemma_group_message(alg, m, st, user, out[1], c1, u, iv1);
    }
}

/// The child of `p` on the way down to `y`.
proof fn lemma_child_toward(p: Seq<bool>, y: Seq<bool>)
    requires
        is_prefix(p, y),
        p != y,
    ensures
        p.len() < y.len(),
        is_prefix(p.push(y[p.len() as int]), y),
{
    if p.len() == y.len() {
        assert(p =~= y);
    }
    assert(y.subrange(0, p.len() as int + 1) =~= p.push(y[p.len() as int]));
}

/// A level whose node has no children sends nothing, and that node is not on
/// the member's path.
proof fn lemma_level_childless(m: Map<Seq<bool>, NodeView>, t: Seq<bool>, y: Seq<bool>, st: MemberState, j: nat)
    requires
        is_key_tree(m),
        distinct_key_ids(m),
        m.contains_key(t),
        is_leaf(m, y),
        y != t,
        j <= t.len(),
        progress(st, m, t, y, j),
        !m.contains_key(ancestor(t, j).push(false)),
    ensures
        progress(st, m, t, y, j + 1),
        j < t.len(),
{
    let p = ancestor(t, j);
    lemma_ancestor(t, j);
    lemma_prefix_in_tree(m, t, p);
    assert(!is_prefix(p, y)) by {
        if is_prefix(p, y) {
            if p.len() < y.len() {
                lemma_prefix_of_leaf(m, p, y);
            } else {
                assert(p =~= y);
                lemma_leaf_on_path(m, t, y);
            }
        }
    }
    assert(j < t.len()) by {
        if j == t.len() {
            lemma_root_leaf(m, y);
            lemma_root_leaf(m, t);
        }
    }
    lemma_progress_step(m, t, y, st, st, j, p);
}

/// A level whose node has children: the member takes the node's update in
/// when the node lies on its path, and at most that in any case.
proof fn lemma_level_children(alg: Algorithm, m: Map<Seq<bool>, NodeView>, t: Seq<bool>, ivs: Seq<Seq<u8>>, out: Seq<Outbound>, y: Seq<bool>, st: MemberState, j: nat)
    requires
        lkh_inv(m, alg),
        distinct_key_ids(m),
        m.contains_key(t),
        is_leaf(m, y),
        y != t,
        j <= t.len(),
        progress(st, m, t, y, j),
        m.contains_key(ancestor(t, j).push(false)),
        realizes_all(alg, m, out, level_plan(m, t, ivs, j)),
    ensures
        ({
            let st2 = receive_all(alg, st, m[y].user.unwrap(), out);
            let ap = apply_update(st, Some(node_update(m, ancestor(t, j))));
            let p = ancestor(t, j);
            &&& st2 == if st.keys.contains_key(m[p.push(false)].key_id) || st.keys.contains_key(m[p.push(true)].key_id) {
                ap
            } else {
                st
            }
            &&& is_prefix(p, y) ==> st2 == ap
        }),
{
    reveal(progress);
    let user = m[y].user.unwrap();
    let p = ancestor(t, j);
    lemma_ancestor(t, j);
    lemma_prefix_in_tree(m, t, p);
    let u = node_update(m, p);
    let c0 = p.push(false);
    let c1 = p.push(true);
    assert(m.contains_key(c1));
    assert(u.new_key.len() >= 1);
    let pl = level_plan(m, t, ivs, j);
    assert(realizes(alg, m, out[0], pl[0]));
    assert(realizes(alg, m, out[1], pl[1]));
    assert(!renewed_from(c0, t, j));
    assert(!renewed_from(c1, t, j));
    assert(m[c1].key_id != m[p].key_id);
    lemma_level_pair(alg, m, out, st, user, pl, c0, c1, u);
    if is_prefix(p, y) {
        assert(p != y) by {
            if p == y {
                lemma_leaf_on_path(m, t, y);
            }
        }
        lemma_child_toward(p, y);
        let c = p.push(y[p.len() as int]);
        lemma_prefix_in_tree(m, y, c);
        assert(!renewed_from(c, t, j));
        assert(knows(st, m, c));
        if y[p.len() as int] {
            assert(c == c1);
        } else {
            assert(c == c0);
        }
    }
}

/// One level of the group messages of a renewal brings the member one level
/// further; the session key id changes with the root's level only.
proof fn lemma_level(alg: Algorithm, m: Map<Seq<bool>, NodeView>, t: Seq<bool>, ivs: Seq<Seq<u8>>, out: Seq<Outbound>, y: Seq<bool>, st: MemberState, j: nat)
    requires
        lkh_inv(m, alg),
        distinct_key_ids(m),
        m.contains_key(t),
        is_leaf(m, y),
        y != t,
        j <= t.len(),
        progress(st, m, t, y, j),
        realizes_all(alg, m, out, level_plan(m, t, ivs, j)),
    ensures
        progress(receive_all(alg, st, m[y].user.unwrap(), out), m, t, y, j + 1),
        j < t.len() ==> receive_all(alg, st, m[y].user.unwrap(), out).session == st.session,
        j == t.len() ==> receive_all(alg, st, m[y].user.unwrap(), out).session == Some(m[seq![]].key_id),
        holds_only_path(st, m, y) ==> holds_only_path(receive_all(alg, st, m[y].user.unwrap(), out), m, y),
{
    let user = m[y].user.unwrap();
    let p = ancestor(t, j);
    lemma_ancestor(t, j);
    lemma_prefix_in_tree(m, t, p);
    let st2 = receive_all(alg, st, user, out);
    let root = Seq::<bool>::empty();
    if !m.contains_key(p.push(false)) {
        assert(out.len() == 0);
        lemma_level_childless(m, t, y, st, j);
    } else {
        lemma_level_children(alg, m, t, ivs, out, y, st, j);
        let u = node_update(m, p);
        lemma_progress_step(m, t, y, st, st2, j, p);
        assert(t.subrange(0, 0) =~= root);
        lemma_prefix_in_tree(m, t, root);
        assert(u.is_session_key <==> p == root) by {
            if p != root {
                assert(m[p].key_id != m[root].key_id);
            }
        }
        if j == t.len() {
            assert(p =~= root);
            assert(is_prefix(root, y)) by {
                assert(y.subrange(0, 0) =~= root);
            }
        }
        if p == root {
            assert(p.len() == 0);
        }
        if holds_only_path(st, m, y) && st2 != st {
            let c = if st.keys.contains_key(m[p.push(false)].key_id) { p.push(false) } else { p.push(true) };
            assert(m.contains_key(c) && st.keys.contains_key(m[c].key_id));
            assert(is_prefix(p, y)) by {
                assert(is_prefix(c, y));
                assert(y.subrange(0, p.len() as int) =~= y.subrange(0, c.len() as int).subrange(0, p.len() as int));
                assert(c.subrange(0, p.len() as int) =~= p);
            }
            assert forall|q: Seq<bool>| #[trigger] m.contains_key(q) && st2.keys.contains_key(m[q].key_id) implies is_prefix(q, y) by {
                if q != p {
                    assert(m[q].key_id != m[p].key_id);
                }
            }
        }
    }
}

/// Messages planned as two plans one after the other.
proof fn lemma_realizes_split(alg: Algorithm, m: Map<Seq<bool>, NodeView>, out: Seq<Outbound>, a: Seq<Planned>, b: Seq<Planned>)
    requires
        realizes_all(alg, m, out, a + b),
    ensures
        realizes_all(alg, m, out.subrange(0, a.len() as int), a),
        realizes_all(alg, m, out.subrange(a.len() as int, out.len() as int), b),
        out == out.subrange(0, a.len() as int) + out.subrange(a.len() as int, out.len() as int),
{
    let n1 = a.len() as int;
    let out1 = out.subrange(0, n1);
    let out2 = out.subrange(n1, out.len() as int);
    assert forall|i: int| 0 <= i < out1.len() implies realizes(alg, m, #[trigger] out1[i], a[i]) by {
        assert(out1[i] == out[i]);
        assert((a + b)[i] == a[i]);
    }
    assert forall|i: int| 0 <= i < out2.len() implies realizes(alg, m, #[trigger] out2[i], b[i]) by {
        assert(out2[i] == out[n1 + i]);
        assert((a + b)[n1 + i] == b[i]);
    }
    assert(out =~= out1 + out2);
}

/// The levels below `k` of the group messages of a renewal bring a ready
/// member to level `k`; the session key id is set with the root's level.
proof fn lemma_levels(alg: Algorithm, m: Map<Seq<bool>, NodeView>, t: Seq<bool>, ivs: Seq<Seq<u8>>, out: Seq<Outbound>, y: Seq<bool>, st: MemberState, k: nat)
    requires
        lkh_inv(m, alg),
        distinct_key_ids(m),
        m.contains_key(t),
        is_leaf(m, y),
        y != t,
        k <= t.len() + 1,
        progress(st, m, t, y, 0),
        realizes_all(alg, m, out, group_plan(m, t, ivs, k)),
    ensures
        progress(receive_all(alg, st, m[y].user.unwrap(), out), m, t, y, k),
        k <= t.len() ==> receive_all(alg, st, m[y].user.unwrap(), out).session == st.session,
        k == t.len() + 1 ==> receive_all(alg, st, m[y].user.unwrap(), out).session == Some(m[seq![]].key_id),
        holds_only_path(st, m, y) ==> holds_only_path(receive_all(alg, st, m[y].user.unwrap(), out), m, y),
    decreases k,
{
    let user = m[y].user.unwrap();
    if k == 0 {
        assert(out.len() == 0);
    } else {
        let g = group_plan(m, t, ivs, (k - 1) as nat);
        let lv = level_plan(m, t, ivs, (k - 1) as nat);
        let out1 = out.subrange(0, g.len() as int);
        let out2 = out.subrange(g.len() as int, out.len() as int);
        assert(group_plan(m, t, ivs, k) == g + lv);
        lemma_realizes_split(alg, m, out, g, lv);
        lemma_receive_all_concat(alg, st, user, out1, out2);
        lemma_levels(alg, m, t, ivs, out1, y, st, (k - 1) as nat);
        lemma_level(alg, m, t, ivs, out2, y, receive_all(alg, st, user, out1), (k - 1) as nat);
    }
}

/// Whether a planned message goes to the holders of the key of a node of `m`
/// and carries a key.
pub open spec fn group_to_node(m: Map<Seq<bool>, NodeView>, pl: Planned) -> bool {
    pl matches Planned::GroupTo { child, update, iv } && m.contains_key(child) && update.new_key.len() >= 1
}

/// Whether a planned message goes to the holders of the key of a child of a
/// node of the path to `t`.
pub open spec fn hangs_off_path(t: Seq<bool>, pl: Planned) -> bool {
    pl matches Planned::GroupTo { child, update, iv } && child.len() > 0 && is_prefix(child.drop_last(), t)
}

/// The messages of one level go to holders of keys of nodes of the tree.
proof fn lemma_level_plan_shape(m: Map<Seq<bool>, NodeView>, t: Seq<bool>, ivs: Seq<Seq<u8>>, j: nat)
    requires
        is_key_tree(m),
        forall|p: Seq<bool>| #[trigger] m.contains_key(p) ==> m[p].key.len() >= 1,
        m.contains_key(t),
        j <= t.len(),
    ensures
        forall|i: int| 0 <= i < level_plan(m, t, ivs, j).len() ==> group_to_node(m, #[trigger] level_plan(m, t, ivs, j)[i]),
        forall|i: int| 0 <= i < level_plan(m, t, ivs, j).len() ==> hangs_off_path(t, #[trigger] level_plan(m, t, ivs, j)[i]),
{
    let p = ancestor(t, j);
    lemma_ancestor(t, j);
    lemma_prefix_in_tree(m, t, p);
    if m.contains_key(p.push(false)) {
        assert(m.contains_key(p.push(true)));
        assert(p.push(false).drop_last() =~= p);
        assert(p.push(true).drop_last() =~= p);
        assert(is_prefix(p, t));
    }
}

/// The group messages of a renewal go to holders of keys of nodes of the
/// tree.
pub(crate) proof fn lemma_group_plan_shape(m: Map<Seq<bool>, NodeView>, t: Seq<bool>, ivs: Seq<Seq<u8>>, k: nat)
    requires
        is_key_tree(m),
        forall|p: Seq<bool>| #[trigger] m.contains_key(p) ==> m[p].key.len() >= 1,
        m.contains_key(t),
        k <= t.len() + 1,
    ensures
        forall|i: int| 0 <= i < group_plan(m, t, ivs, k).len() ==> group_to_node(m, #[trigger] group_plan(m, t, ivs, k)[i]),
        forall|i: int| 0 <= i < group_plan(m, t, ivs, k).len() ==> hangs_off_path(t, #[trigger] group_plan(m, t, ivs, k)[i]),
    decreases k,
{
    if k > 0 {
        let g = group_plan(m, t, ivs, (k - 1) as nat);
        let lv = level_plan(m, t, ivs, (k - 1) as nat);
        lemma_group_plan_shape(m, t, ivs, (k - 1) as nat);
        lemma_level_plan_shape(m, t, ivs, (k - 1) as nat);
        assert(group_plan(m, t, ivs, k) == g + lv);
        assert forall|i: int| 0 <= i < (g + lv).len() implies group_to_node(m, #[trigger] (g + lv)[i]) && hangs_off_path(t, (g + lv)[i]) by {
            if i < g.len() {
                assert((g + lv)[i] == g[i]);
            } else {
                assert((g + lv)[i] == lv[i - g.len()]);
            }
        }
    }
}

/// Group messages wrapped under keys of nodes of the tree leave a member that
/// holds no such key as it is.
proof fn lemma_group_ignored(alg: Algorithm, m: Map<Seq<bool>, NodeView>, out: Seq<Outbound>, plan: Seq<Planned>, st: MemberState, user: Seq<char>)
    requires
        realizes_all(alg, m, out, plan),
        forall|i: int| 0 <= i < plan.len() ==> group_to_node(m, #[trigger] plan[i]),
        holds_none(st, m),
    ensures
        receive_all(alg, st, user, out) == st,
    decreases out.len(),
{
    if out.len() > 0 {
        let n = out.len() - 1;
        let d = out.drop_last();
        let pd = plan.drop_last();
        assert forall|i: int| 0 <= i < d.len() implies realizes(alg, m, #[trigger] d[i], pd[i]) by {
            assert(d[i] == out[i]);
        }
        assert forall|i: int| 0 <= i < pd.len() implies group_to_node(m, #[trigger] pd[i]) by {
            assert(pd[i] == plan[i]);
        }
        lemma_group_ignored(alg, m, d, pd, st, user);
        assert(realizes(alg, m, out[n], plan[n]));
        assert(group_to_node(m, plan[n]));
        match plan[n] {
            Planned::GroupTo { child, update, iv } => {
                lemma_group_message(alg, m, st, user, out[n], child, update, iv);
            },
            Planned::UnicastTo { user: u, update } => {},
        }
    }
}

/// Unicast messages to another member leave a member as it is.
proof fn lemma_unicasts_elsewhere(alg: Algorithm, m: Map<Seq<bool>, NodeView>, t: Seq<bool>, u: Seq<char>, out: Seq<Outbound>, user: Seq<char>, st: MemberState, k: nat)
    requires
        u != user,
        realizes_all(alg, m, out, unicast_plan(m, t, u, k)),
    ensures
        receive_all(alg, st, user, out) == st,
    decreases k,
{
    if k > 0 {
        let pl = unicast_plan(m, t, u, (k - 1) as nat);
        let d = out.drop_last();
        assert forall|i: int| 0 <= i < d.len() implies realizes(alg, m, #[trigger] d[i], pl[i]) by {
            assert(d[i] == out[i]);
        }
        lemma_unicasts_elsewhere(alg, m, t, u, d, user, st, (k - 1) as nat);
        lemma_unicast_plan(m, t, u, k);
        assert(realizes(alg, m, out[out.len() - 1], unicast_plan(m, t, u, k)[k - 1]));
    } else {
        assert(out.len() == 0);
    }
}

/// The unicast messages of the `k` lowest nodes of the path from `t` give
/// their addressee those nodes' keys, and the session key id with the root.
proof fn lemma_unicasts_here(alg: Algorithm, m: Map<Seq<bool>, NodeView>, t: Seq<bool>, u: Seq<char>, out: Seq<Outbound>, st: MemberState, k: nat)
    requires
        is_key_tree(m),
        forall|p: Seq<bool>| #[trigger] m.contains_key(p) ==> m[p].key.len() >= 1,
        distinct_key_ids(m),
        m.contains_key(t),
        k <= t.len() + 1,
        realizes_all(alg, m, out, unicast_plan(m, t, u, k)),
    ensures
        forall|i: nat| i < k ==> knows(receive_all(alg, st, u, out), m, #[trigger] ancestor(t, i)),
        k == t.len() + 1 ==> receive_all(alg, st, u, out).session == Some(m[seq![]].key_id),
        forall|id: u64|
            #[trigger] receive_all(alg, st, u, out).keys.contains_key(id) && !st.keys.contains_key(id) ==> exists|i: nat|
                i < k && m[#[trigger] ancestor(t, i)].key_id == id,
    decreases k,
{
    if k > 0 {
        let pl = unicast_plan(m, t, u, (k - 1) as nat);
        let d = out.drop_last();
        assert forall|i: int| 0 <= i < d.len() implies realizes(alg, m, #[trigger] d[i], pl[i]) by {
            assert(d[i] == out[i]);
        }
        lemma_unicasts_here(alg, m, t, u, d, st, (k - 1) as nat);
        let st1 = receive_all(alg, st, u, d);
        let a = ancestor(t, (k - 1) as nat);
        lemma_ancestor(t, (k - 1) as nat);
        lemma_prefix_in_tree(m, t, a);
        let upd = node_update(m, a);
        lemma_unicast_plan(m, t, u, k);
        assert(realizes(alg, m, out[out.len() - 1], unicast_plan(m, t, u, k)[k - 1]));
        lemma_decode_encode(upd);
        let st2 = receive_all(alg, st, u, out);
        assert(st2 == apply_update(st1, Some(upd)));
        assert forall|i: nat| i < k implies knows(st2, m, #[trigger] ancestor(t, i)) by {
            if i < k - 1 {
                lemma_ancestor(t, i);
                lemma_prefix_in_tree(m, t, ancestor(t, i));
                assert(knows(st1, m, ancestor(t, i)));
                assert(ancestor(t, i) != a);
                assert(m[ancestor(t, i)].key_id != m[a].key_id);
            }
        }
        if k == t.len() + 1 {
            assert(a =~= Seq::<bool>::empty());
        }
        assert forall|id: u64| #[trigger] st2.keys.contains_key(id) && !st.keys.contains_key(id) implies exists|i: nat|
            i < k && m[#[trigger] ancestor(t, i)].key_id == id by {
            if id == m[a].key_id {
                assert(m[ancestor(t, (k - 1) as nat)].key_id == id);
            } else {
                assert(st1.keys.contains_key(id));
                let i = choose|i: nat| i < k - 1 && m[#[trigger] ancestor(t, i)].key_id == id;
                assert(m[ancestor(t, i)].key_id == id);
            }
        }
    } else {
        assert(out.len() == 0);
    }
}

/// A member ready for a renewal is at its first level.
proof fn lemma_ready_progress(m: Map<Seq<bool>, NodeView>, t: Seq<bool>, y: Seq<bool>, st: MemberState)
    requires
        member_ready(st, m, t, y),
    ensures
        progress(st, m, t, y, 0),
{
    reveal(progress);
}

/// Delivery of a renewal: once the messages of a renewal of the path from `t`
/// reach the members, the member at any leaf `y` holds the key of every node
/// of its path and takes the root's key as its session key, provided that it
/// was ready for the renewal (or is the member at `t` itself, which is told
/// its whole path in clear) and that no two nodes share a key id.
pub proof fn lemma_renewal_delivers(alg: Algorithm, m: Map<Seq<bool>, NodeView>, t: Seq<bool>, ivs: Seq<Seq<u8>>, out: Seq<Outbound>, y: Seq<bool>, st: MemberState)
    requires
        lkh_inv(m, alg),
        distinct_key_ids(m),
        m.contains_key(t),
        is_leaf(m, y),
        realizes_all(alg, m, out, renewal_plan(m, t, ivs)),
        y != t ==> member_ready(st, m, t, y),
    ensures
        forall|p: Seq<bool>| #[trigger] m.contains_key(p) && is_prefix(p, y) ==> knows(receive_all(alg, st, m[y].user.unwrap(), out), m, p),
        receive_all(alg, st, m[y].user.unwrap(), out).session == Some(m[seq![]].key_id),
        y != t && holds_only_path(st, m, y) ==> in_sync(receive_all(alg, st, m[y].user.unwrap(), out), m, y),
        y == t && holds_none(st, m) ==> in_sync(receive_all(alg, st, m[y].user.unwrap(), out), m, y),
{
    reveal(progress);
    let user = m[y].user.unwrap();
    let k = t.len() + 1;
    let g = group_plan(m, t, ivs, k);
    let up = match m[t].user {
        Some(u) => unicast_plan(m, t, u, k),
        None => Seq::<Planned>::empty(),
    };
    let out1 = out.subrange(0, g.len() as int);
    let out2 = out.subrange(g.len() as int, out.len() as int);
    assert(renewal_plan(m, t, ivs) == g + up);
    lemma_realizes_split(alg, m, out, g, up);
    lemma_receive_all_concat(alg, st, user, out1, out2);
    let st1 = receive_all(alg, st, user, out1);
    if y != t {
        lemma_ready_progress(m, t, y, st);
        lemma_levels(alg, m, t, ivs, out1, y, st, k);
        match m[t].user {
            Some(u) => {
                assert(u != user) by {
                    if u == user {
                        assert(m[t].user == m[y].user);
                    }
                }
                lemma_unicasts_elsewhere(alg, m, t, u, out2, user, st1, k);
            },
            None => {
                assert(out2.len() == 0);
            },
        }
        assert(progress(st1, m, t, y, k));
    } else {
        let u = m[t].user.unwrap();
        lemma_unicasts_here(alg, m, t, u, out2, st1, k);
        let st2 = receive_all(alg, st1, user, out2);
        assert forall|p: Seq<bool>| #[trigger] m.contains_key(p) && is_prefix(p, y) implies knows(st2, m, p) by {
            let i = (t.len() - p.len()) as nat;
            assert(ancestor(t, i) =~= p);
        }
        if holds_none(st, m) {
            lemma_group_plan_shape(m, t, ivs, k);
            lemma_group_ignored(alg, m, out1, g, st, user);
            assert forall|p: Seq<bool>| #[trigger] m.contains_key(p) && st2.keys.contains_key(m[p].key_id) implies st2.keys[m[p].key_id]
                == m[p].key && is_prefix(p, y) by {
                let id = m[p].key_id;
                assert(!st1.keys.contains_key(id));
                let i = choose|i: nat| i < k && m[#[trigger] ancestor(t, i)].key_id == id;
                lemma_ancestor(t, i);
                lemma_prefix_in_tree(m, t, ancestor(t, i));
                assert(p == ancestor(t, i));
                assert(knows(st2, m, ancestor(t, i)));
            }
        }
    }
}

} // verus!
