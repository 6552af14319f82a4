//! Members stay in step with the key tree: a member in step with the tree
//! before a change of membership is ready for the renewal that follows it,
//! and once the renewal's messages reach it, it is in step with the new tree.
//! A removed member, for its part, holds none of the keys the renewal's
//! messages are wrapped under.
use crate::delivery::{hangs_off_path, lemma_group_plan_shape, holds_none, holds_only_path, in_sync, is_prefix, knows, lemma_renewal_delivers, member_ready, distinct_key_ids, receive_all};
use crate::lkh::{group_plan, unicast_plan, Planned, lemma_below_parent, lemma_origin_child, lemma_prefix_in_tree, lemma_prefix_of_leaf, lkh_inv, new_leaf_path, realizes_all, renewal_plan, renewed, with_member, Outbound};
use crate::algorithm::Algorithm;
use crate::member::MemberState;
use crate::node::NodeView;
use crate::tree::{has_prefix, is_key_tree, is_leaf, lemma_remove_leaf_get, origin, remove_leaf, split_leaf};
use vstd::prelude::*;

verus! {

/// Where the member at `y0` stands once the leaf at `s` is split: the member
/// at `s` moves down to its left child, every other member stays.
pub open spec fn placed_after_split(s: Seq<bool>, y0: Seq<bool>) -> Seq<bool> {
    if y0 == s {
        s.push(false)
    } else {
        y0
    }
}

/// The tree `m0` once the leaf at `s` is split for `nv` and the path of the
/// new leaf is renewed with the key id `pk` for its parent and `keys`.
#[verifier::opaque]
pub open spec fn split_and_renewed(m0: Map<Seq<bool>, NodeView>, s: Seq<bool>, nv: NodeView, pk: u64, keys: Seq<Seq<u8>>) -> Map<Seq<bool>, NodeView> {
    renewed(split_leaf(m0, s, nv), s.push(true), pk, keys)
}

/// The nodes of the tree once the leaf at `s` of `m0` is split and the new
/// leaf's path renewed: what each holds, by where it stood.
proof fn lemma_split_renewed(m0: Map<Seq<bool>, NodeView>, s: Seq<bool>, nv: NodeView, pk: u64, keys: Seq<Seq<u8>>, p: Seq<bool>)
    requires
        is_leaf(m0, s),
        !m0.contains_key(s.push(true)),
    ensures
        split_and_renewed(m0, s, nv, pk, keys).contains_key(p) == (m0.contains_key(p) || p == s.push(false) || p == s.push(true)),
        split_and_renewed(m0, s, nv, pk, keys).contains_key(p) && !is_prefix(p, s.push(true)) && p != s.push(false) ==> m0.contains_key(p)
            && p != s && split_and_renewed(m0, s, nv, pk, keys)[p].key == m0[p].key && split_and_renewed(m0, s, nv, pk, keys)[p].key_id
            == m0[p].key_id && split_and_renewed(m0, s, nv, pk, keys)[p].user == m0[p].user,
        p == s.push(false) ==> split_and_renewed(m0, s, nv, pk, keys)[p].key == m0[s].key && split_and_renewed(m0, s, nv, pk, keys)[p].key_id
            == m0[s].key_id && split_and_renewed(m0, s, nv, pk, keys)[p].user == m0[s].user && !is_prefix(p, s.push(true)),
        split_and_renewed(m0, s, nv, pk, keys).contains_key(p) && is_prefix(p, s.push(true)) && p != s.push(true) && p != s ==> m0.contains_key(p)
            && split_and_renewed(m0, s, nv, pk, keys)[p].key_id == m0[p].key_id && is_prefix(p, s),
        p == s ==> split_and_renewed(m0, s, nv, pk, keys)[p].key_id == pk,
        p == s.push(true) ==> split_and_renewed(m0, s, nv, pk, keys)[p].key_id == nv.key_id,
{
    reveal(split_and_renewed);
    let t = s.push(true);
    let l = s.push(false);
    let m1 = split_leaf(m0, s, nv);
    assert(l != t) by {
        assert(l[l.len() - 1] != t[t.len() - 1]);
    }
    assert(t.drop_last() =~= s);
    assert(!m0.contains_key(l));
    assert(s != l && s != t) by {
        assert(l.len() != s.len());
    }
    assert(is_prefix(s, t)) by {
        assert(t.subrange(0, s.len() as int) =~= s);
    }
    assert(is_prefix(t, t)) by {
        assert(t.subrange(0, t.len() as int) =~= t);
    }
    if is_prefix(p, t) && p != t {
        assert(p.len() <= s.len()) by {
            if p.len() == t.len() {
                assert(p =~= t);
            }
        }
        assert(is_prefix(p, s)) by {
            assert(s.subrange(0, p.len() as int) =~= t.subrange(0, p.len() as int));
        }
    }
    if p == l {
        assert(!is_prefix(p, t)) by {
            if is_prefix(p, t) {
                assert(t.subrange(0, p.len() as int) =~= t);
            }
        }
    }
    if is_prefix(p, t) && p != t && p != s {
        assert(p.len() < s.len()) by {
            if p.len() == s.len() {
                assert(p =~= s);
            }
        }
        assert(p != l);
    }
}

/// The core of `lemma_ready_after_add`, from the facts of the tree's shape
/// that it uses.
proof fn lemma_ready_after_split(m0: Map<Seq<bool>, NodeView>, s: Seq<bool>, nv: NodeView, pk: u64, keys: Seq<Seq<u8>>, st: MemberState, y0: Seq<bool>)
    requires
        is_leaf(m0, s),
        is_leaf(m0, y0),
        !m0.contains_key(s.push(true)),
        is_prefix(s, y0) ==> y0 == s,
        is_prefix(y0, s) ==> y0 == s,
        y0 == s ==> !m0.contains_key(s.push(false).push(false)),
        in_sync(st, m0, y0),
        !st.keys.contains_key(pk),
        !st.keys.contains_key(nv.key_id),
    ensures
        member_ready(st, split_and_renewed(m0, s, nv, pk, keys), s.push(true), placed_after_split(s, y0)),
        holds_only_path(st, split_and_renewed(m0, s, nv, pk, keys), placed_after_split(s, y0)),
        is_leaf(split_and_renewed(m0, s, nv, pk, keys), placed_after_split(s, y0)),
        split_and_renewed(m0, s, nv, pk, keys)[placed_after_split(s, y0)].user == m0[y0].user,
        placed_after_split(s, y0) != s.push(true),
{
    let m = split_and_renewed(m0, s, nv, pk, keys);
    let t = s.push(true);
    let l = s.push(false);
    let y = placed_after_split(s, y0);
    assert(l != t) by {
        assert(l[l.len() - 1] != t[t.len() - 1]);
    }
    lemma_split_renewed(m0, s, nv, pk, keys, y);
    lemma_split_renewed(m0, s, nv, pk, keys, y.push(false));
    assert(y0 != s ==> !is_prefix(y0, t)) by {
        if y0 != s && is_prefix(y0, t) {
            if y0 == t {
            } else {
                assert(is_prefix(y0, s)) by {
                    assert(y0.len() < t.len()) by {
                        if y0.len() == t.len() {
                            assert(y0 =~= t);
                        }
                    }
                    assert(s.subrange(0, y0.len() as int) =~= t.subrange(0, y0.len() as int));
                }
            }
        }
    }
    assert(y.push(false) != l && y.push(false) != t) by {
        if y == l {
            assert(y.push(false).len() != l.len());
        } else {
            if y.push(false) == l || y.push(false) == t {
                assert(y =~= y.push(false).drop_last());
                assert(s =~= l.drop_last());
                assert(s =~= t.drop_last());
            }
        }
    }
    assert forall|p: Seq<bool>| #[trigger] m.contains_key(p) && is_prefix(p, y) && !is_prefix(p, t) implies knows(st, m, p) by {
        lemma_split_renewed(m0, s, nv, pk, keys, p);
        if p == l {
            assert(is_prefix(s, y0)) by {
                assert(y0.subrange(0, s.len() as int) =~= s);
            }
        } else if y0 == s {
            assert(is_prefix(p, s)) by {
                assert(p.len() <= s.len()) by {
                    if p.len() == l.len() {
                        assert(p =~= l);
                    }
                }
                assert(s.subrange(0, p.len() as int) =~= l.subrange(0, p.len() as int));
            }
            assert(is_prefix(p, t)) by {
                assert(t.subrange(0, p.len() as int) =~= s.subrange(0, p.len() as int));
            }
        }
    }
    assert forall|p: Seq<bool>|
        #[trigger] m.contains_key(p) && !is_prefix(p, t) && st.keys.contains_key(m[p].key_id) implies st.keys[m[p].key_id] == m[p].key by {
        lemma_split_renewed(m0, s, nv, pk, keys, p);
    }
    assert forall|p: Seq<bool>| #[trigger] m.contains_key(p) && st.keys.contains_key(m[p].key_id) implies is_prefix(p, y) by {
        lemma_split_renewed(m0, s, nv, pk, keys, p);
        if is_prefix(p, t) {
            if p != t && p != s {
                assert(is_prefix(p, y0));
                if y0 == s {
                    assert(y.subrange(0, p.len() as int) =~= s.subrange(0, p.len() as int));
                }
            }
        } else if p == l {
            assert(is_prefix(s, y0));
            assert(y == l);
            assert(y.subrange(0, p.len() as int) =~= y);
        } else {
            assert(is_prefix(p, y0));
            if y0 == s {
                assert(is_prefix(p, s));
                assert(is_prefix(p, t)) by {
                    assert(t.subrange(0, p.len() as int) =~= s.subrange(0, p.len() as int));
                }
            }
        }
    }
}

/// A member in step with the tree before a member is added stays put, or
/// moves down one level when its leaf is the one split, and is then ready for
/// the renewal of the new leaf's path: provided that the new leaf's key id and
/// the new key id of its parent are not ids the member holds.
pub proof fn lemma_ready_after_add(m0: Map<Seq<bool>, NodeView>, s: Seq<bool>, nv: NodeView, pk: u64, keys: Seq<Seq<u8>>, st: MemberState, y0: Seq<bool>)
    requires
        is_key_tree(m0),
        is_leaf(m0, s),
        is_leaf(m0, y0),
        in_sync(st, m0, y0),
        !st.keys.contains_key(pk),
        !st.keys.contains_key(nv.key_id),
    ensures
        member_ready(st, split_and_renewed(m0, s, nv, pk, keys), s.push(true), placed_after_split(s, y0)),
        holds_only_path(st, split_and_renewed(m0, s, nv, pk, keys), placed_after_split(s, y0)),
        is_leaf(split_and_renewed(m0, s, nv, pk, keys), placed_after_split(s, y0)),
        split_and_renewed(m0, s, nv, pk, keys)[placed_after_split(s, y0)].user == m0[y0].user,
        placed_after_split(s, y0) != s.push(true),
{
    let l = s.push(false);
    assert(m0.contains_key(s.push(true)) == m0.contains_key(s.push(false)));
    assert(is_prefix(s, y0) ==> y0 == s) by {
        if is_prefix(s, y0) && y0 != s {
            if s.len() < y0.len() {
                lemma_prefix_of_leaf(m0, s, y0);
            } else {
                assert(s =~= y0);
            }
        }
    }
    assert(is_prefix(y0, s) ==> y0 == s) by {
        if is_prefix(y0, s) && y0 != s {
            if y0.len() < s.len() {
                lemma_prefix_of_leaf(m0, y0, s);
            } else {
                assert(s =~= y0);
            }
        }
    }
    if y0 == s {
        assert(!m0.contains_key(l.push(false))) by {
            assert(l.push(false).subrange(0, s.len() as int) =~= s);
            lemma_prefix_of_leaf(m0, s, l.push(false));
        }
    }
    lemma_ready_after_split(m0, s, nv, pk, keys, st, y0);
}

/// The tree after an add, as the key server states it, is the split tree
/// renewed.
proof fn lemma_with_member_split(m0: Map<Seq<bool>, NodeView>, s: Seq<bool>, nv: NodeView, pk: u64, keys: Seq<Seq<u8>>)
    requires
        m0.contains_key(seq![]),
    ensures
        renewed(with_member(m0, s, nv), new_leaf_path(m0, s), pk, keys) == split_and_renewed(m0, s, nv, pk, keys),
        new_leaf_path(m0, s) == s.push(true),
{
    reveal(split_and_renewed);
}

/// Adding a member keeps the others in step: a member in step with the tree
/// before the add, once the messages of the renewal reach it, is in step with
/// the new tree at its new place, provided that no two nodes of the new tree
/// share a key id and that the member holds neither of the two fresh key ids.
pub proof fn lemma_add_keeps_members_in_sync(
    alg: Algorithm,
    m0: Map<Seq<bool>, NodeView>,
    s: Seq<bool>,
    nv: NodeView,
    pk: u64,
    keys: Seq<Seq<u8>>,
    ivs: Seq<Seq<u8>>,
    out: Seq<Outbound>,
    y0: Seq<bool>,
    st: MemberState,
)
    requires
        is_key_tree(m0),
        m0.contains_key(seq![]),
        is_leaf(m0, s),
        lkh_inv(renewed(with_member(m0, s, nv), new_leaf_path(m0, s), pk, keys), alg),
        distinct_key_ids(renewed(with_member(m0, s, nv), new_leaf_path(m0, s), pk, keys)),
        realizes_all(
            alg,
            renewed(with_member(m0, s, nv), new_leaf_path(m0, s), pk, keys),
            out,
            renewal_plan(renewed(with_member(m0, s, nv), new_leaf_path(m0, s), pk, keys), new_leaf_path(m0, s), ivs),
        ),
        is_leaf(m0, y0),
        in_sync(st, m0, y0),
        !st.keys.contains_key(pk),
        !st.keys.contains_key(nv.key_id),
    ensures
        in_sync(
            receive_all(alg, st, m0[y0].user.unwrap(), out),
            renewed(with_member(m0, s, nv), new_leaf_path(m0, s), pk, keys),
            placed_after_split(s, y0),
        ),
{
    lemma_with_member_split(m0, s, nv, pk, keys);
    let m = split_and_renewed(m0, s, nv, pk, keys);
    let y = placed_after_split(s, y0);
    lemma_ready_after_add(m0, s, nv, pk, keys, st, y0);
    lemma_renewal_delivers(alg, m, s.push(true), ivs, out, y, st);
}

/// Adding a member brings it in step: the new member, holding no key id of
/// the new tree, is in step with it once the messages of the renewal reach
/// it, provided that no two nodes of the new tree share a key id.
pub proof fn lemma_add_brings_member_in_sync(
    alg: Algorithm,
    m0: Map<Seq<bool>, NodeView>,
    s: Seq<bool>,
    nv: NodeView,
    pk: u64,
    keys: Seq<Seq<u8>>,
    ivs: Seq<Seq<u8>>,
    out: Seq<Outbound>,
    st: MemberState,
)
    requires
        lkh_inv(renewed(with_member(m0, s, nv), new_leaf_path(m0, s), pk, keys), alg),
        distinct_key_ids(renewed(with_member(m0, s, nv), new_leaf_path(m0, s), pk, keys)),
        realizes_all(
            alg,
            renewed(with_member(m0, s, nv), new_leaf_path(m0, s), pk, keys),
            out,
            renewal_plan(renewed(with_member(m0, s, nv), new_leaf_path(m0, s), pk, keys), new_leaf_path(m0, s), ivs),
        ),
        is_key_tree(m0),
        m0.contains_key(seq![]) ==> is_leaf(m0, s),
        holds_none(st, renewed(with_member(m0, s, nv), new_leaf_path(m0, s), pk, keys)),
    ensures
        in_sync(
            receive_all(alg, st, renewed(with_member(m0, s, nv), new_leaf_path(m0, s), pk, keys)[new_leaf_path(m0, s)].user.unwrap(), out),
            renewed(with_member(m0, s, nv), new_leaf_path(m0, s), pk, keys),
            new_leaf_path(m0, s),
        ),
{
    let m = renewed(with_member(m0, s, nv), new_leaf_path(m0, s), pk, keys);
    let t = new_leaf_path(m0, s);
    if m0.contains_key(seq![]) {
        lemma_with_member_split(m0, s, nv, pk, keys);
        assert(m0.contains_key(s.push(true)) == m0.contains_key(s.push(false)));
        assert(!m0.contains_key(t.push(false))) by {
            assert(t.push(false).subrange(0, s.len() as int) =~= s);
            lemma_prefix_of_leaf(m0, s, t.push(false));
        }
        assert(t.push(false) != s.push(false)) by {
            assert(t.push(false).len() != s.push(false).len());
        }
        assert(t.push(false) != t) by {
            assert(t.push(false).len() != t.len());
        }
        lemma_split_renewed(m0, s, nv, pk, keys, t);
        lemma_split_renewed(m0, s, nv, pk, keys, t.push(false));
    } else {
        assert(t == Seq::<bool>::empty());
        assert(!m.contains_key(t.push(false)));
    }
    lemma_renewal_delivers(alg, m, t, ivs, out, t, st);
}

/// Where the member at `y0` stands once the leaf at `q` is removed: the
/// members below the removed leaf's sibling move up one level, every other
/// member stays.
pub open spec fn placed_after_removal(q: Seq<bool>, y0: Seq<bool>) -> Seq<bool> {
    let pa = q.drop_last();
    let sib = pa.push(!q.last());
    if has_prefix(y0, sib) {
        pa + y0.subrange(sib.len() as int, y0.len() as int)
    } else {
        y0
    }
}

/// The tree `m0` once the leaf at `q` is removed and the path from its
/// parent's place renewed with the key id `pk` for the parent of that place
/// and `keys`.
#[verifier::opaque]
pub open spec fn removed_and_renewed(m0: Map<Seq<bool>, NodeView>, q: Seq<bool>, pk: u64, keys: Seq<Seq<u8>>) -> Map<Seq<bool>, NodeView> {
    renewed(remove_leaf(m0, q), q.drop_last(), pk, keys)
}

/// The nodes of the tree once a leaf is removed and the path renewed: each
/// holds the key, key id and member of the node it came from, but the
/// renewed keys of the path and the fresh key id of the place's parent.
proof fn lemma_removed_renewed(m0: Map<Seq<bool>, NodeView>, q: Seq<bool>, pk: u64, keys: Seq<Seq<u8>>, p: Seq<bool>)
    requires
        q.len() > 0,
        q.drop_last().len() > 0 ==> m0.contains_key(q.drop_last().drop_last()),
    ensures
        removed_and_renewed(m0, q, pk, keys).contains_key(p) == m0.contains_key(origin(q, p)),
        removed_and_renewed(m0, q, pk, keys).contains_key(p) ==> removed_and_renewed(m0, q, pk, keys)[p].user == m0[origin(q, p)].user,
        removed_and_renewed(m0, q, pk, keys).contains_key(p) && !is_prefix(p, q.drop_last()) ==> removed_and_renewed(m0, q, pk, keys)[p].key
            == m0[origin(q, p)].key && removed_and_renewed(m0, q, pk, keys)[p].key_id == m0[origin(q, p)].key_id,
        removed_and_renewed(m0, q, pk, keys).contains_key(p) && p == q.drop_last() ==> removed_and_renewed(m0, q, pk, keys)[p].key_id
            == m0[q.drop_last().push(!q.last())].key_id,
        q.drop_last().len() > 0 && p == q.drop_last().drop_last() ==> removed_and_renewed(m0, q, pk, keys)[p].key_id == pk,
        removed_and_renewed(m0, q, pk, keys).contains_key(p) && is_prefix(p, q.drop_last()) ==> removed_and_renewed(m0, q, pk, keys)[p].key
            == keys[q.drop_last().len() - p.len()],
        removed_and_renewed(m0, q, pk, keys).contains_key(p) && is_prefix(p, q.drop_last()) && p != q.drop_last() && (q.drop_last().len()
            == 0 || p != q.drop_last().drop_last()) ==> origin(q, p) == p && removed_and_renewed(m0, q, pk, keys)[p].key_id == m0[p].key_id,
{
    reveal(removed_and_renewed);
    let pa = q.drop_last();
    let sib = pa.push(!q.last());
    lemma_remove_leaf_get(m0, q, p);
    if p == pa {
        assert(has_prefix(p, pa)) by {
            assert(p.subrange(0, pa.len() as int) =~= pa);
        }
        assert(origin(q, p) =~= sib);
    }
    if is_prefix(p, pa) && p != pa {
        assert(p.len() < pa.len()) by {
            if p.len() == pa.len() {
                assert(p =~= pa);
            }
        }
        assert(!has_prefix(p, pa));
    }
    if pa.len() > 0 {
        let g = pa.drop_last();
        lemma_remove_leaf_get(m0, q, g);
        assert(!has_prefix(g, pa));
        assert(remove_leaf(m0, q).contains_key(g));
    }
}

/// How paths move when the leaf at `q` is removed: the member at `y0` (not
/// below the removed leaf's parent but through its sibling) goes to
/// `placed_after_removal(q, y0)`, which the nodes on its way come from.
pub(crate) proof fn lemma_paths_after_removal(q: Seq<bool>, y0: Seq<bool>, p: Seq<bool>)
    requires
        q.len() > 0,
        !has_prefix(y0, q.drop_last()) || has_prefix(y0, q.drop_last().push(!q.last())),
    ensures
        origin(q, placed_after_removal(q, y0)) == y0,
        is_prefix(p, placed_after_removal(q, y0)) && !is_prefix(p, q.drop_last()) ==> is_prefix(origin(q, p), y0),
        !is_prefix(p, q.drop_last()) && is_prefix(origin(q, p), y0) ==> is_prefix(p, placed_after_removal(q, y0)),
        is_prefix(q.drop_last().push(!q.last()), y0) ==> is_prefix(q.drop_last(), placed_after_removal(q, y0)),
        is_prefix(p, q.drop_last()) && is_prefix(p, y0) ==> is_prefix(p, placed_after_removal(q, y0)),
{
    let pa = q.drop_last();
    let sib = pa.push(!q.last());
    let y = placed_after_removal(q, y0);
    assert(sib.subrange(0, pa.len() as int) =~= pa);
    if has_prefix(y0, sib) {
        let r = y0.subrange(sib.len() as int, y0.len() as int);
        assert(y0 =~= sib + r);
        assert(y.subrange(0, pa.len() as int) =~= pa);
        assert(y.subrange(pa.len() as int, y.len() as int) =~= r);
        assert(has_prefix(y, pa));
        assert(origin(q, y) =~= y0);
        if is_prefix(p, y) && !is_prefix(p, pa) {
            assert(p.len() > pa.len()) by {
                if p.len() <= pa.len() {
                    assert(pa.subrange(0, p.len() as int) =~= y.subrange(0, p.len() as int));
                }
            }
            assert(p.subrange(0, pa.len() as int) =~= y.subrange(0, pa.len() as int));
            let rp = p.subrange(pa.len() as int, p.len() as int);
            assert(origin(q, p) =~= sib + rp);
            assert(y0.subrange(0, (sib + rp).len() as int) =~= sib + rp);
        }
        if !is_prefix(p, pa) && is_prefix(origin(q, p), y0) {
            if has_prefix(p, pa) {
                let rp = p.subrange(pa.len() as int, p.len() as int);
                assert(origin(q, p) =~= sib + rp);
                assert(p =~= pa + rp);
                assert(rp =~= r.subrange(0, rp.len() as int)) by {
                    assert(y0.subrange(0, (sib + rp).len() as int) =~= sib + rp);
                    assert forall|i: int| 0 <= i < rp.len() implies rp[i] == r[i] by {
                        assert(y0[sib.len() + i] == (sib + rp)[sib.len() + i]);
                    }
                }
                assert(y.subrange(0, p.len() as int) =~= p);
            } else {
                assert(origin(q, p) == p);
                if p.len() <= pa.len() {
                    assert(pa.subrange(0, p.len() as int) =~= y0.subrange(0, p.len() as int));
                    assert(is_prefix(p, pa));
                } else {
                    assert(y0.subrange(0, pa.len() as int) =~= pa);
                    assert(p.subrange(0, pa.len() as int) =~= y0.subrange(0, pa.len() as int));
                    assert(has_prefix(p, pa));
                }
            }
        }
        if is_prefix(p, pa) && is_prefix(p, y0) {
            assert(y.subrange(0, p.len() as int) =~= pa.subrange(0, p.len() as int));
        }
    } else {
        assert(!has_prefix(y0, pa));
        assert(origin(q, y0) == y0);
        if is_prefix(p, y) && !is_prefix(p, pa) {
            assert(!has_prefix(p, pa)) by {
                if has_prefix(p, pa) {
                    assert(y0.subrange(0, pa.len() as int) =~= p.subrange(0, pa.len() as int));
                }
            }
        }
        if !is_prefix(p, pa) && is_prefix(origin(q, p), y0) {
            if has_prefix(p, pa) {
                let rp = p.subrange(pa.len() as int, p.len() as int);
                let o = origin(q, p);
                assert(o =~= sib + rp);
                assert(y0.subrange(0, o.len() as int) == o);
                assert(y0.subrange(0, sib.len() as int) =~= o.subrange(0, sib.len() as int));
                assert(o.subrange(0, sib.len() as int) =~= sib);
                assert(has_prefix(y0, sib));
            }
        }
        if is_prefix(sib, y0) {
            assert(has_prefix(y0, sib));
        }
    }
}

/// The core of `lemma_ready_after_removal`, from the facts of the tree's
/// shape that it uses.
proof fn lemma_ready_after_removal_core(m0: Map<Seq<bool>, NodeView>, q: Seq<bool>, pk: u64, keys: Seq<Seq<u8>>, st: MemberState, y0: Seq<bool>)
    requires
        q.len() > 0,
        q.drop_last().len() > 0 ==> m0.contains_key(q.drop_last().drop_last()),
        !has_prefix(y0, q.drop_last()) || has_prefix(y0, q.drop_last().push(!q.last())),
        in_sync(st, m0, y0),
        q.drop_last().len() > 0 ==> !st.keys.contains_key(pk),
    ensures
        member_ready(st, removed_and_renewed(m0, q, pk, keys), q.drop_last(), placed_after_removal(q, y0)),
        holds_only_path(st, removed_and_renewed(m0, q, pk, keys), placed_after_removal(q, y0)),
{
    let m = removed_and_renewed(m0, q, pk, keys);
    let pa = q.drop_last();
    let sib = pa.push(!q.last());
    let y = placed_after_removal(q, y0);
    assert forall|p: Seq<bool>| #[trigger] m.contains_key(p) && is_prefix(p, y) && !is_prefix(p, pa) implies knows(st, m, p) by {
        lemma_removed_renewed(m0, q, pk, keys, p);
        lemma_paths_after_removal(q, y0, p);
        assert(knows(st, m0, origin(q, p)));
    }
    assert forall|p: Seq<bool>|
        #[trigger] m.contains_key(p) && !is_prefix(p, pa) && st.keys.contains_key(m[p].key_id) implies st.keys[m[p].key_id] == m[p].key by {
        lemma_removed_renewed(m0, q, pk, keys, p);
        assert(m0.contains_key(origin(q, p)));
    }
    assert forall|p: Seq<bool>| #[trigger] m.contains_key(p) && st.keys.contains_key(m[p].key_id) implies is_prefix(p, y) by {
        lemma_removed_renewed(m0, q, pk, keys, p);
        lemma_paths_after_removal(q, y0, p);
        if !is_prefix(p, pa) {
            assert(m0.contains_key(origin(q, p)));
        } else if p == pa {
            assert(origin(q, p) =~= sib) by {
                assert(p.subrange(0, pa.len() as int) =~= pa);
            }
            assert(m0.contains_key(sib));
        } else if pa.len() > 0 && p == pa.drop_last() {
        } else {
            assert(m0.contains_key(p));
        }
    }
}

/// A member in step with the tree before a member is removed (other than
/// the removed one and than the one whose leaf moves up into their parent's
/// place, which is told its path in clear) stays put, or moves up one level
/// when it lies below the removed leaf's sibling, and is then ready for the
/// renewal of the path from that place: provided that the fresh key id is not
/// one the member holds.
pub proof fn lemma_ready_after_removal(m0: Map<Seq<bool>, NodeView>, q: Seq<bool>, pk: u64, keys: Seq<Seq<u8>>, st: MemberState, y0: Seq<bool>)
    requires
        is_key_tree(m0),
        is_leaf(m0, q),
        q.len() > 0,
        is_leaf(m0, y0),
        y0 != q,
        placed_after_removal(q, y0) != q.drop_last(),
        in_sync(st, m0, y0),
        q.drop_last().len() > 0 ==> !st.keys.contains_key(pk),
    ensures
        member_ready(st, removed_and_renewed(m0, q, pk, keys), q.drop_last(), placed_after_removal(q, y0)),
        holds_only_path(st, removed_and_renewed(m0, q, pk, keys), placed_after_removal(q, y0)),
        is_leaf(removed_and_renewed(m0, q, pk, keys), placed_after_removal(q, y0)),
        removed_and_renewed(m0, q, pk, keys)[placed_after_removal(q, y0)].user == m0[y0].user,
{
    let pa = q.drop_last();
    let y = placed_after_removal(q, y0);
    assert(q =~= pa.push(q.last()));
    assert(m0.contains_key(pa));
    if pa.len() > 0 {
        assert(m0.contains_key(pa.drop_last()));
    }
    assert(y0 != pa) by {
        if y0 == pa {
            if q.last() {
                assert(m0.contains_key(pa.push(false)));
            }
        }
    }
    if has_prefix(y0, pa) {
        lemma_below_parent(m0, q, y0);
    }
    lemma_ready_after_removal_core(m0, q, pk, keys, st, y0);
    lemma_paths_after_removal(q, y0, y);
    lemma_removed_renewed(m0, q, pk, keys, y);
    lemma_removed_renewed(m0, q, pk, keys, y.push(false));
    lemma_origin_child(m0, q, y, false);
    lemma_remove_leaf_get(m0, q, y.push(false));
}

/// Removing a member keeps the others in step: once the messages of the
/// renewal reach them, every member in step with the tree before the removal
/// holds the key of every node of its path in the new tree, at its new place,
/// and takes the new root's key as its session key; each of them but the one
/// whose leaf moved up into the removed leaf's parent's place is in step with
/// the new tree. Provided that no two nodes of the new tree share a key id and
/// that the members do not hold the fresh key id.
pub proof fn lemma_remove_keeps_members_in_sync(
    alg: Algorithm,
    m0: Map<Seq<bool>, NodeView>,
    q: Seq<bool>,
    pk: u64,
    keys: Seq<Seq<u8>>,
    ivs: Seq<Seq<u8>>,
    out: Seq<Outbound>,
    y0: Seq<bool>,
    st: MemberState,
)
    requires
        is_key_tree(m0),
        is_leaf(m0, q),
        q.len() > 0,
        lkh_inv(renewed(remove_leaf(m0, q), q.drop_last(), pk, keys), alg),
        distinct_key_ids(renewed(remove_leaf(m0, q), q.drop_last(), pk, keys)),
        realizes_all(
            alg,
            renewed(remove_leaf(m0, q), q.drop_last(), pk, keys),
            out,
            renewal_plan(renewed(remove_leaf(m0, q), q.drop_last(), pk, keys), q.drop_last(), ivs),
        ),
        is_leaf(m0, y0),
        y0 != q,
        in_sync(st, m0, y0),
        q.drop_last().len() > 0 ==> !st.keys.contains_key(pk),
    ensures
        forall|p: Seq<bool>|
            #[trigger] renewed(remove_leaf(m0, q), q.drop_last(), pk, keys).contains_key(p) && is_prefix(p, placed_after_removal(q, y0))
                ==> knows(receive_all(alg, st, m0[y0].user.unwrap(), out), renewed(remove_leaf(m0, q), q.drop_last(), pk, keys), p),
        receive_all(alg, st, m0[y0].user.unwrap(), out).session == Some(renewed(remove_leaf(m0, q), q.drop_last(), pk, keys)[seq![]].key_id),
        placed_after_removal(q, y0) != q.drop_last() ==> in_sync(
            receive_all(alg, st, m0[y0].user.unwrap(), out),
            renewed(remove_leaf(m0, q), q.drop_last(), pk, keys),
            placed_after_removal(q, y0),
        ),
{
    reveal(removed_and_renewed);
    let m = removed_and_renewed(m0, q, pk, keys);
    let pa = q.drop_last();
    let sib = pa.push(!q.last());
    let y = placed_after_removal(q, y0);
    assert(q =~= pa.push(q.last()));
    assert(m0.contains_key(pa));
    assert(m0.contains_key(sib)) by {
        if q.last() {
            assert(m0.contains_key(pa.push(true)));
        } else {
            assert(m0.contains_key(pa.push(false)));
        }
    }
    lemma_removed_renewed(m0, q, pk, keys, pa);
    assert(origin(q, pa) =~= sib) by {
        assert(pa.subrange(0, pa.len() as int) =~= pa);
    }
    if y != pa {
        lemma_ready_after_removal(m0, q, pk, keys, st, y0);
    } else {
        assert(y0 != pa) by {
            if y0 == pa {
                if q.last() {
                    assert(m0.contains_key(pa.push(false)));
                }
            }
        }
        if has_prefix(y0, pa) {
            lemma_below_parent(m0, q, y0);
        }
        lemma_paths_after_removal(q, y0, y);
        lemma_removed_renewed(m0, q, pk, keys, y.push(false));
        lemma_origin_child(m0, q, y, false);
        lemma_remove_leaf_get(m0, q, y.push(false));
        lemma_removed_renewed(m0, q, pk, keys, y);
    }
    lemma_renewal_delivers(alg, m, pa, ivs, out, y, st);
}

/// A child of a node of the path to the removed leaf's parent that is not
/// itself on that path came from off the removed leaf's path.
proof fn lemma_off_removed_path(q: Seq<bool>, c: Seq<bool>)
    requires
        q.len() > 0,
        c.len() > 0,
        is_prefix(c.drop_last(), q.drop_last()),
        !is_prefix(c, q.drop_last()),
    ensures
        !is_prefix(origin(q, c), q),
{
    let pa = q.drop_last();
    let sib = pa.push(!q.last());
    let a = c.drop_last();
    assert(c =~= a.push(c.last()));
    if a.len() == pa.len() {
        assert(a =~= pa);
        assert(has_prefix(c, pa)) by {
            assert(c.subrange(0, pa.len() as int) =~= pa);
        }
        assert(origin(q, c).len() == pa.len() + 2);
    } else {
        assert(!has_prefix(c, pa)) by {
            if has_prefix(c, pa) {
                assert(c =~= pa);
                assert(pa.subrange(0, c.len() as int) =~= pa);
            }
        }
        assert(c[a.len() as int] != pa[a.len() as int]) by {
            if c[a.len() as int] == pa[a.len() as int] {
                assert(pa.subrange(0, c.len() as int) =~= c);
            }
        }
        if is_prefix(c, q) {
            assert(q[a.len() as int] == c[a.len() as int]);
            assert(q[a.len() as int] == pa[a.len() as int]);
        }
    }
}

/// Removal shuts the removed member out: of the messages of the renewal that
/// follows its removal, none is wrapped under a key that the member (in step
/// with the tree before) holds under that key's id, and none is sent to it in
/// clear; provided that the fresh keys differ from every key it holds. What
/// it could read without the key is the cipher's matter, which no contract
/// here states.
pub proof fn lemma_removal_shuts_out(
    alg: Algorithm,
    m0: Map<Seq<bool>, NodeView>,
    q: Seq<bool>,
    pk: u64,
    keys: Seq<Seq<u8>>,
    ivs: Seq<Seq<u8>>,
    st: MemberState,
)
    requires
        lkh_inv(m0, alg),
        is_leaf(m0, q),
        q.len() > 0,
        lkh_inv(renewed(remove_leaf(m0, q), q.drop_last(), pk, keys), alg),
        in_sync(st, m0, q),
        keys.len() >= q.len(),
        forall|i: int, id: u64| 0 <= i < keys.len() && #[trigger] st.keys.contains_key(id) ==> st.keys[id] != #[trigger] keys[i],
    ensures
        forall|i: int|
            0 <= i < renewal_plan(renewed(remove_leaf(m0, q), q.drop_last(), pk, keys), q.drop_last(), ivs).len() ==> match #[trigger] renewal_plan(
                renewed(remove_leaf(m0, q), q.drop_last(), pk, keys),
                q.drop_last(),
                ivs,
            )[i] {
                Planned::GroupTo { child, .. } => !(st.keys.contains_key(renewed(remove_leaf(m0, q), q.drop_last(), pk, keys)[child].key_id)
                    && st.keys[renewed(remove_leaf(m0, q), q.drop_last(), pk, keys)[child].key_id] == renewed(
                    remove_leaf(m0, q),
                    q.drop_last(),
                    pk,
                    keys,
                )[child].key),
                Planned::UnicastTo { user, .. } => Some(user) != m0[q].user,
            },
{
    reveal(removed_and_renewed);
    let m = removed_and_renewed(m0, q, pk, keys);
    let pa = q.drop_last();
    let sib = pa.push(!q.last());
    let k = pa.len() + 1;
    assert(q =~= pa.push(q.last()));
    assert(m0.contains_key(pa));
    if pa.len() > 0 {
        assert(m0.contains_key(pa.drop_last()));
    }
    assert(m0.contains_key(sib)) by {
        if q.last() {
            assert(m0.contains_key(pa.push(true)));
        } else {
            assert(m0.contains_key(pa.push(false)));
        }
    }
    lemma_removed_renewed(m0, q, pk, keys, pa);
    assert(origin(q, pa) =~= sib) by {
        assert(pa.subrange(0, pa.len() as int) =~= pa);
    }
    lemma_group_plan_shape(m, pa, ivs, k);
    let g = group_plan(m, pa, ivs, k);
    let up = match m[pa].user {
        Some(u) => unicast_plan(m, pa, u, k),
        None => Seq::<Planned>::empty(),
    };
    let plan = crate::lkh::renewal_plan(m, pa, ivs);
    assert(plan == g + up);
    assert(sib != q) by {
        assert(sib[pa.len() as int] != q[pa.len() as int]);
    }
    assert(m0[q].user is Some);
    if m[pa].user is Some {
        crate::lkh::lemma_unicast_plan(m, pa, m[pa].user.unwrap(), k);
    }
    assert forall|i: int| 0 <= i < plan.len() implies match #[trigger] plan[i] {
        Planned::GroupTo { child, .. } => !(st.keys.contains_key(m[child].key_id) && st.keys[m[child].key_id] == m[child].key),
        Planned::UnicastTo { user, .. } => Some(user) != m0[q].user,
    } by {
        if i < g.len() {
            assert(plan[i] == g[i]);
            assert(crate::delivery::group_to_node(m, g[i]));
            assert(hangs_off_path(pa, g[i]));
            let c = g[i]->GroupTo_child;
            lemma_removed_renewed(m0, q, pk, keys, c);
            if is_prefix(c, pa) {
                if st.keys.contains_key(m[c].key_id) {
                    let j = pa.len() - c.len();
                    assert(st.keys[m[c].key_id] != keys[j]);
                }
            } else {
                lemma_off_removed_path(q, c);
                assert(m0.contains_key(origin(q, c)));
            }
        } else {
            assert(plan[i] == up[i - g.len()]);
        }
    }
}

} // verus!
