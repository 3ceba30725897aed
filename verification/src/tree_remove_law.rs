//! What removing a node with its subtree keeps: parent and children links stay in agreement, the
//! whole subtree is gone, and every node that is left keeps its parent and its children but for
//! the removed ones.
use vstd::prelude::*;
use crate::tree::{LinkModel, live, parent_of, children_of, no_dups, consistent, set_links, seq_without,
    children_ranked, detach, spec_remove, remove_list, lemma_without};

verus! {

/// The nodes of `c` that are live in `s`, in order.
pub open spec fn keep_live(c: Seq<usize>, s: Seq<Option<LinkModel>>) -> Seq<usize>
    decreases c.len(),
{
    if c.len() == 0 {
        c
    } else if live(s, c.last() as int) {
        keep_live(c.drop_last(), s).push(c.last())
    } else {
        keep_live(c.drop_last(), s)
    }
}

proof fn lemma_keep_contains(c: Seq<usize>, s: Seq<Option<LinkModel>>)
    ensures
        forall|z: usize| #[trigger] keep_live(c, s).contains(z) <==> (c.contains(z) && live(s, z as int)),
        no_dups(c) ==> no_dups(keep_live(c, s)),
    decreases c.len(),
{
    if c.len() > 0 {
        let d = c.drop_last();
        let v = c.last();
        lemma_keep_contains(d, s);
        let w = keep_live(d, s);
        assert(c =~= d.push(v));
        assert forall|z: usize| #[trigger] keep_live(c, s).contains(z) <==> (c.contains(z) && live(s, z as int)) by {
            if c.contains(z) {
                let k = choose|k: int| 0 <= k < c.len() && c[k] == z;
                if k < d.len() {
                    assert(d[k] == z);
                }
            }
            if d.contains(z) {
                let k = choose|k: int| 0 <= k < d.len() && d[k] == z;
                assert(c[k] == z);
            }
            if live(s, v as int) {
                if w.push(v).contains(z) {
                    let k = choose|k: int| 0 <= k < w.push(v).len() && w.push(v)[k] == z;
                    if k < w.len() {
                        assert(w[k] == z);
                    }
                }
                if w.contains(z) {
                    let k = choose|k: int| 0 <= k < w.len() && w[k] == z;
                    assert(w.push(v)[k] == z);
                }
                if z == v {
                    assert(w.push(v)[w.len() as int] == z);
                }
            }
        }
        if no_dups(c) {
            assert(no_dups(d)) by {
                assert forall|a: int, b: int| 0 <= a < b < d.len() implies d[a] != d[b] by {
                    assert(c[a] == d[a] && c[b] == d[b]);
                }
            }
            if live(s, v as int) {
                assert(!d.contains(v)) by {
                    if d.contains(v) {
                        let k = choose|k: int| 0 <= k < d.len() && d[k] == v;
                        assert(c[k] == c[c.len() - 1]);
                    }
                }
                assert(!w.contains(v));
                let wp = w.push(v);
                assert forall|a: int, b: int| 0 <= a < b < wp.len() implies wp[a] != wp[b] by {
                    if b == wp.len() - 1 {
                        assert(wp[a] == w[a]);
                        assert(w.contains(w[a]));
                    } else {
                        assert(wp[a] == w[a] && wp[b] == w[b]);
                    }
                }
            }
        }
    }
}

proof fn lemma_keep_all_live(c: Seq<usize>, s: Seq<Option<LinkModel>>)
    requires
        forall|k: int| 0 <= k < c.len() ==> live(s, #[trigger] c[k] as int),
    ensures
        keep_live(c, s) == c,
    decreases c.len(),
{
    if c.len() > 0 {
        let d = c.drop_last();
        assert forall|k: int| 0 <= k < d.len() implies live(s, #[trigger] d[k] as int) by {
            assert(d[k] == c[k]);
        }
        lemma_keep_all_live(d, s);
        assert(live(s, c[c.len() - 1] as int));
        assert(d.push(c.last()) =~= c);
    }
}

proof fn lemma_keep_keep(c: Seq<usize>, s1: Seq<Option<LinkModel>>, s2: Seq<Option<LinkModel>>)
    requires
        forall|z: int| #[trigger] live(s2, z) ==> live(s1, z),
    ensures
        keep_live(keep_live(c, s1), s2) == keep_live(c, s2),
    decreases c.len(),
{
    if c.len() > 0 {
        lemma_keep_keep(c.drop_last(), s1, s2);
        let v = c.last();
        if live(s1, v as int) {
            let w = keep_live(c.drop_last(), s1);
            assert(w.push(v).drop_last() =~= w);
        }
    }
}

/// Taking `x` out of a list whose other nodes are live, when `x` is not, leaves the live ones.
proof fn lemma_without_is_keep(c: Seq<usize>, x: usize, s: Seq<Option<LinkModel>>)
    requires
        !live(s, x as int),
        forall|k: int| 0 <= k < c.len() && c[k] != x ==> live(s, #[trigger] c[k] as int),
    ensures
        seq_without(c, x) == keep_live(c, s),
    decreases c.len(),
{
    if c.len() > 0 {
        let d = c.drop_last();
        assert forall|k: int| 0 <= k < d.len() && d[k] != x implies live(s, #[trigger] d[k] as int) by {
            assert(d[k] == c[k]);
        }
        lemma_without_is_keep(d, x, s);
        if c.last() != x {
            assert(live(s, c[c.len() - 1] as int));
        }
    }
}

/// What a removal leaves of `s` in `r`: the same slots; every node live in `r` was live in `s`,
/// with the same parent and its children but for those no longer live; and every child of a
/// node that is gone is gone too.
pub open spec fn removal_ok(s: Seq<Option<LinkModel>>, r: Seq<Option<LinkModel>>) -> bool {
    &&& r.len() == s.len()
    &&& forall|y: int| #[trigger] live(r, y) ==> live(s, y) && parent_of(r, y) == parent_of(s, y)
            && children_of(r, y) == keep_live(children_of(s, y), r)
    &&& forall|x: int, k: int| #![trigger children_of(s, x)[k], live(r, x)]
            live(s, x) && !live(r, x) && 0 <= k < children_of(s, x).len() ==> !live(r, children_of(s, x)[k] as int)
}

proof fn lemma_removal_consistent(s: Seq<Option<LinkModel>>, r: Seq<Option<LinkModel>>)
    requires
        consistent(s),
        removal_ok(s, r),
        s.len() <= usize::MAX,
    ensures
        consistent(r),
{
    assert forall|i: int| #[trigger] live(r, i) && parent_of(r, i) is Some implies live(r, parent_of(r, i).unwrap() as int)
        && children_of(r, parent_of(r, i).unwrap() as int).contains(i as usize) by {
        assert(live(s, i));
        let p = parent_of(s, i).unwrap() as int;
        assert(live(s, p) && children_of(s, p).contains(i as usize));
        let k = choose|k: int| 0 <= k < children_of(s, p).len() && children_of(s, p)[k] == i as usize;
        if !live(r, p) {
            assert(!live(r, children_of(s, p)[k] as int));
        }
        assert(live(r, p));
        lemma_keep_contains(children_of(s, p), r);
        assert(children_of(r, p) == keep_live(children_of(s, p), r));
        assert((i as usize) as int == i);
    }
    assert forall|p: int, k: int| #![trigger children_of(r, p)[k]] live(r, p) && 0 <= k < children_of(r, p).len() implies live(r, children_of(r, p)[k] as int)
        && parent_of(r, children_of(r, p)[k] as int) == Some(p as usize) by {
        let z = children_of(r, p)[k];
        lemma_keep_contains(children_of(s, p), r);
        assert(keep_live(children_of(s, p), r).contains(z));
        let j = choose|j: int| 0 <= j < children_of(s, p).len() && children_of(s, p)[j] == z;
        assert(live(s, children_of(s, p)[j] as int) && parent_of(s, children_of(s, p)[j] as int) == Some(p as usize));
    }
    assert forall|p: int| #[trigger] live(r, p) implies no_dups(children_of(r, p)) by {
        assert(live(s, p));
        lemma_keep_contains(children_of(s, p), r);
    }
}

proof fn lemma_removal_ranked(s: Seq<Option<LinkModel>>, r: Seq<Option<LinkModel>>, rank: spec_fn(int) -> nat)
    requires
        children_ranked(s, rank),
        removal_ok(s, r),
    ensures
        children_ranked(r, rank),
{
    assert forall|p: int, k: int| #![trigger children_of(r, p)[k]] live(r, p) && 0 <= k < children_of(r, p).len() implies rank(children_of(r, p)[k] as int) < rank(p) by {
        let z = children_of(r, p)[k];
        lemma_keep_contains(children_of(s, p), r);
        assert(keep_live(children_of(s, p), r).contains(z));
        let j = choose|j: int| 0 <= j < children_of(s, p).len() && children_of(s, p)[j] == z;
        assert(rank(children_of(s, p)[j] as int) < rank(p));
    }
}

proof fn lemma_removal_refl(s: Seq<Option<LinkModel>>)
    requires
        consistent(s),
    ensures
        removal_ok(s, s),
{
    assert forall|y: int| #[trigger] live(s, y) implies children_of(s, y) == keep_live(children_of(s, y), s) by {
        assert forall|k: int| 0 <= k < children_of(s, y).len() implies live(s, #[trigger] children_of(s, y)[k] as int) by {
            assert(live(s, children_of(s, y)[k] as int));
        }
        lemma_keep_all_live(children_of(s, y), s);
    }
}

proof fn lemma_removal_compose(s: Seq<Option<LinkModel>>, m: Seq<Option<LinkModel>>, r: Seq<Option<LinkModel>>)
    requires
        removal_ok(s, m),
        removal_ok(m, r),
    ensures
        removal_ok(s, r),
{
    assert forall|z: int| #[trigger] live(r, z) implies live(m, z) by {}
    assert forall|y: int| #[trigger] live(r, y) implies live(s, y) && parent_of(r, y) == parent_of(s, y)
        && children_of(r, y) == keep_live(children_of(s, y), r) by {
        assert(live(m, y));
        lemma_keep_keep(children_of(s, y), m, r);
    }
    assert forall|x: int, k: int| #![trigger children_of(s, x)[k], live(r, x)]
        live(s, x) && !live(r, x) && 0 <= k < children_of(s, x).len() implies !live(r, children_of(s, x)[k] as int) by {
        let z = children_of(s, x)[k];
        if live(m, x) {
            if live(m, z as int) {
                lemma_keep_contains(children_of(s, x), m);
                assert(keep_live(children_of(s, x), m).contains(z));
                assert(children_of(m, x).contains(z));
                let j = choose|j: int| 0 <= j < children_of(m, x).len() && children_of(m, x)[j] == z;
                assert(!live(r, children_of(m, x)[j] as int));
            }
        } else {
            assert(!live(m, children_of(s, x)[k] as int));
        }
    }
}

proof fn lemma_keep_none_live(c: Seq<usize>, s: Seq<Option<LinkModel>>)
    requires
        forall|k: int| 0 <= k < c.len() ==> !live(s, #[trigger] c[k] as int),
    ensures
        keep_live(c, s).len() == 0,
{
    lemma_keep_contains(c, s);
    let w = keep_live(c, s);
    if w.len() > 0 {
        assert(w.contains(w[0]));
        let k = choose|k: int| 0 <= k < c.len() && c[k] == w[0];
        assert(!live(s, c[k] as int));
    }
}

/// Taking a node without children out of its parent (or the roots) and emptying its slot.
proof fn lemma_remove_leaf(st: (Seq<Option<LinkModel>>, Seq<usize>), id: int)
    requires
        consistent(st.0),
        st.0.len() <= usize::MAX,
        live(st.0, id),
        children_of(st.0, id).len() == 0,
    ensures
        ({
            let st2 = detach(st, id, parent_of(st.0, id));
            let r = st2.0.update(id, None);
            &&& removal_ok(st.0, r)
            &&& !live(r, id)
            &&& forall|y: int| #[trigger] live(st.0, y) && y != id ==> live(r, y)
            &&& st2.1 == if parent_of(st.0, id) is None { seq_without(st.1, id as usize) } else { st.1 }
        }),
{
    let s = st.0;
    let st2 = detach(st, id, parent_of(s, id));
    let r = st2.0.update(id, None);
    let pp = parent_of(s, id);
    assert(r.len() == s.len());
    assert forall|y: int| #[trigger] live(s, y) && y != id implies live(r, y) by {
        assert(r[y] == st2.0[y]);
    }
    assert forall|y: int| #[trigger] live(r, y) implies live(s, y) && parent_of(r, y) == parent_of(s, y)
        && children_of(r, y) == keep_live(children_of(s, y), r) by {
        assert(y != id);
        assert(r[y] == st2.0[y]);
        if pp is Some && y == pp.unwrap() as int {
            assert(live(s, y));
            let c = children_of(s, y);
            assert forall|k: int| 0 <= k < c.len() && c[k] != id as usize implies live(r, #[trigger] c[k] as int) by {
                assert(live(s, c[k] as int));
                assert(r[c[k] as int] == st2.0[c[k] as int]);
            }
            assert((id as usize) as int == id);
            lemma_without_is_keep(c, id as usize, r);
        } else {
            assert(st2.0[y] == s[y]);
            let c = children_of(s, y);
            assert forall|k: int| 0 <= k < c.len() implies live(r, #[trigger] c[k] as int) by {
                assert(live(s, c[k] as int) && parent_of(s, c[k] as int) == Some(y as usize));
                if c[k] as int == id {
                    assert(pp == Some(y as usize));
                    assert((y as usize) as int == y);
                }
                assert(r[c[k] as int] == st2.0[c[k] as int]);
            }
            lemma_keep_all_live(c, r);
        }
    }
}

/// What removing the subtree of `id` does (see `spec_remove`): a removal in the sense of
/// `removal_ok`; `id` is gone; only nodes ranked no higher than `id` go; a removed node other
/// than `id` has a removed parent; `id` leaves the roots when it has no parent.
proof fn lemma_spec_remove(st: (Seq<Option<LinkModel>>, Seq<usize>), id: int, rank: spec_fn(int) -> nat)
    requires
        consistent(st.0),
        children_ranked(st.0, rank),
        st.0.len() <= usize::MAX,
    ensures
        ({
            let r = spec_remove(st, id, rank);
            &&& removal_ok(st.0, r.0)
            &&& !live(r.0, id)
            &&& forall|y: int| #[trigger] live(st.0, y) && !live(r.0, y) ==> rank(y) <= rank(id)
            &&& forall|y: int| #[trigger] live(st.0, y) && !live(r.0, y) && y != id
                ==> parent_of(st.0, y) is Some && !live(r.0, parent_of(st.0, y).unwrap() as int)
            &&& r.1 == if live(st.0, id) && parent_of(st.0, id) is None { seq_without(st.1, id as usize) } else { st.1 }
        }),
    decreases rank(id), 1int, 0int,
{
    if !live(st.0, id) {
        lemma_removal_refl(st.0);
    } else {
        let cs = children_of(st.0, id);
        lemma_remove_list(st, cs, cs.len() as int, rank, id);
        let st1 = remove_list(st, cs, cs.len() as int, rank, id);
        lemma_removal_consistent(st.0, st1.0);
        lemma_removal_ranked(st.0, st1.0, rank);
        assert(live(st1.0, id));
        assert(children_of(st1.0, id) == keep_live(cs, st1.0));
        lemma_keep_none_live(cs, st1.0);
        lemma_remove_leaf(st1, id);
        let r = spec_remove(st, id, rank);
        assert(r.0 == detach(st1, id, parent_of(st1.0, id)).0.update(id, None));
        lemma_removal_compose(st.0, st1.0, r.0);
        assert forall|y: int| #[trigger] live(st.0, y) && !live(r.0, y) && y != id
            implies parent_of(st.0, y) is Some && !live(r.0, parent_of(st.0, y).unwrap() as int) by {
            assert(!live(st1.0, y));
        }
        assert forall|y: int| #[trigger] live(st.0, y) && !live(r.0, y) implies rank(y) <= rank(id) by {
            if y != id {
                assert(!live(st1.0, y));
            }
        }
    }
}

proof fn lemma_remove_list(
    st: (Seq<Option<LinkModel>>, Seq<usize>),
    cs: Seq<usize>,
    k: int,
    rank: spec_fn(int) -> nat,
    owner: int,
)
    requires
        consistent(st.0),
        children_ranked(st.0, rank),
        st.0.len() <= usize::MAX,
        live(st.0, owner),
        cs == children_of(st.0, owner),
        0 <= k <= cs.len(),
    ensures
        ({
            let r = remove_list(st, cs, k, rank, owner);
            &&& removal_ok(st.0, r.0)
            &&& forall|j: int| 0 <= j < k ==> !live(r.0, #[trigger] cs[j] as int)
            &&& forall|y: int| #[trigger] live(st.0, y) && !live(r.0, y) ==> rank(y) < rank(owner)
            &&& forall|y: int| #[trigger] live(st.0, y) && !live(r.0, y) ==> parent_of(st.0, y) is Some
                && (parent_of(st.0, y).unwrap() as int == owner || !live(r.0, parent_of(st.0, y).unwrap() as int))
            &&& r.1 == st.1
        }),
    decreases rank(owner), 0int, k,
{
    if k <= 0 {
        lemma_removal_refl(st.0);
    } else {
        lemma_remove_list(st, cs, k - 1, rank, owner);
        let m = remove_list(st, cs, k - 1, rank, owner);
        lemma_removal_consistent(st.0, m.0);
        lemma_removal_ranked(st.0, m.0, rank);
        let c = cs[k - 1] as int;
        assert(rank(children_of(st.0, owner)[k - 1] as int) < rank(owner));
        assert(live(st.0, c) && parent_of(st.0, c) == Some(owner as usize));
        lemma_spec_remove(m, c, rank);
        let r = spec_remove(m, c, rank);
        lemma_removal_compose(st.0, m.0, r.0);
        if live(m.0, c) {
            assert(parent_of(m.0, c) == parent_of(st.0, c));
        }
        assert forall|j: int| 0 <= j < k implies !live(r.0, #[trigger] cs[j] as int) by {
            if j < k - 1 {
                assert(!live(m.0, cs[j] as int));
            }
        }
        assert forall|y: int| #[trigger] live(st.0, y) && !live(r.0, y) implies rank(y) < rank(owner) by {
            if live(m.0, y) {
                assert(rank(y) <= rank(c));
            }
        }
        assert forall|y: int| #[trigger] live(st.0, y) && !live(r.0, y) implies parent_of(st.0, y) is Some
            && (parent_of(st.0, y).unwrap() as int == owner || !live(r.0, parent_of(st.0, y).unwrap() as int)) by {
            if live(m.0, y) {
                if y != c {
                    assert(parent_of(m.0, y) == parent_of(st.0, y));
                }
            } else {
                if parent_of(st.0, y).unwrap() as int != owner {
                    assert(!live(m.0, parent_of(st.0, y).unwrap() as int));
                }
            }
        }
    }
}

/// Removing a node with its subtree (see `spec_remove`) from a tree whose links agree and whose
/// child links always end keeps the links in agreement. The node is gone, and so is every child
/// of a removed node; any other removed node has a removed parent, so only the node's subtree
/// goes. Every node left keeps its parent, and its children but for the removed ones. The node
/// leaves the roots when it had no parent; otherwise the roots stay as they are.
pub proof fn law_remove_node_keeps_consistent(st: (Seq<Option<LinkModel>>, Seq<usize>), id: int, rank: spec_fn(int) -> nat)
    requires
        consistent(st.0),
        children_ranked(st.0, rank),
        st.0.len() <= usize::MAX,
    ensures
        consistent(spec_remove(st, id, rank).0),
        removal_ok(st.0, spec_remove(st, id, rank).0),
        !live(spec_remove(st, id, rank).0, id),
        forall|y: int| #[trigger] live(st.0, y) && !live(spec_remove(st, id, rank).0, y) && y != id
            ==> parent_of(st.0, y) is Some && !live(spec_remove(st, id, rank).0, parent_of(st.0, y).unwrap() as int),
        spec_remove(st, id, rank).1 == if live(st.0, id) && parent_of(st.0, id) is None { seq_without(st.1, id as usize) } else { st.1 },
{
    lemma_spec_remove(st, id, rank);
    lemma_removal_consistent(st.0, spec_remove(st, id, rank).0);
}

} // verus!
