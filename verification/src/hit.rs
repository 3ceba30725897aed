//! Hit testing: which node a point lands on. The point's geometry is measured by the caller per
//! node (inside its clip, inside its own box and touchable, on a scrollbar thumb); here the tree
//! is walked topmost first: scrollbar thumbs above everything, later roots above earlier ones,
//! children above their parent, and among siblings the higher `order` first, then the later
//! sibling. A clip the point is outside of hides the whole subtree.
use vstd::prelude::*;
use crate::tree::{SceneTree, LinkModel, live, children_of, children_ranked, tree_ranked, consistent};

verus! {

/// What a point hits.
#[derive(Debug, Clone, Copy, PartialEq, Eq)]
pub enum HitTarget {
    /// The thumb of a scrollbar of `container`; `axis` 0 is vertical, 1 horizontal.
    Grip { container: usize, axis: u8 },
    /// A node of the tree.
    Node(usize),
}

/// Inserts `x` into `l` (sorted by `order`, highest first) after every element whose order is
/// not below its own.
pub open spec fn ins_desc(l: Seq<usize>, x: usize, order: Seq<i32>) -> Seq<usize>
    decreases l.len(),
{
    if l.len() == 0 {
        seq![x]
    } else if order[l.last() as int] >= order[x as int] {
        l.push(x)
    } else {
        ins_desc(l.drop_last(), x, order).push(l.last())
    }
}

/// The first `k` of `c` sorted by `order`, highest first, ties kept in the order of `c`.
pub open spec fn sort_desc(c: Seq<usize>, k: int, order: Seq<i32>) -> Seq<usize>
    decreases k,
{
    if k <= 0 {
        Seq::empty()
    } else {
        ins_desc(sort_desc(c, k - 1, order), c[k - 1], order)
    }
}

/// The children of `id` topmost first: the last child first, then sorted by `order`, highest
/// first, keeping that order among equals.
pub open spec fn effective_order(s: Seq<Option<LinkModel>>, id: int, order: Seq<i32>) -> Seq<usize> {
    let rc = children_of(s, id).reverse();
    sort_desc(rc, rc.len() as int, order)
}

proof fn lemma_ins_members(l: Seq<usize>, x: usize, order: Seq<i32>)
    ensures
        ins_desc(l, x, order).len() == l.len() + 1,
        forall|y: usize| #[trigger] ins_desc(l, x, order).contains(y) ==> l.contains(y) || y == x,
    decreases l.len(),
{
    if l.len() > 0 && order[l.last() as int] < order[x as int] {
        lemma_ins_members(l.drop_last(), x, order);
        let r = ins_desc(l.drop_last(), x, order);
        assert forall|y: usize| #[trigger] ins_desc(l, x, order).contains(y) implies l.contains(y) || y == x by {
            let j = choose|j: int| 0 <= j < r.push(l.last()).len() && r.push(l.last())[j] == y;
            if j < r.len() {
                assert(r[j] == y);
                assert(r.contains(y));
                if l.drop_last().contains(y) {
                    let w = choose|w: int| 0 <= w < l.drop_last().len() && l.drop_last()[w] == y;
                    assert(l[w] == y);
                }
            } else {
                assert(l[l.len() - 1] == y);
            }
        }
    } else if l.len() > 0 {
        assert forall|y: usize| #[trigger] ins_desc(l, x, order).contains(y) implies l.contains(y) || y == x by {
            let j = choose|j: int| 0 <= j < l.push(x).len() && l.push(x)[j] == y;
            if j < l.len() {
                assert(l[j] == y);
            }
        }
    } else {
        assert forall|y: usize| #[trigger] ins_desc(l, x, order).contains(y) implies l.contains(y) || y == x by {
            assert(seq![x][0] == x);
        }
    }
}

proof fn lemma_sort_members(c: Seq<usize>, k: int, order: Seq<i32>)
    requires
        0 <= k <= c.len(),
    ensures
        sort_desc(c, k, order).len() == k,
        forall|y: usize| #[trigger] sort_desc(c, k, order).contains(y) ==> c.contains(y),
    decreases k,
{
    if k > 0 {
        lemma_sort_members(c, k - 1, order);
        lemma_ins_members(sort_desc(c, k - 1, order), c[k - 1], order);
    }
}

/// Every node of the effective order is a child.
proof fn lemma_effective_members(s: Seq<Option<LinkModel>>, id: int, order: Seq<i32>)
    ensures
        effective_order(s, id, order).len() == children_of(s, id).len(),
        forall|y: usize| #[trigger] effective_order(s, id, order).contains(y) ==> children_of(s, id).contains(y),
{
    let c = children_of(s, id);
    let rc = c.reverse();
    lemma_sort_members(rc, rc.len() as int, order);
    assert forall|y: usize| #[trigger] effective_order(s, id, order).contains(y) implies c.contains(y) by {
        assert(rc.contains(y));
        let j = choose|j: int| 0 <= j < rc.len() && rc[j] == y;
        assert(c[c.len() - 1 - j] == y);
    }
}

/// The children of live node `id`, topmost first (see `effective_order`).
pub fn effective_draw_order(tree: &SceneTree, order: &Vec<i32>, id: usize) -> (r: Vec<usize>)
    requires
        live(tree@.0, id as int),
        consistent(tree@.0),
        order@.len() == tree@.0.len(),
    ensures
        r@ == effective_order(tree@.0, id as int, order@),
{
    let cs = tree.children_copy(id);
    let ghost rc = cs@.reverse();
    let n = cs.len();
    let mut out: Vec<usize> = Vec::new();
    let mut k: usize = 0;
    while k < n
        invariant
            k <= n,
            n == cs@.len(),
            rc == cs@.reverse(),
            cs@ == children_of(tree@.0, id as int),
            live(tree@.0, id as int),
            consistent(tree@.0),
            order@.len() == tree@.0.len(),
            out@ == sort_desc(rc, k as int, order@),
            forall|j: int| 0 <= j < out@.len() ==> (#[trigger] out@[j]) < order@.len(),
        decreases n - k,
    {
        let x = cs[n - 1 - k];
        proof {
            assert(rc[k as int] == x);
            assert(live(tree@.0, cs@[n - 1 - k] as int));
        }
        let ox = order[x];
        let mut p: usize = out.len();
        proof {
            assert(out@.take(p as int) =~= out@);
            assert(out@.skip(p as int) =~= Seq::<usize>::empty());
            assert(ins_desc(out@, x, order@) =~= ins_desc(out@.take(p as int), x, order@) + out@.skip(p as int));
        }
        while p > 0 && order[out[p - 1]] < ox
            invariant
                p <= out@.len(),
                ox == order@[x as int],
                x < order@.len(),
                forall|j: int| 0 <= j < out@.len() ==> (#[trigger] out@[j]) < order@.len(),
                ins_desc(out@, x, order@) == ins_desc(out@.take(p as int), x, order@) + out@.skip(p as int),
            decreases p,
        {
            proof {
                let t = out@.take(p as int);
                assert(t.last() == out@[p - 1]);
                assert(t.drop_last() =~= out@.take(p - 1));
                assert(ins_desc(t, x, order@) == ins_desc(out@.take(p - 1), x, order@).push(out@[p - 1]));
                assert(ins_desc(out@.take(p - 1), x, order@).push(out@[p - 1]) + out@.skip(p as int)
                    =~= ins_desc(out@.take(p - 1), x, order@) + out@.skip(p - 1));
            }
            p = p - 1;
        }
        let ghost before = out@;
        proof {
            let t = before.take(p as int);
            if p == 0 {
                assert(t =~= Seq::<usize>::empty());
            } else {
                assert(t.last() == before[p - 1]);
            }
            assert(ins_desc(t, x, order@) =~= t.push(x));
            assert(t.push(x) + before.skip(p as int) =~= before.insert(p as int, x));
        }
        out.insert(p, x);
        proof {
            assert forall|j: int| 0 <= j < out@.len() implies (#[trigger] out@[j]) < order@.len() by {
                if j < p {
                    assert(out@[j] == before[j]);
                } else if j > p {
                    assert(out@[j] == before[j - 1]);
                }
            }
        }
        k = k + 1;
    }
    proof {
        assert(rc.len() == n);
    }
    out
}

/// What the subtree of `id` hits: nothing when `id` is not live or the point is outside its
/// clip; else the first hit among its children topmost first; else `id` itself when the point
/// is inside its own box and it is touchable.
pub open spec fn hit_sub(
    s: Seq<Option<LinkModel>>,
    clip_ok: Seq<bool>,
    self_hit: Seq<bool>,
    order: Seq<i32>,
    id: int,
    rank: spec_fn(int) -> nat,
) -> Option<usize>
    decreases rank(id), 1int, 0int,
{
    if !live(s, id) || id >= clip_ok.len() || id >= self_hit.len() || !clip_ok[id] {
        None
    } else {
        let kids = effective_order(s, id, order);
        match hit_kids(s, clip_ok, self_hit, order, kids, 0, rank, id) {
            Some(h) => Some(h),
            None => if self_hit[id] {
                Some(id as usize)
            } else {
                None
            },
        }
    }
}

/// The first hit among `kids` from position `k` on, children of `owner`.
pub open spec fn hit_kids(
    s: Seq<Option<LinkModel>>,
    clip_ok: Seq<bool>,
    self_hit: Seq<bool>,
    order: Seq<i32>,
    kids: Seq<usize>,
    k: int,
    rank: spec_fn(int) -> nat,
    owner: int,
) -> Option<usize>
    decreases rank(owner), 0int, kids.len() - k,
{
    if k < 0 || k >= kids.len() {
        None
    } else {
        let c = kids[k] as int;
        let h = if rank(c) < rank(owner) {
            hit_sub(s, clip_ok, self_hit, order, c, rank)
        } else {
            None
        };
        match h {
            Some(x) => Some(x),
            None => hit_kids(s, clip_ok, self_hit, order, kids, k + 1, rank, owner),
        }
    }
}

/// The first hit among the first `k` roots, the later root first (it is drawn on top).
pub open spec fn hit_roots(
    s: Seq<Option<LinkModel>>,
    clip_ok: Seq<bool>,
    self_hit: Seq<bool>,
    order: Seq<i32>,
    roots: Seq<usize>,
    k: int,
    rank: spec_fn(int) -> nat,
) -> Option<usize>
    decreases k,
{
    if k <= 0 {
        None
    } else {
        match hit_sub(s, clip_ok, self_hit, order, roots[k - 1] as int, rank) {
            Some(h) => Some(h),
            None => hit_roots(s, clip_ok, self_hit, order, roots, k - 1, rank),
        }
    }
}

fn hit_subtree(
    tree: &SceneTree,
    clip_ok: &Vec<bool>,
    self_hit: &Vec<bool>,
    order: &Vec<i32>,
    id: usize,
    Ghost(rank): Ghost<spec_fn(int) -> nat>,
) -> (r: Option<usize>)
    requires
        children_ranked(tree@.0, rank),
        consistent(tree@.0),
        clip_ok@.len() == tree@.0.len(),
        self_hit@.len() == tree@.0.len(),
        order@.len() == tree@.0.len(),
    ensures
        r == hit_sub(tree@.0, clip_ok@, self_hit@, order@, id as int, rank),
    decreases rank(id as int),
{
    if !tree.is_live(id) || !clip_ok[id] {
        return None;
    }
    let kids = effective_draw_order(tree, order, id);
    proof {
        lemma_effective_members(tree@.0, id as int, order@);
    }
    let mut k: usize = 0;
    while k < kids.len()
        invariant
            k <= kids@.len(),
            kids@ == effective_order(tree@.0, id as int, order@),
            live(tree@.0, id as int),
            clip_ok@[id as int],
            children_ranked(tree@.0, rank),
            consistent(tree@.0),
            clip_ok@.len() == tree@.0.len(),
            self_hit@.len() == tree@.0.len(),
            order@.len() == tree@.0.len(),
            forall|y: usize| #[trigger] kids@.contains(y) ==> children_of(tree@.0, id as int).contains(y),
            hit_kids(tree@.0, clip_ok@, self_hit@, order@, kids@, 0, rank, id as int)
                == hit_kids(tree@.0, clip_ok@, self_hit@, order@, kids@, k as int, rank, id as int),
        decreases kids@.len() - k,
    {
        let c = kids[k];
        proof {
            assert(kids@.contains(c));
            let j = choose|j: int| 0 <= j < children_of(tree@.0, id as int).len() && children_of(tree@.0, id as int)[j] == c;
            assert(rank(children_of(tree@.0, id as int)[j] as int) < rank(id as int));
        }
        let h = hit_subtree(tree, clip_ok, self_hit, order, c, Ghost(rank));
        if h.is_some() {
            proof {
                assert(rank(c as int) < rank(id as int));
                assert(hit_kids(tree@.0, clip_ok@, self_hit@, order@, kids@, k as int, rank, id as int) == h);
            }
            return h;
        }
        k = k + 1;
    }
    if self_hit[id] {
        Some(id)
    } else {
        None
    }
}

/// The first container (by slot) whose scrollbar thumb the point is on, vertical before
/// horizontal, with the axis (0 vertical, 1 horizontal).
pub open spec fn first_grip(v_hit: Seq<bool>, h_hit: Seq<bool>, k: int) -> Option<(usize, u8)>
    decreases v_hit.len() - k,
{
    if k < 0 || k >= v_hit.len() {
        None
    } else if v_hit[k] {
        Some((k as usize, 0u8))
    } else if h_hit[k] {
        Some((k as usize, 1u8))
    } else {
        first_grip(v_hit, h_hit, k + 1)
    }
}

/// Which scrollbar thumb the point is on: `v_hit[i]` / `h_hit[i]` tell whether it is on the
/// vertical / horizontal thumb of the container in slot `i` (see `first_grip`).
pub fn hit_scrollbar_grip(v_hit: &Vec<bool>, h_hit: &Vec<bool>) -> (r: Option<(usize, u8)>)
    requires
        v_hit@.len() == h_hit@.len(),
    ensures
        r == first_grip(v_hit@, h_hit@, 0),
{
    let mut k: usize = 0;
    while k < v_hit.len()
        invariant
            k <= v_hit@.len(),
            v_hit@.len() == h_hit@.len(),
            first_grip(v_hit@, h_hit@, 0) == first_grip(v_hit@, h_hit@, k as int),
        decreases v_hit@.len() - k,
    {
        if v_hit[k] {
            return Some((k, 0));
        }
        if h_hit[k] {
            return Some((k, 1));
        }
        k = k + 1;
    }
    None
}

/// What a point hits: a scrollbar thumb when `grip` names one (see `hit_scrollbar_grip`), else
/// the first hit among the roots, the last root first (see `hit_sub`), else nothing.
pub fn hit_test(
    tree: &SceneTree,
    grip: Option<(usize, u8)>,
    clip_ok: &Vec<bool>,
    self_hit: &Vec<bool>,
    order: &Vec<i32>,
) -> (r: Option<HitTarget>)
    requires
        tree_ranked(tree@.0),
        consistent(tree@.0),
        clip_ok@.len() == tree@.0.len(),
        self_hit@.len() == tree@.0.len(),
        order@.len() == tree@.0.len(),
    ensures
        r == match grip {
            Some((c, a)) => Some(HitTarget::Grip { container: c, axis: a }),
            None => match hit_roots(tree@.0, clip_ok@, self_hit@, order@, tree@.1, tree@.1.len() as int,
                choose|rank: spec_fn(int) -> nat| #[trigger] children_ranked(tree@.0, rank)) {
                Some(h) => Some(HitTarget::Node(h)),
                None => None,
            },
        },
{
    let ghost rank = choose|rank: spec_fn(int) -> nat| #[trigger] children_ranked(tree@.0, rank);
    if let Some((c, a)) = grip {
        return Some(HitTarget::Grip { container: c, axis: a });
    }
    let mut k: usize = tree.roots.len();
    while k > 0
        invariant
            k <= tree@.1.len(),
            grip is None,
            rank == choose|rank: spec_fn(int) -> nat| #[trigger] children_ranked(tree@.0, rank),
            children_ranked(tree@.0, rank),
            consistent(tree@.0),
            clip_ok@.len() == tree@.0.len(),
            self_hit@.len() == tree@.0.len(),
            order@.len() == tree@.0.len(),
            hit_roots(tree@.0, clip_ok@, self_hit@, order@, tree@.1, tree@.1.len() as int, rank)
                == hit_roots(tree@.0, clip_ok@, self_hit@, order@, tree@.1, k as int, rank),
        decreases k,
    {
        let h = hit_subtree(tree, clip_ok, self_hit, order, tree.roots[k - 1], Ghost(rank));
        if let Some(x) = h {
            proof {
                assert(hit_roots(tree@.0, clip_ok@, self_hit@, order@, tree@.1, k as int, rank) == Some(x));
            }
            return Some(HitTarget::Node(x));
        }
        k = k - 1;
    }
    None
}

/// The node a hit lands on is live, touchable with the point inside its box, and the point is
/// inside its own clip.
pub open spec fn lands_ok(s: Seq<Option<LinkModel>>, clip_ok: Seq<bool>, self_hit: Seq<bool>, r: Option<usize>) -> bool {
    r matches Some(h) ==> live(s, h as int) && h < clip_ok.len() && h < self_hit.len() && clip_ok[h as int] && self_hit[h as int]
}

proof fn lemma_hit_sub_ok(
    s: Seq<Option<LinkModel>>,
    clip_ok: Seq<bool>,
    self_hit: Seq<bool>,
    order: Seq<i32>,
    id: int,
    rank: spec_fn(int) -> nat,
)
    requires
        clip_ok.len() <= usize::MAX,
    ensures
        lands_ok(s, clip_ok, self_hit, hit_sub(s, clip_ok, self_hit, order, id, rank)),
    decreases rank(id), 1int, 0int,
{
    if live(s, id) && id < clip_ok.len() && id < self_hit.len() && clip_ok[id] {
        let kids = effective_order(s, id, order);
        lemma_hit_kids_ok(s, clip_ok, self_hit, order, kids, 0, rank, id);
    }
}

proof fn lemma_hit_kids_ok(
    s: Seq<Option<LinkModel>>,
    clip_ok: Seq<bool>,
    self_hit: Seq<bool>,
    order: Seq<i32>,
    kids: Seq<usize>,
    k: int,
    rank: spec_fn(int) -> nat,
    owner: int,
)
    requires
        clip_ok.len() <= usize::MAX,
    ensures
        lands_ok(s, clip_ok, self_hit, hit_kids(s, clip_ok, self_hit, order, kids, k, rank, owner)),
    decreases rank(owner), 0int, kids.len() - k,
{
    if 0 <= k < kids.len() {
        let c = kids[k] as int;
        if rank(c) < rank(owner) {
            lemma_hit_sub_ok(s, clip_ok, self_hit, order, c, rank);
        }
        lemma_hit_kids_ok(s, clip_ok, self_hit, order, kids, k + 1, rank, owner);
    }
}

proof fn lemma_hit_roots_ok(
    s: Seq<Option<LinkModel>>,
    clip_ok: Seq<bool>,
    self_hit: Seq<bool>,
    order: Seq<i32>,
    roots: Seq<usize>,
    k: int,
    rank: spec_fn(int) -> nat,
)
    requires
        clip_ok.len() <= usize::MAX,
    ensures
        lands_ok(s, clip_ok, self_hit, hit_roots(s, clip_ok, self_hit, order, roots, k, rank)),
    decreases k,
{
    if k > 0 {
        lemma_hit_sub_ok(s, clip_ok, self_hit, order, roots[k - 1] as int, rank);
        lemma_hit_roots_ok(s, clip_ok, self_hit, order, roots, k - 1, rank);
    }
}

/// A point only ever hits a live node that is touchable with the point inside its box and
/// whose own clip holds the point; a clip the point is outside of hides its whole subtree.
pub proof fn law_hit_lands_on_touchable(
    s: Seq<Option<LinkModel>>,
    roots: Seq<usize>,
    clip_ok: Seq<bool>,
    self_hit: Seq<bool>,
    order: Seq<i32>,
    id: int,
    rank: spec_fn(int) -> nat,
)
    requires
        clip_ok.len() <= usize::MAX,
    ensures
        lands_ok(s, clip_ok, self_hit, hit_roots(s, clip_ok, self_hit, order, roots, roots.len() as int, rank)),
        0 <= id < clip_ok.len() && !clip_ok[id] ==> hit_sub(s, clip_ok, self_hit, order, id, rank) is None,
{
    lemma_hit_roots_ok(s, clip_ok, self_hit, order, roots, roots.len() as int, rank);
}

} // verus!
