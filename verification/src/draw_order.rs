//! Draw order: one depth-first pass from the roots gives every visited node its sort key (its
//! place in the pass) and its mask context. A node that clips opens a new context, numbered one
//! past its own sort key, which its subtree inherits; other nodes inherit their parent's
//! context (0 at a root: no clip). Each opened context is listed with the node that opened it
//! and the context around it, so the caller can intersect clip rectangles along the chain.
use vstd::prelude::*;
use crate::tree::{SceneTree, LinkModel, live, children_of, children_ranked, tree_ranked};

verus! {

/// A clip context opened by a node.
#[derive(Debug, Clone, Copy, PartialEq, Eq)]
pub struct ClipSlot {
    /// The context number (one past the opening node's sort key).
    pub context_id: u32,
    /// The slot of the node that opened it.
    pub node: usize,
    /// The context around it (0: none).
    pub outer: u32,
}

/// Sort key and mask context per slot, and the contexts in the order they were opened.
#[derive(Debug)]
pub struct DrawOrder {
    pub keys: Vec<(u32, u32)>,
    pub clips: Vec<ClipSlot>,
}

/// The pass so far: the next sort key, per slot (sort key, mask context), and the opened
/// contexts as (context, node, outer context).
pub struct OrderModel {
    pub next: int,
    pub keys: Seq<(int, int)>,
    pub entries: Seq<(int, int, int)>,
}

pub open spec fn keys_model(v: Seq<(u32, u32)>) -> Seq<(int, int)> {
    Seq::new(v.len(), |i: int| (v[i].0 as int, v[i].1 as int))
}

pub open spec fn entries_model(v: Seq<ClipSlot>) -> Seq<(int, int, int)> {
    Seq::new(v.len(), |i: int| (v[i].context_id as int, v[i].node as int, v[i].outer as int))
}

impl View for DrawOrder {
    type V = (Seq<(int, int)>, Seq<(int, int, int)>);

    open spec fn view(&self) -> (Seq<(int, int)>, Seq<(int, int, int)>) {
        (keys_model(self.keys@), entries_model(self.clips@))
    }
}

/// Visits node `id` inside context `mask`: it takes the next sort key; when it clips it opens
/// context `next + 1`, listed with `mask` around it; then its children are visited in order
/// inside its context. A slot without a live node is passed over.
pub open spec fn visit(
    s: Seq<Option<LinkModel>>,
    clips: Seq<bool>,
    m: OrderModel,
    id: int,
    mask: int,
    rank: spec_fn(int) -> nat,
) -> OrderModel
    decreases rank(id), 1int, 0int,
{
    if !live(s, id) || id >= clips.len() || id >= m.keys.len() {
        m
    } else {
        let own = if clips[id] { m.next + 1 } else { mask };
        let m1 = OrderModel {
            next: m.next + 1,
            keys: m.keys.update(id, (m.next, own)),
            entries: if clips[id] { m.entries.push((m.next + 1, id, mask)) } else { m.entries },
        };
        let cs = children_of(s, id);
        visit_list(s, clips, m1, cs, cs.len() as int, own, rank, id)
    }
}

/// Visits the first `k` of `cs`, children of `owner`, in order inside context `mask`.
pub open spec fn visit_list(
    s: Seq<Option<LinkModel>>,
    clips: Seq<bool>,
    m: OrderModel,
    cs: Seq<usize>,
    k: int,
    mask: int,
    rank: spec_fn(int) -> nat,
    owner: int,
) -> OrderModel
    decreases rank(owner), 0int, k,
{
    if k <= 0 {
        m
    } else {
        let m1 = visit_list(s, clips, m, cs, k - 1, mask, rank, owner);
        let c = cs[k - 1] as int;
        if rank(c) < rank(owner) {
            visit(s, clips, m1, c, mask, rank)
        } else {
            m1
        }
    }
}

/// Visits the first `k` roots in order, each outside any context.
pub open spec fn visit_roots(
    s: Seq<Option<LinkModel>>,
    clips: Seq<bool>,
    m: OrderModel,
    roots: Seq<usize>,
    k: int,
    rank: spec_fn(int) -> nat,
) -> OrderModel
    decreases k,
{
    if k <= 0 {
        m
    } else {
        visit(s, clips, visit_roots(s, clips, m, roots, k - 1, rank), roots[k - 1] as int, 0, rank)
    }
}

/// Before the pass: key 0 and context 0 everywhere, nothing opened.
pub open spec fn start_model(n: int) -> OrderModel {
    OrderModel { next: 0, keys: Seq::new(n as nat, |i: int| (0int, 0int)), entries: Seq::empty() }
}

/// The whole pass over a tree's roots.
pub open spec fn spec_draw_order(t: (Seq<Option<LinkModel>>, Seq<usize>), clips: Seq<bool>, rank: spec_fn(int) -> nat) -> OrderModel {
    visit_roots(t.0, clips, start_model(t.0.len() as int), t.1, t.1.len() as int, rank)
}

// ---------------------------------------------------------------------------
// The key counter only grows.
// ---------------------------------------------------------------------------

proof fn lemma_visit_grows(s: Seq<Option<LinkModel>>, clips: Seq<bool>, m: OrderModel, id: int, mask: int, rank: spec_fn(int) -> nat)
    ensures
        visit(s, clips, m, id, mask, rank).next >= m.next,
        live(s, id) && id < clips.len() && id < m.keys.len() ==> visit(s, clips, m, id, mask, rank).next >= m.next + 1,
        visit(s, clips, m, id, mask, rank).keys.len() == m.keys.len(),
    decreases rank(id), 1int, 0int,
{
    if live(s, id) && id < clips.len() && id < m.keys.len() {
        let own = if clips[id] { m.next + 1 } else { mask };
        let m1 = OrderModel {
            next: m.next + 1,
            keys: m.keys.update(id, (m.next, own)),
            entries: if clips[id] { m.entries.push((m.next + 1, id, mask)) } else { m.entries },
        };
        let cs = children_of(s, id);
        lemma_list_grows(s, clips, m1, cs, cs.len() as int, own, rank, id);
    }
}

proof fn lemma_list_grows(
    s: Seq<Option<LinkModel>>,
    clips: Seq<bool>,
    m: OrderModel,
    cs: Seq<usize>,
    k: int,
    mask: int,
    rank: spec_fn(int) -> nat,
    owner: int,
)
    ensures
        visit_list(s, clips, m, cs, k, mask, rank, owner).next >= m.next,
        visit_list(s, clips, m, cs, k, mask, rank, owner).keys.len() == m.keys.len(),
    decreases rank(owner), 0int, k,
{
    if k > 0 {
        lemma_list_grows(s, clips, m, cs, k - 1, mask, rank, owner);
        let m1 = visit_list(s, clips, m, cs, k - 1, mask, rank, owner);
        let c = cs[k - 1] as int;
        if rank(c) < rank(owner) {
            lemma_visit_grows(s, clips, m1, c, mask, rank);
        }
    }
}

/// A longer prefix of the children ends with a key counter at least as large.
proof fn lemma_list_prefix(
    s: Seq<Option<LinkModel>>,
    clips: Seq<bool>,
    m: OrderModel,
    cs: Seq<usize>,
    j: int,
    k: int,
    mask: int,
    rank: spec_fn(int) -> nat,
    owner: int,
)
    requires
        j <= k,
    ensures
        visit_list(s, clips, m, cs, j, mask, rank, owner).next <= visit_list(s, clips, m, cs, k, mask, rank, owner).next,
    decreases k - j,
{
    if j < k {
        lemma_list_prefix(s, clips, m, cs, j, k - 1, mask, rank, owner);
        let m1 = visit_list(s, clips, m, cs, k - 1, mask, rank, owner);
        let c = cs[k - 1] as int;
        if rank(c) < rank(owner) {
            lemma_visit_grows(s, clips, m1, c, mask, rank);
        }
    }
}

proof fn lemma_roots_prefix(
    s: Seq<Option<LinkModel>>,
    clips: Seq<bool>,
    m: OrderModel,
    roots: Seq<usize>,
    j: int,
    k: int,
    rank: spec_fn(int) -> nat,
)
    requires
        j <= k,
    ensures
        visit_roots(s, clips, m, roots, j, rank).next <= visit_roots(s, clips, m, roots, k, rank).next,
        visit_roots(s, clips, m, roots, k, rank).keys.len() == m.keys.len(),
    decreases k,
{
    if k > 0 {
        if j < k {
            lemma_roots_prefix(s, clips, m, roots, j, k - 1, rank);
        } else {
            lemma_roots_prefix(s, clips, m, roots, k - 1, k - 1, rank);
        }
        let m1 = visit_roots(s, clips, m, roots, k - 1, rank);
        lemma_visit_grows(s, clips, m1, roots[k - 1] as int, 0, rank);
    }
}

// ---------------------------------------------------------------------------
// The pass.
// ---------------------------------------------------------------------------

proof fn lemma_keys_set(v: Seq<(u32, u32)>, i: int, a: u32, b: u32)
    requires
        0 <= i < v.len(),
    ensures
        keys_model(v.update(i, (a, b))) == keys_model(v).update(i, (a as int, b as int)),
{
    assert(keys_model(v.update(i, (a, b))) =~= keys_model(v).update(i, (a as int, b as int)));
}

proof fn lemma_entries_push(v: Seq<ClipSlot>, e: ClipSlot)
    ensures
        entries_model(v.push(e)) == entries_model(v).push((e.context_id as int, e.node as int, e.outer as int)),
{
    assert(entries_model(v.push(e)) =~= entries_model(v).push((e.context_id as int, e.node as int, e.outer as int)));
}

pub open spec fn model_of(next: u32, keys: Seq<(u32, u32)>, entries: Seq<ClipSlot>) -> OrderModel {
    OrderModel { next: next as int, keys: keys_model(keys), entries: entries_model(entries) }
}

fn visit_exec(
    tree: &SceneTree,
    clips: &Vec<bool>,
    id: usize,
    mask: u32,
    next: &mut u32,
    keys: &mut Vec<(u32, u32)>,
    entries: &mut Vec<ClipSlot>,
    Ghost(rank): Ghost<spec_fn(int) -> nat>,
)
    requires
        children_ranked(tree@.0, rank),
        clips@.len() == tree@.0.len(),
        old(keys)@.len() == tree@.0.len(),
        visit(tree@.0, clips@, model_of(*old(next), old(keys)@, old(entries)@), id as int, mask as int, rank).next <= u32::MAX,
    ensures
        model_of(*final(next), final(keys)@, final(entries)@) == visit(tree@.0, clips@, model_of(*old(next), old(keys)@, old(entries)@), id as int, mask as int, rank),
        final(keys)@.len() == old(keys)@.len(),
    decreases rank(id as int),
{
    let ghost m0 = model_of(*next, keys@, entries@);
    if !tree.is_live(id) {
        return;
    }
    proof {
        lemma_visit_grows(tree@.0, clips@, m0, id as int, mask as int, rank);
    }
    let clip = clips[id];
    let key = *next;
    let own: u32 = if clip { key + 1 } else { mask };
    proof {
        lemma_keys_set(keys@, id as int, key, own);
    }
    keys.set(id, (key, own));
    if clip {
        let e = ClipSlot { context_id: key + 1, node: id, outer: mask };
        proof {
            lemma_entries_push(entries@, e);
        }
        entries.push(e);
    }
    *next = key + 1;
    let ghost m1 = model_of(*next, keys@, entries@);
    let cs = tree.children_copy(id);
    proof {
        lemma_list_prefix(tree@.0, clips@, m1, cs@, 0, cs@.len() as int, own as int, rank, id as int);
    }
    let mut k: usize = 0;
    while k < cs.len()
        invariant
            k <= cs@.len(),
            cs@ == children_of(tree@.0, id as int),
            live(tree@.0, id as int),
            children_ranked(tree@.0, rank),
            clips@.len() == tree@.0.len(),
            keys@.len() == tree@.0.len(),
            model_of(*next, keys@, entries@) == visit_list(tree@.0, clips@, m1, cs@, k as int, own as int, rank, id as int),
            visit_list(tree@.0, clips@, m1, cs@, cs@.len() as int, own as int, rank, id as int).next <= u32::MAX,
        decreases cs@.len() - k,
    {
        let c = cs[k];
        proof {
            assert(rank(children_of(tree@.0, id as int)[k as int] as int) < rank(id as int));
            lemma_list_prefix(tree@.0, clips@, m1, cs@, k + 1, cs@.len() as int, own as int, rank, id as int);
        }
        visit_exec(tree, clips, c, own, next, keys, entries, Ghost(rank));
        k = k + 1;
    }
}

/// Sort keys and mask contexts of a tree in one depth-first pass from its roots (see
/// `spec_draw_order`); `clips[i]` tells whether the node in slot `i` clips its subtree. Slots
/// the pass does not reach keep key 0 and context 0.
pub fn assign_sort_keys(tree: &SceneTree, clips: &Vec<bool>) -> (r: DrawOrder)
    requires
        clips@.len() == tree@.0.len(),
        tree_ranked(tree@.0),
        spec_draw_order(tree@, clips@, choose|rank: spec_fn(int) -> nat| #[trigger] children_ranked(tree@.0, rank)).next <= u32::MAX,
    ensures
        r@.0 == spec_draw_order(tree@, clips@, choose|rank: spec_fn(int) -> nat| #[trigger] children_ranked(tree@.0, rank)).keys,
        r@.1 == spec_draw_order(tree@, clips@, choose|rank: spec_fn(int) -> nat| #[trigger] children_ranked(tree@.0, rank)).entries,
{
    let ghost rank = choose|rank: spec_fn(int) -> nat| #[trigger] children_ranked(tree@.0, rank);
    let n = tree.slots.len();
    let mut keys: Vec<(u32, u32)> = Vec::new();
    let mut i: usize = 0;
    while i < n
        invariant
            i <= n,
            n == tree@.0.len(),
            keys_model(keys@) == Seq::new(i as nat, |j: int| (0int, 0int)),
        decreases n - i,
    {
        let ghost k0 = keys@;
        keys.push((0, 0));
        proof {
            assert(keys_model(keys@) =~= Seq::new((i + 1) as nat, |j: int| (0int, 0int))) by {
                assert(keys_model(k0).len() == i);
                assert forall|j: int| 0 <= j < i + 1 implies #[trigger] keys_model(keys@)[j] == (0int, 0int) by {
                    if j < i {
                        assert(keys@[j] == k0[j]);
                        assert(keys_model(k0)[j] == (0int, 0int));
                    }
                }
            }
        }
        i = i + 1;
    }
    let mut entries: Vec<ClipSlot> = Vec::new();
    let mut next: u32 = 0;
    let ghost m0 = model_of(next, keys@, entries@);
    proof {
        assert(entries_model(entries@) =~= Seq::<(int, int, int)>::empty());
        assert(m0 == start_model(tree@.0.len() as int));
        assert(keys@.len() == keys_model(keys@).len());
    }
    let mut r: usize = 0;
    while r < tree.roots.len()
        invariant
            r <= tree@.1.len(),
            children_ranked(tree@.0, rank),
            clips@.len() == tree@.0.len(),
            keys@.len() == tree@.0.len(),
            m0 == start_model(tree@.0.len() as int),
            model_of(next, keys@, entries@) == visit_roots(tree@.0, clips@, m0, tree@.1, r as int, rank),
            visit_roots(tree@.0, clips@, m0, tree@.1, tree@.1.len() as int, rank).next <= u32::MAX,
        decreases tree@.1.len() - r,
    {
        let root = tree.roots[r];
        proof {
            lemma_roots_prefix(tree@.0, clips@, m0, tree@.1, r + 1, tree@.1.len() as int, rank);
        }
        visit_exec(tree, clips, root, 0, &mut next, &mut keys, &mut entries, Ghost(rank));
        r = r + 1;
    }
    DrawOrder { keys, clips: entries }
}

// ---------------------------------------------------------------------------
// What the listed contexts satisfy.
// ---------------------------------------------------------------------------

/// Context `ctx` is among the opened ones.
pub open spec fn opened(e: Seq<(int, int, int)>, ctx: int) -> bool {
    exists|j: int| 0 <= j < e.len() && (#[trigger] e[j]).0 == ctx
}

/// `b` keeps `a` as its beginning.
pub open spec fn extends(a: Seq<(int, int, int)>, b: Seq<(int, int, int)>) -> bool {
    a.len() <= b.len() && forall|j: int| 0 <= j < a.len() ==> #[trigger] b[j] == a[j]
}

/// Opened contexts are positive, numbered upward in the order they were opened and not above
/// the key counter; each one's outer context is 0 or was opened before it; every slot's mask
/// context is 0 or an opened one.
pub open spec fn order_ok(m: OrderModel) -> bool {
    &&& m.next >= 0
    &&& forall|i: int| 0 <= i < m.entries.len() ==> 0 < (#[trigger] m.entries[i]).0 <= m.next
    &&& forall|i: int, j: int| #![trigger m.entries[i], m.entries[j]] 0 <= i < j < m.entries.len() ==> m.entries[i].0 < m.entries[j].0
    &&& forall|i: int| 0 <= i < m.entries.len() ==> (#[trigger] m.entries[i]).2 == 0 || opened(m.entries.take(i), m.entries[i].2)
    &&& forall|q: int| 0 <= q < m.keys.len() ==> (#[trigger] m.keys[q]).1 == 0 || opened(m.entries, m.keys[q].1)
}

proof fn lemma_opened_extends(a: Seq<(int, int, int)>, b: Seq<(int, int, int)>, ctx: int)
    requires
        extends(a, b),
        opened(a, ctx),
    ensures
        opened(b, ctx),
{
    let j = choose|j: int| 0 <= j < a.len() && (#[trigger] a[j]).0 == ctx;
    assert(b[j] == a[j]);
}

proof fn lemma_visit_ok(s: Seq<Option<LinkModel>>, clips: Seq<bool>, m: OrderModel, id: int, mask: int, rank: spec_fn(int) -> nat)
    requires
        order_ok(m),
        mask == 0 || opened(m.entries, mask),
    ensures
        order_ok(visit(s, clips, m, id, mask, rank)),
        extends(m.entries, visit(s, clips, m, id, mask, rank).entries),
        visit(s, clips, m, id, mask, rank).next >= m.next,
    decreases rank(id), 1int, 0int,
{
    if live(s, id) && id < clips.len() && id < m.keys.len() {
        let own = if clips[id] { m.next + 1 } else { mask };
        let e1 = if clips[id] { m.entries.push((m.next + 1, id, mask)) } else { m.entries };
        let m1 = OrderModel { next: m.next + 1, keys: m.keys.update(id, (m.next, own)), entries: e1 };
        assert(extends(m.entries, e1));
        assert forall|c: int| opened(m.entries, c) implies opened(e1, c) by {
            lemma_opened_extends(m.entries, e1, c);
        }
        if clips[id] {
            assert(e1[m.entries.len() as int].0 == m.next + 1);
            assert(opened(e1, own));
            assert forall|i: int| 0 <= i < e1.len() implies (#[trigger] e1[i]).2 == 0 || opened(e1.take(i), e1[i].2) by {
                if i < m.entries.len() {
                    assert(e1.take(i) =~= m.entries.take(i));
                    assert(e1[i] == m.entries[i]);
                } else {
                    assert(e1.take(i) =~= m.entries);
                }
            }
        }
        assert(order_ok(m1));
        let cs = children_of(s, id);
        lemma_list_ok(s, clips, m1, cs, cs.len() as int, own, rank, id);
        let r = visit_list(s, clips, m1, cs, cs.len() as int, own, rank, id);
        assert(extends(m.entries, r.entries)) by {
            assert forall|j: int| 0 <= j < m.entries.len() implies #[trigger] r.entries[j] == m.entries[j] by {
                assert(r.entries[j] == e1[j]);
            }
        }
    }
}

proof fn lemma_list_ok(
    s: Seq<Option<LinkModel>>,
    clips: Seq<bool>,
    m: OrderModel,
    cs: Seq<usize>,
    k: int,
    mask: int,
    rank: spec_fn(int) -> nat,
    owner: int,
)
    requires
        order_ok(m),
        mask == 0 || opened(m.entries, mask),
    ensures
        order_ok(visit_list(s, clips, m, cs, k, mask, rank, owner)),
        extends(m.entries, visit_list(s, clips, m, cs, k, mask, rank, owner).entries),
        visit_list(s, clips, m, cs, k, mask, rank, owner).next >= m.next,
    decreases rank(owner), 0int, k,
{
    if k > 0 {
        lemma_list_ok(s, clips, m, cs, k - 1, mask, rank, owner);
        let m1 = visit_list(s, clips, m, cs, k - 1, mask, rank, owner);
        let c = cs[k - 1] as int;
        if rank(c) < rank(owner) {
            if mask != 0 {
                lemma_opened_extends(m.entries, m1.entries, mask);
            }
            lemma_visit_ok(s, clips, m1, c, mask, rank);
            let r = visit(s, clips, m1, c, mask, rank);
            assert(extends(m.entries, r.entries)) by {
                assert forall|j: int| 0 <= j < m.entries.len() implies #[trigger] r.entries[j] == m.entries[j] by {
                    assert(r.entries[j] == m1.entries[j]);
                }
            }
        }
    }
}

proof fn lemma_roots_ok(s: Seq<Option<LinkModel>>, clips: Seq<bool>, m: OrderModel, roots: Seq<usize>, k: int, rank: spec_fn(int) -> nat)
    requires
        order_ok(m),
    ensures
        order_ok(visit_roots(s, clips, m, roots, k, rank)),
    decreases k,
{
    if k > 0 {
        lemma_roots_ok(s, clips, m, roots, k - 1, rank);
        lemma_visit_ok(s, clips, visit_roots(s, clips, m, roots, k - 1, rank), roots[k - 1] as int, 0, rank);
    }
}

/// The clip list of a pass holds only positive contexts, numbered upward in the order they were
/// opened; the context around each is 0 or one listed before it; and the mask context of every
/// slot is 0 or a listed context.
pub proof fn law_draw_order_contexts(t: (Seq<Option<LinkModel>>, Seq<usize>), clips: Seq<bool>, rank: spec_fn(int) -> nat)
    ensures
        order_ok(spec_draw_order(t, clips, rank)),
{
    let m0 = start_model(t.0.len() as int);
    assert(order_ok(m0));
    lemma_roots_ok(t.0, clips, m0, t.1, t.1.len() as int, rank);
}


// ---------------------------------------------------------------------------
// Each number of the pass goes to one slot.
// ---------------------------------------------------------------------------

/// Every slot's sort key is 0 or below the key counter, and no two slots share a key other
/// than 0.
pub open spec fn keys_unique(m: OrderModel) -> bool {
    &&& m.next >= 0
    &&& forall|q: int| 0 <= q < m.keys.len() ==> 0 <= (#[trigger] m.keys[q]).0 && (m.keys[q].0 < m.next || m.keys[q].0 == 0)
    &&& forall|p: int, q: int| #![trigger m.keys[p], m.keys[q]]
        0 <= p < m.keys.len() && 0 <= q < m.keys.len() && p != q && m.keys[p].0 == m.keys[q].0 ==> m.keys[p].0 == 0
}

proof fn lemma_visit_unique(s: Seq<Option<LinkModel>>, clips: Seq<bool>, m: OrderModel, id: int, mask: int, rank: spec_fn(int) -> nat)
    requires
        keys_unique(m),
    ensures
        keys_unique(visit(s, clips, m, id, mask, rank)),
    decreases rank(id), 1int, 0int,
{
    if live(s, id) && id < clips.len() && id < m.keys.len() {
        let own = if clips[id] { m.next + 1 } else { mask };
        let k1 = m.keys.update(id, (m.next, own));
        let m1 = OrderModel {
            next: m.next + 1,
            keys: k1,
            entries: if clips[id] { m.entries.push((m.next + 1, id, mask)) } else { m.entries },
        };
        assert forall|p: int, q: int| #![trigger k1[p], k1[q]]
            0 <= p < k1.len() && 0 <= q < k1.len() && p != q && k1[p].0 == k1[q].0 implies k1[p].0 == 0 by {
            assert(m.keys[p] == m.keys[p] && m.keys[q] == m.keys[q]);
        }
        assert(keys_unique(m1));
        let cs = children_of(s, id);
        lemma_list_unique(s, clips, m1, cs, cs.len() as int, own, rank, id);
    }
}

proof fn lemma_list_unique(
    s: Seq<Option<LinkModel>>,
    clips: Seq<bool>,
    m: OrderModel,
    cs: Seq<usize>,
    k: int,
    mask: int,
    rank: spec_fn(int) -> nat,
    owner: int,
)
    requires
        keys_unique(m),
    ensures
        keys_unique(visit_list(s, clips, m, cs, k, mask, rank, owner)),
    decreases rank(owner), 0int, k,
{
    if k > 0 {
        lemma_list_unique(s, clips, m, cs, k - 1, mask, rank, owner);
        let c = cs[k - 1] as int;
        if rank(c) < rank(owner) {
            lemma_visit_unique(s, clips, visit_list(s, clips, m, cs, k - 1, mask, rank, owner), c, mask, rank);
        }
    }
}

proof fn lemma_roots_unique(s: Seq<Option<LinkModel>>, clips: Seq<bool>, m: OrderModel, roots: Seq<usize>, k: int, rank: spec_fn(int) -> nat)
    requires
        keys_unique(m),
    ensures
        keys_unique(visit_roots(s, clips, m, roots, k, rank)),
    decreases k,
{
    if k > 0 {
        lemma_roots_unique(s, clips, m, roots, k - 1, rank);
        lemma_visit_unique(s, clips, visit_roots(s, clips, m, roots, k - 1, rank), roots[k - 1] as int, 0, rank);
    }
}

/// The pass hands out each sort key once: every slot's key is 0 or below the pass's key counter,
/// and two different slots never share a key other than 0 (the first node visited takes 0, as do
/// the slots the pass does not reach).
pub proof fn law_sort_keys_unique(t: (Seq<Option<LinkModel>>, Seq<usize>), clips: Seq<bool>, rank: spec_fn(int) -> nat)
    ensures
        keys_unique(spec_draw_order(t, clips, rank)),
{
    let m0 = start_model(t.0.len() as int);
    assert(keys_unique(m0));
    lemma_roots_unique(t.0, clips, m0, t.1, t.1.len() as int, rank);
}

// ---------------------------------------------------------------------------
// Pre-order: a node is numbered before the nodes of its subtree.
// ---------------------------------------------------------------------------

/// Slot `q` has another entry after the step from `a` to `b`.
pub open spec fn rekeyed(a: OrderModel, b: OrderModel, q: int) -> bool {
    b.keys[q] != a.keys[q]
}

proof fn lemma_visit_range(s: Seq<Option<LinkModel>>, clips: Seq<bool>, m: OrderModel, id: int, mask: int, rank: spec_fn(int) -> nat)
    ensures
        visit(s, clips, m, id, mask, rank).next >= m.next,
        visit(s, clips, m, id, mask, rank).keys.len() == m.keys.len(),
        forall|q: int| 0 <= q < m.keys.len() && #[trigger] rekeyed(m, visit(s, clips, m, id, mask, rank), q) ==>
            (q == id || rank(q) < rank(id)) && m.next <= visit(s, clips, m, id, mask, rank).keys[q].0 < visit(s, clips, m, id, mask, rank).next,
        live(s, id) && id < clips.len() && id < m.keys.len() ==> visit(s, clips, m, id, mask, rank).keys[id].0 == m.next
            && visit(s, clips, m, id, mask, rank).next > m.next,
    decreases rank(id), 1int, 0int,
{
    if live(s, id) && id < clips.len() && id < m.keys.len() {
        let own = if clips[id] { m.next + 1 } else { mask };
        let m1 = OrderModel {
            next: m.next + 1,
            keys: m.keys.update(id, (m.next, own)),
            entries: if clips[id] { m.entries.push((m.next + 1, id, mask)) } else { m.entries },
        };
        let cs = children_of(s, id);
        lemma_list_range(s, clips, m1, cs, cs.len() as int, own, rank, id);
        let r = visit(s, clips, m, id, mask, rank);
        assert(r == visit_list(s, clips, m1, cs, cs.len() as int, own, rank, id));
        assert(!rekeyed(m1, r, id));
        assert forall|q: int| 0 <= q < m.keys.len() && #[trigger] rekeyed(m, r, q) implies
            (q == id || rank(q) < rank(id)) && m.next <= r.keys[q].0 < r.next by {
            if rekeyed(m1, r, q) {
            } else {
                assert(q == id);
            }
        }
    }
}

proof fn lemma_list_range(
    s: Seq<Option<LinkModel>>,
    clips: Seq<bool>,
    m: OrderModel,
    cs: Seq<usize>,
    k: int,
    mask: int,
    rank: spec_fn(int) -> nat,
    owner: int,
)
    ensures
        visit_list(s, clips, m, cs, k, mask, rank, owner).next >= m.next,
        visit_list(s, clips, m, cs, k, mask, rank, owner).keys.len() == m.keys.len(),
        forall|q: int| 0 <= q < m.keys.len() && #[trigger] rekeyed(m, visit_list(s, clips, m, cs, k, mask, rank, owner), q) ==>
            rank(q) < rank(owner) && m.next <= visit_list(s, clips, m, cs, k, mask, rank, owner).keys[q].0
                < visit_list(s, clips, m, cs, k, mask, rank, owner).next,
    decreases rank(owner), 0int, k,
{
    if k > 0 {
        lemma_list_range(s, clips, m, cs, k - 1, mask, rank, owner);
        let m1 = visit_list(s, clips, m, cs, k - 1, mask, rank, owner);
        let c = cs[k - 1] as int;
        if rank(c) < rank(owner) {
            lemma_visit_range(s, clips, m1, c, mask, rank);
            let r = visit(s, clips, m1, c, mask, rank);
            assert forall|q: int| 0 <= q < m.keys.len() && #[trigger] rekeyed(m, r, q) implies
                rank(q) < rank(owner) && m.next <= r.keys[q].0 < r.next by {
                if rekeyed(m1, r, q) {
                } else {
                    assert(rekeyed(m, m1, q));
                }
            }
        }
    }
}

/// Pre-order numbering: visiting a live node gives it the next sort key, and every other slot
/// whose entry the visit of its subtree changes lies below it (a smaller rank) and gets a larger
/// key, below the counter after the visit.
pub proof fn law_visit_preorder(s: Seq<Option<LinkModel>>, clips: Seq<bool>, m: OrderModel, id: int, mask: int, rank: spec_fn(int) -> nat)
    requires
        live(s, id),
        0 <= id < clips.len(),
        id < m.keys.len(),
    ensures
        visit(s, clips, m, id, mask, rank).keys[id].0 == m.next,
        forall|q: int| 0 <= q < m.keys.len() && q != id && #[trigger] rekeyed(m, visit(s, clips, m, id, mask, rank), q) ==>
            rank(q) < rank(id) && m.next < visit(s, clips, m, id, mask, rank).keys[q].0 < visit(s, clips, m, id, mask, rank).next,
{
    lemma_visit_range(s, clips, m, id, mask, rank);
    let r = visit(s, clips, m, id, mask, rank);
    let own = if clips[id] { m.next + 1 } else { mask };
    let m1 = OrderModel {
        next: m.next + 1,
        keys: m.keys.update(id, (m.next, own)),
        entries: if clips[id] { m.entries.push((m.next + 1, id, mask)) } else { m.entries },
    };
    let cs = children_of(s, id);
    lemma_list_range(s, clips, m1, cs, cs.len() as int, own, rank, id);
    assert forall|q: int| 0 <= q < m.keys.len() && q != id && #[trigger] rekeyed(m, r, q) implies
        rank(q) < rank(id) && m.next < r.keys[q].0 < r.next by {
        assert(rekeyed(m1, r, q));
    }
}

} // verus!
