//! Batching: within a run of mergeable meshes, a stable insertion reorder that brings meshes of
//! the same draw state (texture, mask context) together without moving a mesh past one it
//! overlaps. Overlaps are decided by the caller from the node rectangles.
use vstd::prelude::*;

verus! {

/// The unit, draw states and overlap table fit together: every unit entry indexes both, and the
/// overlap table is square.
pub open spec fn unit_ok(u: Seq<usize>, ds: Seq<(u32, u32)>, ov: Seq<Seq<bool>>) -> bool {
    &&& ov.len() == ds.len()
    &&& forall|x: int| 0 <= x < ov.len() ==> (#[trigger] ov[x]).len() == ds.len()
    &&& forall|p: int| 0 <= p < u.len() ==> (#[trigger] u[p]) < ds.len()
}

/// Scans down from position `j` for where `cur` goes: `m` is the position just after the run of
/// equal draw states being scanned, `k` the current choice. A run with `cur`'s draw state sets
/// the choice to just after it; the first node that `cur` overlaps ends the scan (choosing just
/// after its run when nothing was chosen yet).
pub open spec fn scan_insert(
    u: Seq<usize>,
    cur: usize,
    ds: Seq<(u32, u32)>,
    ov: Seq<Seq<bool>>,
    j: int,
    k: Option<int>,
    last: Option<(u32, u32)>,
    m: int,
) -> Option<int>
    decreases j + 1,
{
    if j < 0 {
        k
    } else {
        let test = u[j];
        let tds = ds[test as int];
        let m2 = if last != Some(tds) {
            j + 1
        } else {
            m
        };
        let k2 = if ds[cur as int] == tds {
            Some(m2)
        } else {
            k
        };
        if ov[cur as int][test as int] {
            if k2 is None {
                Some(m2)
            } else {
                k2
            }
        } else {
            scan_insert(u, cur, ds, ov, j - 1, k2, Some(tds), m2)
        }
    }
}

/// Where the node at position `i` goes.
pub open spec fn insert_point(u: Seq<usize>, i: int, ds: Seq<(u32, u32)>, ov: Seq<Seq<bool>>) -> Option<int> {
    scan_insert(u, u[i], ds, ov, i - 1, None, None, i)
}

/// The node at position `i` moved to position `k`.
pub open spec fn move_to(u: Seq<usize>, i: int, k: int) -> Seq<usize> {
    u.remove(i).insert(k, u[i])
}

pub open spec fn unit_step(u: Seq<usize>, i: int, ds: Seq<(u32, u32)>, ov: Seq<Seq<bool>>) -> Seq<usize> {
    match insert_point(u, i, ds, ov) {
        Some(k) => if k != i {
            move_to(u, i, k)
        } else {
            u
        },
        None => u,
    }
}

/// The unit after the nodes at positions `1..i` have been placed, in turn.
pub open spec fn reorder_upto(u: Seq<usize>, ds: Seq<(u32, u32)>, ov: Seq<Seq<bool>>, i: int) -> Seq<usize>
    decreases i,
{
    if i <= 1 {
        u
    } else {
        unit_step(reorder_upto(u, ds, ov, i - 1), i - 1, ds, ov)
    }
}

pub open spec fn spec_reorder_unit(u: Seq<usize>, ds: Seq<(u32, u32)>, ov: Seq<Seq<bool>>) -> Seq<usize> {
    reorder_upto(u, ds, ov, u.len() as int)
}

pub open spec fn opt_int(k: Option<usize>) -> Option<int> {
    match k {
        Some(x) => Some(x as int),
        None => None,
    }
}

fn same_ds(a: (u32, u32), b: (u32, u32)) -> (r: bool)
    ensures
        r == (a == b),
{
    a.0 == b.0 && a.1 == b.1
}

/// Reorders a unit of mergeable meshes, given as node positions: each node in turn moves down to
/// just after the earliest run of its own draw state that it can reach without passing a node it
/// overlaps (see `scan_insert`); the others keep their order.
pub fn reorder_unit(unit: &mut Vec<usize>, ds: &Vec<(u32, u32)>, overlaps: &Vec<Vec<bool>>)
    requires
        unit_ok(old(unit)@, ds@, overlaps@.map_values(|r: Vec<bool>| r@)),
    ensures
        final(unit)@ == spec_reorder_unit(old(unit)@, ds@, overlaps@.map_values(|r: Vec<bool>| r@)),
{
    let ghost u0 = unit@;
    let ghost ov = overlaps@.map_values(|r: Vec<bool>| r@);
    let n = unit.len();
    if n < 2 {
        return;
    }
    let mut i: usize = 1;
    while i < n
        invariant
            1 <= i <= n,
            n == u0.len(),
            ov == overlaps@.map_values(|r: Vec<bool>| r@),
            unit_ok(u0, ds@, ov),
            unit@ == reorder_upto(u0, ds@, ov, i as int),
            unit@.len() == n,
            forall|p: int| 0 <= p < n ==> (#[trigger] unit@[p]) < ds@.len(),
        decreases n - i,
    {
        let ghost u = unit@;
        let cur = unit[i];
        let cur_ds = ds[cur];
        let mut k: Option<usize> = None;
        let mut last: Option<(u32, u32)> = None;
        let mut m: usize = i;
        let mut j: usize = i;
        let mut done: bool = false;
        while j > 0 && !done
            invariant
                j <= i < n,
                m <= i,
                k matches Some(x) ==> x <= i,
                u == unit@,
                unit@.len() == n,
                cur == u[i as int],
                cur_ds == ds@[cur as int],
                ov == overlaps@.map_values(|r: Vec<bool>| r@),
                unit_ok(u0, ds@, ov),
                forall|p: int| 0 <= p < n ==> (#[trigger] unit@[p]) < ds@.len(),
                insert_point(u, i as int, ds@, ov) == (if done {
                    opt_int(k)
                } else {
                    scan_insert(u, cur, ds@, ov, j - 1, opt_int(k), last, m as int)
                }),
            decreases j,
        {
            j = j - 1;
            let test = unit[j];
            let tds = ds[test];
            let fresh = match last {
                Some(l) => !same_ds(l, tds),
                None => true,
            };
            if fresh {
                last = Some(tds);
                m = j + 1;
            }
            if same_ds(cur_ds, tds) {
                k = Some(m);
            }
            proof {
                assert(ov[cur as int] == overlaps@[cur as int]@);
            }
            if overlaps[cur][test] {
                if k.is_none() {
                    k = Some(m);
                }
                done = true;
            }
        }
        proof {
            if !done {
                assert(j == 0);
            }
        }
        match k {
            Some(ki) => {
                if ki != i {
                    let item = unit.remove(i);
                    unit.insert(ki, item);
                    proof {
                        assert(unit@ =~= move_to(u, i as int, ki as int));
                    }
                }
            },
            None => {},
        }
        proof {
            assert(unit@ == unit_step(u, i as int, ds@, ov));
            assert forall|p: int| 0 <= p < n implies (#[trigger] unit@[p]) < ds@.len() by {
                if k is Some && k.unwrap() != i {
                    let ki = k.unwrap() as int;
                    if p < ki {
                        assert(unit@[p] == u[p]);
                    } else if p == ki {
                        assert(unit@[p] == u[i as int]);
                    } else if p <= i {
                        assert(unit@[p] == u[p - 1]);
                    } else {
                        assert(unit@[p] == u[p]);
                    }
                }
            }
        }
        i = i + 1;
    }
}


// ---------------------------------------------------------------------------
// What reordering keeps.
// ---------------------------------------------------------------------------

/// `perm` is a permutation of `0..n`.
pub open spec fn is_perm(perm: Seq<int>, n: int) -> bool {
    &&& perm.len() == n
    &&& forall|p: int| 0 <= p < n ==> 0 <= #[trigger] perm[p] < n
    &&& forall|p: int, q: int| 0 <= p < q < n ==> #[trigger] perm[p] != #[trigger] perm[q]
}

/// Wherever two nodes changed order (the node now at `p` was after the node now at `q`), the
/// node that moved ahead does not overlap the one it passed.
pub open spec fn inversions_apart(u: Seq<usize>, perm: Seq<int>, ov: Seq<Seq<bool>>) -> bool {
    forall|p: int, q: int| 0 <= p < q < perm.len() && #[trigger] perm[q] < #[trigger] perm[p] ==> !ov[u[perm[p]] as int][u[perm[q]] as int]
}

proof fn lemma_scan(
    u: Seq<usize>,
    cur: usize,
    ds: Seq<(u32, u32)>,
    ov: Seq<Seq<bool>>,
    i: int,
    j: int,
    k: Option<int>,
    last: Option<(u32, u32)>,
    m: int,
)
    requires
        0 <= i < u.len(),
        -1 <= j < i,
        j + 1 <= m <= i,
        k matches Some(x) ==> j + 1 <= x <= i,
        forall|p: int| j < p < i ==> !ov[cur as int][#[trigger] u[p] as int],
    ensures
        scan_insert(u, cur, ds, ov, j, k, last, m) matches Some(x) ==> 0 <= x <= i && forall|p: int| x <= p < i ==> !ov[cur as int][#[trigger] u[p] as int],
    decreases j + 1,
{
    if j >= 0 {
        let test = u[j];
        let tds = ds[test as int];
        let m2 = if last != Some(tds) {
            j + 1
        } else {
            m
        };
        let k2 = if ds[cur as int] == tds {
            Some(m2)
        } else {
            k
        };
        if !ov[cur as int][test as int] {
            lemma_scan(u, cur, ds, ov, i, j - 1, k2, Some(tds), m2);
        }
    }
}

proof fn lemma_reorder_upto(u: Seq<usize>, ds: Seq<(u32, u32)>, ov: Seq<Seq<bool>>, i: int) -> (perm: Seq<int>)
    requires
        unit_ok(u, ds, ov),
        0 <= i <= u.len(),
    ensures
        reorder_upto(u, ds, ov, i).len() == u.len(),
        is_perm(perm, u.len() as int),
        forall|p: int| 0 <= p < u.len() ==> reorder_upto(u, ds, ov, i)[p] == u[#[trigger] perm[p]],
        forall|p: int| i <= p < u.len() ==> #[trigger] perm[p] == p,
        forall|p: int| 0 <= p < i && p < u.len() ==> #[trigger] perm[p] < i || (i <= 1 && perm[p] == p),
        inversions_apart(u, perm, ov),
    decreases i,
{
    let n = u.len() as int;
    if i <= 1 {
        let perm = Seq::new(n as nat, |p: int| p);
        assert(reorder_upto(u, ds, ov, i) == u);
        perm
    } else {
        let t = i - 1;
        let perm0 = lemma_reorder_upto(u, ds, ov, t);
        let r0 = reorder_upto(u, ds, ov, t);
        assert(perm0[t] == t);
        assert(r0[t] == u[t]);
        let cur = u[t];
        assert forall|p: int| 0 <= p < n implies (#[trigger] r0[p]) < ds.len() by {
            assert(r0[p] == u[perm0[p]]);
        }
        lemma_scan(r0, cur, ds, ov, t, t - 1, None, None, t);
        match insert_point(r0, t, ds, ov) {
            Some(k) => {
                if k != t {
                    let r1 = move_to(r0, t, k);
                    assert(r1 == reorder_upto(u, ds, ov, i));
                    let perm1 = Seq::new(n as nat, |p: int|
                        if p < k {
                            perm0[p]
                        } else if p == k {
                            t
                        } else if p <= t {
                            perm0[p - 1]
                        } else {
                            perm0[p]
                        });
                    assert forall|p: int| 0 <= p < n implies r1[p] == u[#[trigger] perm1[p]] by {
                        if p < k {
                            assert(r1[p] == r0[p]);
                        } else if p == k {
                            assert(r1[p] == r0[t]);
                        } else if p <= t {
                            assert(r1[p] == r0[p - 1]);
                        } else {
                            assert(r1[p] == r0[p]);
                        }
                    }
                    assert forall|p: int, q: int| 0 <= p < q < n implies #[trigger] perm1[p] != #[trigger] perm1[q] by {
                        let pp = if p < k { p } else if p == k { t } else if p <= t { p - 1 } else { p };
                        let qq = if q < k { q } else if q == k { t } else if q <= t { q - 1 } else { q };
                        if p == k {
                            assert(perm1[p] == t);
                            if q <= t {
                                assert(perm0[q - 1] < t || (t <= 1 && perm0[q - 1] == q - 1));
                            }
                        } else if q == k {
                            assert(perm0[p] < t || (t <= 1 && perm0[p] == p));
                        } else {
                            assert(pp != qq);
                            assert(perm1[p] == perm0[pp] && perm1[q] == perm0[qq]);
                            if pp < qq {
                                assert(perm0[pp] != perm0[qq]);
                            } else {
                                assert(perm0[qq] != perm0[pp]);
                            }
                        }
                    }
                    assert forall|p: int, q: int| 0 <= p < q < n && #[trigger] perm1[q] < #[trigger] perm1[p] implies !ov[u[perm1[p]] as int][u[perm1[q]] as int] by {
                        if p == k {
                            if q <= t {
                                assert(perm1[q] == perm0[q - 1]);
                                assert(r0[q - 1] == u[perm0[q - 1]]);
                                assert(k <= q - 1 < t);
                                assert(!ov[cur as int][r0[q - 1] as int]);
                            } else {
                                assert(perm1[q] == q);
                            }
                        } else if q == k {
                            assert(perm0[p] < t || (t <= 1 && perm0[p] == p));
                        } else {
                            let pp = if p < k { p } else if p <= t { p - 1 } else { p };
                            let qq = if q < k { q } else if q <= t { q - 1 } else { q };
                            assert(pp < qq);
                            assert(perm1[p] == perm0[pp] && perm1[q] == perm0[qq]);
                        }
                    }
                    assert forall|p: int| 0 <= p < i && p < n implies #[trigger] perm1[p] < i || (i <= 1 && perm1[p] == p) by {
                        if p < k {
                            assert(perm0[p] < t || (t <= 1 && perm0[p] == p));
                        } else if p > k && p <= t {
                            assert(perm0[p - 1] < t || (t <= 1 && perm0[p - 1] == p - 1));
                        }
                    }
                    perm1
                } else {
                    assert(reorder_upto(u, ds, ov, i) == r0);
                    perm0
                }
            },
            None => {
                assert(reorder_upto(u, ds, ov, i) == r0);
                perm0
            },
        }
    }
}

/// Reordering a unit only moves nodes past nodes they do not overlap: the result is a
/// permutation of the unit, and any two nodes whose order changed do not overlap (seen from
/// the one that moved ahead). Overlapping nodes keep their drawing order.
pub proof fn law_reorder_passes_only_disjoint(u: Seq<usize>, ds: Seq<(u32, u32)>, ov: Seq<Seq<bool>>)
    requires
        unit_ok(u, ds, ov),
    ensures
        spec_reorder_unit(u, ds, ov).len() == u.len(),
        exists|perm: Seq<int>| #[trigger] is_perm(perm, u.len() as int)
            && (forall|p: int| 0 <= p < u.len() ==> spec_reorder_unit(u, ds, ov)[p] == u[#[trigger] perm[p]])
            && inversions_apart(u, perm, ov),
{
    let perm = lemma_reorder_upto(u, ds, ov, u.len() as int);
    assert(is_perm(perm, u.len() as int));
}


// ---------------------------------------------------------------------------
// Reordering all nodes.
// ---------------------------------------------------------------------------

/// Node `x` is drawn before node `y` by key, ties by node index.
pub open spec fn key_lt(keys: Seq<u32>, x: usize, y: usize) -> bool {
    keys[x as int] < keys[y as int] || (keys[x as int] == keys[y as int] && x < y)
}

/// `order` lists the nodes `0..keys.len()`, each once, by key (ties by index): the stable sort
/// of the nodes by key.
pub open spec fn key_order_ok(order: Seq<usize>, keys: Seq<u32>) -> bool {
    &&& order.len() == keys.len()
    &&& forall|a: int| 0 <= a < order.len() ==> (#[trigger] order[a]) < keys.len()
    &&& forall|x: usize| x < keys.len() ==> #[trigger] order.contains(x)
    &&& forall|a: int, b: int| 0 <= a < b < order.len() ==> key_lt(keys, #[trigger] order[a], #[trigger] order[b])
}

/// End of the unit that starts at position `i` of `o`: the first position from `j` on that is
/// not a mergeable mesh of the same mask context.
pub open spec fn unit_end(o: Seq<usize>, i: int, j: int, mergeable: Seq<bool>, masks: Seq<u32>) -> int
    decreases o.len() - j,
{
    if j < o.len() && mergeable[o[j] as int] && masks[o[j] as int] == masks[o[i] as int] {
        unit_end(o, i, j + 1, mergeable, masks)
    } else {
        j
    }
}

/// The draw order from position `i` of `o` on: each unit of mergeable meshes of one mask
/// context reordered, any other node on its own.
pub open spec fn batch_from(
    o: Seq<usize>,
    i: int,
    mergeable: Seq<bool>,
    masks: Seq<u32>,
    ds: Seq<(u32, u32)>,
    ov: Seq<Seq<bool>>,
) -> Seq<usize>
    decreases o.len() - i,
{
    if i < 0 || i >= o.len() {
        Seq::empty()
    } else if mergeable[o[i] as int] {
        let e = unit_end(o, i, i + 1, mergeable, masks);
        if e <= i || e > o.len() {
            Seq::empty()
        } else {
            spec_reorder_unit(o.subrange(i, e), ds, ov) + batch_from(o, e, mergeable, masks, ds, ov)
        }
    } else {
        seq![o[i]] + batch_from(o, i + 1, mergeable, masks, ds, ov)
    }
}

proof fn lemma_unit_end(o: Seq<usize>, i: int, j: int, mergeable: Seq<bool>, masks: Seq<u32>)
    requires
        0 <= i < j <= o.len(),
    ensures
        j <= unit_end(o, i, j, mergeable, masks) <= o.len(),
    decreases o.len() - j,
{
    if j < o.len() && mergeable[o[j] as int] && masks[o[j] as int] == masks[o[i] as int] {
        lemma_unit_end(o, i, j + 1, mergeable, masks);
    }
}

proof fn lemma_batch_from(o: Seq<usize>, i: int, mergeable: Seq<bool>, masks: Seq<u32>, ds: Seq<(u32, u32)>, ov: Seq<Seq<bool>>)
    requires
        0 <= i <= o.len(),
        forall|a: int, b: int| 0 <= a < b < o.len() ==> #[trigger] o[a] != #[trigger] o[b],
        ov.len() == ds.len(),
        forall|x: int| 0 <= x < ov.len() ==> (#[trigger] ov[x]).len() == ds.len(),
        forall|a: int| 0 <= a < o.len() ==> (#[trigger] o[a]) < ds.len(),
    ensures
        batch_from(o, i, mergeable, masks, ds, ov).len() == o.len() - i,
        forall|p: int| 0 <= p < batch_from(o, i, mergeable, masks, ds, ov).len() ==> exists|j: int| i <= j < o.len() && #[trigger] batch_from(o, i, mergeable, masks, ds, ov)[p] == o[j],
        forall|p: int, q: int| 0 <= p < q < batch_from(o, i, mergeable, masks, ds, ov).len() ==> #[trigger] batch_from(o, i, mergeable, masks, ds, ov)[p] != #[trigger] batch_from(o, i, mergeable, masks, ds, ov)[q],
    decreases o.len() - i,
{
    let r = batch_from(o, i, mergeable, masks, ds, ov);
    if i < o.len() {
        if mergeable[o[i] as int] {
            let e = unit_end(o, i, i + 1, mergeable, masks);
            lemma_unit_end(o, i, i + 1, mergeable, masks);
            let sub = o.subrange(i, e);
            assert(unit_ok(sub, ds, ov)) by {
                assert forall|p: int| 0 <= p < sub.len() implies (#[trigger] sub[p]) < ds.len() by {
                    assert(sub[p] == o[i + p]);
                }
            }
            law_reorder_passes_only_disjoint(sub, ds, ov);
            let ru = spec_reorder_unit(sub, ds, ov);
            let perm = choose|perm: Seq<int>| #[trigger] is_perm(perm, sub.len() as int)
                && (forall|p: int| 0 <= p < sub.len() ==> ru[p] == sub[#[trigger] perm[p]])
                && inversions_apart(sub, perm, ov);
            lemma_batch_from(o, e, mergeable, masks, ds, ov);
            let rest = batch_from(o, e, mergeable, masks, ds, ov);
            assert(r == ru + rest);
            assert forall|p: int| 0 <= p < r.len() implies exists|j: int| i <= j < o.len() && #[trigger] r[p] == o[j] by {
                if p < ru.len() {
                    assert(r[p] == sub[perm[p]]);
                    assert(sub[perm[p]] == o[i + perm[p]]);
                } else {
                    assert(r[p] == rest[p - ru.len()]);
                    let j = choose|j: int| e <= j < o.len() && #[trigger] rest[p - ru.len()] == o[j];
                    assert(i <= j < o.len() && r[p] == o[j]);
                }
            }
            assert forall|p: int, q: int| 0 <= p < q < r.len() implies #[trigger] r[p] != #[trigger] r[q] by {
                if q < ru.len() {
                    assert(r[p] == o[i + perm[p]] && r[q] == o[i + perm[q]]);
                    assert(perm[p] != perm[q]);
                    if perm[p] < perm[q] {
                        assert(o[i + perm[p]] != o[i + perm[q]]);
                    } else {
                        assert(o[i + perm[q]] != o[i + perm[p]]);
                    }
                } else if p < ru.len() {
                    assert(r[p] == o[i + perm[p]]);
                    assert(r[q] == rest[q - ru.len()]);
                    let j = choose|j: int| e <= j < o.len() && #[trigger] rest[q - ru.len()] == o[j];
                    assert(o[i + perm[p]] != o[j]);
                } else {
                    assert(r[p] == rest[p - ru.len()] && r[q] == rest[q - ru.len()]);
                }
            }
        } else {
            lemma_batch_from(o, i + 1, mergeable, masks, ds, ov);
            let rest = batch_from(o, i + 1, mergeable, masks, ds, ov);
            assert(r == seq![o[i]] + rest);
            assert forall|p: int| 0 <= p < r.len() implies exists|j: int| i <= j < o.len() && #[trigger] r[p] == o[j] by {
                if p == 0 {
                    assert(r[0] == o[i]);
                } else {
                    assert(r[p] == rest[p - 1]);
                    let j = choose|j: int| i + 1 <= j < o.len() && #[trigger] rest[p - 1] == o[j];
                    assert(r[p] == o[j]);
                }
            }
            assert forall|p: int, q: int| 0 <= p < q < r.len() implies #[trigger] r[p] != #[trigger] r[q] by {
                if p == 0 {
                    assert(r[q] == rest[q - 1]);
                    let j = choose|j: int| i + 1 <= j < o.len() && #[trigger] rest[q - 1] == o[j];
                    assert(o[i] != o[j]);
                } else {
                    assert(r[p] == rest[p - 1] && r[q] == rest[q - 1]);
                }
            }
        }
    }
}

/// The nodes sorted by key, ties by index.
pub(crate) fn key_order(keys: &Vec<u32>) -> (order: Vec<usize>)
    ensures
        key_order_ok(order@, keys@),
{
    let n = keys.len();
    let mut order: Vec<usize> = Vec::new();
    let mut i: usize = 0;
    while i < n
        invariant
            i <= n,
            n == keys@.len(),
            order@.len() == i,
            forall|a: int| 0 <= a < order@.len() ==> (#[trigger] order@[a]) < i,
            forall|x: usize| x < i ==> #[trigger] order@.contains(x),
            forall|a: int, b: int| 0 <= a < b < order@.len() ==> key_lt(keys@, #[trigger] order@[a], #[trigger] order@[b]),
        decreases n - i,
    {
        let ki = keys[i];
        let mut p: usize = order.len();
        while p > 0 && keys[order[p - 1]] > ki
            invariant
                p <= order@.len(),
                i < n,
                n == keys@.len(),
                ki == keys@[i as int],
                forall|a: int| 0 <= a < order@.len() ==> (#[trigger] order@[a]) < i,
                forall|a: int| p <= a < order@.len() ==> keys@[(#[trigger] order@[a]) as int] > ki,
            decreases p,
        {
            p = p - 1;
        }
        let ghost old_o = order@;
        order.insert(p, i);
        proof {
            assert forall|a: int| 0 <= a < order@.len() implies (#[trigger] order@[a]) < i + 1 by {
                if a < p {
                    assert(order@[a] == old_o[a]);
                } else if a > p {
                    assert(order@[a] == old_o[a - 1]);
                }
            }
            assert forall|x: usize| x < i + 1 implies #[trigger] order@.contains(x) by {
                if x == i {
                    assert(order@[p as int] == i);
                } else {
                    assert(old_o.contains(x));
                    let w = choose|w: int| 0 <= w < old_o.len() && old_o[w] == x;
                    if w < p {
                        assert(order@[w] == x);
                    } else {
                        assert(order@[w + 1] == x);
                    }
                }
            }
            assert forall|a: int, b: int| 0 <= a < b < order@.len() implies key_lt(keys@, #[trigger] order@[a], #[trigger] order@[b]) by {
                if b < p {
                    assert(order@[a] == old_o[a] && order@[b] == old_o[b]);
                } else if b == p {
                    assert(order@[a] == old_o[a]);
                    if p > 0 {
                        assert(keys@[old_o[p - 1] as int] <= ki);
                        if a < p - 1 {
                            assert(key_lt(keys@, old_o[a], old_o[p - 1]));
                        }
                    }
                } else if a == p {
                    assert(order@[b] == old_o[b - 1]);
                } else if a < p {
                    assert(order@[a] == old_o[a] && order@[b] == old_o[b - 1]);
                } else {
                    assert(order@[a] == old_o[a - 1] && order@[b] == old_o[b - 1]);
                }
            }
        }
        i = i + 1;
    }
    order
}

fn sub_vec(v: &Vec<usize>, a: usize, b: usize) -> (out: Vec<usize>)
    requires
        a <= b <= v@.len(),
    ensures
        out@ == v@.subrange(a as int, b as int),
{
    let mut out: Vec<usize> = Vec::new();
    let mut i: usize = a;
    while i < b
        invariant
            a <= i <= b <= v@.len(),
            out@ == v@.subrange(a as int, i as int),
        decreases b - i,
    {
        out.push(v[i]);
        assert(out@ =~= v@.subrange(a as int, i + 1));
        i = i + 1;
    }
    out
}

/// The tables of a frame fit together: one key, flag, mask and draw state per node, a square
/// overlap table, and few enough nodes for `u32` keys.
pub open spec fn frame_ok(keys: Seq<u32>, mergeable: Seq<bool>, masks: Seq<u32>, ds: Seq<(u32, u32)>, ov: Seq<Seq<bool>>) -> bool {
    &&& mergeable.len() == keys.len()
    &&& masks.len() == keys.len()
    &&& ds.len() == keys.len()
    &&& ov.len() == keys.len()
    &&& forall|x: int| 0 <= x < ov.len() ==> (#[trigger] ov[x]).len() == keys.len()
    &&& keys.len() <= u32::MAX
}

/// New sort keys for a frame: the nodes in key order, each run of mergeable meshes of one mask
/// context reordered as a unit (see `reorder_unit`), every other node on its own, then numbered
/// from 0 in that order.
pub fn reorder_for_batching(
    keys: &Vec<u32>,
    mergeable: &Vec<bool>,
    masks: &Vec<u32>,
    ds: &Vec<(u32, u32)>,
    overlaps: &Vec<Vec<bool>>,
) -> (new_keys: Vec<u32>)
    requires
        frame_ok(keys@, mergeable@, masks@, ds@, overlaps@.map_values(|r: Vec<bool>| r@)),
    ensures
        new_keys@.len() == keys@.len(),
        exists|order: Seq<usize>| #[trigger] key_order_ok(order, keys@) && {
            let drawn = batch_from(order, 0, mergeable@, masks@, ds@, overlaps@.map_values(|r: Vec<bool>| r@));
            &&& drawn.len() == keys@.len()
            &&& forall|p: int| 0 <= p < drawn.len() ==> new_keys@[#[trigger] drawn[p] as int] == p
        },
{
    let ghost ov = overlaps@.map_values(|r: Vec<bool>| r@);
    let n = keys.len();
    let order = key_order(keys);
    let mut drawn: Vec<usize> = Vec::new();
    let mut i: usize = 0;
    while i < n
        invariant
            i <= n,
            n == keys@.len(),
            frame_ok(keys@, mergeable@, masks@, ds@, ov),
            ov == overlaps@.map_values(|r: Vec<bool>| r@),
            key_order_ok(order@, keys@),
            drawn@ + batch_from(order@, i as int, mergeable@, masks@, ds@, ov) == batch_from(order@, 0, mergeable@, masks@, ds@, ov),
            forall|p: int| 0 <= p < drawn@.len() ==> (#[trigger] drawn@[p]) < n,
        decreases n - i,
    {
        let x = order[i];
        if mergeable[x] {
            let ctx = masks[x];
            let mut e: usize = i + 1;
            while e < n && mergeable[order[e]] && masks[order[e]] == ctx
                invariant
                    i < e <= n,
                    n == keys@.len(),
                    frame_ok(keys@, mergeable@, masks@, ds@, ov),
                    key_order_ok(order@, keys@),
                    ctx == masks@[order@[i as int] as int],
                    unit_end(order@, i as int, i + 1, mergeable@, masks@) == unit_end(order@, i as int, e as int, mergeable@, masks@),
                decreases n - e,
            {
                e = e + 1;
            }
            let mut unit = sub_vec(&order, i, e);
            proof {
                assert forall|p: int| 0 <= p < unit@.len() implies (#[trigger] unit@[p]) < ds@.len() by {
                    assert(unit@[p] == order@[i + p]);
                }
            }
            let ghost u0 = unit@;
            reorder_unit(&mut unit, ds, overlaps);
            let ghost before = drawn@;
            let mut q: usize = 0;
            proof {
                law_reorder_passes_only_disjoint(u0, ds@, ov);
                let perm = choose|perm: Seq<int>| #[trigger] is_perm(perm, u0.len() as int)
                    && (forall|p: int| 0 <= p < u0.len() ==> spec_reorder_unit(u0, ds@, ov)[p] == u0[#[trigger] perm[p]])
                    && inversions_apart(u0, perm, ov);
                assert forall|p: int| 0 <= p < unit@.len() implies (#[trigger] unit@[p]) < n by {
                    assert(unit@[p] == u0[perm[p]]);
                }
            }
            while q < unit.len()
                invariant
                    q <= unit@.len(),
                    drawn@ == before + unit@.subrange(0, q as int),
                    forall|p: int| 0 <= p < unit@.len() ==> (#[trigger] unit@[p]) < n,
                    forall|p: int| 0 <= p < before.len() ==> (#[trigger] before[p]) < n,
                decreases unit@.len() - q,
            {
                drawn.push(unit[q]);
                assert(drawn@ =~= before + unit@.subrange(0, q + 1));
                q = q + 1;
            }
            proof {
                assert(unit@.subrange(0, unit@.len() as int) =~= unit@);
                lemma_unit_end(order@, i as int, i + 1, mergeable@, masks@);
                assert(drawn@ + batch_from(order@, e as int, mergeable@, masks@, ds@, ov) =~= before + batch_from(order@, i as int, mergeable@, masks@, ds@, ov));
                assert forall|p: int| 0 <= p < drawn@.len() implies (#[trigger] drawn@[p]) < n by {
                    if p < before.len() {
                        assert(drawn@[p] == before[p]);
                    } else {
                        assert(drawn@[p] == unit@[p - before.len()]);
                    }
                }
            }
            i = e;
        } else {
            let ghost before = drawn@;
            drawn.push(x);
            proof {
                assert(drawn@ + batch_from(order@, i + 1, mergeable@, masks@, ds@, ov) =~= before + batch_from(order@, i as int, mergeable@, masks@, ds@, ov));
            }
            i = i + 1;
        }
    }
    proof {
        assert(drawn@ =~= batch_from(order@, 0, mergeable@, masks@, ds@, ov));
        assert forall|a: int, b: int| 0 <= a < b < order@.len() implies #[trigger] order@[a] != #[trigger] order@[b] by {
            assert(key_lt(keys@, order@[a], order@[b]));
        }
        lemma_batch_from(order@, 0, mergeable@, masks@, ds@, ov);
    }
    let mut new_keys: Vec<u32> = Vec::new();
    let mut z: usize = 0;
    while z < n
        invariant
            z <= n,
            new_keys@.len() == z,
        decreases n - z,
    {
        new_keys.push(0);
        z = z + 1;
    }
    let ghost d = drawn@;
    let m = drawn.len();
    let mut p: usize = 0;
    while p < m
        invariant
            p <= m,
            m == d.len(),
            m == n,
            d == drawn@,
            new_keys@.len() == n,
            n <= u32::MAX,
            forall|a: int| 0 <= a < d.len() ==> (#[trigger] d[a]) < n,
            forall|a: int, b: int| 0 <= a < b < d.len() ==> #[trigger] d[a] != #[trigger] d[b],
            forall|a: int| 0 <= a < p ==> new_keys@[#[trigger] d[a] as int] == a,
        decreases m - p,
    {
        new_keys.set(drawn[p], p as u32);
        p = p + 1;
    }
    new_keys
}


proof fn lemma_unit_members(o: Seq<usize>, i: int, j: int, mergeable: Seq<bool>, masks: Seq<u32>)
    requires
        0 <= i < j <= o.len(),
    ensures
        forall|x: int| j <= x < unit_end(o, i, j, mergeable, masks) ==> mergeable[#[trigger] o[x] as int] && masks[o[x] as int] == masks[o[i] as int],
    decreases o.len() - j,
{
    if j < o.len() && mergeable[o[j] as int] && masks[o[j] as int] == masks[o[i] as int] {
        lemma_unit_members(o, i, j + 1, mergeable, masks);
    }
}

/// Two drawn nodes may only have changed order when both are mergeable meshes of one mask
/// context and the one now in front does not overlap the other.
pub open spec fn swap_allowed(x: usize, y: usize, mergeable: Seq<bool>, masks: Seq<u32>, ov: Seq<Seq<bool>>) -> bool {
    mergeable[x as int] && mergeable[y as int] && masks[x as int] == masks[y as int] && !ov[x as int][y as int]
}

proof fn lemma_batch_perm(o: Seq<usize>, i: int, mergeable: Seq<bool>, masks: Seq<u32>, ds: Seq<(u32, u32)>, ov: Seq<Seq<bool>>) -> (perm: Seq<int>)
    requires
        0 <= i <= o.len(),
        ov.len() == ds.len(),
        forall|x: int| 0 <= x < ov.len() ==> (#[trigger] ov[x]).len() == ds.len(),
        forall|a: int| 0 <= a < o.len() ==> (#[trigger] o[a]) < ds.len(),
    ensures
        batch_from(o, i, mergeable, masks, ds, ov).len() == o.len() - i,
        is_perm(perm, o.len() - i),
        forall|p: int| 0 <= p < o.len() - i ==> batch_from(o, i, mergeable, masks, ds, ov)[p] == o[i + #[trigger] perm[p]],
        forall|p: int, q: int| 0 <= p < q < o.len() - i && #[trigger] perm[q] < #[trigger] perm[p]
            ==> swap_allowed(o[i + perm[p]], o[i + perm[q]], mergeable, masks, ov),
    decreases o.len() - i,
{
    let n = o.len() - i;
    let r = batch_from(o, i, mergeable, masks, ds, ov);
    if i >= o.len() {
        Seq::<int>::empty()
    } else if mergeable[o[i] as int] {
        let e = unit_end(o, i, i + 1, mergeable, masks);
        lemma_unit_end(o, i, i + 1, mergeable, masks);
        lemma_unit_members(o, i, i + 1, mergeable, masks);
        let sub = o.subrange(i, e);
        assert(unit_ok(sub, ds, ov)) by {
            assert forall|p: int| 0 <= p < sub.len() implies (#[trigger] sub[p]) < ds.len() by {
                assert(sub[p] == o[i + p]);
            }
        }
        law_reorder_passes_only_disjoint(sub, ds, ov);
        let ru = spec_reorder_unit(sub, ds, ov);
        let pu = choose|perm: Seq<int>| #[trigger] is_perm(perm, sub.len() as int)
            && (forall|p: int| 0 <= p < sub.len() ==> ru[p] == sub[#[trigger] perm[p]])
            && inversions_apart(sub, perm, ov);
        let pr = lemma_batch_perm(o, e, mergeable, masks, ds, ov);
        let rest = batch_from(o, e, mergeable, masks, ds, ov);
        let w = e - i;
        assert(r == ru + rest);
        let perm = Seq::new(n as nat, |p: int| if p < w { pu[p] } else { w + pr[p - w] });
        assert forall|p: int| 0 <= p < n implies r[p] == o[i + #[trigger] perm[p]] by {
            if p < w {
                assert(r[p] == ru[p]);
                assert(ru[p] == sub[pu[p]]);
            } else {
                assert(r[p] == rest[p - w]);
                assert(rest[p - w] == o[e + pr[p - w]]);
            }
        }
        assert forall|p: int| 0 <= p < n implies 0 <= #[trigger] perm[p] < n by {
            if p >= w {
                assert(0 <= pr[p - w] < o.len() - e);
            }
        }
        assert forall|p: int, q: int| 0 <= p < q < n implies #[trigger] perm[p] != #[trigger] perm[q] by {
            if q < w {
                assert(pu[p] != pu[q]);
            } else if p < w {
                assert(0 <= pr[q - w]);
            } else {
                assert(pr[p - w] != pr[q - w]);
            }
        }
        assert forall|p: int, q: int| 0 <= p < q < n && #[trigger] perm[q] < #[trigger] perm[p]
            implies swap_allowed(o[i + perm[p]], o[i + perm[q]], mergeable, masks, ov) by {
            if q < w {
                assert(pu[q] < pu[p]);
                assert(!ov[sub[pu[p]] as int][sub[pu[q]] as int]);
                assert(sub[pu[p]] == o[i + pu[p]] && sub[pu[q]] == o[i + pu[q]]);
                assert(0 <= pu[p] < w && 0 <= pu[q] < w);
                if pu[p] > 0 {
                    assert(mergeable[o[i + pu[p]] as int] && masks[o[i + pu[p]] as int] == masks[o[i] as int]);
                }
                if pu[q] > 0 {
                    assert(mergeable[o[i + pu[q]] as int] && masks[o[i + pu[q]] as int] == masks[o[i] as int]);
                }
            } else if p < w {
                assert(0 <= pr[q - w]);
                assert(pu[p] < w);
            } else {
                assert(pr[q - w] < pr[p - w]);
            }
        }
        perm
    } else {
        let pr = lemma_batch_perm(o, i + 1, mergeable, masks, ds, ov);
        let rest = batch_from(o, i + 1, mergeable, masks, ds, ov);
        assert(r == seq![o[i]] + rest);
        let perm = Seq::new(n as nat, |p: int| if p == 0 { 0 } else { 1 + pr[p - 1] });
        assert forall|p: int| 0 <= p < n implies r[p] == o[i + #[trigger] perm[p]] by {
            if p > 0 {
                assert(r[p] == rest[p - 1]);
            }
        }
        assert forall|p: int| 0 <= p < n implies 0 <= #[trigger] perm[p] < n by {
            if p > 0 {
                assert(0 <= pr[p - 1] < o.len() - i - 1);
            }
        }
        assert forall|p: int, q: int| 0 <= p < q < n implies #[trigger] perm[p] != #[trigger] perm[q] by {
            if p == 0 {
                assert(0 <= pr[q - 1]);
            } else {
                assert(pr[p - 1] != pr[q - 1]);
            }
        }
        assert forall|p: int, q: int| 0 <= p < q < n && #[trigger] perm[q] < #[trigger] perm[p]
            implies swap_allowed(o[i + perm[p]], o[i + perm[q]], mergeable, masks, ov) by {
            if p == 0 {
                assert(0 <= pr[q - 1]);
            } else {
                assert(pr[q - 1] < pr[p - 1]);
            }
        }
        perm
    }
}

/// Batching only swaps what may be swapped: the draw order is a permutation of the key order in
/// which any two nodes that changed order are mergeable meshes of one mask context, the one now
/// in front not overlapping the other. Text, unchanged nodes and meshes of other contexts keep
/// their place relative to every node.
pub proof fn law_batching_keeps_breaks(
    keys: Seq<u32>,
    mergeable: Seq<bool>,
    masks: Seq<u32>,
    ds: Seq<(u32, u32)>,
    ov: Seq<Seq<bool>>,
    order: Seq<usize>,
)
    requires
        frame_ok(keys, mergeable, masks, ds, ov),
        key_order_ok(order, keys),
    ensures
        batch_from(order, 0, mergeable, masks, ds, ov).len() == order.len(),
        exists|perm: Seq<int>| #[trigger] is_perm(perm, order.len() as int)
            && (forall|p: int| 0 <= p < order.len() ==> batch_from(order, 0, mergeable, masks, ds, ov)[p] == order[#[trigger] perm[p]])
            && (forall|p: int, q: int| 0 <= p < q < order.len() && #[trigger] perm[q] < #[trigger] perm[p]
                ==> swap_allowed(order[perm[p]], order[perm[q]], mergeable, masks, ov)),
{
    let perm = lemma_batch_perm(order, 0, mergeable, masks, ds, ov);
    assert forall|p: int| 0 <= p < order.len() implies batch_from(order, 0, mergeable, masks, ds, ov)[p] == order[#[trigger] perm[p]] by {
        assert(order[0 + perm[p]] == order[perm[p]]);
    }
    assert forall|p: int, q: int| 0 <= p < q < order.len() && #[trigger] perm[q] < #[trigger] perm[p]
        implies swap_allowed(order[perm[p]], order[perm[q]], mergeable, masks, ov) by {
        assert(order[0 + perm[p]] == order[perm[p]] && order[0 + perm[q]] == order[perm[q]]);
    }
    assert(is_perm(perm, order.len() as int));
}

} // verus!