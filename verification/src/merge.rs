//! Mesh merging: in sort-key order, consecutive meshes with the same merge key (texture,
//! program, mask context) become one mesh; any other node stays on its own. A merged mesh
//! takes the smallest node id of its members, and the index lists of its members are joined,
//! each shifted past the vertices of the members before it.
use vstd::prelude::*;
use crate::batch::{key_order, key_order_ok};

verus! {

/// Where the run that starts at position `i` of `order` ends: the first position from `j` on
/// whose node has another merge key.
pub open spec fn run_end(order: Seq<usize>, mk: Seq<Option<(u32, u32, u32)>>, i: int, j: int) -> int
    decreases order.len() - j,
{
    if 0 <= j < order.len() && mk[order[j] as int] == mk[order[i] as int] {
        run_end(order, mk, i, j + 1)
    } else {
        j
    }
}

/// The runs of `order` from position `i` on, as position ranges: a node without a merge key
/// alone, else the longest stretch of nodes with its merge key.
pub open spec fn runs_from(order: Seq<usize>, mk: Seq<Option<(u32, u32, u32)>>, i: int) -> Seq<(int, int)>
    decreases order.len() - i,
{
    if i < 0 || i >= order.len() {
        Seq::empty()
    } else if mk[order[i] as int] is None {
        seq![(i, i + 1)] + runs_from(order, mk, i + 1)
    } else {
        let e = run_end(order, mk, i, i + 1);
        if e <= i || e > order.len() {
            Seq::empty()
        } else {
            seq![(i, e)] + runs_from(order, mk, e)
        }
    }
}

/// The nodes sorted by sort key (ties by index) and the runs to merge over that order.
#[derive(Debug)]
pub struct MergePlan {
    pub order: Vec<usize>,
    pub runs: Vec<(usize, usize)>,
}

pub open spec fn runs_model(v: Seq<(usize, usize)>) -> Seq<(int, int)> {
    Seq::new(v.len(), |i: int| (v[i].0 as int, v[i].1 as int))
}

proof fn lemma_run_end(order: Seq<usize>, mk: Seq<Option<(u32, u32, u32)>>, i: int, j: int)
    requires
        0 <= i < j <= order.len(),
    ensures
        j <= run_end(order, mk, i, j) <= order.len(),
        forall|p: int| j <= p < run_end(order, mk, i, j) ==> mk[#[trigger] order[p] as int] == mk[order[i] as int],
    decreases order.len() - j,
{
    if j < order.len() && mk[order[j] as int] == mk[order[i] as int] {
        lemma_run_end(order, mk, i, j + 1);
    }
}

/// Which nodes merge: the nodes in sort-key order (ties by index) and the runs over that order
/// (see `runs_from`). `mesh_keys[i]` is the merge key of node `i`, `None` for a node that does
/// not merge.
pub fn merge_plan(sort_keys: &Vec<u32>, mesh_keys: &Vec<Option<(u32, u32, u32)>>) -> (p: MergePlan)
    requires
        sort_keys@.len() == mesh_keys@.len(),
    ensures
        key_order_ok(p.order@, sort_keys@),
        runs_model(p.runs@) == runs_from(p.order@, mesh_keys@, 0),
{
    let order = key_order(sort_keys);
    let n = order.len();
    let mut runs: Vec<(usize, usize)> = Vec::new();
    let mut i: usize = 0;
    while i < n
        invariant
            i <= n,
            n == order@.len(),
            key_order_ok(order@, sort_keys@),
            sort_keys@.len() == mesh_keys@.len(),
            runs_model(runs@) + runs_from(order@, mesh_keys@, i as int) == runs_from(order@, mesh_keys@, 0),
        decreases n - i,
    {
        let ghost r0 = runs@;
        let k = mesh_keys[order[i]];
        let mut j: usize = i + 1;
        if k.is_some() {
            while j < n && mesh_keys[order[j]] == k
                invariant
                    i < j <= n,
                    n == order@.len(),
                    key_order_ok(order@, sort_keys@),
                    sort_keys@.len() == mesh_keys@.len(),
                    k == mesh_keys@[order@[i as int] as int],
                    run_end(order@, mesh_keys@, i as int, i + 1) == run_end(order@, mesh_keys@, i as int, j as int),
                decreases n - j,
            {
                j = j + 1;
            }
        }
        proof {
            lemma_run_end(order@, mesh_keys@, i as int, i + 1);
        }
        runs.push((i, j));
        proof {
            assert(runs_model(runs@) =~= runs_model(r0).push((i as int, j as int)));
            let rest = runs_from(order@, mesh_keys@, j as int);
            assert(runs_from(order@, mesh_keys@, i as int) == seq![(i as int, j as int)] + rest);
            assert(runs_model(r0) + (seq![(i as int, j as int)] + rest) =~= runs_model(runs@) + rest);
        }
        i = j;
    }
    proof {
        assert(runs_from(order@, mesh_keys@, n as int) =~= Seq::<(int, int)>::empty());
        assert(runs_model(runs@) + Seq::<(int, int)>::empty() =~= runs_model(runs@));
    }
    MergePlan { order, runs }
}

/// The number of vertices of the first `k` members.
pub open spec fn base_of(counts: Seq<u32>, k: int) -> int
    decreases k,
{
    if k <= 0 {
        0
    } else {
        base_of(counts, k - 1) + counts[k - 1]
    }
}

/// The index lists of the first `k` members joined, each index shifted by the vertices of the
/// members before its own.
pub open spec fn joined(ix: Seq<Seq<u32>>, counts: Seq<u32>, k: int) -> Seq<int>
    decreases k,
{
    if k <= 0 {
        Seq::empty()
    } else {
        joined(ix, counts, k - 1) + Seq::new(ix[k - 1].len(), |j: int| ix[k - 1][j] + base_of(counts, k - 1))
    }
}

pub open spec fn lists_model(v: Seq<Vec<u32>>) -> Seq<Seq<u32>> {
    Seq::new(v.len(), |i: int| v[i]@)
}

proof fn lemma_base_grows(counts: Seq<u32>, a: int, b: int)
    requires
        0 <= a <= b,
    ensures
        base_of(counts, a) <= base_of(counts, b),
    decreases b - a,
{
    if a < b {
        lemma_base_grows(counts, a, b - 1);
    }
}

/// The index list of a merged mesh: `ix[k]` is the index list of member `k` and `counts[k]` its
/// number of vertices (see `joined`). Every shifted index and the vertex total fit in `u32`.
pub fn join_indices(ix: &Vec<Vec<u32>>, counts: &Vec<u32>) -> (r: Vec<u32>)
    requires
        ix@.len() == counts@.len(),
        base_of(counts@, counts@.len() as int) <= u32::MAX,
        forall|k: int, j: int| 0 <= k < ix@.len() && 0 <= j < ix@[k]@.len() ==> #[trigger] ix@[k]@[j] + base_of(counts@, k) <= u32::MAX,
    ensures
        r@.len() == joined(lists_model(ix@), counts@, ix@.len() as int).len(),
        forall|p: int| 0 <= p < r@.len() ==> r@[p] as int == #[trigger] joined(lists_model(ix@), counts@, ix@.len() as int)[p],
{
    let ghost lm = lists_model(ix@);
    let mut r: Vec<u32> = Vec::new();
    let mut base: u32 = 0;
    let mut k: usize = 0;
    while k < ix.len()
        invariant
            k <= ix@.len(),
            ix@.len() == counts@.len(),
            lm == lists_model(ix@),
            base as int == base_of(counts@, k as int),
            base_of(counts@, counts@.len() as int) <= u32::MAX,
            forall|kk: int, j: int| 0 <= kk < ix@.len() && 0 <= j < ix@[kk]@.len() ==> #[trigger] ix@[kk]@[j] + base_of(counts@, kk) <= u32::MAX,
            r@.len() == joined(lm, counts@, k as int).len(),
            forall|p: int| 0 <= p < r@.len() ==> r@[p] as int == #[trigger] joined(lm, counts@, k as int)[p],
        decreases ix@.len() - k,
    {
        let part = &ix[k];
        let ghost r0 = r@;
        let ghost add = Seq::new(lm[k as int].len(), |j: int| lm[k as int][j] + base_of(counts@, k as int));
        proof {
            assert(joined(lm, counts@, k + 1) == joined(lm, counts@, k as int) + add);
        }
        let mut j: usize = 0;
        while j < part.len()
            invariant
                j <= part@.len(),
                part@ == ix@[k as int]@,
                k < ix@.len(),
                lm == lists_model(ix@),
                base as int == base_of(counts@, k as int),
                forall|kk: int, jj: int| 0 <= kk < ix@.len() && 0 <= jj < ix@[kk]@.len() ==> #[trigger] ix@[kk]@[jj] + base_of(counts@, kk) <= u32::MAX,
                add == Seq::new(lm[k as int].len(), |jj: int| lm[k as int][jj] + base_of(counts@, k as int)),
                r@.len() == r0.len() + j,
                forall|p: int| 0 <= p < r0.len() ==> r@[p] == r0[p],
                forall|q: int| 0 <= q < j ==> r@[r0.len() + q] as int == #[trigger] add[q],
            decreases part@.len() - j,
        {
            proof {
                assert(ix@[k as int]@[j as int] + base_of(counts@, k as int) <= u32::MAX);
            }
            r.push(part[j] + base);
            proof {
                assert(add[j as int] == part@[j as int] + base);
            }
            j = j + 1;
        }
        proof {
            lemma_base_grows(counts@, k + 1, counts@.len() as int);
            let jn = joined(lm, counts@, k + 1);
            assert forall|p: int| 0 <= p < r@.len() implies r@[p] as int == #[trigger] jn[p] by {
                if p < r0.len() {
                    assert(jn[p] == joined(lm, counts@, k as int)[p]);
                } else {
                    let q = p - r0.len();
                    assert(r@[r0.len() + q] as int == add[q]);
                }
            }
        }
        base = base + counts[k];
        k = k + 1;
    }
    r
}

/// The smallest of a nonempty list of node ids (a merged mesh keeps it as its id).
pub fn anchor_id(ids: &Vec<u32>) -> (m: u32)
    requires
        ids@.len() > 0,
    ensures
        ids@.contains(m),
        forall|i: int| 0 <= i < ids@.len() ==> m <= #[trigger] ids@[i],
{
    let mut m = ids[0];
    let mut i: usize = 1;
    while i < ids.len()
        invariant
            1 <= i <= ids@.len(),
            ids@.contains(m),
            forall|a: int| 0 <= a < i ==> m <= #[trigger] ids@[a],
        decreases ids@.len() - i,
    {
        if ids[i] < m {
            m = ids[i];
            proof {
                assert(ids@[i as int] == m);
            }
        }
        i = i + 1;
    }
    m
}

/// `r` cuts the positions `i..n` into consecutive nonempty ranges; the nodes of a range share
/// one merge key, and a range of more than one node has a merge key.
pub open spec fn runs_ok(r: Seq<(int, int)>, order: Seq<usize>, mk: Seq<Option<(u32, u32, u32)>>, i: int, n: int) -> bool {
    &&& (r.len() == 0) == (i >= n)
    &&& r.len() > 0 ==> r[0].0 == i && r.last().1 == n
    &&& forall|t: int| 0 <= t < r.len() ==> (#[trigger] r[t]).0 < r[t].1
    &&& forall|t: int| 0 <= t < r.len() - 1 ==> (#[trigger] r[t]).1 == r[t + 1].0
    &&& forall|t: int, p: int| 0 <= t < r.len() && (#[trigger] r[t]).0 <= p < r[t].1 ==> mk[#[trigger] order[p] as int] == mk[order[r[t].0] as int]
    &&& forall|t: int| 0 <= t < r.len() && (#[trigger] r[t]).1 > r[t].0 + 1 ==> mk[order[r[t].0] as int] is Some
}

proof fn lemma_runs_ok(order: Seq<usize>, mk: Seq<Option<(u32, u32, u32)>>, i: int)
    requires
        0 <= i <= order.len(),
    ensures
        runs_ok(runs_from(order, mk, i), order, mk, i, order.len() as int),
    decreases order.len() - i,
{
    let n = order.len() as int;
    let r = runs_from(order, mk, i);
    if i < n {
        let e = if mk[order[i] as int] is None { i + 1 } else { run_end(order, mk, i, i + 1) };
        if mk[order[i] as int] is Some {
            lemma_run_end(order, mk, i, i + 1);
        }
        lemma_runs_ok(order, mk, e);
        let rest = runs_from(order, mk, e);
        assert(r == seq![(i, e)] + rest);
        assert forall|t: int| 0 <= t < r.len() - 1 implies (#[trigger] r[t]).1 == r[t + 1].0 by {
            if t > 0 {
                assert(r[t] == rest[t - 1] && r[t + 1] == rest[t]);
            }
        }
        assert forall|t: int| 0 <= t < r.len() implies (#[trigger] r[t]).0 < r[t].1 by {
            if t > 0 {
                assert(r[t] == rest[t - 1]);
            }
        }
        assert forall|t: int, p: int| 0 <= t < r.len() && (#[trigger] r[t]).0 <= p < r[t].1 implies mk[#[trigger] order[p] as int] == mk[order[r[t].0] as int] by {
            if t > 0 {
                assert(r[t] == rest[t - 1]);
            }
        }
        assert forall|t: int| 0 <= t < r.len() && (#[trigger] r[t]).1 > r[t].0 + 1 implies mk[order[r[t].0] as int] is Some by {
            if t > 0 {
                assert(r[t] == rest[t - 1]);
            }
        }
        if rest.len() > 0 {
            assert(r.last() == rest.last());
        }
    }
}

/// The runs of a merge plan cut the draw order into consecutive nonempty ranges that cover it,
/// so every node is drawn once, in sort-key order; the nodes of a range share one merge key, and
/// only nodes with a merge key are ever merged.
pub proof fn law_merge_runs_cover_order(order: Seq<usize>, mk: Seq<Option<(u32, u32, u32)>>)
    ensures
        runs_ok(runs_from(order, mk, 0), order, mk, 0, order.len() as int),
{
    lemma_runs_ok(order, mk, 0);
}


/// Neighbouring runs meet at one position, and the node there has no merge key or another one
/// than the first node of the run before it, unless that node has no merge key.
pub open spec fn runs_maximal(r: Seq<(int, int)>, order: Seq<usize>, mk: Seq<Option<(u32, u32, u32)>>) -> bool {
    forall|q: int| 0 <= q && q + 1 < r.len() ==> (#[trigger] r[q]).1 == r[q + 1].0
        && (mk[order[r[q].0] as int] is None || mk[order[r[q].1] as int] != mk[order[r[q].0] as int])
}

proof fn lemma_run_end_stops(order: Seq<usize>, mk: Seq<Option<(u32, u32, u32)>>, i: int, j: int)
    requires
        0 <= i < order.len(),
        0 <= j,
    ensures
        run_end(order, mk, i, j) < order.len() ==> mk[order[run_end(order, mk, i, j)] as int] != mk[order[i] as int],
    decreases order.len() - j,
{
    if j < order.len() && mk[order[j] as int] == mk[order[i] as int] {
        lemma_run_end_stops(order, mk, i, j + 1);
    }
}

proof fn lemma_runs_maximal(order: Seq<usize>, mk: Seq<Option<(u32, u32, u32)>>, i: int)
    ensures
        runs_from(order, mk, i).len() > 0 ==> runs_from(order, mk, i)[0].0 == i,
        runs_maximal(runs_from(order, mk, i), order, mk),
    decreases order.len() - i,
{
    if 0 <= i < order.len() {
        let r = runs_from(order, mk, i);
        if mk[order[i] as int] is None {
            lemma_runs_maximal(order, mk, i + 1);
            let rest = runs_from(order, mk, i + 1);
            assert forall|q: int| 0 <= q && q + 1 < r.len() implies (#[trigger] r[q]).1 == r[q + 1].0
                && (mk[order[r[q].0] as int] is None || mk[order[r[q].1] as int] != mk[order[r[q].0] as int]) by {
                assert(r[q + 1] == rest[q]);
                if q > 0 {
                    assert(r[q] == rest[q - 1]);
                }
            }
        } else {
            let e = run_end(order, mk, i, i + 1);
            lemma_run_end(order, mk, i, i + 1);
            lemma_run_end_stops(order, mk, i, i + 1);
            lemma_runs_maximal(order, mk, e);
            let rest = runs_from(order, mk, e);
            assert forall|q: int| 0 <= q && q + 1 < r.len() implies (#[trigger] r[q]).1 == r[q + 1].0
                && (mk[order[r[q].0] as int] is None || mk[order[r[q].1] as int] != mk[order[r[q].0] as int]) by {
                assert(r[q + 1] == rest[q]);
                if q > 0 {
                    assert(r[q] == rest[q - 1]);
                } else {
                    assert(r[0] == (i, e));
                    assert(rest.len() > 0);
                }
            }
        }
    }
}

/// Merge runs are maximal: two neighbouring runs meet at one position, and the node there has no
/// merge key or another one than the run before it, unless that run holds a node without a merge
/// key. So two consecutive nodes with the same merge key always end up in the same mesh.
pub proof fn law_merge_runs_maximal(order: Seq<usize>, mk: Seq<Option<(u32, u32, u32)>>)
    ensures
        runs_maximal(runs_from(order, mk, 0), order, mk),
{
    lemma_runs_maximal(order, mk, 0);
}

} // verus!
