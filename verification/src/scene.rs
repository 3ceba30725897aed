//! The runtime node state that pointer input and pseudo-class matching work on: kinds, classes,
//! ids, parent links and the hover/active/disabled/focus flags.
use vstd::prelude::*;
use crate::node::NodeKind;

verus! {

/// One scene node as pointer input and state matching see it.
#[derive(Debug, Clone)]
pub struct SceneNode {
    pub kind: NodeKind,
    pub classes: Vec<String>,
    pub id_attr: Option<String>,
    pub parent: Option<usize>,
    pub hovered: bool,
    pub active: bool,
    pub disabled: bool,
    pub focused: bool,
}

/// The parent of node `i`, when it is a node of the scene.
pub open spec fn parent_link(nodes: Seq<SceneNode>, i: int) -> Option<int> {
    match nodes[i].parent {
        Some(p) => if p < nodes.len() {
            Some(p as int)
        } else {
            None
        },
        None => None,
    }
}

/// The `k`-th ancestor of `e` (`e` itself for `k == 0`) along parent links inside the scene.
pub open spec fn anc(nodes: Seq<SceneNode>, e: int, k: nat) -> Option<int>
    decreases k,
{
    if k == 0 {
        if 0 <= e < nodes.len() {
            Some(e)
        } else {
            None
        }
    } else {
        match anc(nodes, e, (k - 1) as nat) {
            Some(a) => parent_link(nodes, a),
            None => None,
        }
    }
}

pub open spec fn scene_ranked(nodes: Seq<SceneNode>, rank: spec_fn(int) -> nat) -> bool {
    forall|i: int| 0 <= i < nodes.len() ==> match #[trigger] parent_link(nodes, i) {
        Some(p) => rank(p) < rank(i),
        None => true,
    }
}

/// Following parent links always ends.
pub open spec fn scene_wf(nodes: Seq<SceneNode>) -> bool {
    exists|rank: spec_fn(int) -> nat| #[trigger] scene_ranked(nodes, rank)
}

/// `c` is the chain from `t` up to its root: `t`, its parent, and so on.
pub open spec fn is_chain(nodes: Seq<SceneNode>, t: Option<usize>, c: Seq<usize>) -> bool {
    match t {
        None => c.len() == 0,
        Some(e) => {
            &&& forall|k: int| 0 <= k < c.len() ==> anc(nodes, e as int, k as nat) == Some(#[trigger] c[k] as int)
            &&& anc(nodes, e as int, c.len()) is None
        },
    }
}

pub proof fn lemma_anc_none_after(nodes: Seq<SceneNode>, e: int, k: nat, j: nat)
    requires
        anc(nodes, e, k) is None,
        k <= j,
    ensures
        anc(nodes, e, j) is None,
    decreases j - k,
{
    if j > k {
        lemma_anc_none_after(nodes, e, k, (j - 1) as nat);
    }
}

/// The chain from a node is unique.
pub proof fn lemma_chain_unique(nodes: Seq<SceneNode>, t: Option<usize>, c1: Seq<usize>, c2: Seq<usize>)
    requires
        is_chain(nodes, t, c1),
        is_chain(nodes, t, c2),
    ensures
        c1 == c2,
{
    if let Some(e) = t {
        if c1.len() < c2.len() {
            assert(anc(nodes, e as int, c1.len()) == Some(c2[c1.len() as int] as int));
        } else if c2.len() < c1.len() {
            assert(anc(nodes, e as int, c2.len()) == Some(c1[c2.len() as int] as int));
        }
        assert forall|k: int| 0 <= k < c1.len() implies c1[k] == c2[k] by {
            assert(anc(nodes, e as int, k as nat) == Some(c1[k] as int));
            assert(anc(nodes, e as int, k as nat) == Some(c2[k] as int));
        }
        assert(c1 =~= c2);
    } else {
        assert(c1 =~= c2);
    }
}

/// `n` lies on the chain from `t`.
pub open spec fn on_chain(nodes: Seq<SceneNode>, t: Option<usize>, n: int) -> bool {
    t matches Some(e) && exists|k: nat| anc(nodes, e as int, k) == Some(n)
}

/// The chain from `t`: `t`, its parent, and so on up to the root (empty for `None`).
pub fn ancestor_chain(nodes: &Vec<SceneNode>, target: Option<usize>) -> (c: Vec<usize>)
    requires
        scene_wf(nodes@),
    ensures
        is_chain(nodes@, target, c@),
{
    let mut chain: Vec<usize> = Vec::new();
    match target {
        None => chain,
        Some(t) => {
            let ghost rank = choose|rank: spec_fn(int) -> nat| #[trigger] scene_ranked(nodes@, rank);
            let mut cur: Option<usize> = if t < nodes.len() {
                Some(t)
            } else {
                None
            };
            while cur.is_some()
                invariant
                    scene_ranked(nodes@, rank),
                    cur matches Some(a) ==> a < nodes@.len() && anc(nodes@, t as int, chain@.len()) == Some(a as int),
                    cur is None ==> anc(nodes@, t as int, chain@.len()) is None,
                    forall|k: int| 0 <= k < chain@.len() ==> anc(nodes@, t as int, k as nat) == Some(#[trigger] chain@[k] as int),
                decreases (match cur {
                    Some(a) => rank(a as int) + 1,
                    None => 0,
                }),
            {
                let id = cur.unwrap();
                let ghost len0 = chain@.len();
                chain.push(id);
                proof {
                    assert(anc(nodes@, t as int, (len0 + 1) as nat) == parent_link(nodes@, id as int));
                    let _ = parent_link(nodes@, id as int);
                }
                cur = match nodes[id].parent {
                    Some(p) => if p < nodes.len() {
                        Some(p)
                    } else {
                        None
                    },
                    None => None,
                };
            }
            chain
        },
    }
}

} // verus!
