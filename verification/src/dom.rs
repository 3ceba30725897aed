//! The element tree that HTML reads as.
use vstd::prelude::*;

verus! {

/// Index of an element in `ElementTree::nodes`.
#[derive(Debug, Clone, Copy, PartialEq, Eq)]
pub struct ElementId(pub usize);

/// One element: tag, classes, id, all attributes (in source order), merged text, links.
#[derive(Debug, Clone)]
pub struct ElementData {
    pub tag: String,
    pub classes: Vec<String>,
    pub id: Option<String>,
    pub attrs: Vec<(String, String)>,
    pub text: Option<String>,
    pub children: Vec<ElementId>,
    pub parent: Option<ElementId>,
}

/// A forest of elements stored flat; `roots` are the top-level elements.
#[derive(Debug, Clone)]
pub struct ElementTree {
    pub roots: Vec<ElementId>,
    pub nodes: Vec<ElementData>,
}

/// Mathematical model of an element.
pub struct ElemView {
    pub tag: Seq<char>,
    pub classes: Seq<Seq<char>>,
    pub id: Option<Seq<char>>,
    pub attrs: Seq<(Seq<char>, Seq<char>)>,
    pub text: Option<Seq<char>>,
    pub children: Seq<ElementId>,
    pub parent: Option<ElementId>,
}

pub open spec fn opt_str_view(o: Option<String>) -> Option<Seq<char>> {
    match o {
        Some(s) => Some(s@),
        None => None,
    }
}

pub open spec fn string_seq_view(v: Seq<String>) -> Seq<Seq<char>> {
    v.map_values(|s: String| s@)
}

pub open spec fn attrs_view(a: Seq<(String, String)>) -> Seq<(Seq<char>, Seq<char>)> {
    a.map_values(|p: (String, String)| (p.0@, p.1@))
}

impl View for ElementData {
    type V = ElemView;

    open spec fn view(&self) -> ElemView {
        ElemView {
            tag: self.tag@,
            classes: string_seq_view(self.classes@),
            id: opt_str_view(self.id),
            attrs: attrs_view(self.attrs@),
            text: opt_str_view(self.text),
            children: self.children@,
            parent: self.parent,
        }
    }
}

pub open spec fn elems_view(v: Seq<ElementData>) -> Seq<ElemView> {
    v.map_values(|d: ElementData| d@)
}

/// The parent of element `i`, as an index.
pub open spec fn parent_of(tree: ElementTree, i: int) -> Option<int> {
    match tree.nodes@[i].parent {
        Some(p) => Some(p.0 as int),
        None => None,
    }
}

/// Every parent link points into the tree and following parent links always ends.
pub open spec fn tree_wf(tree: ElementTree) -> bool {
    &&& forall|i: int|
        0 <= i < tree.nodes@.len() ==> match #[trigger] tree.nodes@[i].parent {
            Some(p) => p.0 < tree.nodes@.len(),
            None => true,
        }
    &&& exists|rank: spec_fn(int) -> nat| #[trigger] ranked_by(tree, rank)
}

/// `rank` strictly decreases from each element to its parent.
pub open spec fn ranked_by(tree: ElementTree, rank: spec_fn(int) -> nat) -> bool {
    forall|i: int|
        0 <= i < tree.nodes@.len() ==> match #[trigger] tree.nodes@[i].parent {
            Some(p) => rank(p.0 as int) < rank(i),
            None => true,
        }
}

/// The `k`-th ancestor of `e` (`e` itself for `k == 0`).
pub open spec fn nth_ancestor(tree: ElementTree, e: int, k: nat) -> Option<int>
    decreases k,
{
    if k == 0 {
        Some(e)
    } else {
        match nth_ancestor(tree, e, (k - 1) as nat) {
            None => None,
            Some(a) => parent_of(tree, a),
        }
    }
}

pub proof fn lemma_nth_ancestor_none(tree: ElementTree, e: int, k: nat, j: nat)
    requires
        k <= j,
        nth_ancestor(tree, e, k) is None,
    ensures
        nth_ancestor(tree, e, j) is None,
    decreases j,
{
    if j > k {
        lemma_nth_ancestor_none(tree, e, k, (j - 1) as nat);
    }
}

pub proof fn lemma_nth_ancestor_in_bounds(tree: ElementTree, e: int, k: nat)
    requires
        tree_wf(tree),
        0 <= e < tree.nodes@.len(),
    ensures
        nth_ancestor(tree, e, k) matches Some(a) ==> 0 <= a < tree.nodes@.len(),
    decreases k,
{
    if k > 0 {
        lemma_nth_ancestor_in_bounds(tree, e, (k - 1) as nat);
        if let Some(a) = nth_ancestor(tree, e, (k - 1) as nat) {
            let _ = tree.nodes@[a].parent;
        }
    }
}

} // verus!
