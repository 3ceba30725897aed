//! From an element tree to the flat list of scene entries, in depth-first order, and the
//! parent/children/root links of those entries. Styles are not resolved here: each entry says
//! which element's style it takes, and whether it is the text child derived from it.
use vstd::prelude::*;
use crate::dom::{ElementTree, ElemView, elems_view, string_seq_view, opt_str_view, attrs_view};
use crate::html::{attr_value, attr_lookup};
use crate::decl::{spec_parse_i32, parse_i32};
use crate::node::NodeKind;
use crate::text::chars_of;

verus! {

/// Whose style an entry takes: its element's resolved style, or the text-child style that
/// inherits the text properties of that element.
#[derive(Debug, Clone, Copy, PartialEq, Eq)]
pub enum StyleSource {
    Element(usize),
    TextOf(usize),
}

/// One scene node to build: parent entry, kind, style source, classes, id, `draggable`,
/// `tabindex`.
#[derive(Debug)]
pub struct SceneEntry {
    pub parent_idx: Option<usize>,
    pub kind: NodeKind,
    pub source: StyleSource,
    pub classes: Vec<String>,
    pub id_attr: Option<String>,
    pub draggable: bool,
    pub tabindex: Option<i32>,
}

/// Mathematical model of a node kind.
pub enum KindModel {
    Container,
    Text(Seq<char>),
    Image(Seq<char>),
    Button,
}

pub open spec fn kind_model(k: NodeKind) -> KindModel {
    match k {
        NodeKind::Container => KindModel::Container,
        NodeKind::Text { content } => KindModel::Text(content@),
        NodeKind::Image { src } => KindModel::Image(src@),
        NodeKind::Button => KindModel::Button,
    }
}

/// Mathematical model of an entry.
pub struct EntryModel {
    pub parent_idx: Option<usize>,
    pub kind: KindModel,
    pub source: StyleSource,
    pub classes: Seq<Seq<char>>,
    pub id_attr: Option<Seq<char>>,
    pub draggable: bool,
    pub tabindex: Option<i32>,
}

impl View for SceneEntry {
    type V = EntryModel;

    open spec fn view(&self) -> EntryModel {
        EntryModel {
            parent_idx: self.parent_idx,
            kind: kind_model(self.kind),
            source: self.source,
            classes: string_seq_view(self.classes@),
            id_attr: opt_str_view(self.id_attr),
            draggable: self.draggable,
            tabindex: self.tabindex,
        }
    }
}

pub open spec fn entries_view(v: Seq<SceneEntry>) -> Seq<EntryModel> {
    v.map_values(|x: SceneEntry| x@)
}

/// The tags a scene node can be built from.
pub open spec fn node_tag(t: Seq<char>) -> bool {
    t == "div"@ || t == "button"@ || t == "img"@ || t == "span"@
}

/// Containers and buttons put their text into a text child.
pub open spec fn holds_text_child(t: Seq<char>) -> bool {
    t == "div"@ || t == "button"@
}

/// The kind of an element: `img` takes its `src`, `span` its text (empty when missing).
pub open spec fn kind_of_element(v: ElemView) -> KindModel {
    if v.tag == "div"@ {
        KindModel::Container
    } else if v.tag == "button"@ {
        KindModel::Button
    } else if v.tag == "img"@ {
        KindModel::Image(
            match attr_value(v.attrs, "src"@) {
                Some(s) => s,
                None => Seq::empty(),
            },
        )
    } else {
        KindModel::Text(
            match v.text {
                Some(t) => t,
                None => Seq::empty(),
            },
        )
    }
}

/// The entry of element `e`: `draggable` only for the value `true`, `tabindex` when it reads as
/// an integer.
pub open spec fn entry_of(v: ElemView, e: int, parent: Option<usize>) -> EntryModel {
    EntryModel {
        parent_idx: parent,
        kind: kind_of_element(v),
        source: StyleSource::Element(e as usize),
        classes: v.classes,
        id_attr: v.id,
        draggable: attr_value(v.attrs, "draggable"@) == Some("true"@),
        tabindex: match attr_value(v.attrs, "tabindex"@) {
            Some(t) => spec_parse_i32(t),
            None => None,
        },
    }
}

/// The text child of entry `my`, built from element `e`.
pub open spec fn text_entry(my: int, e: int, t: Seq<char>) -> EntryModel {
    EntryModel {
        parent_idx: Some(my as usize),
        kind: KindModel::Text(t),
        source: StyleSource::TextOf(e as usize),
        classes: Seq::empty(),
        id_attr: None,
        draggable: false,
        tabindex: None,
    }
}

/// `acc` followed by the entries of element `e` and its subtree, depth first: the element, its
/// text child when it holds one, then each child element in order.
pub open spec fn gather_node(nodes: Seq<ElemView>, e: int, parent: Option<usize>, acc: Seq<EntryModel>) -> Seq<EntryModel>
    decreases nodes.len() - e, 1int, 0int,
{
    if 0 <= e < nodes.len() {
        let v = nodes[e];
        let my = acc.len() as int;
        let acc1 = acc.push(entry_of(v, e, parent));
        let acc2 = if holds_text_child(v.tag) && v.text is Some {
            acc1.push(text_entry(my, e, v.text.unwrap()))
        } else {
            acc1
        };
        gather_children(nodes, e, my, v.children.len() as int, acc2)
    } else {
        acc
    }
}

/// `acc` followed by the subtrees of the first `k` children of element `e`, whose entry is `my`.
pub open spec fn gather_children(nodes: Seq<ElemView>, e: int, my: int, k: int, acc: Seq<EntryModel>) -> Seq<EntryModel>
    decreases nodes.len() - e, 0int, k,
{
    if k <= 0 || !(0 <= e < nodes.len()) {
        acc
    } else {
        let acc1 = gather_children(nodes, e, my, k - 1, acc);
        let c = nodes[e].children[k - 1].0 as int;
        if e < c < nodes.len() {
            gather_node(nodes, c, Some(my as usize), acc1)
        } else {
            acc1
        }
    }
}

/// The entries of the first `k` roots, in order.
pub open spec fn gather_forest(nodes: Seq<ElemView>, roots: Seq<usize>, k: int) -> Seq<EntryModel>
    decreases k,
{
    if k <= 0 {
        Seq::empty()
    } else {
        gather_node(nodes, roots[k - 1] as int, None, gather_forest(nodes, roots, k - 1))
    }
}

/// What a scene can be built from: every tag has a node kind, and children come after their
/// element (as the parser numbers them, depth first).
pub open spec fn gatherable(tree: ElementTree) -> bool {
    &&& forall|e: int| 0 <= e < tree.nodes@.len() ==> node_tag(#[trigger] tree.nodes@[e].tag@)
    &&& forall|e: int, j: int| 0 <= e < tree.nodes@.len() && 0 <= j < tree.nodes@[e].children@.len() ==> e < (#[trigger] tree.nodes@[e].children@[j]).0 < tree.nodes@.len()
    &&& forall|k: int| 0 <= k < tree.roots@.len() ==> (#[trigger] tree.roots@[k]).0 < tree.nodes@.len()
}

fn clone_strings(v: &Vec<String>) -> (out: Vec<String>)
    ensures
        string_seq_view(out@) == string_seq_view(v@),
{
    let mut out: Vec<String> = Vec::new();
    let mut i: usize = 0;
    while i < v.len()
        invariant
            i <= v@.len(),
            string_seq_view(out@) == string_seq_view(v@.take(i as int)),
        decreases v@.len() - i,
    {
        let s = v[i].clone();
        let ghost old = out@;
        out.push(s);
        proof {
            assert(string_seq_view(out@) =~= string_seq_view(old).push(v@[i as int]@));
            assert(string_seq_view(v@.take(i + 1)) =~= string_seq_view(v@.take(i as int)).push(v@[i as int]@));
        }
        i = i + 1;
    }
    proof {
        assert(v@.take(v@.len() as int) =~= v@);
    }
    out
}

fn clone_opt(o: &Option<String>) -> (r: Option<String>)
    ensures
        opt_str_view(r) == opt_str_view(*o),
{
    match o {
        Some(s) => Some(s.clone()),
        None => None,
    }
}

/// The entry of one element and whether it gets a text child.
fn element_entry(tree: &ElementTree, e: usize, parent: Option<usize>) -> (r: (SceneEntry, bool))
    requires
        e < tree.nodes@.len(),
        node_tag(tree.nodes@[e as int].tag@),
    ensures
        r.0@ == entry_of(tree.nodes@[e as int]@, e as int, parent),
        r.1 == (holds_text_child(tree.nodes@[e as int].tag@) && tree.nodes@[e as int].text is Some),
{
    let el = &tree.nodes[e];
    let v = Ghost(el@);
    proof {
        reveal_strlit("div");
        reveal_strlit("button");
        reveal_strlit("img");
        reveal_strlit("span");
        reveal_strlit("true");
    }
    let is_div = el.tag == String::from_str("div");
    let is_button = el.tag == String::from_str("button");
    let is_img = el.tag == String::from_str("img");
    let kind = if is_div {
        NodeKind::Container
    } else if is_button {
        NodeKind::Button
    } else if is_img {
        match attr_lookup(&el.attrs, "src") {
            Some(s) => NodeKind::Image { src: s },
            None => NodeKind::Image { src: String::new() },
        }
    } else {
        match &el.text {
            Some(t) => NodeKind::Text { content: t.clone() },
            None => NodeKind::Text { content: String::new() },
        }
    };
    let draggable = match attr_lookup(&el.attrs, "draggable") {
        Some(d) => d == String::from_str("true"),
        None => false,
    };
    let tabindex = match attr_lookup(&el.attrs, "tabindex") {
        Some(t) => {
            let cs = chars_of(t.as_str());
            parse_i32(cs.as_slice())
        },
        None => None,
    };
    let entry = SceneEntry {
        parent_idx: parent,
        kind,
        source: StyleSource::Element(e),
        classes: clone_strings(&el.classes),
        id_attr: clone_opt(&el.id),
        draggable,
        tabindex,
    };
    proof {
        assert(entry@.kind == kind_of_element(v@));
        assert(entry@ == entry_of(v@, e as int, parent));
    }
    (entry, (is_div || is_button) && el.text.is_some())
}

/// Appends the entries of element `e` and its subtree, depth first; returns the index of the
/// element's entry.
fn gather_rec(tree: &ElementTree, e: usize, parent: Option<usize>, entries: &mut Vec<SceneEntry>) -> (my: usize)
    requires
        gatherable(*tree),
        e < tree.nodes@.len(),
    ensures
        entries_view(final(entries)@) == gather_node(elems_view(tree.nodes@), e as int, parent, entries_view(old(entries)@)),
        my == old(entries)@.len(),
    decreases tree.nodes@.len() - e,
{
    let ghost nv = elems_view(tree.nodes@);
    let ghost acc0 = entries_view(entries@);
    let my = entries.len();
    proof {
        assert(nv[e as int] == tree.nodes@[e as int]@);
        assert(node_tag(tree.nodes@[e as int].tag@));
    }
    let (entry, with_text) = element_entry(tree, e, parent);
    entries.push(entry);
    proof {
        assert(entries_view(entries@) =~= acc0.push(entry_of(nv[e as int], e as int, parent)));
    }
    if with_text {
        let t = match &tree.nodes[e].text {
            Some(t) => t.clone(),
            None => String::new(),
        };
        let ghost before = entries_view(entries@);
        let te = SceneEntry {
            parent_idx: Some(my),
            kind: NodeKind::Text { content: t },
            source: StyleSource::TextOf(e),
            classes: Vec::new(),
            id_attr: None,
            draggable: false,
            tabindex: None,
        };
        proof {
            assert(t@ == nv[e as int].text.unwrap());
            assert(te@.classes =~= Seq::<Seq<char>>::empty());
            assert(te@ == text_entry(my as int, e as int, nv[e as int].text.unwrap()));
        }
        entries.push(te);
        proof {
            assert(entries_view(entries@) =~= before.push(text_entry(my as int, e as int, nv[e as int].text.unwrap())));
        }
    }
    let ghost acc2 = entries_view(entries@);
    let n = tree.nodes[e].children.len();
    let mut j: usize = 0;
    while j < n
        invariant
            gatherable(*tree),
            e < tree.nodes@.len(),
            nv == elems_view(tree.nodes@),
            n == tree.nodes@[e as int].children@.len(),
            j <= n,
            entries_view(entries@) == gather_children(nv, e as int, my as int, j as int, acc2),
        decreases n - j,
    {
        let c = tree.nodes[e].children[j].0;
        proof {
            assert(e < tree.nodes@[e as int].children@[j as int].0 < tree.nodes@.len());
            assert(nv[e as int].children[j as int].0 == c);
        }
        gather_rec(tree, c, Some(my), entries);
        j = j + 1;
    }
    proof {
        assert(nv[e as int].children.len() == n);
    }
    my
}

/// The scene entries of an element tree: each root's subtree in turn, depth first, a text child
/// right after each container or button that holds text.
pub fn build_scene(tree: &ElementTree) -> (entries: Vec<SceneEntry>)
    requires
        gatherable(*tree),
    ensures
        entries_view(entries@) == gather_forest(elems_view(tree.nodes@), tree.roots@.map_values(|r: crate::dom::ElementId| r.0), tree.roots@.len() as int),
{
    let ghost nv = elems_view(tree.nodes@);
    let ghost rs = tree.roots@.map_values(|r: crate::dom::ElementId| r.0);
    let mut entries: Vec<SceneEntry> = Vec::new();
    let mut k: usize = 0;
    assert(entries_view(entries@) =~= Seq::<EntryModel>::empty());
    while k < tree.roots.len()
        invariant
            gatherable(*tree),
            k <= tree.roots@.len(),
            nv == elems_view(tree.nodes@),
            rs == tree.roots@.map_values(|r: crate::dom::ElementId| r.0),
            entries_view(entries@) == gather_forest(nv, rs, k as int),
        decreases tree.roots@.len() - k,
    {
        let r = tree.roots[k].0;
        proof {
            assert(rs[k as int] == r);
            assert(r < tree.nodes@.len());
        }
        gather_rec(tree, r, None, &mut entries);
        k = k + 1;
    }
    entries
}


/// Every entry's parent entry comes before it.
pub open spec fn parents_before(acc: Seq<EntryModel>) -> bool {
    forall|i: int| 0 <= i < acc.len() ==> ((#[trigger] acc[i]).parent_idx matches Some(p) ==> p < i)
}

proof fn lemma_gather_node(nodes: Seq<ElemView>, e: int, parent: Option<usize>, acc: Seq<EntryModel>)
    requires
        parents_before(acc),
        parent matches Some(p) ==> p < acc.len(),
    ensures
        parents_before(gather_node(nodes, e, parent, acc)),
        gather_node(nodes, e, parent, acc).len() >= acc.len(),
    decreases nodes.len() - e, 1int, 0int,
{
    if 0 <= e < nodes.len() {
        let v = nodes[e];
        let my = acc.len() as int;
        let acc1 = acc.push(entry_of(v, e, parent));
        assert(parents_before(acc1)) by {
            assert forall|i: int| 0 <= i < acc1.len() implies ((#[trigger] acc1[i]).parent_idx matches Some(p) ==> p < i) by {
                if i < acc.len() {
                    assert(acc1[i] == acc[i]);
                }
            }
        }
        let acc2 = if holds_text_child(v.tag) && v.text is Some {
            acc1.push(text_entry(my, e, v.text.unwrap()))
        } else {
            acc1
        };
        assert(parents_before(acc2)) by {
            assert forall|i: int| 0 <= i < acc2.len() implies ((#[trigger] acc2[i]).parent_idx matches Some(p) ==> p < i) by {
                if i < acc1.len() {
                    assert(acc2[i] == acc1[i]);
                }
            }
        }
        lemma_gather_children(nodes, e, my, v.children.len() as int, acc2);
    }
}

proof fn lemma_gather_children(nodes: Seq<ElemView>, e: int, my: int, k: int, acc: Seq<EntryModel>)
    requires
        parents_before(acc),
        0 <= my < acc.len(),
    ensures
        parents_before(gather_children(nodes, e, my, k, acc)),
        gather_children(nodes, e, my, k, acc).len() >= acc.len(),
    decreases nodes.len() - e, 0int, k,
{
    if k > 0 && 0 <= e < nodes.len() {
        lemma_gather_children(nodes, e, my, k - 1, acc);
        let acc1 = gather_children(nodes, e, my, k - 1, acc);
        let c = nodes[e].children[k - 1].0 as int;
        if e < c < nodes.len() {
            lemma_gather_node(nodes, c, Some(my as usize), acc1);
        }
    }
}

/// In the entries of a scene, every entry's parent comes before it: the entry list can always be
/// linked, and nodes can be created in entry order with their parent already there.
pub proof fn law_scene_entries_parent_first(tree: ElementTree)
    requires
        gatherable(tree),
    ensures
        parents_before(gather_forest(elems_view(tree.nodes@), tree.roots@.map_values(|r: crate::dom::ElementId| r.0), tree.roots@.len() as int)),
{
    let nv = elems_view(tree.nodes@);
    let rs = tree.roots@.map_values(|r: crate::dom::ElementId| r.0);
    lemma_forest_parents(nv, rs, tree.roots@.len() as int);
}

proof fn lemma_forest_parents(nodes: Seq<ElemView>, roots: Seq<usize>, k: int)
    ensures
        parents_before(gather_forest(nodes, roots, k)),
    decreases k,
{
    if k > 0 {
        lemma_forest_parents(nodes, roots, k - 1);
        lemma_gather_node(nodes, roots[k - 1] as int, None, gather_forest(nodes, roots, k - 1));
    }
}

// ---------------------------------------------------------------------------
// Links between entries.
// ---------------------------------------------------------------------------

/// The entries among the first `k` whose parent is entry `p`, in order.
pub open spec fn children_upto(parents: Seq<Option<usize>>, p: usize, k: int) -> Seq<usize>
    decreases k,
{
    if k <= 0 {
        Seq::empty()
    } else {
        let c = children_upto(parents, p, k - 1);
        if parents[k - 1] == Some(p) {
            c.push((k - 1) as usize)
        } else {
            c
        }
    }
}

/// The entries among the first `k` that have no parent, in order.
pub open spec fn roots_upto(parents: Seq<Option<usize>>, k: int) -> Seq<usize>
    decreases k,
{
    if k <= 0 {
        Seq::empty()
    } else {
        let r = roots_upto(parents, k - 1);
        if parents[k - 1] is None {
            r.push((k - 1) as usize)
        } else {
            r
        }
    }
}

/// The children of every entry and the roots, as entry indices.
pub struct SceneLinks {
    pub children: Vec<Vec<usize>>,
    pub roots: Vec<usize>,
}

/// Links entries by their parent indices: each entry goes, in entry order, into the children of
/// its parent, or into the roots when it has none.
pub fn link_entries(parents: &Vec<Option<usize>>) -> (l: SceneLinks)
    requires
        forall|i: int| 0 <= i < parents@.len() ==> ((#[trigger] parents@[i]) matches Some(p) ==> p < parents@.len()),
    ensures
        l.children@.len() == parents@.len(),
        forall|p: int| 0 <= p < parents@.len() ==> (#[trigger] l.children@[p])@ == children_upto(parents@, p as usize, parents@.len() as int),
        l.roots@ == roots_upto(parents@, parents@.len() as int),
{
    let n = parents.len();
    let mut children: Vec<Vec<usize>> = Vec::new();
    let mut q: usize = 0;
    while q < n
        invariant
            q <= n,
            n == parents@.len(),
            children@.len() == q,
            forall|p: int| 0 <= p < q ==> (#[trigger] children@[p])@ == children_upto(parents@, p as usize, 0),
        decreases n - q,
    {
        children.push(Vec::new());
        q = q + 1;
    }
    let mut roots: Vec<usize> = Vec::new();
    let mut i: usize = 0;
    while i < n
        invariant
            i <= n,
            n == parents@.len(),
            children@.len() == n,
            forall|j: int| 0 <= j < parents@.len() ==> ((#[trigger] parents@[j]) matches Some(p) ==> p < parents@.len()),
            forall|p: int| 0 <= p < n ==> (#[trigger] children@[p])@ == children_upto(parents@, p as usize, i as int),
            roots@ == roots_upto(parents@, i as int),
        decreases n - i,
    {
        let ghost before = children@;
        match parents[i] {
            Some(p) => {
                assert(p < n) by {
                    assert(parents@[i as int] matches Some(pp) ==> pp < parents@.len());
                }
                children[p].push(i);
                proof {
                    assert forall|q: int| 0 <= q < n implies (#[trigger] children@[q])@ == children_upto(parents@, q as usize, i + 1) by {
                        if q != p as int {
                            assert(children@[q] == before[q]);
                        }
                    }
                }
            },
            None => {
                roots.push(i);
            },
        }
        i = i + 1;
    }
    SceneLinks { children, roots }
}

} // verus!