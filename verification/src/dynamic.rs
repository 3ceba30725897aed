//! Rules that depend on pointer state (`:hover`, `:active`, `:disabled`, `:focus`) and are
//! matched again at run time.
use vstd::prelude::*;
use crate::css::{Declaration, Rule, StyleSheet, decls_view, clone_decls};
use crate::selector::{
    has_pseudo,
    Combinator, Compound, CompoundModel, ParsedSelector, SelectorModel, Specificity, parse_selector, spec_parse_selector,
    counts_fit, rules_parsable, opt_view, strings_view, comps_view, sp_lt, string_in, sp_less,
};
use crate::node::NodeKind;
use crate::scene::{SceneNode, scene_wf, scene_ranked, parent_link, anc, lemma_anc_none_after};

verus! {

/// A rule kept for run-time matching: its parsed selector and its declarations.
#[derive(Debug, Clone)]
pub struct DynamicRule {
    pub selector: ParsedSelector,
    pub declarations: Vec<Declaration>,
}

/// The dynamic rules of one component, in source order.
#[derive(Debug, Clone)]
pub struct DynamicRuleTable {
    pub rules: Vec<DynamicRule>,
}

impl View for DynamicRule {
    type V = (SelectorModel, Seq<(Seq<char>, Seq<char>)>);

    open spec fn view(&self) -> (SelectorModel, Seq<(Seq<char>, Seq<char>)>) {
        (self.selector@, decls_view(self.declarations@))
    }
}

impl View for DynamicRuleTable {
    type V = Seq<(SelectorModel, Seq<(Seq<char>, Seq<char>)>)>;

    open spec fn view(&self) -> Seq<(SelectorModel, Seq<(Seq<char>, Seq<char>)>)> {
        self.rules@.map_values(|r: DynamicRule| r@)
    }
}

impl Default for DynamicRuleTable {
    fn default() -> (t: Self)
        ensures
            t.rules@.len() == 0,
    {
        DynamicRuleTable { rules: Vec::new() }
    }
}

/// Some compound of the selector carries a pseudo-class gate.
pub open spec fn selector_is_dynamic(sel: SelectorModel) -> bool {
    exists|i: int| 0 <= i < sel.compound.len() && has_pseudo(#[trigger] sel.compound[i])
}

/// The dynamic rules of a rule list: each rule whose selector has a pseudo-class, with its
/// parsed selector and declarations, in order.
pub open spec fn spec_dynamic_rules(rules: Seq<Rule>) -> Seq<(SelectorModel, Seq<(Seq<char>, Seq<char>)>)>
    decreases rules.len(),
{
    if rules.len() == 0 {
        Seq::empty()
    } else {
        let prev = spec_dynamic_rules(rules.drop_last());
        let sel = spec_parse_selector(rules.last().selector_text@);
        if selector_is_dynamic(sel) {
            prev.push((sel, decls_view(rules.last().declarations@)))
        } else {
            prev
        }
    }
}

fn selector_has_pseudo(sel: &ParsedSelector) -> (b: bool)
    ensures
        b == selector_is_dynamic(sel@),
{
    let mut i: usize = 0;
    while i < sel.compound.len()
        invariant
            i <= sel.compound@.len(),
            forall|k: int| 0 <= k < i ==> !has_pseudo(#[trigger] sel@.compound[k]),
        decreases sel.compound@.len() - i,
    {
        let c = &sel.compound[i];
        if c.pseudo_hover || c.pseudo_active || c.pseudo_disabled || c.pseudo_focus {
            assert(has_pseudo(sel@.compound[i as int]));
            return true;
        }
        i = i + 1;
    }
    false
}

/// The rules of a style sheet whose selector carries `:hover`, `:active`, `:disabled` or
/// `:focus`, with their parsed selectors and declarations. Purely static rules are left out.
pub fn extract_dynamic_rules(sheet: &StyleSheet) -> (table: DynamicRuleTable)
    requires
        rules_parsable(sheet.rules@),
    ensures
        table@ == spec_dynamic_rules(sheet.rules@),
{
    let mut rules: Vec<DynamicRule> = Vec::new();
    let mut i: usize = 0;
    while i < sheet.rules.len()
        invariant
            i <= sheet.rules@.len(),
            rules_parsable(sheet.rules@),
            rules@.map_values(|r: DynamicRule| r@) == spec_dynamic_rules(sheet.rules@.take(i as int)),
        decreases sheet.rules@.len() - i,
    {
        let rule = &sheet.rules[i];
        assert(counts_fit(rule.selector_text@));
        let ghost prev = rules@;
        proof {
            let t = sheet.rules@.take(i + 1);
            assert(t.drop_last() =~= sheet.rules@.take(i as int));
            assert(t.last() == sheet.rules@[i as int]);
        }
        match parse_selector(rule.selector_text.as_str()) {
            Ok(sel) => {
                if selector_has_pseudo(&sel) {
                    let decls = clone_decls(&rule.declarations);
                    rules.push(DynamicRule { selector: sel, declarations: decls });
                    proof {
                        assert(rules@.map_values(|r: DynamicRule| r@) =~= prev.map_values(|r: DynamicRule| r@).push(rules@.last()@));
                    }
                }
            },
            Err(_) => {},
        }
        i = i + 1;
    }
    proof {
        assert(sheet.rules@.take(sheet.rules@.len() as int) =~= sheet.rules@);
    }
    DynamicRuleTable { rules }
}


// ---------------------------------------------------------------------------
// Matching against scene nodes and their pointer state.
// ---------------------------------------------------------------------------

/// The tag a node kind answers to.
pub open spec fn kind_tag(k: NodeKind) -> Seq<char> {
    match k {
        NodeKind::Container => "div"@,
        NodeKind::Button => "button"@,
        NodeKind::Image { .. } => "img"@,
        NodeKind::Text { .. } => "span"@,
    }
}

/// Tag, id and classes of the compound all hold of the node (pseudo-classes aside).
pub open spec fn node_compound_matches(c: CompoundModel, n: SceneNode) -> bool {
    &&& (c.tag matches Some(t) ==> kind_tag(n.kind) == t)
    &&& (c.id matches Some(i) ==> opt_view(n.id_attr) == Some(i))
    &&& forall|j: int| 0 <= j < c.classes.len() ==> strings_view(n.classes@).contains(#[trigger] c.classes[j])
}

/// Each pseudo-class of the compound holds of the node's state.
pub open spec fn state_gate(c: CompoundModel, n: SceneNode) -> bool {
    &&& (c.pseudo_hover ==> n.hovered)
    &&& (c.pseudo_active ==> n.active)
    &&& (c.pseudo_disabled ==> n.disabled)
    &&& (c.pseudo_focus ==> n.focused)
}

pub open spec fn node_matches_state(c: CompoundModel, n: SceneNode) -> bool {
    state_gate(c, n) && node_compound_matches(c, n)
}

/// Every parent link points into the scene.
pub open spec fn parents_in_scene(nodes: Seq<SceneNode>) -> bool {
    forall|i: int| 0 <= i < nodes.len() ==> ((#[trigger] nodes[i]).parent matches Some(p) ==> p < nodes.len())
}

/// `comps[0..end]` match, with state, along the ancestors of node `e`.
pub open spec fn state_chain_matches(nodes: Seq<SceneNode>, comps: Seq<CompoundModel>, end: int, e: int) -> bool
    decreases end,
{
    if end <= 0 {
        true
    } else {
        let tc = comps[end - 1];
        match comps[end].combinator {
            Combinator::Child => match parent_link(nodes, e) {
                Some(p) => node_matches_state(tc, nodes[p]) && state_chain_matches(nodes, comps, end - 1, p),
                None => false,
            },
            Combinator::Descendant => exists|k: nat|
                k >= 1 && match #[trigger] anc(nodes, e, k) {
                    Some(a) => node_matches_state(tc, nodes[a]) && state_chain_matches(nodes, comps, end - 1, a),
                    None => false,
                },
        }
    }
}

pub open spec fn state_step_matches(nodes: Seq<SceneNode>, comps: Seq<CompoundModel>, end: int, e: int, k: nat) -> bool {
    match anc(nodes, e, k) {
        Some(a) => node_matches_state(comps[end - 1], nodes[a]) && state_chain_matches(nodes, comps, end - 1, a),
        None => false,
    }
}

/// The selector matches node `e` in its current state.
pub open spec fn state_sel_matches(nodes: Seq<SceneNode>, comps: Seq<CompoundModel>, e: int) -> bool {
    comps.len() > 0 && node_matches_state(comps.last(), nodes[e]) && state_chain_matches(nodes, comps, comps.len() - 1, e)
}

fn kind_tag_of(k: &NodeKind) -> (t: String)
    ensures
        t@ == kind_tag(*k),
{
    match k {
        NodeKind::Container => String::from_str("div"),
        NodeKind::Button => String::from_str("button"),
        NodeKind::Image { .. } => String::from_str("img"),
        NodeKind::Text { .. } => String::from_str("span"),
    }
}

/// Whether tag, id and classes of the compound hold of the node; pseudo-classes are not looked at.
pub fn compound_matches_node(c: &Compound, node: &SceneNode) -> (b: bool)
    ensures
        b == node_compound_matches(c@, *node),
{
    match &c.tag {
        Some(t) => {
            if kind_tag_of(&node.kind) != *t {
                return false;
            }
        },
        None => {},
    }
    match &c.id {
        Some(i) => {
            match &node.id_attr {
                Some(e) => {
                    if *e != *i {
                        return false;
                    }
                },
                None => {
                    return false;
                },
            }
        },
        None => {},
    }
    let mut j: usize = 0;
    while j < c.classes.len()
        invariant
            j <= c.classes@.len(),
            forall|k: int| 0 <= k < j ==> strings_view(node.classes@).contains(#[trigger] c@.classes[k]),
        decreases c.classes@.len() - j,
    {
        proof {
            assert(c@.classes[j as int] == c.classes@[j as int]@);
        }
        if !string_in(&node.classes, &c.classes[j]) {
            return false;
        }
        j = j + 1;
    }
    true
}

fn compound_matches_with_state(c: &Compound, node_id: usize, nodes: &Vec<SceneNode>) -> (b: bool)
    requires
        node_id < nodes@.len(),
    ensures
        b == node_matches_state(c@, nodes@[node_id as int]),
{
    let node = &nodes[node_id];
    if c.pseudo_hover && !node.hovered {
        return false;
    }
    if c.pseudo_active && !node.active {
        return false;
    }
    if c.pseudo_disabled && !node.disabled {
        return false;
    }
    if c.pseudo_focus && !node.focused {
        return false;
    }
    compound_matches_node(c, node)
}

fn match_chain_with_state(comps: &Vec<Compound>, end_idx: usize, start: usize, nodes: &Vec<SceneNode>) -> (b: bool)
    requires
        scene_wf(nodes@),
        parents_in_scene(nodes@),
        start < nodes@.len(),
        end_idx < comps@.len(),
    ensures
        b == state_chain_matches(nodes@, comps_view(comps@), end_idx as int, start as int),
    decreases end_idx,
{
    let ghost cv = comps_view(comps@);
    if end_idx == 0 {
        return true;
    }
    let target = &comps[end_idx - 1];
    proof {
        assert(cv[end_idx - 1] == target@);
        assert(cv[end_idx as int] == comps@[end_idx as int]@);
        assert(nodes@[start as int].parent matches Some(p) ==> p < nodes@.len()) by { let _ = nodes@[start as int]; }
    }
    match comps[end_idx].combinator {
        Combinator::Child => {
            match nodes[start].parent {
                Some(parent) => {
                    let r = compound_matches_with_state(target, parent, nodes) && match_chain_with_state(comps, end_idx - 1, parent, nodes);
                    proof {
                        assert(parent_link(nodes@, start as int) == Some(parent as int));
                        assert(r == state_chain_matches(nodes@, cv, end_idx as int, start as int));
                    }
                    r
                },
                None => {
                    proof {
                        assert(parent_link(nodes@, start as int) is None);
                        assert(!state_chain_matches(nodes@, cv, end_idx as int, start as int));
                    }
                    false
                },
            }
        },
        Combinator::Descendant => {
            let ghost rank = choose|rank: spec_fn(int) -> nat| #[trigger] scene_ranked(nodes@, rank);
            let mut cur = nodes[start].parent;
            let ghost mut k: nat = 1;
            proof {
                assert(anc(nodes@, start as int, 0) == Some(start as int));
                assert(anc(nodes@, start as int, 1) == parent_link(nodes@, start as int));
            }
            while cur.is_some()
                invariant
                    scene_wf(nodes@),
                    scene_ranked(nodes@, rank),
                    parents_in_scene(nodes@),
                    start < nodes@.len(),
                    end_idx < comps@.len(),
                    end_idx > 0,
                    cv == comps_view(comps@),
                    target@ == cv[end_idx - 1],
                    cv[end_idx as int].combinator == Combinator::Descendant,
                    k >= 1,
                    anc(nodes@, start as int, k) == (match cur {
                        Some(a) => Some(a as int),
                        None => None,
                    }),
                    cur matches Some(a) ==> a < nodes@.len(),
                    forall|j: nat| 1 <= j < k ==> !#[trigger] state_step_matches(nodes@, cv, end_idx as int, start as int, j),
                decreases (match cur {
                    Some(a) => rank(a as int) + 1,
                    None => 0,
                }),
            {
                let a = cur.unwrap();
                if compound_matches_with_state(target, a, nodes) {
                    if match_chain_with_state(comps, end_idx - 1, a, nodes) {
                        proof {
                            assert(state_step_matches(nodes@, cv, end_idx as int, start as int, k));
                            assert(state_chain_matches(nodes@, cv, end_idx as int, start as int));
                        }
                        return true;
                    }
                }
                proof {
                    assert(!state_step_matches(nodes@, cv, end_idx as int, start as int, k));
                    assert(nodes@[a as int].parent matches Some(p) ==> p < nodes@.len()) by { let _ = nodes@[a as int]; }
                    assert(anc(nodes@, start as int, k + 1) == parent_link(nodes@, a as int));
                    let _ = parent_link(nodes@, a as int);
                }
                cur = nodes[a].parent;
                proof {
                    k = k + 1;
                }
            }
            proof {
                assert forall|j: nat| j >= 1 implies !#[trigger] state_step_matches(nodes@, cv, end_idx as int, start as int, j) by {
                    if j >= k {
                        lemma_anc_none_after(nodes@, start as int, k, j);
                    }
                }
                assert forall|j: nat| j >= 1 implies !(match #[trigger] anc(nodes@, start as int, j) {
                    Some(a) => node_matches_state(cv[end_idx - 1], nodes@[a]) && state_chain_matches(nodes@, cv, end_idx - 1, a),
                    None => false,
                }) by {
                    assert(!state_step_matches(nodes@, cv, end_idx as int, start as int, j));
                }
                assert(!state_chain_matches(nodes@, cv, end_idx as int, start as int));
            }
            false
        },
    }
}

/// Whether the selector matches node `node_id` in its current hover/active/disabled/focus state:
/// the last compound matches the node itself, the others along its ancestors (`Child` the
/// direct parent, `Descendant` any ancestor).
pub fn match_element_with_state(sel: &ParsedSelector, node_id: usize, nodes: &Vec<SceneNode>) -> (b: bool)
    requires
        scene_wf(nodes@),
        parents_in_scene(nodes@),
        node_id < nodes@.len(),
    ensures
        b == state_sel_matches(nodes@, sel@.compound, node_id as int),
{
    let comps = &sel.compound;
    if comps.len() == 0 {
        return false;
    }
    let last = &comps[comps.len() - 1];
    proof {
        assert(sel@.compound == comps_view(comps@));
        assert(sel@.compound.last() == last@);
    }
    if !compound_matches_with_state(last, node_id, nodes) {
        return false;
    }
    if comps.len() == 1 {
        return true;
    }
    match_chain_with_state(comps, comps.len() - 1, node_id, nodes)
}


// ---------------------------------------------------------------------------
// Which dynamic rules apply to a node, and in which order.
// ---------------------------------------------------------------------------

pub open spec fn dyn_spec(t: Seq<(SelectorModel, Seq<(Seq<char>, Seq<char>)>)>, i: int) -> Specificity {
    t[i].0.specificity
}

/// Rule `i` is applied before rule `j`: lower specificity first, then source order, so that the
/// more specific rule is applied last and wins.
pub open spec fn dyn_before(t: Seq<(SelectorModel, Seq<(Seq<char>, Seq<char>)>)>, i: int, j: int) -> bool {
    sp_lt(dyn_spec(t, i), dyn_spec(t, j)) || (dyn_spec(t, i) == dyn_spec(t, j) && i < j)
}

/// `idx` lists exactly the dynamic rules that match node `e` in its state, each once, in
/// application order.
pub open spec fn is_rematch_order(nodes: Seq<SceneNode>, t: Seq<(SelectorModel, Seq<(Seq<char>, Seq<char>)>)>, e: int, idx: Seq<usize>) -> bool {
    &&& forall|k: int| 0 <= k < idx.len() ==> (#[trigger] idx[k]) < t.len()
    &&& forall|a: int, b: int| 0 <= a < b < idx.len() ==> dyn_before(t, #[trigger] idx[a] as int, #[trigger] idx[b] as int)
    &&& forall|i: int| 0 <= i < t.len() ==> (idx.contains(i as usize) <==> state_sel_matches(nodes, t[i].0.compound, e))
}

/// The dynamic rules that match node `node_id` in its current state, in the order their
/// declarations are applied: ascending specificity, source order among equals.
pub fn rematch_order(table: &DynamicRuleTable, node_id: usize, nodes: &Vec<SceneNode>) -> (idx: Vec<usize>)
    requires
        scene_wf(nodes@),
        parents_in_scene(nodes@),
        node_id < nodes@.len(),
    ensures
        is_rematch_order(nodes@, table@, node_id as int, idx@),
{
    let ghost t = table@;
    let mut res: Vec<usize> = Vec::new();
    let mut i: usize = 0;
    while i < table.rules.len()
        invariant
            i <= table.rules@.len(),
            t == table@,
            scene_wf(nodes@),
            parents_in_scene(nodes@),
            node_id < nodes@.len(),
            forall|k: int| 0 <= k < res@.len() ==> (#[trigger] res@[k]) < i,
            forall|a: int, b: int| 0 <= a < b < res@.len() ==> dyn_before(t, #[trigger] res@[a] as int, #[trigger] res@[b] as int),
            forall|j: int| 0 <= j < i ==> (res@.contains(j as usize) <==> state_sel_matches(nodes@, t[j].0.compound, node_id as int)),
        decreases table.rules@.len() - i,
    {
        let sel = &table.rules[i].selector;
        let sp = sel.specificity;
        proof {
            assert(t[i as int] == table.rules@[i as int]@);
        }
        let ghost old_res = res@;
        if match_element_with_state(sel, node_id, nodes) {
            let mut p: usize = 0;
            while p < res.len() && !sp_less(sp, table.rules[res[p]].selector.specificity)
                invariant
                    p <= res@.len(),
                    res@ == old_res,
                    t == table@,
                    i < table.rules@.len(),
                    sp == dyn_spec(t, i as int),
                    forall|k: int| 0 <= k < res@.len() ==> (#[trigger] res@[k]) < i,
                    forall|k: int| 0 <= k < p ==> dyn_before(t, #[trigger] res@[k] as int, i as int),
                decreases res@.len() - p,
            {
                proof {
                    assert(t[res@[p as int] as int] == table.rules@[res@[p as int] as int]@);
                }
                p = p + 1;
            }
            proof {
                if p < res@.len() {
                    assert(t[res@[p as int] as int] == table.rules@[res@[p as int] as int]@);
                }
                assert forall|k: int| p <= k < old_res.len() implies dyn_before(t, i as int, #[trigger] old_res[k] as int) by {
                    if k > p {
                        assert(dyn_before(t, old_res[p as int] as int, old_res[k] as int));
                    }
                }
            }
            res.insert(p, i);
            proof {
                assert forall|a: int, b: int| 0 <= a < b < res@.len() implies dyn_before(t, #[trigger] res@[a] as int, #[trigger] res@[b] as int) by {
                    if b < p {
                        assert(res@[a] == old_res[a] && res@[b] == old_res[b]);
                    } else if b == p {
                        assert(res@[a] == old_res[a]);
                    } else if a == p {
                        assert(res@[b] == old_res[b - 1]);
                    } else if a < p {
                        assert(res@[a] == old_res[a] && res@[b] == old_res[b - 1]);
                    } else {
                        assert(res@[a] == old_res[a - 1] && res@[b] == old_res[b - 1]);
                    }
                }
                assert forall|j: int| 0 <= j <= i implies (res@.contains(j as usize) <==> state_sel_matches(nodes@, t[j].0.compound, node_id as int)) by {
                    if j < i {
                        if old_res.contains(j as usize) {
                            let w = choose|w: int| 0 <= w < old_res.len() && old_res[w] == j as usize;
                            if w < p {
                                assert(res@[w] == j as usize);
                            } else {
                                assert(res@[w + 1] == j as usize);
                            }
                        }
                        if res@.contains(j as usize) {
                            let w = choose|w: int| 0 <= w < res@.len() && res@[w] == j as usize;
                            if w < p {
                                assert(old_res[w] == j as usize);
                            } else if w > p {
                                assert(old_res[w - 1] == j as usize);
                            }
                        }
                    } else {
                        assert(res@[p as int] == i);
                    }
                }
                assert forall|k: int| 0 <= k < res@.len() implies (#[trigger] res@[k]) < i + 1 by {
                    if k < p {
                        assert(res@[k] == old_res[k]);
                    } else if k > p {
                        assert(res@[k] == old_res[k - 1]);
                    }
                }
            }
        } else {
            proof {
                assert(!res@.contains(i as usize));
            }
        }
        i = i + 1;
    }
    res
}

/// For every node of the scene, the dynamic rules that apply to it now, in application order.
pub fn rematch_pseudo_classes(table: &DynamicRuleTable, nodes: &Vec<SceneNode>) -> (orders: Vec<Vec<usize>>)
    requires
        scene_wf(nodes@),
        parents_in_scene(nodes@),
    ensures
        orders@.len() == nodes@.len(),
        forall|e: int| 0 <= e < nodes@.len() ==> is_rematch_order(nodes@, table@, e, #[trigger] orders@[e]@),
{
    let mut orders: Vec<Vec<usize>> = Vec::new();
    let mut e: usize = 0;
    while e < nodes.len()
        invariant
            e <= nodes@.len(),
            scene_wf(nodes@),
            parents_in_scene(nodes@),
            orders@.len() == e,
            forall|k: int| 0 <= k < e ==> is_rematch_order(nodes@, table@, k, #[trigger] orders@[k]@),
        decreases nodes@.len() - e,
    {
        let o = rematch_order(table, e, nodes);
        orders.push(o);
        e = e + 1;
    }
    orders
}


/// A node answers to the HTML tag it was built from: a compound that names only a tag (no id, no
/// classes) matches a node exactly when the tag is `div` and the node a container, `button` and
/// a button, `img` and an image, or `span` and a text.
pub proof fn law_tag_compound_matches_kind(c: CompoundModel, n: SceneNode, t: Seq<char>)
    requires
        c.tag == Some(t),
        c.id is None,
        c.classes.len() == 0,
    ensures
        node_compound_matches(c, n) <==> (t == "div"@ && n.kind is Container) || (t == "button"@ && n.kind is Button)
            || (t == "img"@ && n.kind is Image) || (t == "span"@ && n.kind is Text),
{
    reveal_strlit("div");
    reveal_strlit("button");
    reveal_strlit("img");
    reveal_strlit("span");
    assert("div"@.len() == 3 && "img"@.len() == 3 && "button"@.len() == 6 && "span"@.len() == 4);
    assert("div"@[0] != "img"@[0]);
    assert("div"@ != "img"@ && "div"@ != "button"@ && "div"@ != "span"@);
    assert("img"@ != "button"@ && "img"@ != "span"@ && "button"@ != "span"@);
}

/// A pseudo-class holds only in its state: a compound with `:hover`, `:active`, `:disabled` or
/// `:focus` matches no node that is not hovered, active, disabled or focused respectively; with
/// the state on, it matches exactly where the compound without the pseudo-classes does.
pub proof fn law_pseudo_class_needs_state(c: CompoundModel, n: SceneNode)
    ensures
        c.pseudo_hover && !n.hovered ==> !node_matches_state(c, n),
        c.pseudo_active && !n.active ==> !node_matches_state(c, n),
        c.pseudo_disabled && !n.disabled ==> !node_matches_state(c, n),
        c.pseudo_focus && !n.focused ==> !node_matches_state(c, n),
        (c.pseudo_hover ==> n.hovered) && (c.pseudo_active ==> n.active) && (c.pseudo_disabled ==> n.disabled)
            && (c.pseudo_focus ==> n.focused) ==> (node_matches_state(c, n) <==> node_compound_matches(c, n)),
{
}

} // verus!