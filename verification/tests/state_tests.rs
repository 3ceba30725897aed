use loomgui_core::css::Declaration;
use loomgui_core::dynamic::{
    compound_matches_node, match_element_with_state, rematch_order, rematch_pseudo_classes, DynamicRule,
    DynamicRuleTable,
};
use loomgui_core::node::NodeKind;
use loomgui_core::scene::SceneNode;
use loomgui_core::selector::parse_selector;

fn node(parent: Option<usize>, kind: NodeKind, classes: &[&str]) -> SceneNode {
    SceneNode {
        kind,
        classes: classes.iter().map(|c| c.to_string()).collect(),
        id_attr: None,
        parent,
        hovered: false,
        active: false,
        disabled: false,
        focused: false,
    }
}

/// Root 0 and button 1 with class `btn`.
fn btn_scene() -> Vec<SceneNode> {
    vec![node(None, NodeKind::Container, &[]), node(Some(0), NodeKind::Button, &["btn"])]
}

/// Root 0 with class `parent` and its child 1 with class `child`.
fn parent_child_scene() -> Vec<SceneNode> {
    vec![node(None, NodeKind::Container, &["parent"]), node(Some(0), NodeKind::Container, &["child"])]
}

fn rule(sel: &str, prop: &str, val: &str) -> DynamicRule {
    DynamicRule {
        selector: parse_selector(sel).unwrap(),
        declarations: vec![Declaration { prop: prop.to_string(), value: val.to_string() }],
    }
}

fn table(rules: Vec<DynamicRule>) -> DynamicRuleTable {
    DynamicRuleTable { rules }
}

#[test]
fn hover_pseudo_changes_background_color() {
    let mut s = btn_scene();
    let t = table(vec![rule(".btn:hover", "background-color", "#0000ff")]);
    assert_eq!(rematch_order(&t, 1, &s), Vec::<usize>::new());
    s[1].hovered = true;
    assert_eq!(rematch_order(&t, 1, &s), vec![0]);
    assert_eq!(rematch_order(&t, 0, &s), Vec::<usize>::new());
}

#[test]
fn active_pseudo_on_down() {
    let mut s = btn_scene();
    let t = table(vec![rule(".btn:active", "background-color", "#ff0000")]);
    s[1].active = true;
    assert_eq!(rematch_order(&t, 1, &s), vec![0]);
}

#[test]
fn disabled_pseudo_via_disabled_flag() {
    let mut s = btn_scene();
    let t = table(vec![rule(".btn:disabled", "opacity", "0.5")]);
    s[1].disabled = true;
    assert_eq!(rematch_order(&t, 1, &s), vec![0]);
}

#[test]
fn descendant_pseudo_rule_matched() {
    let mut s = parent_child_scene();
    let t = table(vec![rule(".parent:hover .child", "color", "#0000ff")]);
    assert_eq!(rematch_order(&t, 1, &s), Vec::<usize>::new());
    s[0].hovered = true;
    assert_eq!(rematch_order(&t, 1, &s), vec![0]);
    assert_eq!(rematch_order(&t, 0, &s), Vec::<usize>::new());
}

#[test]
fn no_pseudo_rule_not_in_dynamic_rules() {
    let mut s = btn_scene();
    let t = table(vec![rule(".btn", "color", "#ff0000")]);
    s[1].hovered = true;
    assert_eq!(rematch_order(&t, 1, &s), vec![0]);
}

#[test]
fn rematch_resets_to_base_when_no_rule_matches() {
    let mut s = btn_scene();
    let t = table(vec![rule(".btn:hover", "background-color", "#0000ff")]);
    s[1].hovered = true;
    assert_eq!(rematch_pseudo_classes(&t, &s), vec![vec![], vec![0]]);
    s[1].hovered = false;
    assert_eq!(rematch_pseudo_classes(&t, &s), vec![Vec::<usize>::new(), vec![]]);
}

#[test]
fn focus_pseudo_matches_focused_node() {
    let mut s = btn_scene();
    let t = table(vec![rule(".btn:focus", "background-color", "#0000ff")]);
    s[1].focused = true;
    assert_eq!(rematch_order(&t, 1, &s), vec![0]);
}

#[test]
fn focus_pseudo_no_match_unfocused() {
    let s = btn_scene();
    let t = table(vec![rule(".btn:focus", "background-color", "#0000ff")]);
    assert_eq!(rematch_order(&t, 1, &s), Vec::<usize>::new());
}

#[test]
fn focus_pseudo_in_descendant_chain() {
    let mut s = parent_child_scene();
    let t = table(vec![rule(".parent:focus .child", "color", "#0000ff")]);
    s[0].focused = true;
    assert_eq!(rematch_order(&t, 1, &s), vec![0]);
}

#[test]
fn rematch_orders_by_ascending_specificity_then_source() {
    let mut s = btn_scene();
    s[1].id_attr = Some("ok".to_string());
    s[1].hovered = true;
    let t = table(vec![
        rule("#ok:hover", "color", "#ff0000"),
        rule(".btn:hover", "color", "#00ff00"),
        rule("button:hover", "color", "#0000ff"),
        rule(".btn:hover", "opacity", "0.5"),
    ]);
    assert_eq!(rematch_order(&t, 1, &s), vec![2, 1, 3, 0]);
}

#[test]
fn child_combinator_with_state_needs_direct_parent() {
    let mut s = vec![
        node(None, NodeKind::Container, &["a"]),
        node(Some(0), NodeKind::Container, &["b"]),
        node(Some(1), NodeKind::Button, &["c"]),
    ];
    s[0].hovered = true;
    let direct = parse_selector(".a:hover > .c").unwrap();
    let any = parse_selector(".a:hover .c").unwrap();
    assert!(!match_element_with_state(&direct, 2, &s));
    assert!(match_element_with_state(&any, 2, &s));
    s[0].hovered = false;
    assert!(!match_element_with_state(&any, 2, &s));
}

#[test]
fn compound_matches_node_ignores_state() {
    let s = btn_scene();
    let sel = parse_selector("button.btn:hover").unwrap();
    assert!(compound_matches_node(&sel.compound[0], &s[1]));
    assert!(!compound_matches_node(&sel.compound[0], &s[0]));
    let tag = parse_selector("span").unwrap();
    let text = node(None, NodeKind::Text { content: "x".to_string() }, &[]);
    assert!(compound_matches_node(&tag.compound[0], &text));
}
