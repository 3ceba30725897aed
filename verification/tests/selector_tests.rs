use loomgui_core::css::Rule;
use loomgui_core::dom::{ElementData, ElementId, ElementTree};
use loomgui_core::selector::{match_element, parse_selector, Combinator, Specificity};

fn el(tag: &str, classes: &[&str], id: Option<&str>) -> ElementData {
    ElementData {
        tag: tag.into(),
        classes: classes.iter().map(|s| s.to_string()).collect(),
        id: id.map(|s| s.into()),
        attrs: Vec::new(),
        text: None,
        children: Vec::new(),
        parent: None,
    }
}

fn rule(sel: &str) -> Rule {
    Rule { selector_text: sel.into(), declarations: vec![] }
}

#[test]
fn specificity_tag_class_id() {
    assert_eq!(parse_selector("div").unwrap().specificity, Specificity(0, 0, 1));
    assert_eq!(parse_selector(".a").unwrap().specificity, Specificity(0, 1, 0));
    assert_eq!(parse_selector("#x").unwrap().specificity, Specificity(1, 0, 0));
    assert_eq!(parse_selector("div.a#x").unwrap().specificity, Specificity(1, 1, 1));
}

#[test]
fn matches_tag_class_id() {
    let tree = ElementTree { roots: vec![ElementId(0)], nodes: vec![el("div", &["panel"], Some("main"))] };
    let rules = vec![rule("div"), rule(".panel"), rule("#main"), rule("span")];
    let matched = match_element(ElementId(0), &tree, &rules);
    assert_eq!(matched.len(), 3);
}

fn three_level() -> ElementTree {
    let mut nodes = vec![el("div", &["a"], None), el("div", &[], None), el("span", &[], None)];
    nodes[1].parent = Some(ElementId(0));
    nodes[2].parent = Some(ElementId(1));
    nodes[0].children = vec![ElementId(1)];
    nodes[1].children = vec![ElementId(2)];
    ElementTree { roots: vec![ElementId(0)], nodes }
}

#[test]
fn descendant_matches_across_layers() {
    let tree = three_level();
    let rules = vec![rule("div.a span")];
    let matched = match_element(ElementId(2), &tree, &rules);
    assert_eq!(matched.len(), 1, "div.a span 必须命中跨层的 span");
}

#[test]
fn parse_hover_pseudo() {
    let s = parse_selector(".btn:hover").unwrap();
    assert_eq!(s.compound.len(), 1);
    assert!(s.compound[0].pseudo_hover);
    assert!(!s.compound[0].pseudo_active);
    assert!(!s.compound[0].pseudo_disabled);
    assert_eq!(s.compound[0].classes, vec!["btn".to_string()]);
}

#[test]
fn parse_multiple_pseudos() {
    let s = parse_selector(".btn:hover:active").unwrap();
    assert!(s.compound[0].pseudo_hover);
    assert!(s.compound[0].pseudo_active);
    assert!(!s.compound[0].pseudo_disabled);
}

#[test]
fn parse_disabled_pseudo() {
    let s = parse_selector("button:disabled").unwrap();
    assert!(s.compound[0].pseudo_disabled);
    assert_eq!(s.compound[0].tag.as_deref(), Some("button"));
}

#[test]
fn parse_no_pseudo_defaults_false() {
    let s = parse_selector(".btn").unwrap();
    assert!(!s.compound[0].pseudo_hover);
    assert!(!s.compound[0].pseudo_active);
    assert!(!s.compound[0].pseudo_disabled);
}

#[test]
fn parse_descendant_with_pseudo() {
    let s = parse_selector(".parent:hover .child").unwrap();
    assert_eq!(s.compound.len(), 2);
    assert!(s.compound[0].pseudo_hover);
    assert!(!s.compound[1].pseudo_hover);
    assert_eq!(s.compound[1].classes, vec!["child".to_string()]);
}

#[test]
fn parse_focus_pseudo() {
    let s = parse_selector(".btn:focus").unwrap();
    assert!(s.compound[0].pseudo_focus);
    assert!(!s.compound[0].pseudo_hover);
}

#[test]
fn parse_focus_with_hover() {
    let s = parse_selector(".btn:focus:hover").unwrap();
    assert!(s.compound[0].pseudo_focus);
    assert!(s.compound[0].pseudo_hover);
}

#[test]
fn child_combinator_requires_direct_parent() {
    let tree = three_level();
    let rules = vec![rule("div.a > span"), rule("div.a span")];
    let matched = match_element(ElementId(2), &tree, &rules);
    assert_eq!(matched.len(), 1, "div.a > span 不应命中（直接父非 div.a），div.a span 应命中");
    assert_eq!(matched[0].selector_text, "div.a span");
}

#[test]
fn child_combinator_is_recorded() {
    let s = parse_selector("div.a > span").unwrap();
    assert_eq!(s.compound.len(), 2);
    assert_eq!(s.compound[0].combinator, Combinator::Descendant);
    assert_eq!(s.compound[1].combinator, Combinator::Child);
    let s2 = parse_selector("div>span b").unwrap();
    assert_eq!(s2.compound[1].combinator, Combinator::Child);
    assert_eq!(s2.compound[2].combinator, Combinator::Descendant);
}

#[test]
fn raw_is_trimmed_and_tag_id_last_wins() {
    let s = parse_selector("  a#x#y.c.d  ").unwrap();
    assert_eq!(s.raw, "a#x#y.c.d");
    assert_eq!(s.compound[0].id.as_deref(), Some("y"));
    assert_eq!(s.compound[0].classes, vec!["c".to_string(), "d".to_string()]);
    assert_eq!(s.specificity, Specificity(1, 2, 1));
}

#[test]
fn match_order_is_specificity_desc_then_source() {
    let tree = ElementTree { roots: vec![ElementId(0)], nodes: vec![el("div", &["a"], Some("x"))] };
    let rules = vec![rule("div"), rule(".a"), rule("#x"), rule("div.a"), rule(".a")];
    let matched = match_element(ElementId(0), &tree, &rules);
    let sels: Vec<&str> = matched.iter().map(|r| r.selector_text.as_str()).collect();
    assert_eq!(sels, vec!["#x", "div.a", ".a", ".a", "div"]);
}

#[test]
fn pseudo_class_rules_never_match_statically() {
    let tree = three_level();
    let rules = vec![rule("div.a:hover span"), rule("span:focus"), rule("div span"), rule("div:active > div > span")];
    let matched = match_element(ElementId(2), &tree, &rules);
    assert_eq!(matched.len(), 1);
    assert_eq!(matched[0].selector_text, "div span");
}
