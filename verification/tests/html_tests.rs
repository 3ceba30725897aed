use loomgui_core::dom::ElementTree;
use loomgui_core::html::RawNode;
use loomgui_core::scrape::{body_children, component_css_sources, parse_html, stylesheet_sources, ScrapedNode};

fn attr<'a>(t: &'a ElementTree, i: usize, k: &str) -> Option<&'a str> {
    t.nodes[i].attrs.iter().find(|(a, _)| a == k).map(|(_, v)| v.as_str())
}

#[test]
fn parses_simple_div_with_text() {
    let tree = parse_html(r#"<div class="panel">hello</div>"#).unwrap();
    assert_eq!(tree.roots.len(), 1);
    let root = &tree.nodes[tree.roots[0].0];
    assert_eq!(root.tag, "div");
    assert_eq!(root.classes, vec!["panel"]);
    assert_eq!(root.text.as_deref(), Some("hello"));
}

#[test]
fn merges_adjacent_text_into_one_leaf() {
    let tree = parse_html(r#"<div>foo bar baz</div>"#).unwrap();
    let root = &tree.nodes[tree.roots[0].0];
    assert_eq!(root.text.as_deref(), Some("foo bar baz"));
    assert!(root.children.is_empty());
}

#[test]
fn rejects_inline_mix_of_text_and_element() {
    let result = parse_html(r#"<div>hello <img src="a.png"> world</div>"#);
    assert!(result.is_err());
}

#[test]
fn nested_containers() {
    let tree = parse_html(r#"<div><div><span>x</span></div></div>"#).unwrap();
    let outer = &tree.nodes[tree.roots[0].0];
    assert_eq!(outer.children.len(), 1);
    let inner = &tree.nodes[outer.children[0].0];
    assert_eq!(inner.children.len(), 1);
    let span = &tree.nodes[inner.children[0].0];
    assert_eq!(span.tag, "span");
}

#[test]
fn captures_all_attributes_including_src() {
    let tree = parse_html(r#"<img src="logo.png" alt="logo" data-id="42">"#).unwrap();
    let i = tree.roots[0].0;
    let img = &tree.nodes[i];
    assert_eq!(img.tag, "img");
    assert_eq!(attr(&tree, i, "src"), Some("logo.png"));
    assert_eq!(attr(&tree, i, "alt"), Some("logo"));
    assert_eq!(attr(&tree, i, "data-id"), Some("42"));
    assert!(img.text.is_none());
}

#[test]
fn class_and_id_also_land_in_attrs() {
    let tree = parse_html(r#"<div id="main" class="a b"></div>"#).unwrap();
    let i = tree.roots[0].0;
    let div = &tree.nodes[i];
    assert_eq!(div.id.as_deref(), Some("main"));
    assert_eq!(div.classes, vec!["a", "b"]);
    assert_eq!(attr(&tree, i, "id"), Some("main"));
    assert_eq!(attr(&tree, i, "class"), Some("a b"));
}

#[test]
fn rejects_fence_out_element() {
    let video = parse_html(r#"<video src="x.mp4"></video>"#);
    assert!(video.is_err(), "<video> is outside the whitelist");
    let input = parse_html(r#"<input type="text">"#);
    assert!(input.is_err(), "<input> is outside the whitelist");
    let nested = parse_html(r#"<div><b>bold</b></div>"#);
    assert!(nested.is_err(), "<b> is outside the whitelist");
}

#[test]
fn fence_tags_all_accepted() {
    let html = r#"<div><span>x</span><img src="a.png"><button>ok</button></div>"#;
    let tree = parse_html(html).unwrap();
    assert_eq!(tree.roots.len(), 1);
    let lcontainer = parse_html(r#"<l-container></l-container>"#).unwrap();
    assert_eq!(lcontainer.nodes[lcontainer.roots[0].0].tag, "l-container");
}

#[test]
fn fence_error_message_names_the_tag() {
    let err = parse_html(r#"<div><b>bold</b></div>"#).unwrap_err();
    assert_eq!(err, "围栏外元素 <b> 不支持，用 div/span/img/button 或 l-rich");
    let err = parse_html(r#"<div>t<span>x</span></div>"#).unwrap_err();
    assert_eq!(err, "行内混排不支持（div 只装 flex item）：元素 <div> 同时含文本与子元素，改用单个文本或 l-rich");
}

#[test]
fn preorder_numbering_and_parents() {
    let tree = parse_html(r#"<div><span>a</span><div><img src="x"></div></div><button>b</button>"#).unwrap();
    assert_eq!(tree.roots.iter().map(|r| r.0).collect::<Vec<_>>(), vec![0, 4]);
    assert_eq!(tree.nodes[0].children.iter().map(|c| c.0).collect::<Vec<_>>(), vec![1, 2]);
    assert_eq!(tree.nodes[2].children.iter().map(|c| c.0).collect::<Vec<_>>(), vec![3]);
    assert_eq!(tree.nodes[3].parent.map(|p| p.0), Some(2));
    assert_eq!(tree.nodes[4].parent, None);
    assert_eq!(tree.nodes[4].text.as_deref(), Some("b"));
}

use loomgui_core::gather::{build_scene, link_entries, SceneEntry, SceneLinks, StyleSource};
use loomgui_core::node::NodeKind;

fn scene_of(html: &str) -> (Vec<SceneEntry>, SceneLinks) {
    let tree = parse_html(html).unwrap();
    let entries = build_scene(&tree);
    let parents: Vec<Option<usize>> = entries.iter().map(|e| e.parent_idx).collect();
    let links = link_entries(&parents);
    (entries, links)
}

#[test]
fn build_scene_fills_classes_and_id() {
    let (entries, links) = scene_of(r#"<div class="a b" id="x"><span class="c">hi</span></div>"#);
    let root = &entries[links.roots[0]];
    assert_eq!(root.classes, vec!["a".to_string(), "b".to_string()]);
    assert_eq!(root.id_attr.as_deref(), Some("x"));
    let span = &entries[links.children[links.roots[0]][0]];
    assert_eq!(span.classes, vec!["c".to_string()]);
}

#[test]
fn builds_div_button_text_image() {
    let (entries, links) = scene_of(r#"<div class="root"><button>OK</button><span>hi</span><img src="logo.png"></div>"#);
    let root = links.roots[0];
    assert!(matches!(entries[root].kind, NodeKind::Container));
    let kids = &links.children[root];
    assert_eq!(kids.len(), 3);
    assert!(matches!(entries[kids[0]].kind, NodeKind::Button));
    match &entries[kids[1]].kind {
        NodeKind::Text { content } => assert_eq!(content, "hi"),
        _ => panic!("span is a text node"),
    }
    match &entries[kids[2]].kind {
        NodeKind::Image { src } => assert_eq!(src, "logo.png"),
        _ => panic!("img is an image node"),
    }
}

#[test]
fn image_without_src_falls_back_to_empty() {
    let (entries, links) = scene_of(r#"<div><img alt="no src"></div>"#);
    let img = links.children[links.roots[0]][0];
    match &entries[img].kind {
        NodeKind::Image { src } => assert_eq!(src, ""),
        _ => panic!("img is an image node"),
    }
}

#[test]
fn div_raw_text_becomes_text_child() {
    let (entries, links) = scene_of(r#"<div>标题</div>"#);
    let root = links.roots[0];
    assert!(matches!(entries[root].kind, NodeKind::Container));
    assert_eq!(links.children[root].len(), 1);
    let child = links.children[root][0];
    match &entries[child].kind {
        NodeKind::Text { content } => assert_eq!(content, "标题"),
        _ => panic!("text child"),
    }
    assert_eq!(entries[child].parent_idx, Some(root));
    assert_eq!(entries[child].source, StyleSource::TextOf(0));
    assert_eq!(entries[root].source, StyleSource::Element(0));
}

#[test]
fn button_raw_text_becomes_text_child() {
    let (entries, links) = scene_of(r#"<button>确定</button>"#);
    let btn = links.roots[0];
    assert!(matches!(entries[btn].kind, NodeKind::Button));
    assert_eq!(links.children[btn].len(), 1);
    match &entries[links.children[btn][0]].kind {
        NodeKind::Text { content } => assert_eq!(content, "确定"),
        _ => panic!("text child"),
    }
}

#[test]
fn span_text_stays_on_the_span() {
    let (entries, links) = scene_of(r#"<div><span>hi</span></div>"#);
    assert_eq!(entries.len(), 2);
    assert!(links.children[1].is_empty());
}

#[test]
fn draggable_attr_true_sets_node_draggable() {
    let (entries, links) = scene_of(r#"<div><button draggable="true">OK</button></div>"#);
    let root = links.roots[0];
    let btn = links.children[root][0];
    assert!(entries[btn].draggable);
    assert!(!entries[root].draggable);
}

#[test]
fn draggable_attr_absent_or_false_is_false() {
    let (entries, links) = scene_of(r#"<div draggable="false"><button draggable="yes">x</button></div>"#);
    let root = links.roots[0];
    assert!(!entries[root].draggable);
    assert!(!entries[links.children[root][0]].draggable);
}

#[test]
fn tabindex_attr_parsed() {
    let (entries, links) = scene_of(
        r#"<div><button tabindex="0">a</button><button tabindex="3">b</button><button tabindex="-1">c</button><button tabindex="abc">d</button><button>e</button></div>"#,
    );
    let btns: Vec<&SceneEntry> = links.children[links.roots[0]].iter().map(|&i| &entries[i]).collect();
    assert_eq!(btns.len(), 5);
    assert_eq!(btns[0].tabindex, Some(0));
    assert_eq!(btns[1].tabindex, Some(3));
    assert_eq!(btns[2].tabindex, Some(-1));
    assert_eq!(btns[3].tabindex, None);
    assert_eq!(btns[4].tabindex, None);
}

#[test]
fn entries_are_depth_first_with_parents_first() {
    let (entries, links) = scene_of(r#"<div><div><span>a</span></div><button>b</button></div><div></div>"#);
    let parents: Vec<Option<usize>> = entries.iter().map(|e| e.parent_idx).collect();
    assert_eq!(parents, vec![None, Some(0), Some(1), Some(0), Some(3), None]);
    assert_eq!(links.roots, vec![0, 5]);
    assert_eq!(links.children[0], vec![1, 3]);
    assert_eq!(links.children[3], vec![4]);
}

#[test]
fn parse_html_keeps_only_element_children_of_body() {
    let tree = parse_html("<html><body>loose text<div>a</div><!-- note --><span>b</span></body></html>").unwrap();
    assert_eq!(tree.roots.len(), 2);
    assert_eq!(tree.nodes[tree.roots[0].0].tag, "div");
    assert_eq!(tree.nodes[tree.roots[1].0].tag, "span");
}

#[test]
fn component_css_sources_no_style_is_empty() {
    let (styles, hrefs) = component_css_sources(r#"<div class="x"><span>hi</span></div>"#);
    assert!(styles.is_empty());
    assert!(hrefs.is_empty());
}

#[test]
fn component_css_sources_styles_and_stylesheet_links() {
    let (styles, hrefs) = component_css_sources(
        r#"<style>.a { color: red; }</style><link rel="icon" href="favicon.ico"><div><link rel="Preload StyleSheet" href="b.css"></div>"#,
    );
    assert_eq!(styles, vec![".a { color: red; }".to_string()]);
    assert_eq!(hrefs, vec!["b.css".to_string()]);
}

fn flat_el(depth: usize, tag: &str, attrs: &[(&str, &str)]) -> (usize, ScrapedNode) {
    (depth, ScrapedNode::Element(tag.to_string(), attrs.iter().map(|(k, v)| (k.to_string(), v.to_string())).collect()))
}

#[test]
fn body_children_of_a_flat_document() {
    let f = vec![
        (0, ScrapedNode::Other),
        flat_el(1, "html", &[]),
        flat_el(2, "head", &[]),
        flat_el(2, "body", &[]),
        flat_el(3, "div", &[("id", "a")]),
        (4, ScrapedNode::Text("x".to_string())),
        (3, ScrapedNode::Text("y".to_string())),
        flat_el(1, "p", &[]),
    ];
    let kids = body_children(&f).expect("a body");
    assert_eq!(kids.len(), 2);
    match &kids[0] {
        RawNode::Element(e) => {
            assert_eq!(e.tag, "div");
            assert_eq!(e.attrs, vec![("id".to_string(), "a".to_string())]);
            assert_eq!(e.children.len(), 1);
            assert!(matches!(&e.children[0], RawNode::Text(t) if t == "x"));
        },
        _ => panic!("an element first"),
    }
    assert!(matches!(&kids[1], RawNode::Text(t) if t == "y"));
    assert!(body_children(&vec![flat_el(0, "html", &[])]).is_none());
}

#[test]
fn stylesheet_sources_of_a_flat_document() {
    let f = vec![
        flat_el(0, "html", &[]),
        flat_el(1, "style", &[]),
        (2, ScrapedNode::Text(".a{}".to_string())),
        flat_el(1, "link", &[("rel", "Stylesheet"), ("href", "a.css")]),
        flat_el(1, "link", &[("rel", "icon"), ("href", "i.png")]),
        flat_el(1, "link", &[("rel", "stylesheet")]),
    ];
    let (styles, hrefs) = stylesheet_sources(&f);
    assert_eq!(styles, vec![".a{}".to_string()]);
    assert_eq!(hrefs, vec!["a.css".to_string()]);
}
