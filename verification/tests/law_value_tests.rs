use loomgui_core::draw_order::assign_sort_keys;
use loomgui_core::node::NodeKind;
use loomgui_core::package::{write_package, ComponentTemplate, PackageInput, PkgError, TemplateNode};
use loomgui_core::package_read::{package_counts_fit, read_package, read_package_blobs};
use loomgui_core::tree::SceneTree;
use loomgui_core::dump::json_escape;
use loomgui_core::selector::{parse_selector, selector_counts_fit, Specificity};
use loomgui_core::texture::TextureRegistry;

#[test]
fn json_escape_decodes_back_through_a_json_parser() {
    for s in ["plain", "quote \" and \\ backslash", "line\nfeed\ttab\rret", "bell\u{7}nul\u{0}", "中文 ✓"] {
        let lit = format!("\"{}\"", json_escape(s));
        let back: String = serde_json::from_str(&lit).unwrap();
        assert_eq!(back, s);
        assert!(json_escape(s).chars().all(|c| (c as u32) >= 0x20));
    }
    assert_eq!(json_escape("plain text"), "plain text");
}

#[test]
fn texture_ids_consecutive_since_clear() {
    let mut r = TextureRegistry::new();
    assert_eq!(r.register("a.png", 1, 1), 1);
    assert_eq!(r.register("b.png", 1, 1), 2);
    assert_eq!(r.register("a.png", 9, 9), 1);
    assert_eq!(r.register("c.png", 1, 1), 3);
    r.clear();
    assert_eq!(r.register("c.png", 1, 1), 1);
    assert_eq!(r.register("d.png", 1, 1), 2);
}

#[test]
fn selector_counts_fit_for_ordinary_selectors() {
    assert!(selector_counts_fit("div.a.b > span#x .c"));
    assert!(selector_counts_fit(""));
    let long = ".a".repeat(1000);
    assert!(selector_counts_fit(&long));
    assert_eq!(parse_selector(&long).unwrap().specificity, Specificity(0, 1000, 0));
}

#[test]
fn every_proper_prefix_of_a_written_package_is_truncated() {
    let root = TemplateNode {
        kind: NodeKind::Container,
        style: vec![1, 2, 3],
        parent_idx: None,
        classes: vec!["a".to_string(), "b".to_string()],
        id_attr: Some("r".to_string()),
        draggable: true,
        tabindex: Some(2),
    };
    let child = TemplateNode {
        kind: NodeKind::Text { content: "hi".to_string() },
        style: vec![],
        parent_idx: Some(0),
        classes: vec![],
        id_attr: None,
        draggable: false,
        tabindex: None,
    };
    let inp = PackageInput {
        components: vec![ComponentTemplate { name: "c".to_string(), nodes: vec![root, child], dynamic_rules: vec![9, 9] }],
        asset_manifest: vec!["icons/x.png".to_string()],
    };
    let bytes = write_package(&inp);
    assert!(read_package(&bytes).is_ok());
    for k in 0..bytes.len() {
        assert!(matches!(read_package(&bytes[..k]), Err(PkgError::Truncated(_))), "prefix of {} bytes", k);
    }
}

#[test]
fn sort_keys_are_handed_out_once() {
    let mut t = SceneTree::new();
    t.add_root();
    for _ in 1..6 {
        t.add_node();
    }
    for &(p, c) in &[(0usize, 1usize), (1, 2), (0, 3), (3, 4)] {
        t.append_child(p, c).unwrap();
    }
    let r = assign_sort_keys(&t, &vec![false, true, false, false, false, false]);
    let keys: Vec<u32> = r.keys.iter().map(|k| k.0).collect();
    assert_eq!(keys, vec![0, 1, 2, 3, 4, 0]);
    for p in 0..keys.len() {
        for q in 0..keys.len() {
            if p != q && keys[p] == keys[q] {
                assert_eq!(keys[p], 0);
            }
        }
    }
}

#[test]
fn subtree_nodes_are_numbered_after_their_root() {
    let mut t = SceneTree::new();
    t.add_root();
    for _ in 1..6 {
        t.add_node();
    }
    for &(p, c) in &[(0usize, 1usize), (1, 2), (1, 3), (0, 4), (4, 5)] {
        t.append_child(p, c).unwrap();
    }
    let r = assign_sort_keys(&t, &vec![false; 6]);
    let key = |i: usize| r.keys[i].0;
    for &(p, c) in &[(0usize, 1usize), (1, 2), (1, 3), (0, 4), (4, 5), (0, 2), (0, 5)] {
        assert!(key(p) < key(c), "{} before {}", p, c);
    }
    assert!(key(3) < key(4), "the first subtree is numbered before the next sibling");
}

fn sample_input() -> PackageInput {
    let mut root = TemplateNode {
        kind: NodeKind::Container,
        style: vec![1, 2, 3],
        parent_idx: None,
        classes: vec!["a".to_string(), "a".to_string(), "b".to_string()],
        id_attr: Some("c".to_string()),
        draggable: false,
        tabindex: None,
    };
    let child = TemplateNode {
        kind: NodeKind::Text { content: "a".to_string() },
        style: vec![7],
        parent_idx: Some(0),
        classes: vec!["b".to_string()],
        id_attr: None,
        draggable: false,
        tabindex: None,
    };
    root.tabindex = Some(1);
    PackageInput {
        components: vec![
            ComponentTemplate { name: "c".to_string(), nodes: vec![root, child], dynamic_rules: vec![5, 6] },
            ComponentTemplate { name: "d".to_string(), nodes: vec![], dynamic_rules: vec![] },
        ],
        asset_manifest: vec!["b".to_string(), "p.png".to_string()],
    }
}

#[test]
fn string_count_is_the_number_of_distinct_strings() {
    let bytes = write_package(&sample_input());
    let count = u32::from_le_bytes(bytes[16..20].try_into().unwrap());
    // c, a, b, d, p.png
    assert_eq!(count, 5);
}

#[test]
fn blobs_are_listed_in_the_order_the_reader_takes_them() {
    let bytes = write_package(&sample_input());
    let (r, blobs) = read_package_blobs(&bytes);
    assert!(r.is_ok());
    assert_eq!(blobs.len(), 4);
    assert!(blobs[0].2 && blobs[1].2 && !blobs[2].2 && !blobs[3].2);
    assert_eq!(&bytes[blobs[0].0..blobs[0].1], &[1u8, 2, 3][..]);
    assert_eq!(&bytes[blobs[1].0..blobs[1].1], &[7u8][..]);
    assert_eq!(&bytes[blobs[2].0..blobs[2].1], &[5u8, 6][..]);
    assert_eq!(blobs[3].0, blobs[3].1);
    let cut = blobs[1].1;
    let (r2, blobs2) = read_package_blobs(&bytes[..cut]);
    assert!(matches!(r2, Err(PkgError::Truncated(_))));
    assert_eq!(blobs2, blobs[..2].to_vec());
    for k in 0..bytes.len() {
        assert!(package_counts_fit(&bytes[..k]));
    }
}
