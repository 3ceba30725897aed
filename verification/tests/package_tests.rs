use loomgui_core::node::NodeKind;
use loomgui_core::package::{
    write_package, ComponentTemplate, PackageInput, PkgError, TemplateNode, MAX_VERSION, MIN_VERSION,
    PKG_FORMAT_VERSION, PKG_MAGIC,
};
use loomgui_core::package_read::{package_counts_fit, read_package};

fn tn(kind: NodeKind) -> TemplateNode {
    TemplateNode {
        kind,
        style: vec![],
        parent_idx: None,
        classes: vec![],
        id_attr: None,
        draggable: false,
        tabindex: None,
    }
}

fn comp(name: &str, nodes: Vec<TemplateNode>) -> ComponentTemplate {
    ComponentTemplate { name: name.to_string(), nodes, dynamic_rules: vec![] }
}

fn input(components: Vec<ComponentTemplate>, manifest: &[&str]) -> PackageInput {
    PackageInput {
        components,
        asset_manifest: manifest.iter().map(|s| s.to_string()).collect(),
    }
}

fn find<'a>(pkg: &'a loomgui_core::package::Package, name: &str) -> &'a ComponentTemplate {
    pkg.components.iter().find(|c| c.name == name).expect("component present")
}

#[test]
fn write_read_multi_component_roundtrip() {
    let mut tn_root = tn(NodeKind::Container);
    tn_root.id_attr = Some("r".into());
    let mut tn_child = tn(NodeKind::Text { content: "hi".into() });
    tn_child.parent_idx = Some(0);
    let inp = input(
        vec![comp("comp1", vec![tn_root, tn_child]), comp("comp2", vec![tn(NodeKind::Container)])],
        &["icons/skin.png"],
    );
    let bytes = write_package(&inp);
    let pkg = read_package(&bytes).expect("read ok");
    assert_eq!(pkg.components.len(), 2);
    assert_eq!(find(&pkg, "comp1").nodes.len(), 2);
    assert!(find(&pkg, "comp1").nodes[1].parent_idx == Some(0), "child parent=root");
    assert_eq!(pkg.asset_manifest, vec!["icons/skin.png".to_string()]);
}

#[test]
fn old_version_pkg_rejected() {
    let mut old = vec![];
    old.extend_from_slice(&PKG_MAGIC.to_le_bytes());
    old.extend_from_slice(&(MIN_VERSION - 1).to_le_bytes());
    assert!(matches!(read_package(&old), Err(PkgError::TooOld(_))));
}

#[test]
fn read_rejects_bad_magic() {
    let mut bad = vec![0u8; 20];
    bad[0..4].copy_from_slice(&0x4D4F4F4Cu32.to_le_bytes());
    assert!(matches!(read_package(&bad), Err(PkgError::BadMagic)));
}

#[test]
fn read_rejects_too_new_version() {
    let inp = input(vec![comp("c", vec![tn(NodeKind::Container)])], &[]);
    let mut bytes = write_package(&inp);
    bytes[4..8].copy_from_slice(&(MAX_VERSION + 1).to_le_bytes());
    assert!(matches!(read_package(&bytes), Err(PkgError::TooNew(_))));
}

#[test]
fn header_is_20_bytes_no_root_size() {
    let inp = input(vec![comp("c", vec![tn(NodeKind::Container)])], &[]);
    let bytes = write_package(&inp);
    let magic = u32::from_le_bytes(bytes[0..4].try_into().unwrap());
    assert_eq!(magic, PKG_MAGIC);
    let ver = u32::from_le_bytes(bytes[4..8].try_into().unwrap());
    assert_eq!(ver, PKG_FORMAT_VERSION);
    let comp_count = u32::from_le_bytes(bytes[12..16].try_into().unwrap());
    assert_eq!(comp_count, 1);
    let sc = u32::from_le_bytes(bytes[16..20].try_into().unwrap());
    assert_eq!(sc, 1, "string_count at offset 16 (20-byte header)");
}

#[test]
fn multi_component_parent_idx_is_component_local() {
    let mut root_a = tn(NodeKind::Container);
    root_a.id_attr = Some("a".into());
    let mut child_a = tn(NodeKind::Text { content: "ca".into() });
    child_a.parent_idx = Some(0);
    let mut root_b = tn(NodeKind::Container);
    root_b.id_attr = Some("b".into());
    let mut child_b = tn(NodeKind::Text { content: "cb".into() });
    child_b.parent_idx = Some(0);
    let inp = input(vec![comp("a", vec![root_a, child_a]), comp("b", vec![root_b, child_b])], &[]);
    let pkg = read_package(&write_package(&inp)).unwrap();
    assert_eq!(find(&pkg, "a").nodes[1].parent_idx, Some(0));
    assert_eq!(find(&pkg, "b").nodes[1].parent_idx, Some(0));
    assert_eq!(find(&pkg, "a").nodes[0].parent_idx, None);
    assert_eq!(find(&pkg, "b").nodes[0].parent_idx, None);
}

#[test]
fn all_node_kinds_roundtrip() {
    let mut img = tn(NodeKind::Image { src: "icons/a.png".into() });
    img.parent_idx = Some(0);
    let mut txt = tn(NodeKind::Text { content: "hello".into() });
    txt.parent_idx = Some(0);
    let inp = input(vec![comp("c", vec![tn(NodeKind::Container), tn(NodeKind::Button), img, txt])], &["icons/a.png"]);
    let pkg = read_package(&write_package(&inp)).unwrap();
    let ns = &find(&pkg, "c").nodes;
    assert!(matches!(ns[0].kind, NodeKind::Container));
    assert!(matches!(ns[1].kind, NodeKind::Button));
    assert!(matches!(&ns[2].kind, NodeKind::Image { src } if src == "icons/a.png"));
    assert!(matches!(&ns[3].kind, NodeKind::Text { content } if content == "hello"));
    assert_eq!(pkg.asset_manifest, vec!["icons/a.png".to_string()]);
}

#[test]
fn classes_id_attr_draggable_tabindex_roundtrip() {
    let mut root = tn(NodeKind::Container);
    root.classes = vec!["a".into(), "b".into()];
    root.id_attr = Some("x".into());
    let mut btn = tn(NodeKind::Button);
    btn.parent_idx = Some(0);
    btn.draggable = true;
    btn.tabindex = Some(3);
    let inp = input(vec![comp("c", vec![root, btn])], &[]);
    let pkg = read_package(&write_package(&inp)).unwrap();
    let ns = &find(&pkg, "c").nodes;
    assert_eq!(ns[0].classes, vec!["a".to_string(), "b".to_string()]);
    assert_eq!(ns[0].id_attr.as_deref(), Some("x"));
    assert!(!ns[0].draggable);
    assert_eq!(ns[0].tabindex, None);
    assert!(ns[1].draggable, "btn draggable=true round-trip");
    assert_eq!(ns[1].tabindex, Some(3));
}

#[test]
fn style_blob_roundtrips_baked_resolved_style() {
    let mut n = tn(NodeKind::Container);
    n.style = vec![0x00, 0x00, 0x80, 0x3f, 0x01, 0xff];
    let inp = input(vec![comp("c", vec![n])], &[]);
    let pkg = read_package(&write_package(&inp)).unwrap();
    assert_eq!(find(&pkg, "c").nodes[0].style, vec![0x00, 0x00, 0x80, 0x3f, 0x01, 0xff]);
}

#[test]
fn per_component_dynamic_rules_roundtrip() {
    let mut a = comp("a", vec![tn(NodeKind::Container)]);
    a.dynamic_rules = vec![1, 2, 3];
    let mut b = comp("b", vec![tn(NodeKind::Container)]);
    b.dynamic_rules = vec![9, 8];
    let inp = input(vec![a, b], &[]);
    let pkg = read_package(&write_package(&inp)).unwrap();
    assert_eq!(find(&pkg, "a").dynamic_rules, vec![1, 2, 3]);
    assert_eq!(find(&pkg, "b").dynamic_rules, vec![9, 8]);
}

#[test]
fn stringtable_dedups_across_components() {
    let mut n1 = tn(NodeKind::Text { content: "dup".into() });
    n1.id_attr = Some("c1".into());
    let mut n2 = tn(NodeKind::Text { content: "dup".into() });
    n2.id_attr = Some("c2".into());
    let inp = input(vec![comp("c1", vec![n1]), comp("c2", vec![n2])], &[]);
    let bytes = write_package(&inp);
    let sc = u32::from_le_bytes(bytes[16..20].try_into().unwrap());
    assert_eq!(sc, 3, "repeated content is stored once across components");
    let pkg = read_package(&bytes).unwrap();
    assert!(matches!(&find(&pkg, "c1").nodes[0].kind, NodeKind::Text { content } if content == "dup"));
    assert!(matches!(&find(&pkg, "c2").nodes[0].kind, NodeKind::Text { content } if content == "dup"));
}

#[test]
fn empty_package_roundtrips() {
    let inp = input(vec![], &[]);
    let pkg = read_package(&write_package(&inp)).unwrap();
    assert_eq!(pkg.components.len(), 0);
    assert!(pkg.asset_manifest.is_empty());
    assert_eq!(pkg.name, "");
}

#[test]
fn asset_manifest_multiple_paths_roundtrip() {
    let inp = input(
        vec![comp("c", vec![tn(NodeKind::Image { src: "a/x.png".into() }), tn(NodeKind::Image { src: "b/y.png".into() })])],
        &["a/x.png", "b/y.png"],
    );
    let pkg = read_package(&write_package(&inp)).unwrap();
    assert_eq!(pkg.asset_manifest, vec!["a/x.png".to_string(), "b/y.png".to_string()]);
}

fn comp_table_offset(bytes: &[u8]) -> usize {
    assert!(bytes.len() >= 20);
    let string_count = u32::from_le_bytes(bytes[16..20].try_into().unwrap()) as usize;
    let mut off = 20usize;
    for _ in 0..string_count {
        let len = u16::from_le_bytes(bytes[off..off + 2].try_into().unwrap()) as usize;
        off += 2 + len;
    }
    off
}

fn two_comp_pkg_bytes() -> Vec<u8> {
    let mut root_a = tn(NodeKind::Container);
    root_a.id_attr = Some("a".into());
    let mut child_a = tn(NodeKind::Text { content: "ca".into() });
    child_a.parent_idx = Some(0);
    let inp = input(vec![comp("a", vec![root_a, child_a]), comp("b", vec![tn(NodeKind::Container)])], &[]);
    write_package(&inp)
}

#[test]
fn read_rejects_oob_component_slice() {
    let mut bytes = two_comp_pkg_bytes();
    let ct_off = comp_table_offset(&bytes);
    bytes[ct_off + 2..ct_off + 6].copy_from_slice(&2u32.to_le_bytes());
    let err = read_package(&bytes).expect_err("oob slice should error");
    assert!(
        matches!(err, PkgError::Truncated("comp_node_slice")),
        "expected Truncated(\"comp_node_slice\"), got {err:?}"
    );
}

#[test]
fn read_rejects_cross_component_parent() {
    let bytes = two_comp_pkg_bytes();
    let ct_off = comp_table_offset(&bytes);
    let nodeblock_off = ct_off + 2 * 14;
    let style_len_0 = u32::from_le_bytes(bytes[nodeblock_off + 5..nodeblock_off + 9].try_into().unwrap()) as usize;
    let class_count_0 = u16::from_le_bytes(
        bytes[nodeblock_off + 9 + style_len_0 + 4..nodeblock_off + 11 + style_len_0 + 4].try_into().unwrap(),
    ) as usize;
    let node0_size = 22 + style_len_0 + 2 * class_count_0;
    let node1_off = nodeblock_off + node0_size;
    let style_len_1 = u32::from_le_bytes(bytes[node1_off + 5..node1_off + 9].try_into().unwrap()) as usize;
    let class_count_1 = u16::from_le_bytes(
        bytes[node1_off + 9 + style_len_1 + 4..node1_off + 11 + style_len_1 + 4].try_into().unwrap(),
    ) as usize;
    let node1_size = 22 + style_len_1 + 2 * class_count_1;
    let node2_off = nodeblock_off + node0_size + node1_size;
    let mut patched = bytes.clone();
    patched[node2_off..node2_off + 4].copy_from_slice(&0i32.to_le_bytes());
    let err = read_package(&patched).expect_err("cross-comp parent should error");
    assert!(
        matches!(err, PkgError::Truncated("cross_comp_parent")),
        "expected Truncated(\"cross_comp_parent\"), got {err:?}"
    );
}

#[test]
fn read_rejects_duplicate_component_name() {
    let mut bytes = two_comp_pkg_bytes();
    let ct_off = comp_table_offset(&bytes);
    let name_idx_0 = u16::from_le_bytes(bytes[ct_off..ct_off + 2].try_into().unwrap());
    bytes[ct_off + 14..ct_off + 16].copy_from_slice(&name_idx_0.to_le_bytes());
    let err = read_package(&bytes).expect_err("dup component name should error");
    assert!(matches!(err, PkgError::DupComponent(_)), "expected DupComponent(_), got {err:?}");
}

#[test]
fn read_rejects_out_of_range_string_index() {
    let mut bytes = two_comp_pkg_bytes();
    let ct_off = comp_table_offset(&bytes);
    bytes[ct_off..ct_off + 2].copy_from_slice(&40u16.to_le_bytes());
    assert!(matches!(read_package(&bytes), Err(PkgError::OobString(40))));
}

#[test]
fn read_rejects_unknown_kind_tag() {
    let bytes = two_comp_pkg_bytes();
    let ct_off = comp_table_offset(&bytes);
    let nodeblock_off = ct_off + 2 * 14;
    let mut patched = bytes.clone();
    patched[nodeblock_off + 4] = 7;
    assert!(matches!(read_package(&patched), Err(PkgError::BadKind(7))));
}

#[test]
fn read_rejects_truncated_bytes() {
    let bytes = two_comp_pkg_bytes();
    let cut = &bytes[..bytes.len() - 1];
    assert!(matches!(read_package(cut), Err(PkgError::Truncated("manifest_path_count"))));
    assert!(matches!(read_package(&bytes[..2]), Err(PkgError::Truncated("magic"))));
}

#[test]
fn counts_check_passes_written_packages() {
    let bytes = two_comp_pkg_bytes();
    assert!(package_counts_fit(&bytes));
    let mut huge = bytes.clone();
    let ct_off = comp_table_offset(&huge);
    huge[ct_off + 6..ct_off + 10].copy_from_slice(&u32::MAX.to_le_bytes());
    assert!(!package_counts_fit(&huge));
}
