use loomgui_core::tree::SceneTree;

fn children(t: &SceneTree, i: usize) -> Vec<usize> {
    t.slots[i].as_ref().unwrap().children.clone()
}

fn parent(t: &SceneTree, i: usize) -> Option<usize> {
    t.slots[i].as_ref().unwrap().parent
}

/// root -> child -> grandchild
fn build_3level() -> (SceneTree, usize, usize, usize) {
    let mut t = SceneTree::new();
    let root = t.add_root();
    let child = t.add_node();
    let grand = t.add_node();
    t.append_child(root, child).unwrap();
    t.append_child(child, grand).unwrap();
    (t, root, child, grand)
}

#[test]
fn create_root_pushes_to_roots() {
    let mut t = SceneTree::new();
    let r = t.add_root();
    assert_eq!(t.roots, vec![r]);
}

#[test]
fn append_child_links_parent_and_child() {
    let mut t = SceneTree::new();
    let root = t.add_root();
    let child = t.add_node();
    t.append_child(root, child).unwrap();
    assert_eq!(children(&t, root), vec![child]);
    assert_eq!(parent(&t, child), Some(root));
}

#[test]
fn append_child_idempotent_same_pair() {
    let mut t = SceneTree::new();
    let root = t.add_root();
    let child = t.add_node();
    t.append_child(root, child).unwrap();
    t.append_child(root, child).unwrap();
    assert_eq!(children(&t, root).len(), 1);
}

#[test]
fn append_child_rejects_child_with_existing_parent() {
    let mut t = SceneTree::new();
    let a = t.add_root();
    let b = t.add_node();
    let c = t.add_node();
    t.append_child(a, c).unwrap();
    let err = t.append_child(b, c);
    assert!(err.is_err(), "child 已有父 → Err");
    assert_eq!(err.unwrap_err(), "child already has parent（先 remove_child 摘除旧父）");
    assert_eq!(parent(&t, c), Some(a));
    assert!(children(&t, b).is_empty());
}

#[test]
fn append_child_to_dead_parent_is_refused() {
    let mut t = SceneTree::new();
    let a = t.add_node();
    assert_eq!(t.append_child(7, a).unwrap_err(), "parent not live");
    assert_eq!(parent(&t, a), None);
}

#[test]
fn insert_before_inserts_in_middle() {
    let mut t = SceneTree::new();
    let root = t.add_root();
    let a = t.add_node();
    let b = t.add_node();
    let c = t.add_node();
    t.append_child(root, a).unwrap();
    t.append_child(root, b).unwrap();
    t.insert_before(root, c, Some(a)).unwrap();
    assert_eq!(children(&t, root), vec![c, a, b]);
    assert_eq!(parent(&t, c), Some(root));
}

#[test]
fn insert_before_second_position() {
    let mut t = SceneTree::new();
    let root = t.add_root();
    let a = t.add_node();
    let b = t.add_node();
    let c = t.add_node();
    t.append_child(root, a).unwrap();
    t.append_child(root, b).unwrap();
    t.insert_before(root, c, Some(b)).unwrap();
    assert_eq!(children(&t, root), vec![a, c, b]);
}

#[test]
fn insert_before_invalid_ref_appends() {
    let mut t = SceneTree::new();
    let root = t.add_root();
    let a = t.add_node();
    let b = t.add_node();
    t.append_child(root, a).unwrap();
    t.insert_before(root, b, None).unwrap();
    assert_eq!(children(&t, root), vec![a, b]);
}

#[test]
fn insert_before_missing_ref_returns_err() {
    let mut t = SceneTree::new();
    let root = t.add_root();
    let a = t.add_node();
    t.append_child(root, a).unwrap();
    let orphan = t.add_node();
    let new_child = t.add_node();
    let err = t.insert_before(root, new_child, Some(orphan));
    assert!(err.is_err(), "ref 不在 parent.children → Err");
    assert_eq!(err.unwrap_err(), "ref_id not in parent.children");
    assert_eq!(children(&t, root), vec![a]);
    assert_eq!(parent(&t, new_child), None);
}

#[test]
fn insert_before_rejects_child_with_parent() {
    let mut t = SceneTree::new();
    let root = t.add_root();
    let a = t.add_node();
    let b = t.add_node();
    t.append_child(root, a).unwrap();
    t.append_child(root, b).unwrap();
    let err = t.insert_before(root, b, Some(a));
    assert_eq!(err.unwrap_err(), "child already has parent（先 remove_child 摘除旧父）");
    assert_eq!(children(&t, root), vec![a, b]);
}

#[test]
fn dynamic_remove_child_detaches_but_keeps_node() {
    let mut t = SceneTree::new();
    let root = t.add_root();
    let child = t.add_node();
    t.append_child(root, child).unwrap();
    t.remove_child(root, child).unwrap();
    assert!(children(&t, root).is_empty());
    assert!(parent(&t, child).is_none(), "child 变孤立");
    assert!(t.is_live(child), "child 仍存活（未删 slotmap 槽）");
}

#[test]
fn remove_child_then_append_elsewhere() {
    let mut t = SceneTree::new();
    let a = t.add_root();
    let b = t.add_root();
    let c = t.add_node();
    t.append_child(a, c).unwrap();
    t.remove_child(a, c).unwrap();
    t.append_child(b, c).unwrap();
    assert_eq!(parent(&t, c), Some(b));
    assert_eq!(children(&t, b), vec![c]);
    assert!(children(&t, a).is_empty());
}

#[test]
fn remove_child_of_dead_parent_is_refused() {
    let mut t = SceneTree::new();
    let c = t.add_node();
    assert_eq!(t.remove_child(3, c).unwrap_err(), "parent not live");
}

#[test]
fn append_child_builds_multi_level_tree() {
    let mut t = SceneTree::new();
    let root = t.add_root();
    let c1 = t.add_node();
    let c2 = t.add_node();
    t.append_child(root, c1).unwrap();
    t.append_child(c1, c2).unwrap();
    assert_eq!(children(&t, root), vec![c1]);
    assert_eq!(children(&t, c1), vec![c2]);
    assert_eq!(parent(&t, c2), Some(c1));
}

#[test]
fn remove_node_recurses_children() {
    let (mut t, root, child, grand) = build_3level();
    t.remove_node(root);
    assert!(!t.is_live(root), "root 删");
    assert!(!t.is_live(child), "子递归删");
    assert!(!t.is_live(grand), "孙递归删");
    assert!(t.roots.is_empty(), "roots 摘除");
}

#[test]
fn remove_node_detaches_from_parent() {
    let (mut t, root, child, grand) = build_3level();
    t.remove_node(child);
    assert!(!t.is_live(child));
    assert!(!t.is_live(grand));
    assert!(t.is_live(root));
    assert!(!children(&t, root).contains(&child));
    assert_eq!(t.roots, vec![root]);
}

#[test]
fn remove_node_from_middle_clears_subtree_and_keeps_siblings() {
    let mut t = SceneTree::new();
    let root = t.add_root();
    let a = t.add_node();
    let b = t.add_node();
    let c = t.add_node();
    let bchild = t.add_node();
    t.append_child(root, a).unwrap();
    t.append_child(root, b).unwrap();
    t.append_child(root, c).unwrap();
    t.append_child(b, bchild).unwrap();
    t.remove_node(b);
    assert!(t.is_live(a), "兄弟 a 保留");
    assert!(t.is_live(c), "兄弟 c 保留");
    assert!(!t.is_live(b), "b 删");
    assert!(!t.is_live(bchild), "bchild 递归删");
    let new_kids = children(&t, root);
    assert!(!new_kids.contains(&b), "b 从父摘除");
    assert!(new_kids.contains(&a) && new_kids.contains(&c), "a/c 保留在父 children");
    assert_eq!(new_kids.len(), 2, "父 children 从 3 → 2");
    assert_eq!(new_kids, vec![a, c]);
}

#[test]
fn remove_node_already_removed_is_noop() {
    let (mut t, root, child, _grand) = build_3level();
    t.remove_node(child);
    t.remove_node(child);
    assert!(!t.is_live(child));
    assert!(t.is_live(root), "root 仍在");
}

#[test]
fn remove_node_out_of_range_is_noop() {
    let (mut t, root, child, grand) = build_3level();
    t.remove_node(99);
    assert_eq!(t.slots.len(), 3);
    assert!(t.is_live(root) && t.is_live(child) && t.is_live(grand));
    assert_eq!(children(&t, root), vec![child]);
}

#[test]
fn add_node_takes_next_slot() {
    let mut t = SceneTree::new();
    assert_eq!(t.add_node(), 0);
    assert_eq!(t.add_root(), 1);
    assert_eq!(t.add_node(), 2);
    assert_eq!(t.roots, vec![1]);
    assert_eq!(parent(&t, 0), None);
    assert!(children(&t, 2).is_empty());
}

fn links_of(t: &SceneTree) -> Vec<Option<(Option<usize>, Vec<usize>)>> {
    t.slots.iter().map(|s| s.as_ref().map(|l| (l.parent, l.children.clone()))).collect()
}

#[test]
fn remove_child_undoes_append_and_insert() {
    let mut t = SceneTree::new();
    let root = t.add_root();
    let a = t.add_node();
    let b = t.add_node();
    t.append_child(root, a).unwrap();
    let before = links_of(&t);
    t.append_child(root, b).unwrap();
    t.remove_child(root, b).unwrap();
    assert_eq!(links_of(&t), before);
    t.insert_before(root, b, Some(a)).unwrap();
    assert_eq!(children(&t, root), vec![b, a]);
    t.remove_child(root, b).unwrap();
    assert_eq!(links_of(&t), before);
}
