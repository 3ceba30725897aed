use loomgui_core::draw_order::{assign_sort_keys, ClipSlot};
use loomgui_core::tree::SceneTree;

/// Nodes in slots 0..n; `edges` are (parent, child) appended in order; slot 0 is the root.
fn tree_of(n: usize, edges: &[(usize, usize)]) -> SceneTree {
    let mut t = SceneTree::new();
    t.add_root();
    for _ in 1..n {
        t.add_node();
    }
    for &(p, c) in edges {
        t.append_child(p, c).unwrap();
    }
    t
}

#[test]
fn keys_monotonic() {
    let t = tree_of(3, &[(0, 1), (0, 2)]);
    let r = assign_sort_keys(&t, &vec![false, false, false]);
    assert!(r.keys[0].0 < r.keys[1].0);
    assert!(r.keys[1].0 < r.keys[2].0);
    assert_eq!(r.keys[0].0, 0);
    assert_eq!(r.keys[1].0, 1);
    assert_eq!(r.keys[2].0, 2);
}

#[test]
fn no_clip_keeps_mask_zero() {
    let t = tree_of(3, &[(0, 1), (0, 2)]);
    let r = assign_sort_keys(&t, &vec![false, false, false]);
    for k in &r.keys {
        assert_eq!(k.1, 0, "无 clip 应保持 mask=0");
    }
    assert!(r.clips.is_empty());
}

#[test]
fn clip_node_opens_new_mask_layer() {
    let t = tree_of(2, &[(0, 1)]);
    let r = assign_sort_keys(&t, &vec![true, false]);
    assert_eq!(r.keys[0].1, 1, "clip root 开层级 1");
    assert_eq!(r.keys[1].1, 1, "child 继承父层级");
    assert_eq!(r.clips, vec![ClipSlot { context_id: 1, node: 0, outer: 0 }]);
}

#[test]
fn nested_clip_opens_distinct_layers() {
    let t = tree_of(3, &[(0, 1), (1, 2)]);
    let r = assign_sort_keys(&t, &vec![true, true, false]);
    assert_eq!(r.keys[0].1, 1);
    assert_eq!(r.keys[1].1, 2);
    assert_eq!(r.keys[2].1, 2);
    assert_eq!(
        r.clips,
        vec![ClipSlot { context_id: 1, node: 0, outer: 0 }, ClipSlot { context_id: 2, node: 1, outer: 1 }]
    );
}

#[test]
fn depth_first_order_and_sibling_contexts() {
    // 0 -> [1 (clip) -> [3], 2]; 2 comes after the whole subtree of 1.
    let t = tree_of(4, &[(0, 1), (0, 2), (1, 3)]);
    let r = assign_sort_keys(&t, &vec![false, true, false, false]);
    assert_eq!(r.keys, vec![(0, 0), (1, 2), (3, 0), (2, 2)]);
    assert_eq!(r.clips, vec![ClipSlot { context_id: 2, node: 1, outer: 0 }]);
}

#[test]
fn several_roots_in_order_and_unreached_slots() {
    let mut t = SceneTree::new();
    let a = t.add_root();
    let loose = t.add_node();
    let b = t.add_root();
    let r = assign_sort_keys(&t, &vec![true, true, true]);
    assert_eq!(r.keys[a], (0, 1));
    assert_eq!(r.keys[b], (1, 2));
    assert_eq!(r.keys[loose], (0, 0));
    assert_eq!(
        r.clips,
        vec![ClipSlot { context_id: 1, node: a, outer: 0 }, ClipSlot { context_id: 2, node: b, outer: 0 }]
    );
}

#[test]
fn removed_node_is_not_visited() {
    let mut t = tree_of(3, &[(0, 1), (0, 2)]);
    t.remove_node(1);
    let r = assign_sort_keys(&t, &vec![false, false, false]);
    assert_eq!(r.keys[0], (0, 0));
    assert_eq!(r.keys[2], (1, 0));
}
