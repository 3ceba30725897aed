use loomgui_core::hit::{effective_draw_order, hit_scrollbar_grip, hit_test, HitTarget};
use loomgui_core::tree::SceneTree;

/// root(0) 200x200 at (0,0) with children a(1) at (0,0,100,100) and b(2) at (50,50,100,100).
fn overlap_tree() -> SceneTree {
    let mut t = SceneTree::new();
    let root = t.add_root();
    let a = t.add_node();
    let b = t.add_node();
    t.append_child(root, a).unwrap();
    t.append_child(root, b).unwrap();
    t
}

/// Whether a point lies in an axis-aligned box (edges included).
fn inside(p: (f32, f32), r: (f32, f32, f32, f32)) -> bool {
    p.0 >= r.0 && p.0 <= r.0 + r.2 && p.1 >= r.1 && p.1 <= r.1 + r.3
}

/// Per-node box tests of the overlap tree for a point, every node touchable.
fn overlap_self_hits(p: (f32, f32)) -> Vec<bool> {
    vec![
        inside(p, (0.0, 0.0, 200.0, 200.0)),
        inside(p, (0.0, 0.0, 100.0, 100.0)),
        inside(p, (50.0, 50.0, 100.0, 100.0)),
    ]
}

#[test]
fn hit_test_returns_none_on_empty_scene() {
    let t = SceneTree::new();
    assert_eq!(hit_test(&t, None, &vec![], &vec![], &vec![]), None);
}

#[test]
fn hit_test_hits_topmost_child() {
    let t = overlap_tree();
    let hits = overlap_self_hits((75.0, 75.0));
    assert_eq!(hit_test(&t, None, &vec![true; 3], &hits, &vec![0; 3]), Some(HitTarget::Node(2)));
}

#[test]
fn hit_test_hits_only_child_when_no_overlap() {
    let t = overlap_tree();
    let hits = overlap_self_hits((10.0, 10.0));
    assert_eq!(hit_test(&t, None, &vec![true; 3], &hits, &vec![0; 3]), Some(HitTarget::Node(1)));
}

#[test]
fn hit_test_skips_pointer_events_none_but_tests_children() {
    let t = overlap_tree();
    // root not touchable
    let mut hits = overlap_self_hits((10.0, 10.0));
    hits[0] = false;
    assert_eq!(hit_test(&t, None, &vec![true; 3], &hits, &vec![0; 3]), Some(HitTarget::Node(1)));
    let mut hits = overlap_self_hits((160.0, 160.0));
    hits[0] = false;
    assert_eq!(hit_test(&t, None, &vec![true; 3], &hits, &vec![0; 3]), None);
}

#[test]
fn hit_test_clip_rect_excludes_subtree() {
    let t = overlap_tree();
    // root clips to (0,0,80,80)
    let p = (90.0, 90.0);
    let clip = vec![inside(p, (0.0, 0.0, 80.0, 80.0)), true, true];
    assert_eq!(hit_test(&t, None, &clip, &overlap_self_hits(p), &vec![0; 3]), None);
    let p = (70.0, 70.0);
    let clip = vec![inside(p, (0.0, 0.0, 80.0, 80.0)), true, true];
    assert_eq!(hit_test(&t, None, &clip, &overlap_self_hits(p), &vec![0; 3]), Some(HitTarget::Node(2)));
}

#[test]
fn hit_test_respects_order() {
    let t = overlap_tree();
    let hits = overlap_self_hits((75.0, 75.0));
    assert_eq!(hit_test(&t, None, &vec![true; 3], &hits, &vec![0, 2, 0]), Some(HitTarget::Node(1)));
}

#[test]
fn hit_test_disabled_node_still_target() {
    // disabled plays no part in hit testing
    let t = overlap_tree();
    let hits = overlap_self_hits((75.0, 75.0));
    assert_eq!(hit_test(&t, None, &vec![true; 3], &hits, &vec![0; 3]), Some(HitTarget::Node(2)));
}

#[test]
fn hit_test_returns_sentinel_for_thumb() {
    let t = overlap_tree();
    let grip = hit_scrollbar_grip(&vec![true, false, false], &vec![false, false, false]);
    let hits = overlap_self_hits((96.0, 25.0));
    assert_eq!(
        hit_test(&t, grip, &vec![true; 3], &hits, &vec![0; 3]),
        Some(HitTarget::Grip { container: 0, axis: 0 })
    );
}

#[test]
fn hit_scrollbar_grip_returns_container() {
    let result = hit_scrollbar_grip(&vec![true, false, false], &vec![false, false, false]);
    assert!(result.is_some(), "thumb 内一点应命中");
    let (container, axis) = result.unwrap();
    assert_eq!(container, 0, "返容器 NodeId(0)");
    assert_eq!(axis, 0, "垂直 thumb axis=0");
}

#[test]
fn hit_scrollbar_grip_returns_none_outside_thumb() {
    assert!(hit_scrollbar_grip(&vec![false, false, false], &vec![false, false, false]).is_none(), "非 thumb 区 → None");
}

#[test]
fn hit_scrollbar_grip_vertical_before_horizontal_and_first_slot() {
    assert_eq!(hit_scrollbar_grip(&vec![false, true], &vec![true, true]), Some((0, 1)));
    assert_eq!(hit_scrollbar_grip(&vec![false, true], &vec![false, true]), Some((1, 0)));
}

#[test]
fn effective_draw_order_last_child_first_then_order() {
    let mut t = SceneTree::new();
    let root = t.add_root();
    let kids: Vec<usize> = (0..4).map(|_| t.add_node()).collect();
    for &k in &kids {
        t.append_child(root, k).unwrap();
    }
    // all order 0: reversed children
    assert_eq!(effective_draw_order(&t, &vec![0; 5], root), vec![4, 3, 2, 1]);
    // slot 2 order 5 first; slots 1 and 3 order -1 last, later sibling first
    assert_eq!(effective_draw_order(&t, &vec![0, -1, 5, -1, 0], root), vec![2, 4, 3, 1]);
}

#[test]
fn hit_test_later_root_is_on_top() {
    let mut t = SceneTree::new();
    t.add_root();
    t.add_root();
    assert_eq!(hit_test(&t, None, &vec![true, true], &vec![true, true], &vec![0, 0]), Some(HitTarget::Node(1)));
}

#[test]
fn hit_scrollbar_grip_no_scroll_no_thumb() {
    // no scroll container: no node has a thumb under the point
    assert!(hit_scrollbar_grip(&vec![false; 3], &vec![false; 3]).is_none(), "无 scroll 容器 → None");
}
