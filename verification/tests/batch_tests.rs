use loomgui_core::batch::{reorder_for_batching, reorder_unit};

fn no_overlaps(n: usize) -> Vec<Vec<bool>> {
    vec![vec![false; n]; n]
}

#[test]
fn reorder_unit_same_drawstate_disjoint_gathers() {
    let ds = vec![(1, 0), (2, 0), (1, 0)];
    let mut unit = vec![0usize, 1, 2];
    reorder_unit(&mut unit, &ds, &no_overlaps(3));
    assert_eq!(unit, vec![0, 2, 1]);
}

#[test]
fn reorder_unit_overlapping_keeps_order() {
    let ds = vec![(1, 0), (2, 0), (1, 0)];
    let mut ov = no_overlaps(3);
    ov[0][2] = true;
    ov[2][0] = true;
    let mut unit = vec![0usize, 1, 2];
    reorder_unit(&mut unit, &ds, &ov);
    assert_eq!(unit, vec![0, 2, 1]);
}

#[test]
fn reorder_unit_does_not_pass_overlapping_node() {
    // C (tex 1) overlaps B (tex 2): it cannot pass B to join A.
    let ds = vec![(1, 0), (2, 0), (1, 0)];
    let mut ov = no_overlaps(3);
    ov[2][1] = true;
    ov[1][2] = true;
    let mut unit = vec![0usize, 1, 2];
    reorder_unit(&mut unit, &ds, &ov);
    assert_eq!(unit, vec![0, 1, 2]);
}

#[test]
fn reorder_unit_joins_earliest_run() {
    // A1 B2 C1 D2: D joins after B's run once C has moved next to A.
    let ds = vec![(1, 0), (2, 0), (1, 0), (2, 0)];
    let mut unit = vec![0usize, 1, 2, 3];
    reorder_unit(&mut unit, &ds, &no_overlaps(4));
    assert_eq!(unit, vec![0, 2, 1, 3]);
}

#[test]
fn reorder_splits_at_text_break() {
    // root (unchanged), A (mesh tex 1), text, B (mesh tex 1), all disjoint.
    let keys = vec![0, 1, 2, 3];
    let mergeable = vec![false, true, false, true];
    let masks = vec![0, 0, 0, 0];
    let ds = vec![(0, 0), (1, 0), (0, 0), (1, 0)];
    let new_keys = reorder_for_batching(&keys, &mergeable, &masks, &ds, &no_overlaps(4));
    assert!(new_keys[1] < new_keys[2]);
    assert!(new_keys[2] < new_keys[3]);
}

#[test]
fn reorder_splits_at_mask_context_boundary() {
    let keys = vec![0, 1, 2];
    let mergeable = vec![true, true, true];
    let masks = vec![0, 1, 0];
    let ds = vec![(1, 0), (1, 1), (1, 0)];
    let new_keys = reorder_for_batching(&keys, &mergeable, &masks, &ds, &no_overlaps(3));
    assert!(new_keys[1] < new_keys[2]);
    assert_eq!(new_keys, vec![0, 1, 2]);
}

#[test]
fn reorder_for_batching_sorts_by_key_then_gathers() {
    // Keys put node 2 first; nodes 2, 0, 1 form one unit (tex 1, 2, 1 in that order).
    let keys = vec![5, 9, 1];
    let mergeable = vec![true, true, true];
    let masks = vec![0, 0, 0];
    let ds = vec![(2, 0), (1, 0), (1, 0)];
    let new_keys = reorder_for_batching(&keys, &mergeable, &masks, &ds, &no_overlaps(3));
    // key order 2 (tex 1), 0 (tex 2), 1 (tex 1): node 1 joins node 2.
    assert_eq!(new_keys, vec![2, 1, 0]);
}

#[test]
fn reorder_for_batching_equal_keys_keep_index_order() {
    let keys = vec![3, 3, 3];
    let mergeable = vec![false, false, false];
    let masks = vec![0, 0, 0];
    let ds = vec![(0, 0), (0, 0), (0, 0)];
    let new_keys = reorder_for_batching(&keys, &mergeable, &masks, &ds, &no_overlaps(3));
    assert_eq!(new_keys, vec![0, 1, 2]);
}
