use loomgui_core::merge::{anchor_id, join_indices, merge_plan};

fn quad_indices() -> Vec<u32> {
    vec![0, 1, 2, 0, 2, 3]
}

#[test]
fn two_same_drawstate_merge_into_one() {
    // A(tex1, key 0, id 5) B(tex1, key 1, id 3)
    let plan = merge_plan(&vec![0, 1], &vec![Some((1, 0, 0)), Some((1, 0, 0))]);
    assert_eq!(plan.order, vec![0, 1]);
    assert_eq!(plan.runs, vec![(0, 2)], "2 同 DrawState → 1 merged");
    let idx = join_indices(&vec![quad_indices(), quad_indices()], &vec![4, 4]);
    assert_eq!(idx.len(), 12, "2×6 indices");
    assert_eq!(anchor_id(&vec![5, 3]), 3, "锚 = batch 内最小 node_id");
}

#[test]
fn index_offset_correct_for_three_nodes() {
    let plan = merge_plan(&vec![0, 1, 2], &vec![Some((1, 0, 0)); 3]);
    assert_eq!(plan.runs, vec![(0, 3)]);
    let idx = join_indices(&vec![quad_indices(), quad_indices(), quad_indices()], &vec![4, 4, 4]);
    assert_eq!(idx, vec![0u32, 1, 2, 0, 2, 3, 4, 5, 6, 4, 6, 7, 8, 9, 10, 8, 10, 11]);
}

#[test]
fn different_drawstate_stay_separate() {
    let plan = merge_plan(&vec![0, 1], &vec![Some((1, 0, 0)), Some((2, 0, 0))]);
    assert_eq!(plan.runs.len(), 2, "不同 texture → 各自独立");
}

#[test]
fn non_pure_translation_node_does_not_merge() {
    // the rotated mesh has no merge key
    let plan = merge_plan(&vec![0, 1], &vec![None, Some((1, 0, 0))]);
    assert_eq!(plan.runs.len(), 2, "非纯平移节点 break merge");
}

#[test]
fn text_node_stays_separate() {
    let plan = merge_plan(&vec![0, 1], &vec![Some((1, 0, 0)), None]);
    assert_eq!(plan.runs.len(), 2, "Text 不参与合并");
}

#[test]
fn merge_plan_follows_sort_keys() {
    // node 2 is drawn first, then 0, then 1; 0 and 1 merge, 2 does not merge with them
    let plan = merge_plan(&vec![5, 7, 1], &vec![Some((1, 0, 0)), Some((1, 0, 0)), Some((1, 0, 1))]);
    assert_eq!(plan.order, vec![2, 0, 1]);
    assert_eq!(plan.runs, vec![(0, 1), (1, 3)]);
}

#[test]
fn nodes_without_key_never_merge_with_each_other() {
    let plan = merge_plan(&vec![0, 1, 2], &vec![None, None, None]);
    assert_eq!(plan.runs, vec![(0, 1), (1, 2), (2, 3)]);
}

#[test]
fn join_indices_uneven_members() {
    let idx = join_indices(&vec![vec![0, 1, 2], vec![], vec![0, 2, 1]], &vec![3, 2, 3]);
    assert_eq!(idx, vec![0, 1, 2, 5, 7, 6]);
}
