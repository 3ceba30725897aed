use loomgui_core::input::{
    PointerKind, PointerRecord, PointerState, PointerStep, StepOutcome, EVT_CLICK, EVT_DOWN, EVT_MOVE,
    EVT_ROLL_OUT, EVT_ROLL_OVER, EVT_UP,
};
use loomgui_core::node::NodeKind;
use loomgui_core::scene::SceneNode;

fn node(parent: Option<usize>, kind: NodeKind) -> SceneNode {
    SceneNode {
        kind,
        classes: Vec::new(),
        id_attr: None,
        parent,
        hovered: false,
        active: false,
        disabled: false,
        focused: false,
    }
}

/// Root 0 (200x200) and button 1 (100x100 at the origin).
fn one_button_scene() -> Vec<SceneNode> {
    vec![node(None, NodeKind::Container), node(Some(0), NodeKind::Button)]
}

/// Root 0, button 1, and the button's text 2 covering its upper part.
fn button_with_text_child_scene() -> Vec<SceneNode> {
    vec![
        node(None, NodeKind::Container),
        node(Some(0), NodeKind::Button),
        node(Some(1), NodeKind::Text { content: "btn".to_string() }),
    ]
}

/// Root 0, parent 1, child 2.
fn nested_scene() -> Vec<SceneNode> {
    vec![node(None, NodeKind::Container), node(Some(0), NodeKind::Container), node(Some(1), NodeKind::Container)]
}

/// Root 0 with two siblings 1 and 2.
fn siblings_scene(kind: NodeKind) -> Vec<SceneNode> {
    vec![node(None, NodeKind::Container), node(Some(0), kind.clone()), node(Some(0), kind)]
}

/// One event as the caller measures it: kind, pointer, hit, and the distance tests.
#[derive(Clone, Copy)]
struct Ev {
    kind: PointerKind,
    touch_id: i32,
    hit: Option<usize>,
    within: bool,
    moved_beyond_cancel: bool,
    near_last_click: bool,
}

fn ev(kind: PointerKind, touch_id: i32, hit: Option<usize>) -> Ev {
    Ev { kind, touch_id, hit, within: true, moved_beyond_cancel: false, near_last_click: false }
}

/// One frame: every event through its slot, then the hovered and active flags.
fn frame(ps: &mut PointerState, nodes: &mut Vec<SceneNode>, evs: &[Ev]) -> (Vec<PointerRecord>, Vec<StepOutcome>) {
    let mut out = Vec::new();
    let mut outcomes = Vec::new();
    if evs.is_empty() {
        out = ps.idle(nodes);
    }
    for e in evs {
        let slot = match ps.slot_for(e.touch_id) {
            Some(i) => i,
            None => continue,
        };
        let step = PointerStep {
            kind: e.kind,
            button: 0,
            touch_id: e.touch_id,
            hit: e.hit,
            moved_beyond_cancel: e.moved_beyond_cancel,
            within_click_threshold: e.within,
            near_last_click: e.near_last_click,
        };
        let (recs, outcome) = ps.step(slot, step, nodes);
        out.extend(recs);
        outcomes.push(outcome);
    }
    ps.recompute_hovered(nodes);
    ps.recompute_active(nodes);
    (out, outcomes)
}

#[test]
fn hover_text_child_sets_ancestor_btn_hovered() {
    let mut s = button_with_text_child_scene();
    let mut ps = PointerState::new();
    frame(&mut ps, &mut s, &[ev(PointerKind::Move, -1, Some(2))]);
    assert!(s[2].hovered);
    assert!(s[1].hovered);
    assert!(s[0].hovered);
}

#[test]
fn down_text_child_sets_ancestor_btn_active() {
    let mut s = button_with_text_child_scene();
    let mut ps = PointerState::new();
    frame(&mut ps, &mut s, &[ev(PointerKind::Down, -1, Some(2))]);
    assert!(s[2].active);
    assert!(s[1].active);
    frame(&mut ps, &mut s, &[ev(PointerKind::Up, -1, Some(2))]);
    assert!(!s[1].active);
    assert!(!s[2].active);
}

#[test]
fn down_up_same_node_within_threshold_emits_click() {
    let mut s = one_button_scene();
    let mut ps = PointerState::new();
    let (out, _) = frame(
        &mut ps,
        &mut s,
        &[ev(PointerKind::Move, -1, Some(1)), ev(PointerKind::Down, -1, Some(1)), ev(PointerKind::Up, -1, Some(1))],
    );
    let types: Vec<u8> = out.iter().map(|e| e.event_type).collect();
    assert!(types.contains(&EVT_ROLL_OVER));
    assert!(types.contains(&EVT_DOWN));
    assert!(types.contains(&EVT_UP));
    assert!(types.contains(&EVT_CLICK));
    assert!(s[1].active == false);
    assert!(s[1].hovered);
}

#[test]
fn down_up_exceeds_threshold_no_click() {
    let mut s = one_button_scene();
    let mut ps = PointerState::new();
    let mut up = ev(PointerKind::Up, -1, Some(1));
    up.within = false;
    let (out, outcomes) = frame(&mut ps, &mut s, &[ev(PointerKind::Down, -1, Some(1)), up]);
    assert!(!out.iter().any(|e| e.event_type == EVT_CLICK));
    assert!(outcomes[1].click_window_reset);
}

#[test]
fn down_on_disabled_node_no_active_no_click() {
    let mut s = one_button_scene();
    s[1].disabled = true;
    let mut ps = PointerState::new();
    let (out, _) = frame(&mut ps, &mut s, &[ev(PointerKind::Down, -1, Some(1)), ev(PointerKind::Up, -1, Some(1))]);
    assert!(!s[1].active);
    assert!(!out.iter().any(|e| e.event_type == EVT_CLICK));
    assert!(!out.iter().any(|e| e.event_type == EVT_DOWN));
}

#[test]
fn down_held_on_disabled_no_active() {
    let mut s = one_button_scene();
    s[1].disabled = true;
    let mut ps = PointerState::new();
    frame(&mut ps, &mut s, &[ev(PointerKind::Down, -1, Some(1))]);
    assert!(!s[1].active);
    assert!(!s[0].active);
}

#[test]
fn down_held_on_disabled_via_text_child_no_active() {
    let mut s = button_with_text_child_scene();
    s[1].disabled = true;
    let mut ps = PointerState::new();
    frame(&mut ps, &mut s, &[ev(PointerKind::Down, -1, Some(2))]);
    assert!(!s[1].active);
    assert!(s[2].active);
    assert!(!s[0].active);
}

#[test]
fn rollover_emitted_on_enter_rollout_on_leave() {
    let mut s = one_button_scene();
    let mut ps = PointerState::new();
    let (out1, _) = frame(&mut ps, &mut s, &[ev(PointerKind::Move, -1, Some(1))]);
    assert!(out1.iter().any(|e| e.event_type == EVT_ROLL_OVER && e.node_id == 1));
    let (out2, _) = frame(&mut ps, &mut s, &[ev(PointerKind::Move, -1, Some(0))]);
    assert!(out2.iter().any(|e| e.event_type == EVT_ROLL_OUT && e.node_id == 1));
}

#[test]
fn hover_diff_no_move_event_still_runs() {
    let mut s = one_button_scene();
    let mut ps = PointerState::new();
    frame(&mut ps, &mut s, &[ev(PointerKind::Move, -1, Some(1))]);
    assert!(s[1].hovered);
    let (out, _) = frame(&mut ps, &mut s, &[]);
    assert!(!out.iter().any(|e| e.event_type == EVT_ROLL_OUT));
    assert!(s[1].hovered);
}

#[test]
fn events_preserved_in_generation_order() {
    let mut s = one_button_scene();
    let mut ps = PointerState::new();
    let (out, _) = frame(&mut ps, &mut s, &[ev(PointerKind::Move, -1, Some(1)), ev(PointerKind::Down, -1, Some(1))]);
    let ro_idx = out.iter().position(|e| e.event_type == EVT_ROLL_OVER);
    let down_idx = out.iter().position(|e| e.event_type == EVT_DOWN);
    assert!(ro_idx.is_some() && down_idx.is_some());
    assert!(ro_idx.unwrap() < down_idx.unwrap());
}

#[test]
fn hover_into_child_no_rollout_parent() {
    let mut s = nested_scene();
    let mut ps = PointerState::new();
    frame(&mut ps, &mut s, &[ev(PointerKind::Move, -1, Some(1))]);
    let (out, _) = frame(&mut ps, &mut s, &[ev(PointerKind::Move, -1, Some(2))]);
    assert!(!out.iter().any(|e| e.event_type == EVT_ROLL_OUT));
    assert!(out.iter().any(|e| e.event_type == EVT_ROLL_OVER && e.node_id == 2));
}

#[test]
fn hover_between_siblings_old_chain_rollout() {
    let mut s = siblings_scene(NodeKind::Container);
    let mut ps = PointerState::new();
    frame(&mut ps, &mut s, &[ev(PointerKind::Move, -1, Some(1))]);
    let (out, _) = frame(&mut ps, &mut s, &[ev(PointerKind::Move, -1, Some(2))]);
    assert!(out.iter().any(|e| e.event_type == EVT_ROLL_OUT && e.node_id == 1));
    assert!(out.iter().any(|e| e.event_type == EVT_ROLL_OVER && e.node_id == 2));
    assert!(!out.iter().any(|e| e.node_id == 0));
}

#[test]
fn hover_chain_idempotent() {
    let mut s = nested_scene();
    let mut ps = PointerState::new();
    frame(&mut ps, &mut s, &[ev(PointerKind::Move, -1, Some(2))]);
    let (out, _) = frame(&mut ps, &mut s, &[ev(PointerKind::Move, -1, Some(2))]);
    assert!(out.iter().all(|e| e.event_type != EVT_ROLL_OVER && e.event_type != EVT_ROLL_OUT));
}

#[test]
fn hover_out_of_ui_rollout_whole_chain() {
    let mut s = nested_scene();
    let mut ps = PointerState::new();
    frame(&mut ps, &mut s, &[ev(PointerKind::Move, -1, Some(2))]);
    let (out, _) = frame(&mut ps, &mut s, &[ev(PointerKind::Move, -1, None)]);
    assert!(out.iter().any(|e| e.event_type == EVT_ROLL_OUT && e.node_id == 2));
    assert!(out.iter().any(|e| e.event_type == EVT_ROLL_OUT && e.node_id == 1));
    assert!(!out.iter().any(|e| e.event_type == EVT_ROLL_OVER));
}

#[test]
fn mouse_uses_slot0_touch_id_neg1() {
    let mut s = one_button_scene();
    let mut ps = PointerState::new();
    let (out, _) = frame(&mut ps, &mut s, &[ev(PointerKind::Down, -1, Some(1)), ev(PointerKind::Up, -1, Some(1))]);
    assert!(out.iter().any(|e| e.event_type == EVT_DOWN));
    assert!(out.iter().any(|e| e.event_type == EVT_CLICK));
    assert!(out.iter().all(|e| e.touch_id == -1));
    assert_eq!(ps.slot_for(-1), Some(0));
}

#[test]
fn two_touches_independent_down_up() {
    let mut s = siblings_scene(NodeKind::Container);
    let mut ps = PointerState::new();
    let (out, _) = frame(&mut ps, &mut s, &[ev(PointerKind::Down, 1, Some(1)), ev(PointerKind::Down, 2, Some(2))]);
    assert!(out.iter().any(|e| e.event_type == EVT_DOWN && e.node_id == 1 && e.touch_id == 1));
    assert!(out.iter().any(|e| e.event_type == EVT_DOWN && e.node_id == 2 && e.touch_id == 2));
}

#[test]
fn touch_alloc_fourth_dropped() {
    let mut s = vec![node(None, NodeKind::Container)];
    let mut ps = PointerState::new();
    let evs: Vec<Ev> = (1..=5i32).map(|tid| ev(PointerKind::Down, tid, Some(0))).collect();
    let (out, _) = frame(&mut ps, &mut s, &evs);
    let down_count = out.iter().filter(|e| e.event_type == EVT_DOWN).count();
    assert_eq!(down_count, 4);
}

#[test]
fn touch_move_no_monitor_no_event() {
    let mut s = one_button_scene();
    let mut ps = PointerState::new();
    frame(&mut ps, &mut s, &[ev(PointerKind::Move, 1, Some(1))]);
    let (out, _) = frame(&mut ps, &mut s, &[ev(PointerKind::Move, 1, Some(1))]);
    assert!(!out.iter().any(|e| e.event_type == EVT_MOVE));
}

#[test]
fn mouse_move_no_capture_no_event() {
    let mut s = one_button_scene();
    let mut ps = PointerState::new();
    frame(&mut ps, &mut s, &[ev(PointerKind::Move, -1, Some(1))]);
    let (out, _) = frame(&mut ps, &mut s, &[ev(PointerKind::Move, -1, Some(1))]);
    assert!(!out.iter().any(|e| e.event_type == EVT_MOVE));
}

#[test]
fn hover_global_merge_two_fingers() {
    let mut s = siblings_scene(NodeKind::Container);
    let mut ps = PointerState::new();
    frame(&mut ps, &mut s, &[ev(PointerKind::Move, 1, Some(1)), ev(PointerKind::Move, 2, Some(2))]);
    assert!(s[1].hovered);
    assert!(s[2].hovered);
}

#[test]
fn active_global_merge_two_fingers() {
    let mut s = siblings_scene(NodeKind::Button);
    let mut ps = PointerState::new();
    frame(&mut ps, &mut s, &[ev(PointerKind::Down, 1, Some(1)), ev(PointerKind::Down, 2, Some(2))]);
    assert!(s[1].active && s[2].active);
    frame(&mut ps, &mut s, &[ev(PointerKind::Up, 1, Some(1))]);
    assert!(!s[1].active);
    assert!(s[2].active);
}

#[test]
fn rollover_per_touch_independent() {
    let mut s = siblings_scene(NodeKind::Container);
    let mut ps = PointerState::new();
    let (out, _) = frame(&mut ps, &mut s, &[ev(PointerKind::Move, 1, Some(1)), ev(PointerKind::Move, 2, Some(2))]);
    assert!(out.iter().any(|e| e.event_type == EVT_ROLL_OVER && e.node_id == 1 && e.touch_id == 1));
    assert!(out.iter().any(|e| e.event_type == EVT_ROLL_OVER && e.node_id == 2 && e.touch_id == 2));
}

#[test]
fn is_pointer_on_ui_any_slot() {
    let mut s = one_button_scene();
    let mut ps = PointerState::new();
    frame(&mut ps, &mut s, &[ev(PointerKind::Move, -1, Some(0)), ev(PointerKind::Move, 1, Some(1))]);
    assert!(ps.is_pointer_on_ui(&vec![0]));
}

#[test]
fn move_with_monitor_dispatches_to_monitor() {
    let mut s = one_button_scene();
    let mut ps = PointerState::new();
    frame(&mut ps, &mut s, &[ev(PointerKind::Down, 1, Some(1))]);
    ps.add_touch_monitor(1, 1);
    let (out, _) = frame(&mut ps, &mut s, &[ev(PointerKind::Move, 1, Some(0))]);
    assert!(out.iter().any(|e| e.event_type == EVT_MOVE && e.node_id == 1 && e.touch_id == 1));
}

#[test]
fn capture_clears_on_up() {
    let mut s = one_button_scene();
    let mut ps = PointerState::new();
    frame(&mut ps, &mut s, &[ev(PointerKind::Down, 1, Some(1))]);
    ps.add_touch_monitor(1, 1);
    frame(&mut ps, &mut s, &[ev(PointerKind::Up, 1, Some(1))]);
    frame(&mut ps, &mut s, &[ev(PointerKind::Down, 2, Some(1))]);
    let (out, _) = frame(&mut ps, &mut s, &[ev(PointerKind::Move, 2, Some(1))]);
    assert!(!out.iter().any(|e| e.event_type == EVT_MOVE));
}

#[test]
fn up_hit_equals_monitor_no_double() {
    let mut s = one_button_scene();
    let mut ps = PointerState::new();
    frame(&mut ps, &mut s, &[ev(PointerKind::Down, 1, Some(1))]);
    ps.add_touch_monitor(1, 1);
    let (out, _) = frame(&mut ps, &mut s, &[ev(PointerKind::Up, 1, Some(1))]);
    let up_btn = out.iter().filter(|e| e.event_type == EVT_UP && e.node_id == 1).count();
    assert_eq!(up_btn, 1);
}

#[test]
fn remove_touch_monitor_stops_dispatch() {
    let mut s = one_button_scene();
    let mut ps = PointerState::new();
    frame(&mut ps, &mut s, &[ev(PointerKind::Down, 1, Some(1))]);
    ps.add_touch_monitor(1, 1);
    ps.remove_touch_monitor(1);
    let (out, _) = frame(&mut ps, &mut s, &[ev(PointerKind::Move, 1, Some(0))]);
    assert!(!out.iter().any(|e| e.event_type == EVT_MOVE));
}

#[test]
fn click_target_is_down_leaf_not_current_hit() {
    let mut s = one_button_scene();
    let mut ps = PointerState::new();
    let (out, _) = frame(&mut ps, &mut s, &[ev(PointerKind::Down, -1, Some(1)), ev(PointerKind::Up, -1, Some(0))]);
    assert!(out.iter().any(|e| e.event_type == EVT_CLICK && e.node_id == 1));
    assert!(out.iter().any(|e| e.event_type == EVT_UP && e.node_id == 0));
    assert!(!out.iter().any(|e| e.event_type == EVT_CLICK && e.node_id == 0));
}

#[test]
fn down_leaf_destroyed_fallback_to_ancestor() {
    let mut s1 = vec![node(None, NodeKind::Container), node(Some(0), NodeKind::Container)];
    let mut ps = PointerState::new();
    frame(&mut ps, &mut s1, &[ev(PointerKind::Down, -1, Some(1))]);
    let mut s2 = vec![node(None, NodeKind::Container)];
    let (out, _) = frame(&mut ps, &mut s2, &[ev(PointerKind::Up, -1, Some(0))]);
    assert!(out.iter().any(|e| e.event_type == EVT_CLICK && e.node_id == 0));
}

fn click_counts(ps: &mut PointerState, s: &mut Vec<SceneNode>, near: bool) -> u8 {
    frame(ps, s, &[ev(PointerKind::Down, -1, Some(1))]);
    let mut up = ev(PointerKind::Up, -1, Some(1));
    up.near_last_click = near;
    let (out, outcomes) = frame(ps, s, &[up]);
    assert!(outcomes[0].clicked);
    out.iter().find(|e| e.event_type == EVT_CLICK).map(|e| e.click_count).unwrap()
}

#[test]
fn double_click_within_window_clickcount_2() {
    let mut s = one_button_scene();
    let mut ps = PointerState::new();
    assert_eq!(click_counts(&mut ps, &mut s, false), 1);
    assert_eq!(click_counts(&mut ps, &mut s, true), 2);
}

#[test]
fn double_click_resets_after_window() {
    let mut s = one_button_scene();
    let mut ps = PointerState::new();
    assert_eq!(click_counts(&mut ps, &mut s, false), 1);
    assert_eq!(click_counts(&mut ps, &mut s, false), 1);
}

#[test]
fn clickcount_cycle_1_2_1() {
    let mut s = one_button_scene();
    let mut ps = PointerState::new();
    let counts = vec![
        click_counts(&mut ps, &mut s, false),
        click_counts(&mut ps, &mut s, true),
        click_counts(&mut ps, &mut s, true),
    ];
    assert_eq!(counts, vec![1, 2, 1]);
}

#[test]
fn move_exceeds_50_cancels_click() {
    let mut s = one_button_scene();
    let mut ps = PointerState::new();
    frame(&mut ps, &mut s, &[ev(PointerKind::Down, -1, Some(1))]);
    let mut mv = ev(PointerKind::Move, -1, Some(1));
    mv.moved_beyond_cancel = true;
    frame(&mut ps, &mut s, &[mv]);
    let (out, outcomes) = frame(&mut ps, &mut s, &[ev(PointerKind::Up, -1, Some(1))]);
    assert!(!out.iter().any(|e| e.event_type == EVT_CLICK));
    assert!(out.iter().any(|e| e.event_type == EVT_UP));
    assert!(outcomes[0].click_window_reset);
}

#[test]
fn touch_slot_freed_after_up_and_reused() {
    let mut s = one_button_scene();
    let mut ps = PointerState::new();
    assert_eq!(ps.slot_for(7), Some(1));
    assert_eq!(ps.slot_for(7), Some(1));
    assert_eq!(ps.slot_for(8), Some(2));
    frame(&mut ps, &mut s, &[ev(PointerKind::Up, 7, Some(1))]);
    assert_eq!(ps.slot(1).touch_id, -1);
    assert_eq!(ps.slot_for(9), Some(1));
}

#[test]
fn monitor_up_goes_to_monitor_other_than_hit() {
    let mut s = one_button_scene();
    let mut ps = PointerState::new();
    frame(&mut ps, &mut s, &[ev(PointerKind::Down, 1, Some(1))]);
    ps.add_touch_monitor(1, 0);
    ps.add_touch_monitor(1, 0);
    let (out, _) = frame(&mut ps, &mut s, &[ev(PointerKind::Up, 1, Some(1))]);
    let ups: Vec<u32> = out.iter().filter(|e| e.event_type == EVT_UP).map(|e| e.node_id).collect();
    assert_eq!(ups, vec![1, 0]);
}

#[test]
fn pointer_off_ui_when_only_root_hit() {
    let mut s = one_button_scene();
    let mut ps = PointerState::new();
    assert!(!ps.is_pointer_on_ui(&vec![0]));
    frame(&mut ps, &mut s, &[ev(PointerKind::Move, -1, Some(0))]);
    assert!(!ps.is_pointer_on_ui(&vec![0]));
    assert!(ps.is_pointer_on_ui(&vec![]));
}
