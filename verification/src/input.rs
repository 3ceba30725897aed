//! Pointer input: the multi-pointer state machine (slot 0 the mouse, slots 1 to 4 touches).
//! Each event is mapped to a slot, then turned into records: down, up, move (to monitors),
//! click, roll-over and roll-out. Positions, times and hit testing live with the caller, which
//! hands in what they decide for each event.
use vstd::prelude::*;
use crate::scene::{SceneNode, scene_wf, scene_ranked, is_chain, ancestor_chain, lemma_chain_unique, anc, on_chain, lemma_anc_none_after, parent_link};

verus! {

/// Kind of a pointer event.
#[derive(Debug, Clone, Copy, PartialEq, Eq)]
pub enum PointerKind {
    Down,
    Up,
    Move,
}

pub const EVT_DOWN: u8 = 0;
pub const EVT_UP: u8 = 1;
pub const EVT_MOVE: u8 = 2;
pub const EVT_CLICK: u8 = 3;
pub const EVT_ROLL_OVER: u8 = 4;
pub const EVT_ROLL_OUT: u8 = 5;

/// Number of pointer slots: the mouse and four touches.
pub const SLOT_COUNT: usize = 5;

/// One output event: node, type, click count (clicks only) and pointer.
#[derive(Debug, Clone, Copy, PartialEq, Eq)]
pub struct PointerRecord {
    pub node_id: u32,
    pub event_type: u8,
    pub click_count: u8,
    pub touch_id: i32,
}

/// What the caller measured for one event of a slot.
#[derive(Debug, Clone, Copy, PartialEq, Eq)]
pub struct PointerStep {
    pub kind: PointerKind,
    pub button: u8,
    pub touch_id: i32,
    /// The node under the pointer.
    pub hit: Option<usize>,
    /// Move: the pointer is more than the cancel distance from where it went down, on some axis.
    pub moved_beyond_cancel: bool,
    /// Up: the pointer is within the click threshold of where it went down, on both axes.
    pub within_click_threshold: bool,
    /// Up: time and position are within the double-click window of the slot's last click.
    pub near_last_click: bool,
}

/// What a step did besides its records.
#[derive(Debug, Clone, Copy, PartialEq, Eq)]
pub struct StepOutcome {
    /// A click was emitted: the caller records its time and position as the slot's last click.
    pub clicked: bool,
    /// The up was no click: the caller clears the slot's last click time.
    pub click_window_reset: bool,
}

/// The state of one pointer slot.
#[derive(Debug, Clone)]
pub struct TouchSlot {
    /// -1 for the mouse and for a free touch slot; the finger id of a touch.
    pub touch_id: i32,
    pub is_down: bool,
    pub down_node: Option<usize>,
    pub last_hit: Option<usize>,
    pub last_hovered_chain: Vec<usize>,
    pub touch_monitors: Vec<usize>,
    /// On down: the hit node and its ancestors.
    pub down_targets: Vec<usize>,
    pub click_cancelled: bool,
    pub last_click_button: u8,
    /// 1 or 2: a click within the double-click window counts 2, the next one 1 again.
    pub click_count: u8,
}

pub struct SlotView {
    pub touch_id: i32,
    pub is_down: bool,
    pub down_node: Option<usize>,
    pub last_hit: Option<usize>,
    pub chain: Seq<usize>,
    pub monitors: Seq<usize>,
    pub down_targets: Seq<usize>,
    pub click_cancelled: bool,
    pub last_click_button: u8,
    pub click_count: u8,
}

impl View for TouchSlot {
    type V = SlotView;

    open spec fn view(&self) -> SlotView {
        SlotView {
            touch_id: self.touch_id,
            is_down: self.is_down,
            down_node: self.down_node,
            last_hit: self.last_hit,
            chain: self.last_hovered_chain@,
            monitors: self.touch_monitors@,
            down_targets: self.down_targets@,
            click_cancelled: self.click_cancelled,
            last_click_button: self.last_click_button,
            click_count: self.click_count,
        }
    }
}

pub open spec fn fresh_slot() -> SlotView {
    SlotView {
        touch_id: -1i32,
        is_down: false,
        down_node: None,
        last_hit: None,
        chain: Seq::empty(),
        monitors: Seq::empty(),
        down_targets: Seq::empty(),
        click_cancelled: false,
        last_click_button: 0,
        click_count: 1,
    }
}

// ---------------------------------------------------------------------------
// What a step does.
// ---------------------------------------------------------------------------

pub open spec fn rec(n: usize, ty: u8, count: u8, tid: i32) -> PointerRecord {
    PointerRecord { node_id: n as u32, event_type: ty, click_count: count, touch_id: tid }
}

/// The chain from `t` up to the root.
pub open spec fn chain_of(nodes: Seq<SceneNode>, t: Option<usize>) -> Seq<usize> {
    choose|c: Seq<usize>| is_chain(nodes, t, c)
}

/// Records of type `ty` for the nodes of `src` not in `other`, in the order of `src`.
pub open spec fn rolls(src: Seq<usize>, other: Seq<usize>, ty: u8, tid: i32) -> Seq<PointerRecord>
    decreases src.len(),
{
    if src.len() == 0 {
        Seq::empty()
    } else {
        let p = rolls(src.drop_last(), other, ty, tid);
        if other.contains(src.last()) {
            p
        } else {
            p.push(rec(src.last(), ty, 0, tid))
        }
    }
}

/// Hover diff of a slot: the chain of its last hit replaces the hovered chain; when they differ,
/// roll-outs for the nodes only in the old chain, then roll-overs for those only in the new one.
pub open spec fn hover_step(s: SlotView, nodes: Seq<SceneNode>) -> (SlotView, Seq<PointerRecord>) {
    let new = chain_of(nodes, s.last_hit);
    if new == s.chain {
        (s, Seq::empty())
    } else {
        (
            SlotView { chain: new, ..s },
            rolls(s.chain, new, EVT_ROLL_OUT, s.touch_id) + rolls(new, s.chain, EVT_ROLL_OVER, s.touch_id),
        )
    }
}

/// The first node of `c` that is in `targets`.
pub open spec fn first_in(c: Seq<usize>, targets: Seq<usize>) -> Option<usize>
    decreases c.len(),
{
    if c.len() == 0 {
        None
    } else if targets.contains(c[0]) {
        Some(c[0])
    } else {
        first_in(c.drop_first(), targets)
    }
}

/// The node a click goes to: none when cancelled or beyond the threshold; else the node that
/// went down if it is still in the scene, else the first node on the current hit's chain that
/// was among the down targets.
pub open spec fn click_target(s: SlotView, nodes: Seq<SceneNode>, hit: Option<usize>, within: bool) -> Option<usize> {
    if s.click_cancelled || !within {
        None
    } else if s.down_targets.len() > 0 && s.down_targets[0] < nodes.len() {
        Some(s.down_targets[0])
    } else {
        first_in(chain_of(nodes, hit), s.down_targets)
    }
}

/// The click count of this click: 2 after a first click of the same button within the window,
/// else 1 (a third quick click counts 1 again).
pub open spec fn bumped(s: SlotView, button: u8, near: bool) -> u8 {
    if near && s.last_click_button == button {
        if s.click_count == 2 {
            1
        } else {
            (s.click_count + 1) as u8
        }
    } else {
        1
    }
}

pub open spec fn enabled_hit(nodes: Seq<SceneNode>, hit: Option<usize>) -> bool {
    hit matches Some(n) && !nodes[n as int].disabled
}

/// Up records for the monitors other than the hit node.
pub open spec fn monitor_ups(ms: Seq<usize>, hit: Option<usize>, tid: i32) -> Seq<PointerRecord>
    decreases ms.len(),
{
    if ms.len() == 0 {
        Seq::empty()
    } else {
        let p = monitor_ups(ms.drop_last(), hit, tid);
        if hit == Some(ms.last()) {
            p
        } else {
            p.push(rec(ms.last(), EVT_UP, 0, tid))
        }
    }
}

pub open spec fn monitor_moves(ms: Seq<usize>, tid: i32) -> Seq<PointerRecord> {
    ms.map_values(|m: usize| rec(m, EVT_MOVE, 0, tid))
}

/// One event of slot `slot`: the new slot state, the records, and the outcome.
pub open spec fn spec_step(s: SlotView, slot: int, inp: PointerStep, nodes: Seq<SceneNode>) -> (SlotView, Seq<PointerRecord>, StepOutcome) {
    let s1 = SlotView { last_hit: inp.hit, ..s };
    let tid = inp.touch_id;
    match inp.kind {
        PointerKind::Move => {
            let s2 = if s1.is_down && inp.moved_beyond_cancel {
                SlotView { click_cancelled: true, ..s1 }
            } else {
                s1
            };
            let (s3, hr) = hover_step(s2, nodes);
            (s3, hr + monitor_moves(s3.monitors, tid), StepOutcome { clicked: false, click_window_reset: false })
        },
        PointerKind::Down => {
            let s2 = SlotView {
                is_down: true,
                down_node: inp.hit,
                down_targets: chain_of(nodes, inp.hit),
                click_cancelled: false,
                ..s1
            };
            let dr = if enabled_hit(nodes, inp.hit) {
                seq![rec(inp.hit.unwrap(), EVT_DOWN, 0, tid)]
            } else {
                Seq::empty()
            };
            let (s3, hr) = hover_step(s2, nodes);
            (s3, dr + hr, StepOutcome { clicked: false, click_window_reset: false })
        },
        PointerKind::Up => {
            let s2 = SlotView { is_down: false, ..s1 };
            let (s3, ucr, out) = if enabled_hit(nodes, inp.hit) {
                let ur = seq![rec(inp.hit.unwrap(), EVT_UP, 0, tid)];
                match click_target(s2, nodes, inp.hit, inp.within_click_threshold) {
                    Some(t) => if !nodes[t as int].disabled {
                        let count = bumped(s2, inp.button, inp.near_last_click);
                        (
                            SlotView { click_count: count, last_click_button: inp.button, ..s2 },
                            ur.push(rec(t, EVT_CLICK, count, tid)),
                            StepOutcome { clicked: true, click_window_reset: false },
                        )
                    } else {
                        (s2, ur, StepOutcome { clicked: false, click_window_reset: false })
                    },
                    None => (
                        SlotView { click_count: 1, ..s2 },
                        ur,
                        StepOutcome { clicked: false, click_window_reset: true },
                    ),
                }
            } else {
                (s2, Seq::empty(), StepOutcome { clicked: false, click_window_reset: false })
            };
            let mr = monitor_ups(s3.monitors, inp.hit, tid);
            let s4 = SlotView { monitors: Seq::empty(), down_targets: Seq::empty(), down_node: None, ..s3 };
            let (s5, hr) = hover_step(s4, nodes);
            let s6 = if slot > 0 {
                SlotView { touch_id: -1i32, ..s5 }
            } else {
                s5
            };
            (s6, ucr + mr + hr, out)
        },
    }
}


pub open spec fn with_hovered(n: SceneNode, h: bool) -> SceneNode {
    SceneNode { hovered: h, ..n }
}

pub open spec fn with_active(n: SceneNode, a: bool) -> SceneNode {
    SceneNode { active: a, ..n }
}

/// Node `n` is on the hit chain of an active slot.
pub open spec fn hovered_by(v: Seq<SlotView>, nodes: Seq<SceneNode>, n: int) -> bool {
    exists|i: int| 0 <= i < v.len() && slot_active(v[i], i) && #[trigger] on_chain(nodes, v[i].last_hit, n)
}

/// No node among the first `k + 1` of the chain from `e` is disabled.
pub open spec fn unblocked(nodes: Seq<SceneNode>, e: int, k: nat) -> bool {
    forall|j: nat| j <= k ==> match #[trigger] anc(nodes, e, j) {
        Some(a) => !nodes[a].disabled,
        None => true,
    }
}

/// Node `n` is on the chain from `t` before its first disabled node.
pub open spec fn active_reach(nodes: Seq<SceneNode>, t: Option<usize>, n: int) -> bool {
    t matches Some(e) && exists|k: nat| #[trigger] anc(nodes, e as int, k) == Some(n) && unblocked(nodes, e as int, k)
}

/// Node `n` is reached, before any disabled node, from where a pressed slot went down.
pub open spec fn active_by(v: Seq<SlotView>, nodes: Seq<SceneNode>, n: int) -> bool {
    exists|i: int| 0 <= i < v.len() && v[i].is_down && #[trigger] active_reach(nodes, v[i].down_node, n)
}

/// The slot's last hit is a node other than the first root.
pub open spec fn hits_ui(s: SlotView, roots: Seq<usize>) -> bool {
    s.last_hit matches Some(h) && (roots.len() == 0 || h != roots[0])
}

/// Some slot's last hit is a node other than the first root.
pub open spec fn on_ui(v: Seq<SlotView>, roots: Seq<usize>) -> bool {
    exists|i: int| 0 <= i < v.len() && #[trigger] hits_ui(v[i], roots)
}

/// The touch monitors after adding `node` for pointer `tid`: to the mouse slot or the touch slot
/// that holds `tid`, once; nothing when no slot holds it.
pub open spec fn spec_add_monitor(v: Seq<SlotView>, tid: i32, node: usize) -> Seq<SlotView> {
    let idx = if tid == -1 {
        Some(0int)
    } else {
        first_slot(v, tid, 1)
    };
    match idx {
        Some(i) => if v[i].monitors.contains(node) {
            v
        } else {
            v.update(i, SlotView { monitors: v[i].monitors.push(node), ..v[i] })
        },
        None => v,
    }
}

/// `ms` without the occurrences of `node`, in order.
pub open spec fn without(ms: Seq<usize>, node: usize) -> Seq<usize>
    decreases ms.len(),
{
    if ms.len() == 0 {
        ms
    } else if ms.last() == node {
        without(ms.drop_last(), node)
    } else {
        without(ms.drop_last(), node).push(ms.last())
    }
}

// ---------------------------------------------------------------------------
// Executable steps.
// ---------------------------------------------------------------------------

proof fn lemma_chain_of(nodes: Seq<SceneNode>, t: Option<usize>, c: Seq<usize>)
    requires
        is_chain(nodes, t, c),
    ensures
        chain_of(nodes, t) == c,
{
    lemma_chain_unique(nodes, t, chain_of(nodes, t), c);
}

proof fn lemma_anc_in_scene(nodes: Seq<SceneNode>, e: int, k: nat)
    ensures
        anc(nodes, e, k) matches Some(a) ==> 0 <= a < nodes.len(),
    decreases k,
{
    if k > 0 {
        lemma_anc_in_scene(nodes, e, (k - 1) as nat);
    }
}

fn contains_node(v: &Vec<usize>, x: usize) -> (r: bool)
    ensures
        r == v@.contains(x),
{
    let mut i: usize = 0;
    while i < v.len()
        invariant
            i <= v@.len(),
            forall|j: int| 0 <= j < i ==> v@[j] != x,
        decreases v@.len() - i,
    {
        if v[i] == x {
            return true;
        }
        i = i + 1;
    }
    false
}

fn same_nodes(a: &Vec<usize>, b: &Vec<usize>) -> (r: bool)
    ensures
        r == (a@ == b@),
{
    if a.len() != b.len() {
        return false;
    }
    let mut i: usize = 0;
    while i < a.len()
        invariant
            i <= a@.len(),
            a@.len() == b@.len(),
            forall|j: int| 0 <= j < i ==> a@[j] == b@[j],
        decreases a@.len() - i,
    {
        if a[i] != b[i] {
            return false;
        }
        i = i + 1;
    }
    assert(a@ =~= b@);
    true
}

/// Appends to `out` the records of `rolls(src, other, ty, tid)`.
fn push_rolls(out: &mut Vec<PointerRecord>, src: &Vec<usize>, other: &Vec<usize>, ty: u8, tid: i32)
    ensures
        final(out)@ == old(out)@ + rolls(src@, other@, ty, tid),
{
    let ghost out0 = out@;
    let mut i: usize = 0;
    while i < src.len()
        invariant
            i <= src@.len(),
            out@ == out0 + rolls(src@.take(i as int), other@, ty, tid),
        decreases src@.len() - i,
    {
        let n = src[i];
        proof {
            assert(src@.take(i + 1).drop_last() =~= src@.take(i as int));
            assert(src@.take(i + 1).last() == n);
        }
        if !contains_node(other, n) {
            out.push(PointerRecord { node_id: n as u32, event_type: ty, click_count: 0, touch_id: tid });
            assert(out@ =~= out0 + rolls(src@.take(i + 1), other@, ty, tid));
        } else {
            assert(out@ =~= out0 + rolls(src@.take(i + 1), other@, ty, tid));
        }
        i = i + 1;
    }
    assert(src@.take(src@.len() as int) =~= src@);
}

/// Hover diff of one slot (see `hover_step`).
fn hover_diff(s: &mut TouchSlot, nodes: &Vec<SceneNode>, out: &mut Vec<PointerRecord>)
    requires
        scene_wf(nodes@),
    ensures
        final(s)@ == hover_step(old(s)@, nodes@).0,
        final(out)@ == old(out)@ + hover_step(old(s)@, nodes@).1,
{
    let new_chain = ancestor_chain(nodes, s.last_hit);
    proof {
        lemma_chain_of(nodes@, s.last_hit, new_chain@);
    }
    if same_nodes(&new_chain, &s.last_hovered_chain) {
        assert(out@ =~= out@ + Seq::<PointerRecord>::empty());
        return;
    }
    let ghost out0 = out@;
    push_rolls(out, &s.last_hovered_chain, &new_chain, EVT_ROLL_OUT, s.touch_id);
    push_rolls(out, &new_chain, &s.last_hovered_chain, EVT_ROLL_OVER, s.touch_id);
    assert(out@ =~= out0 + (rolls(old(s)@.chain, new_chain@, EVT_ROLL_OUT, s.touch_id) + rolls(new_chain@, old(s)@.chain, EVT_ROLL_OVER, s.touch_id)));
    s.last_hovered_chain = new_chain;
}


fn first_in_chain(c: &Vec<usize>, targets: &Vec<usize>) -> (r: Option<usize>)
    ensures
        r == first_in(c@, targets@),
        r matches Some(x) ==> c@.contains(x),
{
    let mut i: usize = 0;
    assert(c@.skip(0) =~= c@);
    while i < c.len()
        invariant
            i <= c@.len(),
            first_in(c@, targets@) == first_in(c@.skip(i as int), targets@),
        decreases c@.len() - i,
    {
        proof {
            assert(c@.skip(i as int).drop_first() =~= c@.skip(i + 1));
            assert(c@.skip(i as int)[0] == c@[i as int]);
        }
        if contains_node(targets, c[i]) {
            return Some(c[i]);
        }
        i = i + 1;
    }
    assert(c@.skip(i as int).len() == 0);
    None
}

/// The node a click of this up goes to (see `click_target`).
fn click_test(s: &TouchSlot, nodes: &Vec<SceneNode>, hit: Option<usize>, within: bool) -> (r: Option<usize>)
    requires
        scene_wf(nodes@),
    ensures
        r == click_target(s@, nodes@, hit, within),
        r matches Some(t) ==> t < nodes@.len(),
{
    if s.click_cancelled || !within {
        return None;
    }
    if s.down_targets.len() > 0 && s.down_targets[0] < nodes.len() {
        return Some(s.down_targets[0]);
    }
    let chain = ancestor_chain(nodes, hit);
    proof {
        lemma_chain_of(nodes@, hit, chain@);
    }
    let r = first_in_chain(&chain, &s.down_targets);
    proof {
        if let Some(x) = r {
            let k = choose|k: int| 0 <= k < chain@.len() && chain@[k] == x;
            lemma_anc_in_scene(nodes@, hit.unwrap() as int, k as nat);
        }
    }
    r
}

fn push_monitor_moves(out: &mut Vec<PointerRecord>, ms: &Vec<usize>, tid: i32)
    ensures
        final(out)@ == old(out)@ + monitor_moves(ms@, tid),
{
    let ghost out0 = out@;
    let mut i: usize = 0;
    while i < ms.len()
        invariant
            i <= ms@.len(),
            out@ == out0 + monitor_moves(ms@.take(i as int), tid),
        decreases ms@.len() - i,
    {
        out.push(PointerRecord { node_id: ms[i] as u32, event_type: EVT_MOVE, click_count: 0, touch_id: tid });
        proof {
            assert(monitor_moves(ms@.take(i + 1), tid) =~= monitor_moves(ms@.take(i as int), tid).push(rec(ms@[i as int], EVT_MOVE, 0, tid)));
            assert(out@ =~= out0 + monitor_moves(ms@.take(i + 1), tid));
        }
        i = i + 1;
    }
    assert(ms@.take(ms@.len() as int) =~= ms@);
}

fn push_monitor_ups(out: &mut Vec<PointerRecord>, ms: &Vec<usize>, hit: Option<usize>, tid: i32)
    ensures
        final(out)@ == old(out)@ + monitor_ups(ms@, hit, tid),
{
    let ghost out0 = out@;
    let mut i: usize = 0;
    while i < ms.len()
        invariant
            i <= ms@.len(),
            out@ == out0 + monitor_ups(ms@.take(i as int), hit, tid),
        decreases ms@.len() - i,
    {
        let m = ms[i];
        proof {
            assert(ms@.take(i + 1).drop_last() =~= ms@.take(i as int));
            assert(ms@.take(i + 1).last() == m);
        }
        if hit != Some(m) {
            out.push(PointerRecord { node_id: m as u32, event_type: EVT_UP, click_count: 0, touch_id: tid });
        }
        assert(out@ =~= out0 + monitor_ups(ms@.take(i + 1), hit, tid));
        i = i + 1;
    }
    assert(ms@.take(ms@.len() as int) =~= ms@);
}

/// One event of the slot `s`, which is slot number `slot` (see `spec_step`).
fn step_slot(s: &mut TouchSlot, slot: usize, inp: PointerStep, nodes: &Vec<SceneNode>) -> (res: (Vec<PointerRecord>, StepOutcome))
    requires
        scene_wf(nodes@),
        inp.hit matches Some(h) ==> h < nodes@.len(),
        1 <= old(s).click_count <= 2,
    ensures
        final(s)@ == spec_step(old(s)@, slot as int, inp, nodes@).0,
        res.0@ == spec_step(old(s)@, slot as int, inp, nodes@).1,
        res.1 == spec_step(old(s)@, slot as int, inp, nodes@).2,
{
    let tid = inp.touch_id;
    let mut out: Vec<PointerRecord> = Vec::new();
    s.last_hit = inp.hit;
    match inp.kind {
        PointerKind::Move => {
            if s.is_down && inp.moved_beyond_cancel {
                s.click_cancelled = true;
            }
            hover_diff(s, nodes, &mut out);
            push_monitor_moves(&mut out, &s.touch_monitors, tid);
            (out, StepOutcome { clicked: false, click_window_reset: false })
        },
        PointerKind::Down => {
            s.is_down = true;
            s.down_node = inp.hit;
            let targets = ancestor_chain(nodes, inp.hit);
            proof {
                lemma_chain_of(nodes@, inp.hit, targets@);
            }
            s.down_targets = targets;
            s.click_cancelled = false;
            if let Some(n) = inp.hit {
                if !nodes[n].disabled {
                    out.push(PointerRecord { node_id: n as u32, event_type: EVT_DOWN, click_count: 0, touch_id: tid });
                }
            }
            let ghost dr = out@;
            hover_diff(s, nodes, &mut out);
            (out, StepOutcome { clicked: false, click_window_reset: false })
        },
        PointerKind::Up => {
            s.is_down = false;
            let mut outcome = StepOutcome { clicked: false, click_window_reset: false };
            if let Some(n) = inp.hit {
                if !nodes[n].disabled {
                    out.push(PointerRecord { node_id: n as u32, event_type: EVT_UP, click_count: 0, touch_id: tid });
                    match click_test(s, nodes, inp.hit, inp.within_click_threshold) {
                        Some(t) => {
                            if !nodes[t].disabled {
                                let count: u8 = if inp.near_last_click && s.last_click_button == inp.button {
                                    if s.click_count == 2 {
                                        1
                                    } else {
                                        s.click_count + 1
                                    }
                                } else {
                                    1
                                };
                                s.click_count = count;
                                s.last_click_button = inp.button;
                                out.push(PointerRecord { node_id: t as u32, event_type: EVT_CLICK, click_count: count, touch_id: tid });
                                outcome = StepOutcome { clicked: true, click_window_reset: false };
                            }
                        },
                        None => {
                            s.click_count = 1;
                            outcome = StepOutcome { clicked: false, click_window_reset: true };
                        },
                    }
                }
            }
            push_monitor_ups(&mut out, &s.touch_monitors, inp.hit, tid);
            s.touch_monitors = Vec::new();
            s.down_targets = Vec::new();
            s.down_node = None;
            hover_diff(s, nodes, &mut out);
            if slot > 0 {
                s.touch_id = -1;
            }
            (out, outcome)
        },
    }
}


// ---------------------------------------------------------------------------
// The pointer state.
// ---------------------------------------------------------------------------

pub open spec fn slots_view(v: Seq<TouchSlot>) -> Seq<SlotView> {
    Seq::new(v.len(), |i: int| v[i]@)
}

/// Five slots, slot 0 the mouse (touch id -1), click counts 1 or 2.
pub open spec fn slots_ok(v: Seq<SlotView>) -> bool {
    &&& v.len() == SLOT_COUNT
    &&& v[0].touch_id == -1
    &&& forall|i: int| 0 <= i < v.len() ==> 1 <= #[trigger] v[i].click_count <= 2
}

/// A slot takes part in hovering: the mouse always, a touch slot while it holds a finger.
pub open spec fn slot_active(s: SlotView, i: int) -> bool {
    i == 0 || s.touch_id >= 0
}

/// The first slot from `i` on whose touch id is `tid`.
pub open spec fn first_slot(v: Seq<SlotView>, tid: i32, i: int) -> Option<int>
    decreases v.len() - i,
{
    if i < 0 || i >= v.len() {
        None
    } else if v[i].touch_id == tid {
        Some(i)
    } else {
        first_slot(v, tid, i + 1)
    }
}

/// The slot of a pointer: 0 for the mouse; for a touch the touch slot that holds its id, else
/// the first free touch slot, which takes the id; none when all four are taken.
pub open spec fn spec_slot_for(v: Seq<SlotView>, tid: i32) -> (Seq<SlotView>, Option<usize>) {
    if tid == -1 {
        (v, Some(0usize))
    } else {
        match first_slot(v, tid, 1) {
            Some(i) => (v, Some(i as usize)),
            None => match first_slot(v, -1i32, 1) {
                Some(i) => (v.update(i, SlotView { touch_id: tid, ..v[i] }), Some(i as usize)),
                None => (v, None),
            },
        }
    }
}

/// Hover diffs of the active slots among the first `k`, in slot order.
pub open spec fn idle_upto(v: Seq<SlotView>, nodes: Seq<SceneNode>, k: nat) -> (Seq<SlotView>, Seq<PointerRecord>)
    decreases k,
{
    if k == 0 {
        (v, Seq::empty())
    } else {
        let (w, r) = idle_upto(v, nodes, (k - 1) as nat);
        let i = k - 1;
        if slot_active(w[i], i) {
            let (ns, hr) = hover_step(w[i], nodes);
            (w.update(i, ns), r + hr)
        } else {
            (w, r)
        }
    }
}

proof fn lemma_first_slot(v: Seq<SlotView>, tid: i32, i: int)
    requires
        0 <= i,
    ensures
        first_slot(v, tid, i) matches Some(j) ==> i <= j < v.len() && v[j].touch_id == tid,
        first_slot(v, tid, i) is None ==> forall|j: int| i <= j < v.len() ==> v[j].touch_id != tid,
    decreases v.len() - i,
{
    if 0 <= i < v.len() && v[i].touch_id != tid {
        lemma_first_slot(v, tid, i + 1);
    }
}

proof fn lemma_step_keeps(s: SlotView, slot: int, inp: PointerStep, nodes: Seq<SceneNode>)
    requires
        1 <= s.click_count <= 2,
    ensures
        1 <= spec_step(s, slot, inp, nodes).0.click_count <= 2,
        slot == 0 ==> spec_step(s, slot, inp, nodes).0.touch_id == s.touch_id,
{
}

proof fn lemma_idle_keeps(v: Seq<SlotView>, nodes: Seq<SceneNode>, k: nat)
    requires
        slots_ok(v),
        k <= v.len(),
    ensures
        slots_ok(idle_upto(v, nodes, k).0),
    decreases k,
{
    if k > 0 {
        lemma_idle_keeps(v, nodes, (k - 1) as nat);
        let w = idle_upto(v, nodes, (k - 1) as nat).0;
        assert forall|i: int| 0 <= i < idle_upto(v, nodes, k).0.len() implies 1 <= #[trigger] idle_upto(v, nodes, k).0[i].click_count <= 2 by {
            assert(w[i].click_count == idle_upto(v, nodes, k).0[i].click_count);
        }
    }
}

proof fn lemma_slots_view_update(v: Seq<TouchSlot>, i: int, t: TouchSlot)
    requires
        0 <= i < v.len(),
    ensures
        slots_view(v.update(i, t)) == slots_view(v).update(i, t@),
{
    assert(slots_view(v.update(i, t)) =~= slots_view(v).update(i, t@));
}

fn new_slot() -> (s: TouchSlot)
    ensures
        s@ == fresh_slot(),
{
    TouchSlot {
        touch_id: -1,
        is_down: false,
        down_node: None,
        last_hit: None,
        last_hovered_chain: Vec::new(),
        touch_monitors: Vec::new(),
        down_targets: Vec::new(),
        click_cancelled: false,
        last_click_button: 0,
        click_count: 1,
    }
}

fn find_slot(slots: &Vec<TouchSlot>, tid: i32) -> (r: Option<usize>)
    requires
        slots@.len() == SLOT_COUNT,
    ensures
        match r {
            Some(i) => first_slot(slots_view(slots@), tid, 1) == Some(i as int) && i < SLOT_COUNT,
            None => first_slot(slots_view(slots@), tid, 1) is None,
        },
{
    let ghost v0 = slots_view(slots@);
    let mut i: usize = 1;
    while i < slots.len()
        invariant
            1 <= i <= SLOT_COUNT,
            slots@.len() == SLOT_COUNT,
            v0 == slots_view(slots@),
            first_slot(v0, tid, 1) == first_slot(v0, tid, i as int),
        decreases SLOT_COUNT - i,
    {
        assert(v0[i as int] == slots@[i as int]@);
        if slots[i].touch_id == tid {
            assert(first_slot(v0, tid, i as int) == Some(i as int));
            return Some(i);
        }
        i = i + 1;
    }
    None
}

fn set_touch_id(slots: &mut Vec<TouchSlot>, i: usize, tid: i32)
    requires
        i < old(slots)@.len(),
    ensures
        final(slots)@.len() == old(slots)@.len(),
        slots_view(final(slots)@) == slots_view(old(slots)@).update(i as int, SlotView { touch_id: tid, ..slots_view(old(slots)@)[i as int] }),
{
    let ghost v0 = slots@;
    slots[i].touch_id = tid;
    proof {
        lemma_slots_view_update(v0, i as int, slots@[i as int]);
    }
}

fn step_at(slots: &mut Vec<TouchSlot>, slot: usize, inp: PointerStep, nodes: &Vec<SceneNode>) -> (res: (Vec<PointerRecord>, StepOutcome))
    requires
        slot < old(slots)@.len(),
        1 <= old(slots)@[slot as int].click_count <= 2,
        scene_wf(nodes@),
        inp.hit matches Some(h) ==> h < nodes@.len(),
    ensures
        final(slots)@.len() == old(slots)@.len(),
        slots_view(final(slots)@) == slots_view(old(slots)@).update(slot as int, spec_step(slots_view(old(slots)@)[slot as int], slot as int, inp, nodes@).0),
        res.0@ == spec_step(slots_view(old(slots)@)[slot as int], slot as int, inp, nodes@).1,
        res.1 == spec_step(slots_view(old(slots)@)[slot as int], slot as int, inp, nodes@).2,
{
    let ghost v0 = slots@;
    let res = step_slot(&mut slots[slot], slot, inp, nodes);
    proof {
        lemma_slots_view_update(v0, slot as int, slots@[slot as int]);
    }
    res
}

fn hover_at(slots: &mut Vec<TouchSlot>, i: usize, nodes: &Vec<SceneNode>, out: &mut Vec<PointerRecord>)
    requires
        i < old(slots)@.len(),
        scene_wf(nodes@),
    ensures
        final(slots)@.len() == old(slots)@.len(),
        slots_view(final(slots)@) == slots_view(old(slots)@).update(i as int, hover_step(slots_view(old(slots)@)[i as int], nodes@).0),
        final(out)@ == old(out)@ + hover_step(slots_view(old(slots)@)[i as int], nodes@).1,
{
    let ghost v0 = slots@;
    hover_diff(&mut slots[i], nodes, out);
    proof {
        lemma_slots_view_update(v0, i as int, slots@[i as int]);
    }
}

fn idle_at(slots: &mut Vec<TouchSlot>, nodes: &Vec<SceneNode>) -> (out: Vec<PointerRecord>)
    requires
        scene_wf(nodes@),
    ensures
        slots_view(final(slots)@) == idle_upto(slots_view(old(slots)@), nodes@, old(slots)@.len()).0,
        out@ == idle_upto(slots_view(old(slots)@), nodes@, old(slots)@.len()).1,
{
    let ghost v0 = slots_view(slots@);
    let mut out: Vec<PointerRecord> = Vec::new();
    let mut i: usize = 0;
    while i < slots.len()
        invariant
            i <= slots@.len(),
            slots@.len() == v0.len(),
            scene_wf(nodes@),
            slots_view(slots@) == idle_upto(v0, nodes@, i as nat).0,
            out@ == idle_upto(v0, nodes@, i as nat).1,
        decreases slots@.len() - i,
    {
        proof {
            assert(slots_view(slots@)[i as int] == slots@[i as int]@);
        }
        if i == 0 || slots[i].touch_id >= 0 {
            hover_at(slots, i, nodes, &mut out);
        }
        i = i + 1;
    }
    out
}

/// Sets `hovered` on the chain from `start` (as the links of `n0` run).
fn mark_hover_chain(nodes: &mut Vec<SceneNode>, start: Option<usize>, Ghost(n0): Ghost<Seq<SceneNode>>)
    requires
        scene_wf(n0),
        old(nodes)@.len() == n0.len(),
        forall|i: int| 0 <= i < n0.len() ==> (#[trigger] old(nodes)@[i]).parent == n0[i].parent,
    ensures
        final(nodes)@.len() == old(nodes)@.len(),
        forall|i: int| 0 <= i < n0.len() ==> #[trigger] final(nodes)@[i] == with_hovered(old(nodes)@[i], old(nodes)@[i].hovered || on_chain(n0, start, i)),
{
    let ghost o = nodes@;
    match start {
        None => {
            assert forall|i: int| 0 <= i < n0.len() implies #[trigger] nodes@[i] == with_hovered(o[i], o[i].hovered || on_chain(n0, start, i)) by {}
        },
        Some(e) => {
            let ghost rank = choose|rank: spec_fn(int) -> nat| #[trigger] scene_ranked(n0, rank);
            let mut cur: Option<usize> = if e < nodes.len() {
                Some(e)
            } else {
                None
            };
            let ghost mut steps: nat = 0;
            while cur.is_some()
                invariant
                    scene_ranked(n0, rank),
                    nodes@.len() == n0.len(),
                    o.len() == n0.len(),
                    forall|i: int| 0 <= i < n0.len() ==> (#[trigger] o[i]).parent == n0[i].parent,
                    cur matches Some(a) ==> a < n0.len() && anc(n0, e as int, steps) == Some(a as int),
                    cur is None ==> anc(n0, e as int, steps) is None,
                    forall|i: int| 0 <= i < n0.len() ==> #[trigger] nodes@[i] == with_hovered(o[i], o[i].hovered || exists|k: nat| k < steps && #[trigger] anc(n0, e as int, k) == Some(i)),
                decreases (match cur {
                    Some(a) => rank(a as int) + 1,
                    None => 0,
                }),
            {
                let id = cur.unwrap();
                let ghost before = nodes@;
                nodes[id].hovered = true;
                proof {
                    assert forall|i: int| 0 <= i < n0.len() implies #[trigger] nodes@[i] == with_hovered(o[i], o[i].hovered || exists|k: nat| k < steps + 1 && #[trigger] anc(n0, e as int, k) == Some(i)) by {
                        if i == id as int {
                            assert(anc(n0, e as int, steps) == Some(i));
                        } else {
                            assert(nodes@[i] == before[i]);
                            if exists|k: nat| k < steps + 1 && #[trigger] anc(n0, e as int, k) == Some(i) {
                                let k = choose|k: nat| k < steps + 1 && #[trigger] anc(n0, e as int, k) == Some(i);
                                assert(k < steps);
                            }
                        }
                    }
                    assert(anc(n0, e as int, steps + 1) == parent_link(n0, id as int));
                    let _ = parent_link(n0, id as int);
                    steps = steps + 1;
                }
                cur = match nodes[id].parent {
                    Some(p) => if p < nodes.len() {
                        Some(p)
                    } else {
                        None
                    },
                    None => None,
                };
            }
            proof {
                assert forall|i: int| 0 <= i < n0.len() implies #[trigger] nodes@[i] == with_hovered(o[i], o[i].hovered || on_chain(n0, start, i)) by {
                    if on_chain(n0, start, i) {
                        let k = choose|k: nat| anc(n0, e as int, k) == Some(i);
                        if k >= steps {
                            lemma_anc_none_after(n0, e as int, steps, k);
                        }
                    }
                }
            }
        },
    }
}

/// Sets `active` on the chain from `start` up to, not including, its first disabled node.
fn mark_active_chain(nodes: &mut Vec<SceneNode>, start: Option<usize>, Ghost(n0): Ghost<Seq<SceneNode>>)
    requires
        scene_wf(n0),
        old(nodes)@.len() == n0.len(),
        forall|i: int| 0 <= i < n0.len() ==> (#[trigger] old(nodes)@[i]).parent == n0[i].parent && old(nodes)@[i].disabled == n0[i].disabled,
    ensures
        final(nodes)@.len() == old(nodes)@.len(),
        forall|i: int| 0 <= i < n0.len() ==> #[trigger] final(nodes)@[i] == with_active(old(nodes)@[i], old(nodes)@[i].active || active_reach(n0, start, i)),
{
    let ghost o = nodes@;
    match start {
        None => {
            assert forall|i: int| 0 <= i < n0.len() implies #[trigger] nodes@[i] == with_active(o[i], o[i].active || active_reach(n0, start, i)) by {}
        },
        Some(e) => {
            let ghost rank = choose|rank: spec_fn(int) -> nat| #[trigger] scene_ranked(n0, rank);
            let mut cur: Option<usize> = if e < nodes.len() {
                Some(e)
            } else {
                None
            };
            let mut going: bool = match cur {
                Some(a) => !nodes[a].disabled,
                None => false,
            };
            let ghost mut steps: nat = 0;
            while going
                invariant
                    scene_ranked(n0, rank),
                    nodes@.len() == n0.len(),
                    o.len() == n0.len(),
                    forall|i: int| 0 <= i < n0.len() ==> (#[trigger] o[i]).parent == n0[i].parent && o[i].disabled == n0[i].disabled,
                    cur matches Some(a) ==> a < n0.len() && anc(n0, e as int, steps) == Some(a as int),
                    cur is None ==> anc(n0, e as int, steps) is None,
                    going == (cur matches Some(a) && !n0[a as int].disabled),
                    forall|j: nat| j < steps ==> (#[trigger] anc(n0, e as int, j) matches Some(a) && !n0[a].disabled),
                    forall|i: int| 0 <= i < n0.len() ==> #[trigger] nodes@[i] == with_active(o[i], o[i].active || exists|k: nat| k < steps && #[trigger] anc(n0, e as int, k) == Some(i)),
                decreases (match cur {
                    Some(a) => rank(a as int) + 1,
                    None => 0,
                }),
            {
                let id = cur.unwrap();
                let ghost before = nodes@;
                nodes[id].active = true;
                proof {
                    assert forall|i: int| 0 <= i < n0.len() implies #[trigger] nodes@[i] == with_active(o[i], o[i].active || exists|k: nat| k < steps + 1 && #[trigger] anc(n0, e as int, k) == Some(i)) by {
                        if i == id as int {
                            assert(anc(n0, e as int, steps) == Some(i));
                        } else {
                            assert(nodes@[i] == before[i]);
                            if exists|k: nat| k < steps + 1 && #[trigger] anc(n0, e as int, k) == Some(i) {
                                let k = choose|k: nat| k < steps + 1 && #[trigger] anc(n0, e as int, k) == Some(i);
                                assert(k < steps);
                            }
                        }
                    }
                    assert forall|j: nat| j < steps + 1 implies (#[trigger] anc(n0, e as int, j) matches Some(a) && !n0[a].disabled) by {
                        if j == steps {
                            assert(anc(n0, e as int, j) == Some(id as int));
                        }
                    }
                    assert(anc(n0, e as int, steps + 1) == parent_link(n0, id as int));
                    let _ = parent_link(n0, id as int);
                    steps = steps + 1;
                }
                cur = match nodes[id].parent {
                    Some(p) => if p < nodes.len() {
                        Some(p)
                    } else {
                        None
                    },
                    None => None,
                };
                going = match cur {
                    Some(a) => !nodes[a].disabled,
                    None => false,
                };
            }
            proof {
                assert forall|i: int| 0 <= i < n0.len() implies #[trigger] nodes@[i] == with_active(o[i], o[i].active || active_reach(n0, start, i)) by {
                    if exists|k: nat| k < steps && #[trigger] anc(n0, e as int, k) == Some(i) {
                        let k = choose|k: nat| k < steps && #[trigger] anc(n0, e as int, k) == Some(i);
                        assert(unblocked(n0, e as int, k));
                    }
                    if active_reach(n0, start, i) {
                        let k = choose|k: nat| #[trigger] anc(n0, e as int, k) == Some(i) && unblocked(n0, e as int, k);
                        if k >= steps {
                            if anc(n0, e as int, steps) is None {
                                lemma_anc_none_after(n0, e as int, steps, k);
                            }
                            let _ = anc(n0, e as int, steps);
                            assert(false);
                        }
                    }
                }
            }
        },
    }
}

fn filter_out(v: &Vec<usize>, node: usize) -> (r: Vec<usize>)
    ensures
        r@ == without(v@, node),
{
    let mut r: Vec<usize> = Vec::new();
    let mut i: usize = 0;
    while i < v.len()
        invariant
            i <= v@.len(),
            r@ == without(v@.take(i as int), node),
        decreases v@.len() - i,
    {
        proof {
            assert(v@.take(i + 1).drop_last() =~= v@.take(i as int));
            assert(v@.take(i + 1).last() == v@[i as int]);
        }
        if v[i] != node {
            r.push(v[i]);
            assert(r@ =~= without(v@.take(i + 1), node));
        } else {
            assert(r@ =~= without(v@.take(i + 1), node));
        }
        i = i + 1;
    }
    assert(v@.take(v@.len() as int) =~= v@);
    r
}

fn drop_monitor_at(slots: &mut Vec<TouchSlot>, i: usize, node: usize)
    requires
        i < old(slots)@.len(),
    ensures
        final(slots)@.len() == old(slots)@.len(),
        slots_view(final(slots)@) == slots_view(old(slots)@).update(i as int, SlotView { monitors: without(slots_view(old(slots)@)[i as int].monitors, node), ..slots_view(old(slots)@)[i as int] }),
{
    let ghost v0 = slots@;
    let kept = filter_out(&slots[i].touch_monitors, node);
    slots[i].touch_monitors = kept;
    proof {
        lemma_slots_view_update(v0, i as int, slots@[i as int]);
    }
}

fn push_monitor_at(slots: &mut Vec<TouchSlot>, i: usize, node: usize)
    requires
        i < old(slots)@.len(),
    ensures
        final(slots)@.len() == old(slots)@.len(),
        slots_view(final(slots)@) == slots_view(old(slots)@).update(i as int, SlotView { monitors: slots_view(old(slots)@)[i as int].monitors.push(node), ..slots_view(old(slots)@)[i as int] }),
{
    let ghost v0 = slots@;
    slots[i].touch_monitors.push(node);
    proof {
        lemma_slots_view_update(v0, i as int, slots@[i as int]);
    }
}

/// The pointer slots: slot 0 the mouse, slots 1 to 4 touches.
#[derive(Debug)]
pub struct PointerState {
    slots: Vec<TouchSlot>,
}

impl View for PointerState {
    type V = Seq<SlotView>;

    closed spec fn view(&self) -> Seq<SlotView> {
        slots_view(self.slots@)
    }
}

impl PointerState {
    /// Five fresh slots.
    pub fn new() -> (ps: Self)
        ensures
            ps@ == Seq::new(SLOT_COUNT as nat, |i: int| fresh_slot()),
            slots_ok(ps@),
    {
        let mut slots: Vec<TouchSlot> = Vec::new();
        let mut i: usize = 0;
        while i < SLOT_COUNT
            invariant
                i <= SLOT_COUNT,
                slots@.len() == i,
                forall|j: int| 0 <= j < i ==> (#[trigger] slots@[j])@ == fresh_slot(),
            decreases SLOT_COUNT - i,
        {
            slots.push(new_slot());
            i = i + 1;
        }
        assert(slots_view(slots@) =~= Seq::new(SLOT_COUNT as nat, |i: int| fresh_slot()));
        PointerState { slots }
    }

    /// The state of slot `i`.
    pub fn slot(&self, i: usize) -> (s: &TouchSlot)
        requires
            slots_ok(self@),
            i < SLOT_COUNT,
        ensures
            s@ == self@[i as int],
    {
        &self.slots[i]
    }

    /// Finds the slot of a pointer, giving a free touch slot to a new finger (see `spec_slot_for`).
    pub fn slot_for(&mut self, touch_id: i32) -> (r: Option<usize>)
        requires
            slots_ok(old(self)@),
        ensures
            final(self)@ == spec_slot_for(old(self)@, touch_id).0,
            r == spec_slot_for(old(self)@, touch_id).1,
            slots_ok(final(self)@),
            r matches Some(i) ==> i < SLOT_COUNT && (touch_id != -1 ==> i >= 1),
    {
        proof {
            lemma_first_slot(old(self)@, touch_id, 1);
            lemma_first_slot(old(self)@, -1i32, 1);
        }
        let ghost v0 = self@;
        if touch_id == -1 {
            return Some(0);
        }
        match find_slot(&self.slots, touch_id) {
            Some(i) => Some(i),
            None => match find_slot(&self.slots, -1i32) {
                Some(j) => {
                    proof {
                        lemma_first_slot(v0, -1i32, 1);
                    }
                    set_touch_id(&mut self.slots, j, touch_id);
                    Some(j)
                },
                None => None,
            },
        }
    }

    /// One event of slot `slot` (see `spec_step`).
    pub fn step(&mut self, slot: usize, inp: PointerStep, nodes: &Vec<SceneNode>) -> (res: (Vec<PointerRecord>, StepOutcome))
        requires
            slots_ok(old(self)@),
            slot < SLOT_COUNT,
            scene_wf(nodes@),
            inp.hit matches Some(h) ==> h < nodes@.len(),
        ensures
            final(self)@ == old(self)@.update(slot as int, spec_step(old(self)@[slot as int], slot as int, inp, nodes@).0),
            res.0@ == spec_step(old(self)@[slot as int], slot as int, inp, nodes@).1,
            res.1 == spec_step(old(self)@[slot as int], slot as int, inp, nodes@).2,
            slots_ok(final(self)@),
    {
        proof {
            lemma_step_keeps(self@[slot as int], slot as int, inp, nodes@);
            assert(self.slots@[slot as int]@ == self@[slot as int]);
        }
        step_at(&mut self.slots, slot, inp, nodes)
    }

    /// A frame without events: the hover diff of every active slot, in slot order.
    pub fn idle(&mut self, nodes: &Vec<SceneNode>) -> (out: Vec<PointerRecord>)
        requires
            slots_ok(old(self)@),
            scene_wf(nodes@),
        ensures
            final(self)@ == idle_upto(old(self)@, nodes@, SLOT_COUNT as nat).0,
            out@ == idle_upto(old(self)@, nodes@, SLOT_COUNT as nat).1,
            slots_ok(final(self)@),
    {
        let out = idle_at(&mut self.slots, nodes);
        proof {
            lemma_idle_keeps(old(self)@, nodes@, SLOT_COUNT as nat);
        }
        out
    }

    /// Clears `hovered` everywhere, then sets it on the hit chain of every active slot.
    pub fn recompute_hovered(&self, nodes: &mut Vec<SceneNode>)
        requires
            slots_ok(self@),
            scene_wf(old(nodes)@),
        ensures
            final(nodes)@.len() == old(nodes)@.len(),
            forall|i: int| 0 <= i < old(nodes)@.len() ==> #[trigger] final(nodes)@[i] == with_hovered(old(nodes)@[i], hovered_by(self@, old(nodes)@, i)),
    {
        let ghost n0 = nodes@;
        let mut i: usize = 0;
        while i < nodes.len()
            invariant
                i <= nodes@.len(),
                nodes@.len() == n0.len(),
                forall|j: int| 0 <= j < i ==> #[trigger] nodes@[j] == with_hovered(n0[j], false),
                forall|j: int| i <= j < n0.len() ==> #[trigger] nodes@[j] == n0[j],
            decreases n0.len() - i,
        {
            nodes[i].hovered = false;
            i = i + 1;
        }
        let mut si: usize = 0;
        while si < self.slots.len()
            invariant
                si <= self.slots@.len(),
                slots_ok(self@),
                scene_wf(n0),
                nodes@.len() == n0.len(),
                forall|j: int| 0 <= j < n0.len() ==> #[trigger] nodes@[j] == with_hovered(n0[j], exists|q: int| 0 <= q < si && slot_active(self@[q], q) && #[trigger] on_chain(n0, self@[q].last_hit, j)),
            decreases self.slots@.len() - si,
        {
            let ghost before = nodes@;
            proof {
                assert(self.slots@[si as int]@ == self@[si as int]);
            }
            if si == 0 || self.slots[si].touch_id >= 0 {
                mark_hover_chain(nodes, self.slots[si].last_hit, Ghost(n0));
            }
            proof {
                assert forall|j: int| 0 <= j < n0.len() implies #[trigger] nodes@[j] == with_hovered(n0[j], exists|q: int| 0 <= q < si + 1 && slot_active(self@[q], q) && #[trigger] on_chain(n0, self@[q].last_hit, j)) by {
                    let e_old = exists|q: int| 0 <= q < si && slot_active(self@[q], q) && #[trigger] on_chain(n0, self@[q].last_hit, j);
                    let here = slot_active(self@[si as int], si as int) && on_chain(n0, self@[si as int].last_hit, j);
                    assert(before[j] == with_hovered(n0[j], e_old));
                    assert(nodes@[j] == with_hovered(n0[j], e_old || here));
                    if e_old {
                        let q = choose|q: int| 0 <= q < si && slot_active(self@[q], q) && #[trigger] on_chain(n0, self@[q].last_hit, j);
                        assert(0 <= q < si + 1 && slot_active(self@[q], q) && on_chain(n0, self@[q].last_hit, j));
                    }
                    if here {
                        assert(0 <= si < si + 1 && slot_active(self@[si as int], si as int) && on_chain(n0, self@[si as int].last_hit, j));
                    }
                }
            }
            si = si + 1;
        }
    }

    /// Clears `active` everywhere, then sets it, for every pressed slot, on the chain from where
    /// it went down, stopping at the first disabled node.
    pub fn recompute_active(&self, nodes: &mut Vec<SceneNode>)
        requires
            slots_ok(self@),
            scene_wf(old(nodes)@),
        ensures
            final(nodes)@.len() == old(nodes)@.len(),
            forall|i: int| 0 <= i < old(nodes)@.len() ==> #[trigger] final(nodes)@[i] == with_active(old(nodes)@[i], active_by(self@, old(nodes)@, i)),
            forall|i: int| 0 <= i < old(nodes)@.len() && (#[trigger] final(nodes)@[i]).active ==> !old(nodes)@[i].disabled,
    {
        let ghost n0 = nodes@;
        let mut i: usize = 0;
        while i < nodes.len()
            invariant
                i <= nodes@.len(),
                nodes@.len() == n0.len(),
                forall|j: int| 0 <= j < i ==> #[trigger] nodes@[j] == with_active(n0[j], false),
                forall|j: int| i <= j < n0.len() ==> #[trigger] nodes@[j] == n0[j],
            decreases n0.len() - i,
        {
            nodes[i].active = false;
            i = i + 1;
        }
        let mut si: usize = 0;
        while si < self.slots.len()
            invariant
                si <= self.slots@.len(),
                slots_ok(self@),
                scene_wf(n0),
                nodes@.len() == n0.len(),
                forall|j: int| 0 <= j < n0.len() ==> #[trigger] nodes@[j] == with_active(n0[j], exists|q: int| 0 <= q < si && self@[q].is_down && #[trigger] active_reach(n0, self@[q].down_node, j)),
            decreases self.slots@.len() - si,
        {
            let ghost before = nodes@;
            proof {
                assert(self.slots@[si as int]@ == self@[si as int]);
            }
            if self.slots[si].is_down {
                mark_active_chain(nodes, self.slots[si].down_node, Ghost(n0));
            }
            proof {
                assert forall|j: int| 0 <= j < n0.len() implies #[trigger] nodes@[j] == with_active(n0[j], exists|q: int| 0 <= q < si + 1 && self@[q].is_down && #[trigger] active_reach(n0, self@[q].down_node, j)) by {
                    let e_old = exists|q: int| 0 <= q < si && self@[q].is_down && #[trigger] active_reach(n0, self@[q].down_node, j);
                    let here = self@[si as int].is_down && active_reach(n0, self@[si as int].down_node, j);
                    assert(before[j] == with_active(n0[j], e_old));
                    assert(nodes@[j] == with_active(n0[j], e_old || here));
                    if e_old {
                        let q = choose|q: int| 0 <= q < si && self@[q].is_down && #[trigger] active_reach(n0, self@[q].down_node, j);
                        assert(0 <= q < si + 1 && self@[q].is_down && active_reach(n0, self@[q].down_node, j));
                    }
                    if here {
                        assert(0 <= si < si + 1 && self@[si as int].is_down && active_reach(n0, self@[si as int].down_node, j));
                    }
                }
            }
            si = si + 1;
        }
        proof {
            assert forall|i: int| 0 <= i < n0.len() && (#[trigger] nodes@[i]).active implies !n0[i].disabled by {
                let q = choose|q: int| 0 <= q < self@.len() && self@[q].is_down && #[trigger] active_reach(n0, self@[q].down_node, i);
                let e = self@[q].down_node.unwrap() as int;
                let k = choose|k: nat| #[trigger] anc(n0, e, k) == Some(i) && unblocked(n0, e, k);
                assert(anc(n0, e, k) == Some(i));
            }
        }
    }

    /// Whether any slot's last hit is a node other than the first root: the interface, not the
    /// world behind it, is under a pointer.
    pub fn is_pointer_on_ui(&self, roots: &Vec<usize>) -> (r: bool)
        requires
            slots_ok(self@),
        ensures
            r == on_ui(self@, roots@),
    {
        let mut i: usize = 0;
        while i < self.slots.len()
            invariant
                i <= self.slots@.len(),
                slots_ok(self@),
                forall|j: int| 0 <= j < i ==> !#[trigger] hits_ui(self@[j], roots@),
            decreases self.slots@.len() - i,
        {
            proof {
                assert(self.slots@[i as int]@ == self@[i as int]);
            }
            if let Some(h) = self.slots[i].last_hit {
                if roots.len() == 0 || h != roots[0] {
                    assert(hits_ui(self@[i as int], roots@));
                    return true;
                }
            }
            i = i + 1;
        }
        false
    }

    /// Adds a touch monitor to the slot of pointer `touch_id`, once (see `spec_add_monitor`).
    pub fn add_touch_monitor(&mut self, touch_id: i32, node: usize)
        requires
            slots_ok(old(self)@),
        ensures
            final(self)@ == spec_add_monitor(old(self)@, touch_id, node),
            slots_ok(final(self)@),
    {
        let ghost v0 = self@;
        let idx: usize = if touch_id == -1 {
            0
        } else {
            match find_slot(&self.slots, touch_id) {
                Some(i) => i,
                None => {
                    return;
                },
            }
        };
        proof {
            lemma_first_slot(v0, touch_id, 1);
        }
        proof {
            assert(self.slots@[idx as int]@ == v0[idx as int]);
        }
        if contains_node(&self.slots[idx].touch_monitors, node) {
            return;
        }
        push_monitor_at(&mut self.slots, idx, node);
    }

    /// Removes `node` from the touch monitors of every slot.
    pub fn remove_touch_monitor(&mut self, node: usize)
        requires
            slots_ok(old(self)@),
        ensures
            final(self)@.len() == old(self)@.len(),
            forall|i: int| 0 <= i < old(self)@.len() ==> #[trigger] final(self)@[i] == (SlotView { monitors: without(old(self)@[i].monitors, node), ..old(self)@[i] }),
            slots_ok(final(self)@),
    {
        let ghost v0 = self@;
        let mut i: usize = 0;
        while i < self.slots.len()
            invariant
                i <= SLOT_COUNT,
                self@.len() == SLOT_COUNT,
                v0.len() == SLOT_COUNT,
                forall|j: int| 0 <= j < i ==> #[trigger] self@[j] == (SlotView { monitors: without(v0[j].monitors, node), ..v0[j] }),
                forall|j: int| i <= j < SLOT_COUNT ==> #[trigger] self@[j] == v0[j],
            decreases SLOT_COUNT - i,
        {
            drop_monitor_at(&mut self.slots, i, node);
            i = i + 1;
        }
    }
}


// ---------------------------------------------------------------------------
// Laws.
// ---------------------------------------------------------------------------

proof fn lemma_anc_shift(nodes: Seq<SceneNode>, e: int, p: int, k: nat)
    requires
        0 <= e < nodes.len(),
        parent_link(nodes, e) == Some(p),
    ensures
        anc(nodes, e, k + 1) == anc(nodes, p, k),
    decreases k,
{
    assert(anc(nodes, e, 0) == Some(e));
    if k > 0 {
        lemma_anc_shift(nodes, e, p, (k - 1) as nat);
    }
}

proof fn lemma_chain_exists_ranked(nodes: Seq<SceneNode>, rank: spec_fn(int) -> nat, e: usize)
    requires
        scene_ranked(nodes, rank),
    ensures
        exists|c: Seq<usize>| #[trigger] is_chain(nodes, Some(e), c),
    decreases rank(e as int),
{
    if e >= nodes.len() {
        assert(anc(nodes, e as int, 0) is None);
        assert(is_chain(nodes, Some(e), Seq::<usize>::empty()));
    } else {
        assert(anc(nodes, e as int, 0) == Some(e as int));
        assert(anc(nodes, e as int, 1) == parent_link(nodes, e as int));
        match parent_link(nodes, e as int) {
            None => {
                let c = seq![e];
                assert(is_chain(nodes, Some(e), c));
            },
            Some(p) => {
                assert(rank(p) < rank(e as int));
                lemma_chain_exists_ranked(nodes, rank, p as usize);
                let c0 = choose|c: Seq<usize>| #[trigger] is_chain(nodes, Some(p as usize), c);
                let c = seq![e] + c0;
                assert forall|k: int| 0 <= k < c.len() implies anc(nodes, e as int, k as nat) == Some(#[trigger] c[k] as int) by {
                    if k > 0 {
                        lemma_anc_shift(nodes, e as int, p, (k - 1) as nat);
                        assert(c[k] == c0[k - 1]);
                    }
                }
                lemma_anc_shift(nodes, e as int, p, c0.len());
                assert(is_chain(nodes, Some(e), c));
            },
        }
    }
}

/// In a scene whose parent links end, every node has its chain.
pub proof fn lemma_chain_of_is_chain(nodes: Seq<SceneNode>, t: Option<usize>)
    requires
        scene_wf(nodes),
    ensures
        is_chain(nodes, t, chain_of(nodes, t)),
{
    match t {
        None => {
            assert(is_chain(nodes, t, Seq::<usize>::empty()));
        },
        Some(e) => {
            let rank = choose|rank: spec_fn(int) -> nat| #[trigger] scene_ranked(nodes, rank);
            lemma_chain_exists_ranked(nodes, rank, e);
        },
    }
}

proof fn lemma_first_in(c: Seq<usize>, targets: Seq<usize>)
    ensures
        first_in(c, targets) matches Some(x) ==> c.contains(x) && targets.contains(x),
    decreases c.len(),
{
    if c.len() > 0 && !targets.contains(c[0]) {
        lemma_first_in(c.drop_first(), targets);
        if let Some(x) = first_in(c.drop_first(), targets) {
            let k = choose|k: int| 0 <= k < c.drop_first().len() && c.drop_first()[k] == x;
            assert(c[k + 1] == x);
        }
    }
}

proof fn lemma_rolls_type(src: Seq<usize>, other: Seq<usize>, ty: u8, tid: i32)
    ensures
        forall|k: int| 0 <= k < rolls(src, other, ty, tid).len() ==> (#[trigger] rolls(src, other, ty, tid)[k]).event_type == ty,
    decreases src.len(),
{
    if src.len() > 0 {
        lemma_rolls_type(src.drop_last(), other, ty, tid);
        let p = rolls(src.drop_last(), other, ty, tid);
        assert forall|k: int| 0 <= k < rolls(src, other, ty, tid).len() implies (#[trigger] rolls(src, other, ty, tid)[k]).event_type == ty by {
            if k < p.len() {
                assert(rolls(src, other, ty, tid)[k] == p[k]);
            }
        }
    }
}

proof fn lemma_monitor_ups_type(ms: Seq<usize>, hit: Option<usize>, tid: i32)
    ensures
        forall|k: int| 0 <= k < monitor_ups(ms, hit, tid).len() ==> (#[trigger] monitor_ups(ms, hit, tid)[k]).event_type == EVT_UP
            && exists|j: int| 0 <= j < ms.len() && monitor_ups(ms, hit, tid)[k].node_id == (#[trigger] ms[j]) as u32,
    decreases ms.len(),
{
    if ms.len() > 0 {
        lemma_monitor_ups_type(ms.drop_last(), hit, tid);
        let p = monitor_ups(ms.drop_last(), hit, tid);
        assert forall|k: int| 0 <= k < monitor_ups(ms, hit, tid).len() implies (#[trigger] monitor_ups(ms, hit, tid)[k]).event_type == EVT_UP
            && exists|j: int| 0 <= j < ms.len() && monitor_ups(ms, hit, tid)[k].node_id == (#[trigger] ms[j]) as u32 by {
            if k < p.len() {
                assert(monitor_ups(ms, hit, tid)[k] == p[k]);
                let j = choose|j: int| 0 <= j < ms.drop_last().len() && p[k].node_id == (#[trigger] ms.drop_last()[j]) as u32;
                assert(ms[j] == ms.drop_last()[j]);
            } else {
                assert(monitor_ups(ms, hit, tid)[k].node_id == ms[ms.len() - 1] as u32);
            }
        }
    }
}

proof fn lemma_hover_records_roll(s: SlotView, nodes: Seq<SceneNode>)
    ensures
        forall|k: int| 0 <= k < hover_step(s, nodes).1.len() ==> {
            let t = (#[trigger] hover_step(s, nodes).1[k]).event_type;
            t == EVT_ROLL_OUT || t == EVT_ROLL_OVER
        },
{
    let new = chain_of(nodes, s.last_hit);
    lemma_rolls_type(s.chain, new, EVT_ROLL_OUT, s.touch_id);
    lemma_rolls_type(new, s.chain, EVT_ROLL_OVER, s.touch_id);
    let a = rolls(s.chain, new, EVT_ROLL_OUT, s.touch_id);
    let b = rolls(new, s.chain, EVT_ROLL_OVER, s.touch_id);
    assert forall|k: int| 0 <= k < hover_step(s, nodes).1.len() implies {
        let t = (#[trigger] hover_step(s, nodes).1[k]).event_type;
        t == EVT_ROLL_OUT || t == EVT_ROLL_OVER
    } by {
        if new != s.chain {
            if k < a.len() {
                assert((a + b)[k] == a[k]);
            } else {
                assert((a + b)[k] == b[k - a.len()]);
            }
        }
    }
}

/// A record names an enabled node of the scene.
pub open spec fn names_enabled(r: PointerRecord, nodes: Seq<SceneNode>) -> bool {
    exists|n: int| 0 <= n < nodes.len() && r.node_id == n as u32 && !(#[trigger] nodes[n]).disabled
}

/// Hover diffs settle: a second diff with the same hit changes nothing and reports nothing.
pub proof fn law_hover_idempotent(s: SlotView, nodes: Seq<SceneNode>)
    ensures
        hover_step(hover_step(s, nodes).0, nodes) == (hover_step(s, nodes).0, Seq::<PointerRecord>::empty()),
{
}

/// A finger keeps its slot: asking again for the slot of the same pointer gives the same slot
/// and changes nothing.
pub proof fn law_slot_stable(v: Seq<SlotView>, tid: i32)
    requires
        slots_ok(v),
    ensures
        spec_slot_for(spec_slot_for(v, tid).0, tid).0 == spec_slot_for(v, tid).0,
        spec_slot_for(spec_slot_for(v, tid).0, tid).1 == spec_slot_for(v, tid).1,
{
    if tid != -1 {
        lemma_first_slot(v, tid, 1);
        if first_slot(v, tid, 1) is None {
            lemma_first_slot(v, -1i32, 1);
            if let Some(j) = first_slot(v, -1i32, 1) {
                let w = spec_slot_for(v, tid).0;
                lemma_first_slot_at(w, tid, 1, j);
            }
        }
    }
}

proof fn lemma_first_slot_at(v: Seq<SlotView>, tid: i32, i: int, j: int)
    requires
        0 <= i <= j < v.len(),
        v[j].touch_id == tid,
        forall|k: int| i <= k < j ==> v[k].touch_id != tid,
    ensures
        first_slot(v, tid, i) == Some(j),
    decreases j - i,
{
    if i < j {
        lemma_first_slot_at(v, tid, i + 1, j);
    }
}

/// Releasing a touch: after an up, a touch slot is free again, holds no monitors and no press.
pub proof fn law_up_frees_touch_slot(s: SlotView, slot: int, inp: PointerStep, nodes: Seq<SceneNode>)
    requires
        slot > 0,
        inp.kind == PointerKind::Up,
    ensures
        spec_step(s, slot, inp, nodes).0.touch_id == -1,
        !spec_step(s, slot, inp, nodes).0.is_down,
        spec_step(s, slot, inp, nodes).0.monitors.len() == 0,
        spec_step(s, slot, inp, nodes).0.down_targets.len() == 0,
        spec_step(s, slot, inp, nodes).0.down_node is None,
{
}


proof fn lemma_click_target_in_scene(s: SlotView, nodes: Seq<SceneNode>, hit: Option<usize>, within: bool)
    requires
        scene_wf(nodes),
    ensures
        click_target(s, nodes, hit, within) matches Some(t) ==> t < nodes.len(),
{
    let c = chain_of(nodes, hit);
    lemma_chain_of_is_chain(nodes, hit);
    lemma_first_in(c, s.down_targets);
    if let Some(x) = first_in(c, s.down_targets) {
        let k = choose|k: int| 0 <= k < c.len() && c[k] == x;
        lemma_anc_in_scene(nodes, hit.unwrap() as int, k as nat);
    }
}

/// Presses and clicks never reach a disabled node: every down and click record names an
/// enabled node of the scene, and every up record either names an enabled node or goes to one
/// of the slot's touch monitors.
pub proof fn law_no_press_on_disabled(s: SlotView, slot: int, inp: PointerStep, nodes: Seq<SceneNode>)
    requires
        scene_wf(nodes),
        inp.hit matches Some(h) ==> h < nodes.len(),
    ensures
        forall|k: int| 0 <= k < spec_step(s, slot, inp, nodes).1.len() ==> {
            let r = #[trigger] spec_step(s, slot, inp, nodes).1[k];
            &&& (r.event_type == EVT_DOWN || r.event_type == EVT_CLICK) ==> names_enabled(r, nodes)
            &&& r.event_type == EVT_UP ==> names_enabled(r, nodes) || exists|j: int| 0 <= j < s.monitors.len() && r.node_id == (#[trigger] s.monitors[j]) as u32
        },
{
    let recs = spec_step(s, slot, inp, nodes).1;
    let s1 = SlotView { last_hit: inp.hit, ..s };
    let tid = inp.touch_id;
    match inp.kind {
        PointerKind::Move => {
            let s2 = if s1.is_down && inp.moved_beyond_cancel {
                SlotView { click_cancelled: true, ..s1 }
            } else {
                s1
            };
            let (s3, hr) = hover_step(s2, nodes);
            lemma_hover_records_roll(s2, nodes);
            let mm = monitor_moves(s3.monitors, tid);
            assert forall|k: int| 0 <= k < recs.len() implies {
                let t = (#[trigger] recs[k]).event_type;
                t != EVT_DOWN && t != EVT_CLICK && t != EVT_UP
            } by {
                if k < hr.len() {
                    assert(recs[k] == hr[k]);
                } else {
                    assert(recs[k] == mm[k - hr.len()]);
                }
            }
        },
        PointerKind::Down => {
            let s2 = SlotView {
                is_down: true,
                down_node: inp.hit,
                down_targets: chain_of(nodes, inp.hit),
                click_cancelled: false,
                ..s1
            };
            let dr = if enabled_hit(nodes, inp.hit) {
                seq![rec(inp.hit.unwrap(), EVT_DOWN, 0, tid)]
            } else {
                Seq::empty()
            };
            let hr = hover_step(s2, nodes).1;
            lemma_hover_records_roll(s2, nodes);
            assert forall|k: int| 0 <= k < recs.len() implies {
                let r = #[trigger] recs[k];
                &&& (r.event_type == EVT_DOWN || r.event_type == EVT_CLICK) ==> names_enabled(r, nodes)
                &&& r.event_type != EVT_UP
            } by {
                if k < dr.len() {
                    assert(recs[k] == dr[k]);
                    let h = inp.hit.unwrap() as int;
                    assert(0 <= h < nodes.len() && recs[k].node_id == h as u32 && !nodes[h].disabled);
                } else {
                    assert(recs[k] == hr[k - dr.len()]);
                }
            }
        },
        PointerKind::Up => {
            let s2 = SlotView { is_down: false, ..s1 };
            lemma_click_target_in_scene(s2, nodes, inp.hit, inp.within_click_threshold);
            let (s3, ucr, out) = if enabled_hit(nodes, inp.hit) {
                let ur = seq![rec(inp.hit.unwrap(), EVT_UP, 0, tid)];
                match click_target(s2, nodes, inp.hit, inp.within_click_threshold) {
                    Some(t) => if !nodes[t as int].disabled {
                        let count = bumped(s2, inp.button, inp.near_last_click);
                        (
                            SlotView { click_count: count, last_click_button: inp.button, ..s2 },
                            ur.push(rec(t, EVT_CLICK, count, tid)),
                            StepOutcome { clicked: true, click_window_reset: false },
                        )
                    } else {
                        (s2, ur, StepOutcome { clicked: false, click_window_reset: false })
                    },
                    None => (
                        SlotView { click_count: 1, ..s2 },
                        ur,
                        StepOutcome { clicked: false, click_window_reset: true },
                    ),
                }
            } else {
                (s2, Seq::empty(), StepOutcome { clicked: false, click_window_reset: false })
            };
            let mr = monitor_ups(s3.monitors, inp.hit, tid);
            lemma_monitor_ups_type(s3.monitors, inp.hit, tid);
            assert(s3.monitors == s.monitors);
            let s4 = SlotView { monitors: Seq::empty(), down_targets: Seq::empty(), down_node: None, ..s3 };
            let hr = hover_step(s4, nodes).1;
            lemma_hover_records_roll(s4, nodes);
            assert(recs == ucr + mr + hr);
            assert forall|k: int| 0 <= k < recs.len() implies {
                let r = #[trigger] recs[k];
                &&& (r.event_type == EVT_DOWN || r.event_type == EVT_CLICK) ==> names_enabled(r, nodes)
                &&& r.event_type == EVT_UP ==> names_enabled(r, nodes) || exists|j: int| 0 <= j < s.monitors.len() && r.node_id == (#[trigger] s.monitors[j]) as u32
            } by {
                if k < ucr.len() {
                    assert(recs[k] == ucr[k]);
                    let h = inp.hit.unwrap() as int;
                    if k == 0 {
                        assert(0 <= h < nodes.len() && recs[k].node_id == h as u32 && !nodes[h].disabled);
                    } else {
                        let t = click_target(s2, nodes, inp.hit, inp.within_click_threshold).unwrap() as int;
                        assert(0 <= t < nodes.len() && recs[k].node_id == t as u32 && !nodes[t].disabled);
                    }
                } else if k < ucr.len() + mr.len() {
                    assert(recs[k] == mr[k - ucr.len()]);
                } else {
                    assert(recs[k] == hr[k - ucr.len() - mr.len()]);
                }
            }
        },
    }
}


proof fn lemma_monitor_ups_nodes(ms: Seq<usize>, hit: Option<usize>, tid: i32)
    ensures
        forall|k: int| 0 <= k < monitor_ups(ms, hit, tid).len() ==> exists|j: int|
            0 <= j < ms.len() && hit != Some(ms[j]) && (#[trigger] monitor_ups(ms, hit, tid)[k]).node_id == ms[j] as u32,
    decreases ms.len(),
{
    if ms.len() > 0 {
        let p = monitor_ups(ms.drop_last(), hit, tid);
        lemma_monitor_ups_nodes(ms.drop_last(), hit, tid);
        assert forall|k: int| 0 <= k < monitor_ups(ms, hit, tid).len() implies exists|j: int|
            0 <= j < ms.len() && hit != Some(ms[j]) && (#[trigger] monitor_ups(ms, hit, tid)[k]).node_id == ms[j] as u32 by {
            if k < p.len() {
                assert(monitor_ups(ms, hit, tid)[k] == p[k]);
                let j = choose|j: int| 0 <= j < ms.drop_last().len() && hit != Some(ms.drop_last()[j]) && p[k].node_id == ms.drop_last()[j] as u32;
                assert(ms[j] == ms.drop_last()[j]);
            } else {
                assert(ms[ms.len() - 1] == ms.last());
            }
        }
    }
}

/// A press and release on a disabled node: neither step gives a down, up or click record for it
/// (the press gives only roll-outs and roll-overs; the release may give ups to the slot's other
/// touch monitors); the press activates no node, and once released, with no other slot pressed,
/// no node is active.
pub proof fn law_press_on_disabled_node(
    v: Seq<SlotView>,
    slot: int,
    down: PointerStep,
    up: PointerStep,
    nodes: Seq<SceneNode>,
    n: usize,
)
    requires
        scene_wf(nodes),
        nodes.len() <= u32::MAX,
        0 <= slot < v.len(),
        n < nodes.len(),
        nodes[n as int].disabled,
        down.kind == PointerKind::Down,
        down.hit == Some(n),
        up.kind == PointerKind::Up,
        up.hit == Some(n),
        forall|j: int| 0 <= j < v[slot].monitors.len() ==> #[trigger] v[slot].monitors[j] < nodes.len(),
        forall|j: int| 0 <= j < v.len() && j != slot ==> !(#[trigger] v[j]).is_down,
    ensures
        ({
            let (s1, r1, o1) = spec_step(v[slot], slot, down, nodes);
            let (s2, r2, o2) = spec_step(s1, slot, up, nodes);
            &&& forall|k: int| 0 <= k < r1.len() ==> (#[trigger] r1[k]).event_type == EVT_ROLL_OUT || r1[k].event_type == EVT_ROLL_OVER
            &&& forall|k: int| 0 <= k < r2.len() && (#[trigger] r2[k]).node_id == n as u32 ==> r2[k].event_type == EVT_ROLL_OUT
                || r2[k].event_type == EVT_ROLL_OVER
            &&& !o2.clicked
            &&& forall|i: int| !active_reach(nodes, s1.down_node, i)
            &&& forall|i: int| !active_by(v.update(slot, s2), nodes, i)
        }),
{
    let s = v[slot];
    let s1d = SlotView { last_hit: down.hit, ..s };
    let s2d = SlotView {
        is_down: true,
        down_node: down.hit,
        down_targets: chain_of(nodes, down.hit),
        click_cancelled: false,
        ..s1d
    };
    lemma_hover_records_roll(s2d, nodes);
    let (s1, r1, o1) = spec_step(s, slot, down, nodes);
    assert(r1 =~= hover_step(s2d, nodes).1);
    assert(s1.monitors == s.monitors);
    assert(s1.down_node == Some(n));
    assert forall|i: int| !active_reach(nodes, s1.down_node, i) by {
        if active_reach(nodes, s1.down_node, i) {
            let k = choose|k: nat| #[trigger] anc(nodes, n as int, k) == Some(i) && unblocked(nodes, n as int, k);
            assert(anc(nodes, n as int, 0) == Some(n as int));
        }
    }
    let s1u = SlotView { last_hit: up.hit, ..s1 };
    let s2u = SlotView { is_down: false, ..s1u };
    let mr = monitor_ups(s2u.monitors, up.hit, up.touch_id);
    let s4 = SlotView { monitors: Seq::empty(), down_targets: Seq::empty(), down_node: None, ..s2u };
    lemma_hover_records_roll(s4, nodes);
    lemma_monitor_ups_nodes(s2u.monitors, up.hit, up.touch_id);
    let hr = hover_step(s4, nodes).1;
    let (s2, r2, o2) = spec_step(s1, slot, up, nodes);
    assert(r2 =~= mr + hr);
    assert forall|k: int| 0 <= k < r2.len() && (#[trigger] r2[k]).node_id == n as u32 implies r2[k].event_type == EVT_ROLL_OUT
        || r2[k].event_type == EVT_ROLL_OVER by {
        if k < mr.len() {
            assert(r2[k] == mr[k]);
            let j = choose|j: int| 0 <= j < s2u.monitors.len() && up.hit != Some(s2u.monitors[j]) && mr[k].node_id == s2u.monitors[j] as u32;
            assert(s.monitors[j] < nodes.len());
        } else {
            assert(r2[k] == hr[k - mr.len()]);
        }
    }
    assert(!s2.is_down);
    let w = v.update(slot, s2);
    assert forall|i: int| !active_by(w, nodes, i) by {
        if active_by(w, nodes, i) {
            let j = choose|j: int| 0 <= j < w.len() && w[j].is_down && #[trigger] active_reach(nodes, w[j].down_node, i);
            assert(j != slot);
        }
    }
}


/// Click counting: a click counts 2 exactly when it comes near the slot's last click (in time
/// and place), with the same button, after a click that counted 1; any other click counts 1, so
/// a click of another button always starts a new count. The slot then keeps that count and the
/// click's button. A click needs an up within the click threshold of the press, on an enabled
/// node, with the press not cancelled by moving away.
pub proof fn law_click_count(s: SlotView, slot: int, inp: PointerStep, nodes: Seq<SceneNode>)
    requires
        inp.kind == PointerKind::Up,
        1 <= s.click_count <= 2,
    ensures
        forall|k: int| 0 <= k < spec_step(s, slot, inp, nodes).1.len()
            && (#[trigger] spec_step(s, slot, inp, nodes).1[k]).event_type == EVT_CLICK ==> {
            let c = spec_step(s, slot, inp, nodes).1[k].click_count;
            &&& c == (if inp.near_last_click && inp.button == s.last_click_button && s.click_count == 1 { 2u8 } else { 1u8 })
            &&& spec_step(s, slot, inp, nodes).0.click_count == c
            &&& spec_step(s, slot, inp, nodes).0.last_click_button == inp.button
            &&& inp.within_click_threshold && !s.click_cancelled
            &&& inp.hit matches Some(h) && !nodes[h as int].disabled
        },
{
    let tid = inp.touch_id;
    let s1 = SlotView { last_hit: inp.hit, ..s };
    let s2 = SlotView { is_down: false, ..s1 };
    let (s3, ucr, out) = if enabled_hit(nodes, inp.hit) {
        let ur = seq![rec(inp.hit.unwrap(), EVT_UP, 0, tid)];
        match click_target(s2, nodes, inp.hit, inp.within_click_threshold) {
            Some(t) => if !nodes[t as int].disabled {
                let count = bumped(s2, inp.button, inp.near_last_click);
                (
                    SlotView { click_count: count, last_click_button: inp.button, ..s2 },
                    ur.push(rec(t, EVT_CLICK, count, tid)),
                    StepOutcome { clicked: true, click_window_reset: false },
                )
            } else {
                (s2, ur, StepOutcome { clicked: false, click_window_reset: false })
            },
            None => (
                SlotView { click_count: 1, ..s2 },
                ur,
                StepOutcome { clicked: false, click_window_reset: true },
            ),
        }
    } else {
        (s2, Seq::empty(), StepOutcome { clicked: false, click_window_reset: false })
    };
    let mr = monitor_ups(s3.monitors, inp.hit, tid);
    let s4 = SlotView { monitors: Seq::empty(), down_targets: Seq::empty(), down_node: None, ..s3 };
    let hr = hover_step(s4, nodes).1;
    lemma_hover_records_roll(s4, nodes);
    lemma_monitor_ups_type(s3.monitors, inp.hit, tid);
    let r = spec_step(s, slot, inp, nodes);
    assert(r.1 =~= ucr + mr + hr);
    assert(r.0.click_count == s3.click_count && r.0.last_click_button == s3.last_click_button);
    assert forall|k: int| 0 <= k < r.1.len() && (#[trigger] r.1[k]).event_type == EVT_CLICK implies {
        let c = r.1[k].click_count;
        &&& c == (if inp.near_last_click && inp.button == s.last_click_button && s.click_count == 1 { 2u8 } else { 1u8 })
        &&& r.0.click_count == c
        &&& r.0.last_click_button == inp.button
        &&& inp.within_click_threshold && !s.click_cancelled
        &&& inp.hit matches Some(h) && !nodes[h as int].disabled
    } by {
        if k < ucr.len() {
            assert(r.1[k] == ucr[k]);
            assert(k == 1);
        } else if k < ucr.len() + mr.len() {
            assert(r.1[k] == mr[k - ucr.len()]);
        } else {
            assert(r.1[k] == hr[k - ucr.len() - mr.len()]);
        }
    }
}

} // verus!