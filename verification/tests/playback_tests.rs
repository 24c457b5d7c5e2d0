use timeline::animation_handler::{AnimationHandler, AnimationType};
use timeline::fixed::SCALE;
use timeline::timeline::{AnimationNode, AnimationNodeHandle, Timeline, Vec2};

fn flat(x: i64, y: i64) -> AnimationNode {
    AnimationNode { pos: Vec2 { x, y }, handle: AnimationNodeHandle::Flat }
}

/// The five-node staircase curve: keys 0..4 units, values 0, 100, 200, 300, 0.
fn staircase() -> Timeline {
    Timeline(vec![
        flat(0, 0),
        flat(1000, 100_000),
        flat(2000, 200_000),
        flat(3000, 300_000),
        flat(4000, 0),
    ])
}

fn handler(tl: Timeline, mode: AnimationType) -> AnimationHandler {
    AnimationHandler { timeline: tl, animation_type: mode, ..Default::default() }
}

#[test]
fn default_handler_state() {
    let h = AnimationHandler::default();
    assert_eq!(h.timeline.0.len(), 0);
    assert!(h.running);
    assert_eq!(h.position, 0);
    assert_eq!(h.value, 0);
    assert_eq!(h.speed, SCALE);
    assert!(matches!(h.animation_type, AnimationType::Loop));
    assert!(!h.pong);
}

#[test]
fn loop_scenario_half_second_then_reset() {
    let mut h = handler(staircase(), AnimationType::Loop);
    // Half a second at unit speed: half a unit in, still on the flat hold
    // of the node at the origin.
    h.tick(500);
    assert_eq!(h.position, 500);
    assert_eq!(h.value, 0);
    // Tick past the right bound: the loop resets to the origin.
    h.position = 3800;
    h.tick(300);
    assert_eq!(h.position, 0);
    assert_eq!(h.value, 0);
    assert!(h.running);
}

#[test]
fn loop_walks_the_staircase() {
    let mut h = handler(staircase(), AnimationType::Loop);
    h.tick(1500);
    assert_eq!(h.position, 1500);
    assert_eq!(h.value, 100_000);
    h.tick(1000);
    assert_eq!(h.position, 2500);
    assert_eq!(h.value, 200_000);
}

#[test]
fn single_scenario_stops_at_sampled_edge_value() {
    let mut h = handler(staircase(), AnimationType::Single);
    h.position = 3800;
    h.tick(300);
    // The cursor parks at the output value sampled at the right bound --
    // zero for this curve -- not at the bound itself, and stops.
    assert_eq!(h.position, 0);
    assert_eq!(h.value, 0);
    assert!(!h.running);
}

#[test]
fn single_parks_at_sampled_value_not_at_bound() {
    let tl = Timeline(vec![flat(0, 0), flat(4000, 7000)]);
    let mut h = handler(tl, AnimationType::Single);
    h.position = 3900;
    h.tick(200);
    assert!(!h.running);
    // Sampled value at the right bound is 7000; the bound itself is 4000.
    assert_eq!(h.position, 7000);
    assert_eq!(h.value, 7000);
}

#[test]
fn stopped_handler_is_frozen() {
    let mut h = handler(staircase(), AnimationType::Single);
    h.position = 3900;
    h.tick(200);
    assert!(!h.running);
    let (p, v) = (h.position, h.value);
    h.tick(500);
    h.tick(12_000);
    assert!(!h.running);
    assert_eq!(h.position, p);
    assert_eq!(h.value, v);
}

#[test]
fn paused_handler_does_not_advance() {
    let mut h = handler(staircase(), AnimationType::Loop);
    h.running = false;
    h.position = 1500;
    h.value = 42;
    h.tick(1000);
    assert_eq!(h.position, 1500);
    assert_eq!(h.value, 42);
}

#[test]
fn ping_pong_two_crossings_return_to_origin() {
    let tl = Timeline(vec![flat(0, 0), flat(4000, 7000)]);
    let mut h = handler(tl, AnimationType::LoopPingPong);
    h.position = 3900;
    // First crossing: park at the sampled right-bound value, turn backwards.
    h.tick(200);
    assert!(h.pong);
    assert_eq!(h.position, 7000);
    assert_eq!(h.value, 7000);
    // The parked position is itself beyond the right bound, so the next
    // tick crosses again: back to the origin, playing forward.
    h.tick(200);
    assert!(!h.pong);
    assert_eq!(h.position, 0);
    assert_eq!(h.value, 0);
    assert!(h.running);
}

#[test]
fn ping_pong_backward_pass_moves_left() {
    let tl = Timeline(vec![flat(0, 10), flat(4000, 7000)]);
    let mut h = handler(tl, AnimationType::LoopPingPong);
    h.pong = true;
    h.position = 500;
    h.tick(200);
    assert_eq!(h.position, 300);
    assert_eq!(h.value, 10);
    assert!(h.pong);
}

#[test]
fn crossing_below_left_bound_also_resets() {
    let tl = Timeline(vec![flat(1000, 50), flat(2000, 60)]);
    let mut h = handler(tl, AnimationType::Loop);
    h.speed = -SCALE;
    h.position = 1100;
    h.tick(200);
    // 900 is below the left bound (1000): the loop resets to the origin,
    // which samples to the left edge's value.
    assert_eq!(h.position, 0);
    assert_eq!(h.value, 50);
}

#[test]
fn speed_scales_advancement() {
    let mut h = handler(staircase(), AnimationType::Loop);
    h.speed = 500;
    h.tick(1000);
    assert_eq!(h.position, 500);
    h.speed = 2000;
    h.tick(1000);
    assert_eq!(h.position, 2500);
}

#[test]
fn empty_timeline_ticks_without_panic() {
    let mut h = AnimationHandler::default();
    h.tick(1000);
    assert_eq!(h.position, 1000);
    assert_eq!(h.value, 0);
    assert!(h.running);
}
