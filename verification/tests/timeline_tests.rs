use timeline::timeline::{AnimationNode, AnimationNodeHandle, NodePositionQuery, Timeline, Vec2};

fn node(x: i64, y: i64, handle: AnimationNodeHandle) -> AnimationNode {
    AnimationNode { pos: Vec2 { x, y }, handle }
}

fn flat(x: i64, y: i64) -> AnimationNode {
    node(x, y, AnimationNodeHandle::Flat)
}

#[test]
fn sorted_is_nondecreasing() {
    let tl = Timeline(vec![flat(3000, 30), flat(1000, 10), flat(4000, 40), flat(2000, 20), flat(0, 0)]);
    let s = tl.sorted();
    assert_eq!(s.len(), 5);
    for w in s.windows(2) {
        assert!(w[0].pos.x <= w[1].pos.x);
    }
    assert_eq!(s[0].pos.x, 0);
    assert_eq!(s[4].pos.x, 4000);
}

#[test]
fn sorted_keeps_tied_nodes_in_insertion_order() {
    let tl = Timeline(vec![flat(5, 1), flat(3, 2), flat(5, 3)]);
    let s = tl.sorted();
    assert_eq!(s[0].pos, Vec2 { x: 3, y: 2 });
    assert_eq!(s[1].pos, Vec2 { x: 5, y: 1 });
    assert_eq!(s[2].pos, Vec2 { x: 5, y: 3 });
}

#[test]
fn sorted_mut_reorders_storage() {
    let mut tl = Timeline(vec![flat(2000, 2), flat(1000, 1)]);
    tl.sorted_mut();
    assert_eq!(tl.0[0].pos.x, 1000);
    assert_eq!(tl.0[1].pos.x, 2000);
}

#[test]
fn bounds_and_width() {
    let tl = Timeline(vec![flat(3000, 3), flat(-1000, 7), flat(2000, 5)]);
    assert_eq!(tl.left_bound(), -1000);
    assert_eq!(tl.right_bound(), 3000);
    assert_eq!(tl.width(), 4000);
    assert_eq!(tl.first().pos.y, 7);
    assert_eq!(tl.last().pos.y, 3);
}

#[test]
fn output_extremes_are_not_tracked() {
    let tl = Timeline(vec![flat(0, 123), flat(1000, 456)]);
    assert_eq!(tl.lower_bound(), 0);
    assert_eq!(tl.upper_bound(), 0);
}

#[test]
fn nearest_classifies_every_case() {
    let empty = Timeline(vec![]);
    assert!(matches!(empty.nearest(7), NodePositionQuery::ZeroNodes));

    let tl = Timeline(vec![flat(1000, 1), flat(3000, 3)]);
    match tl.nearest(1000) {
        NodePositionQuery::Current(n) => assert_eq!(n.pos.y, 1),
        q => panic!("expected Current, got {:?}", q),
    }
    match tl.nearest(500) {
        NodePositionQuery::BeforeBounds(n) => assert_eq!(n.pos.x, 1000),
        q => panic!("expected BeforeBounds, got {:?}", q),
    }
    match tl.nearest(4000) {
        NodePositionQuery::AfterBounds(n) => assert_eq!(n.pos.x, 3000),
        q => panic!("expected AfterBounds, got {:?}", q),
    }
    match tl.nearest(2000) {
        NodePositionQuery::Between(a, b) => {
            assert_eq!(a.pos.x, 1000);
            assert_eq!(b.pos.x, 3000);
        }
        q => panic!("expected Between, got {:?}", q),
    }
}

#[test]
fn sample_on_empty_curve_is_zero() {
    let tl = Timeline(vec![]);
    assert_eq!(tl.value(0), 0);
    assert_eq!(tl.value(i64::MAX), 0);
    assert_eq!(tl.value(i64::MIN), 0);
}

#[test]
fn sample_clamps_to_edges() {
    let tl = Timeline(vec![flat(1000, 111), flat(2000, 222)]);
    assert_eq!(tl.value(-5000), 111);
    assert_eq!(tl.value(999), 111);
    assert_eq!(tl.value(2001), 222);
    assert_eq!(tl.value(90000), 222);
}

#[test]
fn sample_at_exact_key_is_stored_value() {
    let tl = Timeline(vec![flat(1000, 111), flat(2000, 222), flat(3000, 333)]);
    assert_eq!(tl.value(1000), 111);
    assert_eq!(tl.value(2000), 222);
    assert_eq!(tl.value(3000), 333);
}

#[test]
fn flat_handle_holds_value_until_next_node() {
    let tl = Timeline(vec![flat(1000, 111), flat(2000, 222)]);
    assert_eq!(tl.value(1000), 111);
    assert_eq!(tl.value(1001), 111);
    assert_eq!(tl.value(1500), 111);
    assert_eq!(tl.value(1999), 111);
    assert_eq!(tl.value(2000), 222);
}

#[test]
fn handle_left_resolution() {
    let v = Vec2 { x: 750, y: 10 };
    assert_eq!(AnimationNodeHandle::Flat.handle_left(), None);
    assert_eq!(AnimationNodeHandle::Straight.handle_left(), None);
    assert_eq!(AnimationNodeHandle::HandleLeft(v).handle_left(), Some(v));
    assert_eq!(AnimationNodeHandle::HandleRight(v).handle_left(), None);
    let w = Vec2 { x: -1, y: 2 };
    assert_eq!(AnimationNodeHandle::HandleBoth(v, w).handle_left(), Some(v));
    // The fixed pair mirrors to a non-positive key-axis component.
    assert_eq!(
        AnimationNodeHandle::HandleFixed(v).handle_left(),
        Some(Vec2 { x: -750, y: -10 })
    );
    assert_eq!(AnimationNodeHandle::HandleFixed(w).handle_left(), Some(w));
}

#[test]
fn handle_right_resolution() {
    let v = Vec2 { x: 750, y: 10 };
    let w = Vec2 { x: -250, y: 5 };
    assert_eq!(AnimationNodeHandle::Flat.handle_right(), None);
    assert_eq!(AnimationNodeHandle::Straight.handle_right(), None);
    assert_eq!(AnimationNodeHandle::HandleLeft(v).handle_right(), None);
    assert_eq!(AnimationNodeHandle::HandleRight(w).handle_right(), Some(w));
    assert_eq!(AnimationNodeHandle::HandleBoth(w, v).handle_right(), Some(v));
    // The fixed pair mirrors to a non-negative key-axis component.
    assert_eq!(AnimationNodeHandle::HandleFixed(v).handle_right(), Some(v));
    assert_eq!(
        AnimationNodeHandle::HandleFixed(w).handle_right(),
        Some(Vec2 { x: 250, y: -5 })
    );
}

#[test]
fn mirroring_saturates_at_the_range_edge() {
    let v = Vec2 { x: i64::MIN, y: i64::MIN };
    assert_eq!(
        AnimationNodeHandle::HandleFixed(v).handle_right(),
        Some(Vec2 { x: i64::MAX, y: i64::MAX })
    );
}

#[test]
fn bezier_segment_exact_value() {
    // Both inner control points sit at key 0, so every fixed-point step of
    // the four Newton rounds is small enough to follow by hand.
    let tl = Timeline(vec![
        node(1000, 0, AnimationNodeHandle::HandleRight(Vec2 { x: -1000, y: 0 })),
        node(3000, 9000, AnimationNodeHandle::HandleLeft(Vec2 { x: -3000, y: 0 })),
    ]);
    assert_eq!(tl.value(2000), 11349);
}

#[test]
fn bezier_zero_slope_exits_with_raw_parameter() {
    // At query 0 the derivative vanishes immediately, so sampling returns
    // the unmapped parameter guess (0), not the mapped output (5000).
    let tl = Timeline(vec![
        node(-1000, 5000, AnimationNodeHandle::HandleRight(Vec2 { x: 1000, y: 0 })),
        node(1000, 9000, AnimationNodeHandle::HandleLeft(Vec2 { x: -1000, y: 0 })),
    ]);
    assert_eq!(tl.value(0), 0);
}

#[test]
fn missing_tangent_degenerates_to_zero() {
    let tl = Timeline(vec![
        node(0, 5000, AnimationNodeHandle::HandleRight(Vec2 { x: 100, y: 0 })),
        node(1000, 9000, AnimationNodeHandle::Straight),
    ]);
    assert_eq!(tl.value(500), 0);

    let tl2 = Timeline(vec![
        node(0, 5000, AnimationNodeHandle::Straight),
        node(1000, 9000, AnimationNodeHandle::HandleLeft(Vec2 { x: -100, y: 0 })),
    ]);
    assert_eq!(tl2.value(500), 0);
}

#[test]
fn segments_pairs_handles_in_sorted_order() {
    let h0 = AnimationNodeHandle::HandleBoth(Vec2 { x: -1, y: 0 }, Vec2 { x: 1, y: 0 });
    let h1 = AnimationNodeHandle::HandleLeft(Vec2 { x: -2, y: 0 });
    let h2 = AnimationNodeHandle::HandleFixed(Vec2 { x: 3, y: 0 });
    let tl = Timeline(vec![node(2000, 2, h1), node(1000, 1, h0), node(3000, 3, h2)]);
    let segs = tl.segments();
    assert_eq!(segs.len(), 3);
    assert_eq!(segs[0], (None, Some(Vec2 { x: -1, y: 0 })));
    assert_eq!(segs[1], (Some(Vec2 { x: 1, y: 0 }), Some(Vec2 { x: -2, y: 0 })));
    // HandleLeft contributes nothing on the right; HandleFixed mirrors.
    assert_eq!(segs[2], (None, Some(Vec2 { x: -3, y: 0 })));
}
