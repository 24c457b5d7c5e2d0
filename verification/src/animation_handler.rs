//! The playback controller: a cursor driven over a timeline once per tick.
//!
//! Each tick advances the cursor by the elapsed time scaled by the speed
//! (negated while a ping-pong pass runs backwards), applies the looping
//! policy when the cursor leaves the timeline's key-axis domain, and
//! resamples the output value at the settled position.  Two quirks of the
//! boundary policy are kept deliberately: a single-shot or forward
//! ping-pong crossing parks the cursor at the output value sampled at the
//! right bound, not at the bound itself, and looping resets the cursor to
//! the origin, not to the left bound.

use vstd::prelude::*;

verus! {

use crate::fixed::{SCALE, sat, fmul, fx_mul, sat_add, sat_neg};
use crate::timeline::{Timeline, AnimationNode, sample};
use crate::sorting::sorted_seq;

/// Looping policy of a playback cursor.
#[derive(Clone, Copy, Debug, PartialEq, Eq, Structural)]
pub enum AnimationType {
    /// Stop at the first boundary crossing.
    Single,
    /// Restart from the origin at each crossing.
    Loop,
    /// Reverse direction at each crossing.
    LoopPingPong,
}

/// Playback state of one animated entity.
pub struct AnimationHandler {
    /// The curve being played.
    pub timeline: Timeline,
    /// While false, position and value are frozen.
    pub running: bool,
    /// The cursor's key-axis position.
    pub position: i64,
    /// The output value sampled at the cursor.
    pub value: i64,
    /// Advancement per unit of elapsed time, fixed point.
    pub speed: i64,
    /// The looping policy.
    pub animation_type: AnimationType,
    /// Whether a ping-pong pass currently runs backwards.
    pub pong: bool,
}

/// The cursor position after one tick's advancement, before any boundary
/// handling: the elapsed time times the speed, negated on a backward pass.
pub open spec fn advanced_position(pos: int, speed: int, pong: bool, dt: int) -> int {
    let m = fmul(dt, speed);
    let dm = if pong {
        sat(-m)
    } else {
        m
    };
    sat(pos + dm)
}

/// Whether this tick's advancement carries the cursor out of the timeline's
/// key-axis domain.  An empty timeline has no domain to cross.
pub open spec fn crosses(
    nodes: Seq<AnimationNode>,
    pos: int,
    speed: int,
    pong: bool,
    dt: int,
) -> bool {
    let t = sorted_seq(nodes);
    let p1 = advanced_position(pos, speed, pong, dt);
    t.len() > 0 && (p1 > t.last().pos.x || p1 < t[0].pos.x)
}

/// One tick of the playback state machine, as the quadruple
/// `(running, position, value, pong)` after the tick.
pub open spec fn tick_spec(
    nodes: Seq<AnimationNode>,
    running: bool,
    pos: int,
    val: int,
    speed: int,
    mode: AnimationType,
    pong: bool,
    dt: int,
) -> (bool, int, int, bool) {
    if !running {
        (false, pos, val, pong)
    } else {
        let t = sorted_seq(nodes);
        let p1 = advanced_position(pos, speed, pong, dt);
        if crosses(nodes, pos, speed, pong, dt) {
            let vrb = sample(t, t.last().pos.x as int);
            match mode {
                AnimationType::Single => (false, vrb, sample(t, vrb), pong),
                AnimationType::Loop => (true, 0, sample(t, 0), pong),
                AnimationType::LoopPingPong => if pong {
                    (true, 0, sample(t, 0), false)
                } else {
                    (true, vrb, sample(t, vrb), true)
                },
            }
        } else {
            (true, p1, sample(t, p1), pong)
        }
    }
}

impl AnimationHandler {
    /// Advances the cursor by the elapsed time `dt` (fixed point), applies
    /// the looping policy at a domain boundary, and resamples the output.
    pub fn tick(&mut self, dt: i64)
        requires
            dt >= 0,
        ensures
            final(self).timeline.0@ == old(self).timeline.0@,
            final(self).speed == old(self).speed,
            final(self).animation_type == old(self).animation_type,
            (final(self).running, final(self).position as int, final(self).value as int,
            final(self).pong) == tick_spec(
                old(self).timeline.0@,
                old(self).running,
                old(self).position as int,
                old(self).value as int,
                old(self).speed as int,
                old(self).animation_type,
                old(self).pong,
                dt as int,
            ),
    {
        if !self.running {
            return ;
        }
        let m = fx_mul(dt, self.speed);
        let dm = if self.pong {
            sat_neg(m)
        } else {
            m
        };
        let p1 = sat_add(self.position, dm);
        self.position = p1;
        if self.timeline.0.len() > 0 {
            let rb = self.timeline.right_bound();
            let lb = self.timeline.left_bound();
            if p1 > rb || p1 < lb {
                match self.animation_type {
                    AnimationType::Single => {
                        let v = self.timeline.value(rb);
                        self.position = v;
                        self.running = false;
                    },
                    AnimationType::Loop => {
                        self.position = 0;
                    },
                    AnimationType::LoopPingPong => {
                        if self.pong {
                            self.position = 0;
                        } else {
                            let v = self.timeline.value(rb);
                            self.position = v;
                        }
                        self.pong = !self.pong;
                    },
                }
            }
        }
        let v2 = self.timeline.value(self.position);
        self.value = v2;
    }
}

impl Default for AnimationHandler {
    /// A running cursor at the origin over an empty timeline: unit speed,
    /// looping, playing forward.
    fn default() -> (r: Self)
        ensures
            r.timeline.0@.len() == 0,
            r.running == true,
            r.position == 0,
            r.value == 0,
            r.speed == SCALE,
            r.animation_type is Loop,
            r.pong == false,
    {
        AnimationHandler {
            timeline: Timeline(Vec::new()),
            running: true,
            position: 0,
            value: 0,
            speed: SCALE,
            animation_type: AnimationType::Loop,
            pong: false,
        }
    }
}

/// After a running tick, the output value is exactly the curve sampled at
/// the settled cursor position, whichever boundary policy applied.
pub proof fn lemma_value_tracks_position(
    nodes: Seq<AnimationNode>,
    pos: int,
    val: int,
    speed: int,
    mode: AnimationType,
    pong: bool,
    dt: int,
)
    ensures
        ({
            let st = tick_spec(nodes, true, pos, val, speed, mode, pong, dt);
            st.2 == sample(sorted_seq(nodes), st.1)
        }),
{
}

/// A stopped cursor is frozen: a tick of any length leaves the whole
/// playback state unchanged.
pub proof fn lemma_stopped_frozen(
    nodes: Seq<AnimationNode>,
    pos: int,
    val: int,
    speed: int,
    mode: AnimationType,
    pong: bool,
    dt: int,
)
    ensures
        tick_spec(nodes, false, pos, val, speed, mode, pong, dt) == (false, pos, val, pong),
{
}

/// Single-shot termination: a tick that crosses the boundary in `Single`
/// mode stops the cursor, and every later tick leaves the stopped state --
/// running flag, position and value -- unchanged.
pub proof fn lemma_single_shot_terminates(
    nodes: Seq<AnimationNode>,
    pos: int,
    val: int,
    speed: int,
    pong: bool,
    dt: int,
    dt2: int,
)
    requires
        crosses(nodes, pos, speed, pong, dt),
    ensures
        !tick_spec(nodes, true, pos, val, speed, AnimationType::Single, pong, dt).0,
        ({
            let st = tick_spec(nodes, true, pos, val, speed, AnimationType::Single, pong, dt);
            tick_spec(nodes, st.0, st.1, st.2, speed, AnimationType::Single, st.3, dt2) == st
        }),
{
}

/// Ping-pong symmetry: from a forward pass, two consecutive boundary
/// crossings return the direction flag to forward and park the cursor at
/// the origin, its reset target -- a period of exactly two crossings.
pub proof fn lemma_ping_pong_period(
    nodes: Seq<AnimationNode>,
    pos: int,
    val: int,
    speed: int,
    dt: int,
    dt2: int,
)
    requires
        crosses(nodes, pos, speed, false, dt),
        ({
            let st = tick_spec(nodes, true, pos, val, speed, AnimationType::LoopPingPong, false, dt);
            crosses(nodes, st.1, speed, st.3, dt2)
        }),
    ensures
        ({
            let st = tick_spec(nodes, true, pos, val, speed, AnimationType::LoopPingPong, false, dt);
            let st2 = tick_spec(nodes, st.0, st.1, st.2, speed, AnimationType::LoopPingPong, st.3, dt2);
            st.3 == true && st2.3 == false && st2.1 == 0 && st2.0 == true
        }),
{
}

} // verus!
