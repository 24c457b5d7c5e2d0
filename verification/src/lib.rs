//! A one-dimensional keyframe animation timeline.
//!
//! A curve is an unordered collection of key nodes, each carrying a position
//! (key axis and output axis) and an optional pair of tangent handles.  The
//! curve answers "what is the output value at key-axis position `x`?" by
//! sorting its nodes, classifying `x` against them and, between two nodes,
//! evaluating a cubic Bezier through a Newton parameter search.  A playback
//! handler drives a cursor over that domain once per tick, with single-shot,
//! looping and ping-pong boundary policies.
//!
//! Scalars on both axes are fixed point: an `i64` counts thousandths of a
//! unit (see [`fixed::SCALE`]), and all curve arithmetic saturates at the
//! edges of the representable range instead of wrapping.

pub mod fixed;

pub mod bezier;

pub mod sorting;

pub mod timeline;

pub mod animation_handler;
