//! The curve model: key nodes, tangent handles, ordering, neighbour
//! classification and value sampling.

use vstd::prelude::*;

verus! {

use crate::fixed::{sat, sat_add, sat_neg};
use crate::bezier::bezier_at;
use crate::bezier::bezier_value;
use crate::sorting::{sorted_keys, unique_keys, sorted_seq, lemma_sorted_seq_props,
    lemma_sorted_seq_unique, lemma_insert_node_at};

/// A two-component fixed-point vector: `x` is the key axis, `y` the output
/// axis.
#[derive(Clone, Copy, Debug, PartialEq, Eq, Structural)]
pub struct Vec2 {
    pub x: i64,
    pub y: i64,
}

impl Vec2 {
    /// A vector from its two components.
    pub fn new(x: i64, y: i64) -> (r: Vec2)
        ensures
            r.x == x,
            r.y == y,
    {
        Vec2 { x, y }
    }
}

/// Tangent descriptor of a key node.
#[derive(Clone, Copy, Debug, PartialEq, Eq, Structural)]
pub enum AnimationNodeHandle {
    /// No tangents; the segment leaving this node holds the node's value.
    Flat,
    /// A handle with no curve on either side.
    Straight,
    /// A handle with a curve node on the left side.
    HandleLeft(Vec2),
    /// A handle with a curve node on the right side.
    HandleRight(Vec2),
    /// A handle with a curve node on both sides.
    HandleBoth(Vec2, Vec2),
    /// A handle with a fixed pair of curve nodes that are equidistant and
    /// collinear through the node.
    HandleFixed(Vec2),
}

/// `v` mirrored through the origin, saturating.
pub open spec fn mirrored(v: Vec2) -> Vec2 {
    Vec2 { x: sat(-(v.x as int)) as i64, y: sat(-(v.y as int)) as i64 }
}

/// The effective tangent offset on a node's left side.
pub open spec fn spec_handle_left(h: AnimationNodeHandle) -> Option<Vec2> {
    match h {
        AnimationNodeHandle::Flat => None,
        AnimationNodeHandle::Straight => None,
        AnimationNodeHandle::HandleLeft(v) => Some(v),
        AnimationNodeHandle::HandleRight(_) => None,
        AnimationNodeHandle::HandleBoth(v, _) => Some(v),
        AnimationNodeHandle::HandleFixed(v) => if v.x <= 0 {
            Some(v)
        } else {
            Some(mirrored(v))
        },
    }
}

/// The effective tangent offset on a node's right side.
pub open spec fn spec_handle_right(h: AnimationNodeHandle) -> Option<Vec2> {
    match h {
        AnimationNodeHandle::Flat => None,
        AnimationNodeHandle::Straight => None,
        AnimationNodeHandle::HandleLeft(_) => None,
        AnimationNodeHandle::HandleRight(v) => Some(v),
        AnimationNodeHandle::HandleBoth(_, v) => Some(v),
        AnimationNodeHandle::HandleFixed(v) => if v.x >= 0 {
            Some(v)
        } else {
            Some(mirrored(v))
        },
    }
}

impl AnimationNodeHandle {
    /// The effective tangent offset on the left side: the fixed pair
    /// contributes its offset mirrored to a non-positive key-axis component.
    pub fn handle_left(&self) -> (r: Option<Vec2>)
        ensures
            r == spec_handle_left(*self),
    {
        match self {
            Self::Flat => None,
            Self::Straight => None,
            Self::HandleLeft(h) => Some(*h),
            Self::HandleRight(_) => None,
            Self::HandleBoth(h, _) => Some(*h),
            Self::HandleFixed(h) => if h.x <= 0 {
                Some(*h)
            } else {
                Some(Vec2 { x: sat_neg(h.x), y: sat_neg(h.y) })
            },
        }
    }

    /// The effective tangent offset on the right side: the fixed pair
    /// contributes its offset mirrored to a non-negative key-axis component.
    pub fn handle_right(&self) -> (r: Option<Vec2>)
        ensures
            r == spec_handle_right(*self),
    {
        match self {
            Self::Flat => None,
            Self::Straight => None,
            Self::HandleLeft(_) => None,
            Self::HandleRight(h) => Some(*h),
            Self::HandleBoth(_, h) => Some(*h),
            Self::HandleFixed(h) => if h.x >= 0 {
                Some(*h)
            } else {
                Some(Vec2 { x: sat_neg(h.x), y: sat_neg(h.y) })
            },
        }
    }
}

/// A key node: a position on the curve and its tangent handle.
#[derive(Clone, Copy, Debug, PartialEq, Eq, Structural)]
pub struct AnimationNode {
    pub pos: Vec2,
    pub handle: AnimationNodeHandle,
}

/// Classification of a key-axis position against the sorted node set.
#[derive(Clone, Copy, Debug, PartialEq, Eq, Structural)]
pub enum NodePositionQuery {
    /// The node set is empty.
    ZeroNodes,
    /// A node sits exactly at the queried position.
    Current(AnimationNode),
    /// The position lies strictly between two adjacent sorted nodes.
    Between(AnimationNode, AnimationNode),
    /// The position lies left of the smallest node, which is carried.
    BeforeBounds(AnimationNode),
    /// The position lies right of the largest node, which is carried.
    AfterBounds(AnimationNode),
}

/// An unordered collection of key nodes.
#[derive(Clone)]
pub struct Timeline(pub Vec<AnimationNode>);

/// Whether some node of `t` sits exactly at key-axis value `x`.
pub open spec fn has_key(t: Seq<AnimationNode>, x: int) -> bool {
    exists|i: int| 0 <= i < t.len() && (#[trigger] t[i]).pos.x == x
}

/// Index of the first node of `t` at key-axis value `x`.
pub open spec fn first_key_index(t: Seq<AnimationNode>, x: int) -> int {
    choose|i: int|
        0 <= i < t.len() && (#[trigger] t[i]).pos.x == x && (forall|j: int|
            0 <= j < i ==> (#[trigger] t[j]).pos.x != x)
}

/// Index of the sorted segment of `t` that strictly contains `x`.
pub open spec fn segment_index(t: Seq<AnimationNode>, x: int) -> int {
    choose|i: int| 0 <= i < t.len() - 1 && (#[trigger] t[i]).pos.x < x && t[i + 1].pos.x > x
}

/// Classification of `x` against the sorted node sequence `t`: an exact key
/// match wins, then the two domain edges, then the enclosing segment.
pub open spec fn locate(t: Seq<AnimationNode>, x: int) -> NodePositionQuery {
    if t.len() == 0 {
        NodePositionQuery::ZeroNodes
    } else if has_key(t, x) {
        NodePositionQuery::Current(t[first_key_index(t, x)])
    } else if x < t[0].pos.x {
        NodePositionQuery::BeforeBounds(t[0])
    } else if x > t.last().pos.x {
        NodePositionQuery::AfterBounds(t.last())
    } else {
        NodePositionQuery::Between(t[segment_index(t, x)], t[segment_index(t, x) + 1])
    }
}

/// The value of the segment from `a` to `b` at key-axis position `x`: a
/// flat opening node holds its own value; otherwise both facing tangents
/// must resolve, and carry the Bezier's inner control points; a missing
/// tangent degenerates to zero.
pub open spec fn segment_value(a: AnimationNode, b: AnimationNode, x: int) -> int {
    if a.handle is Flat {
        a.pos.y as int
    } else {
        match (spec_handle_right(a.handle), spec_handle_left(b.handle)) {
            (Some(l), Some(r)) => bezier_at(
                x,
                a.pos.y as int,
                sat(l.x + a.pos.x),
                sat(r.x + b.pos.x),
                b.pos.y as int,
            ),
            _ => 0,
        }
    }
}

/// The sampled output of the curve whose sorted node order is `t`, at `x`:
/// zero on an empty curve, the node's stored value at or beyond a node,
/// and the segment's value in between.
pub open spec fn sample(t: Seq<AnimationNode>, x: int) -> int {
    match locate(t, x) {
        NodePositionQuery::ZeroNodes => 0,
        NodePositionQuery::Current(nd) => nd.pos.y as int,
        NodePositionQuery::BeforeBounds(nd) => nd.pos.y as int,
        NodePositionQuery::AfterBounds(nd) => nd.pos.y as int,
        NodePositionQuery::Between(a, b) => segment_value(a, b, x),
    }
}

/// A witness index that is the first key match fixes `first_key_index`.
proof fn lemma_first_key_index_is(t: Seq<AnimationNode>, x: int, i: int)
    requires
        0 <= i < t.len(),
        t[i].pos.x == x,
        forall|j: int| 0 <= j < i ==> (#[trigger] t[j]).pos.x != x,
    ensures
        first_key_index(t, x) == i,
{
    assert(0 <= i < t.len() && (#[trigger] t[i]).pos.x == x && (forall|j: int|
        0 <= j < i ==> (#[trigger] t[j]).pos.x != x));
    let k = first_key_index(t, x);
    assert(0 <= k < t.len() && t[k].pos.x == x && (forall|j: int|
        0 <= j < k ==> (#[trigger] t[j]).pos.x != x));
    if k < i {
        assert(t[k].pos.x != x);
    } else if i < k {
        assert(t[i].pos.x != x);
    }
}

/// A witness that straddles `x` fixes `segment_index` when `t` is sorted.
proof fn lemma_segment_index_is(t: Seq<AnimationNode>, x: int, i: int)
    requires
        sorted_keys(t),
        0 <= i < t.len() - 1,
        t[i].pos.x < x,
        t[i + 1].pos.x > x,
    ensures
        segment_index(t, x) == i,
{
    assert(0 <= i < t.len() - 1 && (#[trigger] t[i]).pos.x < x && t[i + 1].pos.x > x);
    let k = segment_index(t, x);
    assert(0 <= k < t.len() - 1 && t[k].pos.x < x && t[k + 1].pos.x > x);
    if k < i {
        assert(t[k + 1].pos.x <= t[i].pos.x);
    } else if i < k {
        assert(t[i + 1].pos.x <= t[k].pos.x);
    }
}

impl Timeline {
    /// The nodes in ascending key order; nodes with equal keys keep their
    /// original relative order.
    pub fn sorted(&self) -> (r: Vec<AnimationNode>)
        ensures
            r@ == sorted_seq(self.0@),
            r@.len() == self.0@.len(),
            sorted_keys(r@),
            r@.to_multiset() == self.0@.to_multiset(),
    {
        let mut out: Vec<AnimationNode> = Vec::new();
        let mut i: usize = 0;
        proof {
            assert(out@ =~= sorted_seq(self.0@.take(0)));
        }
        while i < self.0.len()
            invariant
                i <= self.0.len(),
                out@ == sorted_seq(self.0@.take(i as int)),
            decreases self.0.len() - i,
        {
            proof {
                lemma_sorted_seq_props(self.0@.take(i as int));
            }
            let nd = self.0[i];
            let mut j: usize = out.len();
            while j > 0 && out[j - 1].pos.x > nd.pos.x
                invariant
                    j <= out@.len(),
                    forall|k: int| j <= k < out@.len() ==> (#[trigger] out@[k]).pos.x > nd.pos.x,
                decreases j,
            {
                j = j - 1;
            }
            proof {
                lemma_insert_node_at(out@, nd, j as int);
                assert(self.0@.take(i + 1).drop_last() =~= self.0@.take(i as int));
                assert(self.0@.take(i + 1).last() == self.0@[i as int]);
            }
            out.insert(j, nd);
            i = i + 1;
        }
        proof {
            assert(self.0@.take(self.0@.len() as int) =~= self.0@);
            lemma_sorted_seq_props(self.0@);
        }
        out
    }

    /// Reorders the stored nodes themselves into ascending key order, so a
    /// caller may edit them through the sorted positions.
    pub fn sorted_mut(&mut self)
        ensures
            final(self).0@ == sorted_seq(old(self).0@),
    {
        let s = self.sorted();
        self.0 = s;
    }

    /// The earliest node in key order.
    pub fn first(&self) -> (r: AnimationNode)
        requires
            self.0@.len() > 0,
        ensures
            r == sorted_seq(self.0@)[0],
    {
        proof {
            lemma_sorted_seq_props(self.0@);
        }
        let s = self.sorted();
        s[0]
    }

    /// The latest node in key order.
    pub fn last(&self) -> (r: AnimationNode)
        requires
            self.0@.len() > 0,
        ensures
            r == sorted_seq(self.0@).last(),
    {
        proof {
            lemma_sorted_seq_props(self.0@);
        }
        let s = self.sorted();
        s[s.len() - 1]
    }

    /// The smallest key-axis value among the nodes.
    pub fn left_bound(&self) -> (r: i64)
        requires
            self.0@.len() > 0,
        ensures
            r == sorted_seq(self.0@)[0].pos.x,
            forall|i: int| 0 <= i < self.0@.len() ==> r <= (#[trigger] self.0@[i]).pos.x,
    {
        proof {
            lemma_sorted_seq_props(self.0@);
            let t = sorted_seq(self.0@);
            assert forall|i: int| 0 <= i < self.0@.len() implies t[0].pos.x
                <= (#[trigger] self.0@[i]).pos.x by {
                let e = self.0@[i];
                assert(self.0@.contains(e));
                assert(t.contains(e));
                let k = t.lemma_contains_to_index(e);
                assert(t[0].pos.x <= t[k].pos.x);
            }
        }
        self.first().pos.x
    }

    /// The largest key-axis value among the nodes.
    pub fn right_bound(&self) -> (r: i64)
        requires
            self.0@.len() > 0,
        ensures
            r == sorted_seq(self.0@).last().pos.x,
            forall|i: int| 0 <= i < self.0@.len() ==> r >= (#[trigger] self.0@[i]).pos.x,
    {
        proof {
            lemma_sorted_seq_props(self.0@);
            let t = sorted_seq(self.0@);
            assert forall|i: int| 0 <= i < self.0@.len() implies t.last().pos.x
                >= (#[trigger] self.0@[i]).pos.x by {
                let e = self.0@[i];
                assert(self.0@.contains(e));
                assert(t.contains(e));
                let k = t.lemma_contains_to_index(e);
                assert(t[k].pos.x <= t[t.len() - 1].pos.x);
            }
        }
        self.last().pos.x
    }

    /// The key-axis span between the outermost nodes, saturating.
    pub fn width(&self) -> (r: i64)
        requires
            self.0@.len() > 0,
        ensures
            r as int == sat(
                sorted_seq(self.0@).last().pos.x - sorted_seq(self.0@)[0].pos.x,
            ),
    {
        let rb = self.right_bound();
        let lb = self.left_bound();
        crate::fixed::sat_sub(rb, lb)
    }

    /// The smallest value represented on this timeline.  The model does not
    /// derive the output-axis extremes from the curve shape; this reports
    /// zero, as the playback layer never reads it.
    pub fn lower_bound(&self) -> (r: i64)
        ensures
            r == 0,
    {
        0
    }

    /// The largest value represented on this timeline.  The model does not
    /// derive the output-axis extremes from the curve shape; this reports
    /// zero, as the playback layer never reads it.
    pub fn upper_bound(&self) -> (r: i64)
        ensures
            r == 0,
    {
        0
    }

    /// Classifies `x` against this timeline's sorted node set.
    #[verifier::rlimit(50)]
    pub fn nearest(&self, x: i64) -> (r: NodePositionQuery)
        ensures
            r == locate(sorted_seq(self.0@), x as int),
    {
        proof {
            lemma_sorted_seq_props(self.0@);
        }
        let ghost t = sorted_seq(self.0@);
        if self.0.len() == 0 {
            return NodePositionQuery::ZeroNodes;
        }
        let snodes = self.sorted();
        let n = snodes.len();
        let mut i: usize = 0;
        while i < n && snodes[i].pos.x < x
            invariant
                snodes@ == t,
                n == t.len(),
                0 < n,
                i <= n,
                forall|j: int| 0 <= j < i ==> (#[trigger] t[j]).pos.x < x as int,
            decreases n - i,
        {
            i = i + 1;
        }
        if i == n {
            proof {
                assert forall|k: int| 0 <= k < t.len() implies (#[trigger] t[k]).pos.x
                    != x as int by {
                    assert(t[k].pos.x < x as int);
                }
                assert(!has_key(t, x as int));
                assert(t.last().pos.x < x as int);
            }
            return NodePositionQuery::AfterBounds(snodes[n - 1]);
        }
        let nd = snodes[i];
        if nd.pos.x == x {
            proof {
                assert(has_key(t, x as int));
                lemma_first_key_index_is(t, x as int, i as int);
            }
            return NodePositionQuery::Current(nd);
        }
        proof {
            assert forall|k: int| 0 <= k < t.len() implies (#[trigger] t[k]).pos.x != x as int by {
                if k >= i {
                    assert(t[i as int].pos.x <= t[k].pos.x);
                }
            }
            assert(!has_key(t, x as int));
        }
        if i == 0 {
            return NodePositionQuery::BeforeBounds(nd);
        }
        proof {
            assert(t[0].pos.x < x as int);
            assert(t[i as int].pos.x <= t.last().pos.x);
            lemma_segment_index_is(t, x as int, i - 1);
        }
        let left = snodes[i - 1];
        NodePositionQuery::Between(left, nd)
    }

    /// Samples the curve's output value at key-axis position `x`.
    ///
    /// An empty timeline samples to zero; positions outside the bounds
    /// clamp to the edge node's stored value; a non-flat segment with an
    /// unresolved facing tangent samples to zero.
    pub fn value(&self, x: i64) -> (r: i64)
        ensures
            r as int == sample(sorted_seq(self.0@), x as int),
            self.0@.len() == 0 ==> r == 0,
    {
        proof {
            lemma_sorted_seq_props(self.0@);
        }
        let q = self.nearest(x);
        match q {
            NodePositionQuery::ZeroNodes => 0,
            NodePositionQuery::Current(nd) => nd.pos.y,
            NodePositionQuery::BeforeBounds(nd) => nd.pos.y,
            NodePositionQuery::AfterBounds(nd) => nd.pos.y,
            NodePositionQuery::Between(a, b) => {
                match a.handle {
                    AnimationNodeHandle::Flat => a.pos.y,
                    _ => {
                        match (a.handle.handle_right(), b.handle.handle_left()) {
                            (Some(l), Some(r2)) => {
                                let p1x = sat_add(l.x, a.pos.x);
                                let p2x = sat_add(r2.x, b.pos.x);
                                bezier_value(x, a.pos.y, p1x, p2x, b.pos.y)
                            },
                            _ => 0,
                        }
                    },
                }
            },
        }
    }

    /// The pairs of tangent offsets that take effect along the path, one
    /// entry per node in sorted order: nothing faces the earliest node from
    /// the left; each later entry pairs the preceding node's right offset
    /// with that node's left offset -- the two handles shaping the segment
    /// that arrives at it.
    pub fn segments(&self) -> (r: Vec<(Option<Vec2>, Option<Vec2>)>)
        requires
            self.0@.len() > 0,
        ensures
            r@.len() == self.0@.len(),
            r@[0].0 is None,
            r@[0].1 == spec_handle_left(sorted_seq(self.0@)[0].handle),
            forall|i: int|
                1 <= i < r@.len() ==> (#[trigger] r@[i]).0 == spec_handle_right(
                    sorted_seq(self.0@)[i - 1].handle,
                ) && r@[i].1 == spec_handle_left(sorted_seq(self.0@)[i].handle),
    {
        proof {
            lemma_sorted_seq_props(self.0@);
        }
        let snodes = self.sorted();
        let mut res: Vec<(Option<Vec2>, Option<Vec2>)> = Vec::new();
        res.push((None, snodes[0].handle.handle_left()));
        let mut left: AnimationNode = snodes[0];
        let mut i: usize = 1;
        while i < snodes.len()
            invariant
                snodes@ == sorted_seq(self.0@),
                snodes@.len() == self.0@.len(),
                1 <= i <= snodes@.len(),
                left == snodes@[i - 1],
                res@.len() == i,
                res@[0].0 is None,
                res@[0].1 == spec_handle_left(snodes@[0].handle),
                forall|k: int|
                    1 <= k < i ==> (#[trigger] res@[k]).0 == spec_handle_right(
                        snodes@[k - 1].handle,
                    ) && res@[k].1 == spec_handle_left(snodes@[k].handle),
            decreases snodes@.len() - i,
        {
            res.push((left.handle.handle_right(), snodes[i].handle.handle_left()));
            left = snodes[i];
            i = i + 1;
        }
        res
    }
}

/// Sorting is non-decreasing in the key axis, whatever the insertion order
/// of the nodes.
pub proof fn lemma_sorted_nondecreasing(nodes: Seq<AnimationNode>)
    ensures
        sorted_keys(sorted_seq(nodes)),
        sorted_seq(nodes).len() == nodes.len(),
{
    lemma_sorted_seq_props(nodes);
}

/// Sampling left of the leftmost node clamps to that node's value.
pub proof fn lemma_edge_clamp_low(nodes: Seq<AnimationNode>, x: int)
    requires
        nodes.len() > 0,
        x < sorted_seq(nodes)[0].pos.x,
    ensures
        sample(sorted_seq(nodes), x) == sample(sorted_seq(nodes), sorted_seq(nodes)[0].pos.x as int),
{
    let t = sorted_seq(nodes);
    lemma_sorted_seq_props(nodes);
    assert forall|k: int| 0 <= k < t.len() implies (#[trigger] t[k]).pos.x != x by {
        assert(t[0].pos.x <= t[k].pos.x);
    }
    assert(!has_key(t, x));
    assert(has_key(t, t[0].pos.x as int));
    lemma_first_key_index_is(t, t[0].pos.x as int, 0);
}

/// Sampling right of the rightmost node clamps to that node's value.  The
/// keys must be pairwise distinct: were the largest key shared, the exact
/// match would resolve to the first of its holders instead.
pub proof fn lemma_edge_clamp_high(nodes: Seq<AnimationNode>, x: int)
    requires
        nodes.len() > 0,
        unique_keys(nodes),
        x > sorted_seq(nodes).last().pos.x,
    ensures
        sample(sorted_seq(nodes), x) == sample(
            sorted_seq(nodes),
            sorted_seq(nodes).last().pos.x as int,
        ),
{
    let t = sorted_seq(nodes);
    lemma_sorted_seq_props(nodes);
    lemma_sorted_seq_unique(nodes);
    assert forall|k: int| 0 <= k < t.len() implies (#[trigger] t[k]).pos.x != x by {
        assert(t[k].pos.x <= t.last().pos.x);
    }
    assert(!has_key(t, x));
    let n = t.len() - 1;
    assert(t[n].pos.x == t.last().pos.x);
    assert(has_key(t, t.last().pos.x as int));
    assert forall|j: int| 0 <= j < n implies (#[trigger] t[j]).pos.x != t.last().pos.x by {
        assert(t[j].pos.x != t[n].pos.x);
    }
    lemma_first_key_index_is(t, t.last().pos.x as int, n);
}

/// Sampling exactly at a node's key yields that node's stored value.
pub proof fn lemma_sample_at_node(nodes: Seq<AnimationNode>, i: int)
    requires
        unique_keys(nodes),
        0 <= i < nodes.len(),
    ensures
        sample(sorted_seq(nodes), nodes[i].pos.x as int) == nodes[i].pos.y as int,
{
    let t = sorted_seq(nodes);
    lemma_sorted_seq_props(nodes);
    lemma_sorted_seq_unique(nodes);
    let e = nodes[i];
    assert(nodes.contains(e));
    assert(t.contains(e));
    let j = t.lemma_contains_to_index(e);
    assert forall|k: int| 0 <= k < j implies (#[trigger] t[k]).pos.x != e.pos.x by {
        assert(t[k].pos.x != t[j].pos.x);
    }
    assert(has_key(t, e.pos.x as int));
    lemma_first_key_index_is(t, e.pos.x as int, j);
}

/// A flat node holds its stored value across the whole half-open segment
/// up to the next sorted node.
pub proof fn lemma_flat_hold(nodes: Seq<AnimationNode>, i: int, x: int)
    requires
        unique_keys(nodes),
        0 <= i < sorted_seq(nodes).len() - 1,
        sorted_seq(nodes)[i].handle is Flat,
        sorted_seq(nodes)[i].pos.x <= x < sorted_seq(nodes)[i + 1].pos.x,
    ensures
        sample(sorted_seq(nodes), x) == sorted_seq(nodes)[i].pos.y as int,
        sample(sorted_seq(nodes), x) == sample(
            sorted_seq(nodes),
            sorted_seq(nodes)[i].pos.x as int,
        ),
{
    let t = sorted_seq(nodes);
    lemma_sorted_seq_props(nodes);
    lemma_sorted_seq_unique(nodes);
    assert forall|j: int| 0 <= j < i implies (#[trigger] t[j]).pos.x != t[i].pos.x by {
        assert(t[j].pos.x != t[i].pos.x);
    }
    assert(has_key(t, t[i].pos.x as int));
    lemma_first_key_index_is(t, t[i].pos.x as int, i);
    if x == t[i].pos.x {
    } else {
        assert forall|k: int| 0 <= k < t.len() implies (#[trigger] t[k]).pos.x != x by {
            if k <= i {
                assert(t[k].pos.x <= t[i].pos.x);
            } else {
                assert(t[i + 1].pos.x <= t[k].pos.x);
            }
        }
        assert(!has_key(t, x));
        assert(t[0].pos.x <= t[i].pos.x);
        assert(t[i + 1].pos.x <= t.last().pos.x);
        lemma_segment_index_is(t, x, i);
    }
}

} // verus!
