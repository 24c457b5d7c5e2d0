//! Key-axis ordering of the node set.
//!
//! [`sorted_seq`] is the mathematical sorted order of a node sequence:
//! a stable insertion sort by key-axis value, so nodes with equal keys keep
//! their original relative order.  The lemmas here give its shape: same
//! length, same multiset of nodes, non-decreasing keys, and distinct keys
//! whenever the input's keys are distinct.

use vstd::prelude::*;

verus! {

use vstd::assert_multisets_equal;
use vstd::seq_lib::group_to_multiset_ensures;
use crate::timeline::AnimationNode;

/// Non-decreasing in the key axis.
pub open spec fn sorted_keys(t: Seq<AnimationNode>) -> bool {
    forall|i: int, j: int|
        #![trigger t[i], t[j]]
        0 <= i <= j < t.len() ==> t[i].pos.x <= t[j].pos.x
}

/// No two nodes share a key-axis value.
pub open spec fn unique_keys(s: Seq<AnimationNode>) -> bool {
    forall|i: int, j: int|
        #![trigger s[i], s[j]]
        0 <= i < j < s.len() ==> s[i].pos.x != s[j].pos.x
}

/// `nd` placed behind every node of `t` whose key does not exceed its own:
/// the insertion step of a stable sort.
pub open spec fn insert_node(t: Seq<AnimationNode>, nd: AnimationNode) -> Seq<AnimationNode>
    decreases t.len(),
{
    if t.len() == 0 {
        seq![nd]
    } else if t.last().pos.x <= nd.pos.x {
        t.push(nd)
    } else {
        insert_node(t.drop_last(), nd).push(t.last())
    }
}

/// The nodes of `s` in ascending key order, ties keeping insertion order.
pub open spec fn sorted_seq(s: Seq<AnimationNode>) -> Seq<AnimationNode>
    decreases s.len(),
{
    if s.len() == 0 {
        Seq::empty()
    } else {
        insert_node(sorted_seq(s.drop_last()), s.last())
    }
}

/// Shape of one insertion step: one node longer, the same nodes plus `nd`,
/// and still sorted.
pub proof fn lemma_insert_node_props(t: Seq<AnimationNode>, nd: AnimationNode)
    ensures
        insert_node(t, nd).len() == t.len() + 1,
        insert_node(t, nd).to_multiset() == t.to_multiset().insert(nd),
        forall|e: AnimationNode|
            #[trigger] insert_node(t, nd).contains(e) <==> t.contains(e) || e == nd,
        sorted_keys(t) ==> sorted_keys(insert_node(t, nd)),
    decreases t.len(),
{
    broadcast use group_to_multiset_ensures;

    let r = insert_node(t, nd);
    if t.len() == 0 {
        assert(r =~= Seq::empty().push(nd));
        assert(r.to_multiset() =~= t.to_multiset().insert(nd));
        assert(r.contains(nd));
    } else if t.last().pos.x <= nd.pos.x {
        assert(r == t.push(nd));
        assert forall|e: AnimationNode| #[trigger] r.contains(e) implies t.contains(e) || e == nd by {
            let i = choose|i: int| 0 <= i < r.len() && r[i] == e;
            if i < t.len() {
                assert(t[i] == e);
            }
        }
        assert forall|e: AnimationNode| t.contains(e) || e == nd implies #[trigger] r.contains(e) by {
            if t.contains(e) {
                let i = choose|i: int| 0 <= i < t.len() && t[i] == e;
                assert(r[i] == e);
            } else {
                assert(r[t.len() as int] == nd);
            }
        }
        if sorted_keys(t) {
            assert forall|i: int, j: int|
                #![trigger r[i], r[j]]
                0 <= i <= j < r.len() implies r[i].pos.x <= r[j].pos.x by {
                if j < t.len() {
                } else {
                    assert(r[j] == nd);
                    if i < t.len() {
                        assert(t[i].pos.x <= t.last().pos.x);
                    }
                }
            }
        }
    } else {
        let inner = insert_node(t.drop_last(), nd);
        lemma_insert_node_props(t.drop_last(), nd);
        assert(t =~= t.drop_last().push(t.last()));
        assert(t.to_multiset() == t.drop_last().to_multiset().insert(t.last()));
        assert_multisets_equal!(
            inner.to_multiset().insert(t.last()),
            t.to_multiset().insert(nd)
        );
        assert(r.to_multiset() == inner.to_multiset().insert(t.last()));
        assert forall|e: AnimationNode| #[trigger] r.contains(e) implies t.contains(e) || e == nd by {
            let i = choose|i: int| 0 <= i < r.len() && r[i] == e;
            if i < inner.len() {
                assert(inner[i] == e);
                assert(inner.contains(e));
                if t.drop_last().contains(e) {
                    let k = choose|k: int| 0 <= k < t.drop_last().len() && t.drop_last()[k] == e;
                    assert(t[k] == e);
                }
            } else {
                assert(e == t.last());
                assert(t[t.len() - 1] == e);
            }
        }
        assert forall|e: AnimationNode| t.contains(e) || e == nd implies #[trigger] r.contains(e) by {
            if e == t.last() || e == nd {
                if e == nd {
                    assert(inner.contains(nd));
                    let k = choose|k: int| 0 <= k < inner.len() && inner[k] == nd;
                    assert(r[k] == nd);
                } else {
                    assert(r[inner.len() as int] == t.last());
                }
            } else {
                let i = choose|i: int| 0 <= i < t.len() && t[i] == e;
                assert(i < t.len() - 1);
                assert(t.drop_last()[i] == e);
                assert(t.drop_last().contains(e));
                assert(inner.contains(e));
                let k = choose|k: int| 0 <= k < inner.len() && inner[k] == e;
                assert(r[k] == e);
            }
        }
        if sorted_keys(t) {
            assert(sorted_keys(t.drop_last())) by {
                assert forall|i: int, j: int|
                    #![trigger t.drop_last()[i], t.drop_last()[j]]
                    0 <= i <= j < t.drop_last().len() implies t.drop_last()[i].pos.x
                    <= t.drop_last()[j].pos.x by {
                    assert(t[i].pos.x <= t[j].pos.x);
                }
            }
            assert forall|i: int, j: int|
                #![trigger r[i], r[j]]
                0 <= i <= j < r.len() implies r[i].pos.x <= r[j].pos.x by {
                if j < inner.len() {
                } else {
                    assert(r[j] == t.last());
                    if i < inner.len() {
                        assert(inner.contains(inner[i]));
                        let e = inner[i];
                        if t.drop_last().contains(e) {
                            let k = choose|k: int|
                                0 <= k < t.drop_last().len() && t.drop_last()[k] == e;
                            assert(t[k].pos.x <= t.last().pos.x);
                        } else {
                            assert(e == nd);
                        }
                    }
                }
            }
        }
    }
}

/// Shape of the sorted order: same length, same multiset of nodes, and
/// non-decreasing keys.
pub proof fn lemma_sorted_seq_props(s: Seq<AnimationNode>)
    ensures
        sorted_seq(s).len() == s.len(),
        sorted_seq(s).to_multiset() == s.to_multiset(),
        forall|e: AnimationNode| #[trigger] sorted_seq(s).contains(e) <==> s.contains(e),
        sorted_keys(sorted_seq(s)),
    decreases s.len(),
{
    broadcast use group_to_multiset_ensures;

    if s.len() == 0 {
        assert(sorted_seq(s) =~= Seq::<AnimationNode>::empty());
    } else {
        let pre = sorted_seq(s.drop_last());
        lemma_sorted_seq_props(s.drop_last());
        lemma_insert_node_props(pre, s.last());
        assert(s =~= s.drop_last().push(s.last()));
        assert(s.to_multiset() == s.drop_last().to_multiset().insert(s.last()));
        assert_multisets_equal!(
            pre.to_multiset().insert(s.last()),
            s.to_multiset()
        );
        assert forall|e: AnimationNode| #[trigger] sorted_seq(s).contains(e) implies s.contains(
            e,
        ) by {
            if pre.contains(e) {
                assert(s.drop_last().contains(e));
                let k = choose|k: int| 0 <= k < s.drop_last().len() && s.drop_last()[k] == e;
                assert(s[k] == e);
            } else {
                assert(e == s.last());
                assert(s[s.len() - 1] == e);
            }
        }
        assert forall|e: AnimationNode| s.contains(e) implies #[trigger] sorted_seq(s).contains(
            e,
        ) by {
            let i = choose|i: int| 0 <= i < s.len() && s[i] == e;
            if i < s.len() - 1 {
                assert(s.drop_last()[i] == e);
                assert(s.drop_last().contains(e));
            }
        }
    }
}

/// With pairwise-distinct keys and none equal to `nd`'s, insertion keeps
/// the keys pairwise distinct.
proof fn lemma_insert_node_unique(t: Seq<AnimationNode>, nd: AnimationNode)
    requires
        unique_keys(t),
        forall|i: int| 0 <= i < t.len() ==> (#[trigger] t[i]).pos.x != nd.pos.x,
    ensures
        unique_keys(insert_node(t, nd)),
    decreases t.len(),
{
    let r = insert_node(t, nd);
    lemma_insert_node_props(t, nd);
    if t.len() == 0 {
    } else if t.last().pos.x <= nd.pos.x {
        assert forall|i: int, j: int|
            #![trigger r[i], r[j]]
            0 <= i < j < r.len() implies r[i].pos.x != r[j].pos.x by {
            if j == t.len() {
                assert(r[i] == t[i]);
            }
        }
    } else {
        let inner = insert_node(t.drop_last(), nd);
        assert(unique_keys(t.drop_last())) by {
            assert forall|i: int, j: int|
                #![trigger t.drop_last()[i], t.drop_last()[j]]
                0 <= i < j < t.drop_last().len() implies t.drop_last()[i].pos.x
                != t.drop_last()[j].pos.x by {
                assert(t[i].pos.x != t[j].pos.x);
            }
        }
        lemma_insert_node_unique(t.drop_last(), nd);
        lemma_insert_node_props(t.drop_last(), nd);
        assert forall|i: int, j: int|
            #![trigger r[i], r[j]]
            0 <= i < j < r.len() implies r[i].pos.x != r[j].pos.x by {
            if j == inner.len() {
                assert(r[j] == t.last());
                let e = inner[i];
                assert(inner.contains(e));
                if t.drop_last().contains(e) {
                    let k = choose|k: int| 0 <= k < t.drop_last().len() && t.drop_last()[k] == e;
                    assert(t[k].pos.x != t.last().pos.x);
                } else {
                    assert(e == nd);
                }
            } else {
                assert(inner[i] == r[i] && inner[j] == r[j]);
            }
        }
    }
}

/// Sorting keeps pairwise-distinct keys pairwise distinct.
pub proof fn lemma_sorted_seq_unique(s: Seq<AnimationNode>)
    requires
        unique_keys(s),
    ensures
        unique_keys(sorted_seq(s)),
    decreases s.len(),
{
    if s.len() == 0 {
    } else {
        let pre = sorted_seq(s.drop_last());
        assert(unique_keys(s.drop_last())) by {
            assert forall|i: int, j: int|
                #![trigger s.drop_last()[i], s.drop_last()[j]]
                0 <= i < j < s.drop_last().len() implies s.drop_last()[i].pos.x
                != s.drop_last()[j].pos.x by {
                assert(s[i].pos.x != s[j].pos.x);
            }
        }
        lemma_sorted_seq_unique(s.drop_last());
        lemma_sorted_seq_props(s.drop_last());
        assert forall|i: int| 0 <= i < pre.len() implies (#[trigger] pre[i]).pos.x
            != s.last().pos.x by {
            assert(pre.contains(pre[i]));
            assert(s.drop_last().contains(pre[i]));
            let k = choose|k: int| 0 <= k < s.drop_last().len() && s.drop_last()[k] == pre[i];
            assert(s[k].pos.x != s[s.len() - 1].pos.x);
        }
        lemma_insert_node_unique(pre, s.last());
    }
}

/// The nodes sitting exactly at key-axis value `k`.
pub open spec fn at_key(k: int) -> spec_fn(AnimationNode) -> bool {
    |n: AnimationNode| n.pos.x == k
}

/// One insertion step appends `nd` behind the nodes already at its key and
/// leaves every other key's nodes untouched.
proof fn lemma_insert_node_stable(t: Seq<AnimationNode>, nd: AnimationNode, k: int)
    ensures
        insert_node(t, nd).filter(at_key(k)) == (if nd.pos.x == k {
            t.filter(at_key(k)).push(nd)
        } else {
            t.filter(at_key(k))
        }),
    decreases t.len(),
{
    reveal(Seq::filter);
    let p = at_key(k);
    let r = insert_node(t, nd);
    assert(p(nd) == (nd.pos.x == k));
    if t.len() == 0 {
        assert(r =~= Seq::<AnimationNode>::empty().push(nd));
        assert(r.drop_last() =~= Seq::<AnimationNode>::empty());
        assert(r.drop_last().filter(p) =~= Seq::<AnimationNode>::empty());
        assert(t.filter(p) =~= t);
        assert(r.filter(p) == (if p(nd) {
            t.filter(p).push(nd)
        } else {
            t.filter(p)
        }));
    } else if t.last().pos.x <= nd.pos.x {
        assert(r == t.push(nd));
        assert(r.drop_last() =~= t);
        assert(r.last() == nd);
        assert(r.filter(p) == (if p(nd) {
            t.filter(p).push(nd)
        } else {
            t.filter(p)
        }));
    } else {
        let inner = insert_node(t.drop_last(), nd);
        lemma_insert_node_stable(t.drop_last(), nd, k);
        assert(r == inner.push(t.last()));
        assert(r.drop_last() =~= inner);
        assert(r.last() == t.last());
        assert(p(t.last()) == (t.last().pos.x == k));
        assert(r.filter(p) == (if p(t.last()) {
            inner.filter(p).push(t.last())
        } else {
            inner.filter(p)
        }));
        assert(t.filter(p) == (if p(t.last()) {
            t.drop_last().filter(p).push(t.last())
        } else {
            t.drop_last().filter(p)
        }));
        if nd.pos.x == k {
            assert(!p(t.last()));
            assert(r.filter(p) == inner.filter(p));
            assert(inner.filter(p) == t.drop_last().filter(p).push(nd));
            assert(t.filter(p) == t.drop_last().filter(p));
        } else {
            assert(inner.filter(p) == t.drop_last().filter(p));
        }
    }
}

/// Stability of the sort: among the nodes at any one key-axis value, the
/// sorted order lists them exactly as the input does.
pub proof fn lemma_sorted_seq_stable(s: Seq<AnimationNode>, k: int)
    ensures
        sorted_seq(s).filter(at_key(k)) == s.filter(at_key(k)),
    decreases s.len(),
{
    reveal(Seq::filter);
    let p = at_key(k);
    if s.len() == 0 {
        assert(sorted_seq(s) =~= s);
    } else {
        let pre = sorted_seq(s.drop_last());
        lemma_sorted_seq_stable(s.drop_last(), k);
        lemma_insert_node_stable(pre, s.last(), k);
        assert(p(s.last()) == (s.last().pos.x == k));
    }
}

/// Inserting at the first index whose key exceeds `nd`'s is the insertion
/// step of the stable sort.
pub proof fn lemma_insert_node_at(t: Seq<AnimationNode>, nd: AnimationNode, j: int)
    requires
        0 <= j <= t.len(),
        forall|k: int| j <= k < t.len() ==> (#[trigger] t[k]).pos.x > nd.pos.x,
        j == 0 || t[j - 1].pos.x <= nd.pos.x,
    ensures
        insert_node(t, nd) == t.insert(j, nd),
    decreases t.len(),
{
    t.insert_ensures(j, nd);
    if t.len() == 0 {
        assert(insert_node(t, nd) =~= t.insert(0, nd));
    } else if j == t.len() {
        assert(t.last().pos.x <= nd.pos.x);
        assert(t.push(nd) =~= t.insert(j, nd));
    } else {
        assert(t.last().pos.x > nd.pos.x);
        assert(forall|k: int|
            j <= k < t.drop_last().len() ==> (#[trigger] t.drop_last()[k]).pos.x > nd.pos.x);
        assert(j == 0 || t.drop_last()[j - 1].pos.x <= nd.pos.x);
        lemma_insert_node_at(t.drop_last(), nd, j);
        t.drop_last().insert_ensures(j, nd);
        assert(insert_node(t.drop_last(), nd).push(t.last()) =~= t.insert(j, nd));
    }
}

} // verus!
