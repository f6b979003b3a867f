//! Bounding-volume hierarchy over the primitives' boxes.
//!
//! The hierarchy is a binary tree kept in a flat arena.  A child handle
//! `c` below `n_prims` names the primitive `c` itself (a leaf); a handle
//! `c >= n_prims` names the interior node `nodes[c - n_prims]`.  Children
//! always have smaller handles than their parent, so the tree is acyclic
//! by construction.  Every interior node caches the exact union of the
//! boxes beneath it, which is what lets a query skip a whole subtree.

use vstd::prelude::*;

use crate::aabb::{AABB, Coord3};
use crate::rng::rand_below;

verus! {

/// An interior node: two child handles and the cached box of the subtree.
#[derive(Clone, Copy, PartialEq, Eq, Structural, Debug)]
pub struct BvhNode {
    pub left: usize,
    pub right: usize,
    pub bbox: AABB,
}

/// The box a handle stands for: a leaf's own box, or the cached union
/// of an interior node's children.  Handles outside the arena give a
/// degenerate box at the origin.
pub open spec fn subtree_box(n_prims: int, nodes: Seq<BvhNode>, boxes: Seq<AABB>, c: int) -> AABB
    decreases c,
{
    if 0 <= c < n_prims {
        boxes[c]
    } else {
        let k = c - n_prims;
        if 0 <= k < nodes.len() && 0 <= (nodes[k].left as int) < c && 0 <= (nodes[k].right as int)
            < c {
            AABB::union_box(
                subtree_box(n_prims, nodes, boxes, nodes[k].left as int),
                subtree_box(n_prims, nodes, boxes, nodes[k].right as int),
            )
        } else {
            AABB { minimum: Coord3 { x: 0, y: 0, z: 0 }, maximum: Coord3 { x: 0, y: 0, z: 0 } }
        }
    }
}

/// The primitives below a handle, in left-to-right order.
pub open spec fn subtree_prims(n_prims: int, nodes: Seq<BvhNode>, c: int) -> Seq<usize>
    decreases c,
{
    if 0 <= c < n_prims {
        seq![c as usize]
    } else {
        let k = c - n_prims;
        if 0 <= k < nodes.len() && 0 <= (nodes[k].left as int) < c && 0 <= (nodes[k].right as int)
            < c {
            subtree_prims(n_prims, nodes, nodes[k].left as int) + subtree_prims(
                n_prims,
                nodes,
                nodes[k].right as int,
            )
        } else {
            seq![]
        }
    }
}

/// The handle names a well-formed subtree: children stay in the arena
/// and come before their parent, and each cached box is exactly the
/// union of the children's subtree boxes.
pub open spec fn node_wf(n_prims: int, nodes: Seq<BvhNode>, boxes: Seq<AABB>, c: int) -> bool
    decreases c,
{
    if 0 <= c < n_prims {
        c < boxes.len()
    } else {
        let k = c - n_prims;
        &&& 0 <= k < nodes.len()
        &&& 0 <= (nodes[k].left as int) < c
        &&& 0 <= (nodes[k].right as int) < c
        &&& node_wf(n_prims, nodes, boxes, nodes[k].left as int)
        &&& node_wf(n_prims, nodes, boxes, nodes[k].right as int)
        &&& nodes[k].bbox == AABB::union_box(
            subtree_box(n_prims, nodes, boxes, nodes[k].left as int),
            subtree_box(n_prims, nodes, boxes, nodes[k].right as int),
        )
    }
}

/// A subtree reads only arena entries below its own handle, so pushing
/// further nodes onto the arena changes nothing about it.
pub proof fn lemma_subtree_frame(
    n_prims: int,
    nodes1: Seq<BvhNode>,
    nodes2: Seq<BvhNode>,
    boxes: Seq<AABB>,
    c: int,
)
    requires
        nodes1.len() <= nodes2.len(),
        forall|i: int| 0 <= i < nodes1.len() ==> nodes2[i] == nodes1[i],
        c < n_prims + nodes1.len(),
    ensures
        subtree_box(n_prims, nodes2, boxes, c) == subtree_box(n_prims, nodes1, boxes, c),
        subtree_prims(n_prims, nodes2, c) == subtree_prims(n_prims, nodes1, c),
        node_wf(n_prims, nodes2, boxes, c) == node_wf(n_prims, nodes1, boxes, c),
    decreases c,
{
    if 0 <= c < n_prims {
    } else {
        let k = c - n_prims;
        if 0 <= k < nodes1.len() {
            assert(nodes2[k] == nodes1[k]);
            if 0 <= (nodes1[k].left as int) < c && 0 <= (nodes1[k].right as int) < c {
                lemma_subtree_frame(n_prims, nodes1, nodes2, boxes, nodes1[k].left as int);
                lemma_subtree_frame(n_prims, nodes1, nodes2, boxes, nodes1[k].right as int);
            }
        }
    }
}

/// Every primitive below a well-formed handle has its box enclosed in
/// the subtree's box: missing the subtree box means missing them all.
pub proof fn lemma_subtree_box_encloses(
    n_prims: int,
    nodes: Seq<BvhNode>,
    boxes: Seq<AABB>,
    c: int,
)
    requires
        node_wf(n_prims, nodes, boxes, c),
        n_prims == boxes.len(),
        n_prims <= usize::MAX,
    ensures
        forall|q: usize|
            subtree_prims(n_prims, nodes, c).contains(q) ==> (q as int) < boxes.len()
                && subtree_box(n_prims, nodes, boxes, c).encloses(boxes[q as int]),
    decreases c,
{
    if 0 <= c < n_prims {
        assert forall|q: usize| subtree_prims(n_prims, nodes, c).contains(q) implies (q as int)
            < boxes.len() && subtree_box(n_prims, nodes, boxes, c).encloses(boxes[q as int]) by {
            assert(q == c as usize);
        }
    } else {
        let k = c - n_prims;
        let left = nodes[k].left as int;
        let right = nodes[k].right as int;
        lemma_subtree_box_encloses(n_prims, nodes, boxes, left);
        lemma_subtree_box_encloses(n_prims, nodes, boxes, right);
        let lb = subtree_box(n_prims, nodes, boxes, left);
        let rb = subtree_box(n_prims, nodes, boxes, right);
        AABB::lemma_union_box_encloses(lb, rb);
        assert forall|q: usize| subtree_prims(n_prims, nodes, c).contains(q) implies (q as int)
            < boxes.len() && subtree_box(n_prims, nodes, boxes, c).encloses(boxes[q as int]) by {
            let ps = subtree_prims(n_prims, nodes, c);
            let i = choose|i: int| 0 <= i < ps.len() && ps[i] == q;
            let lp = subtree_prims(n_prims, nodes, left);
            if i < lp.len() {
                assert(lp.contains(q));
            } else {
                assert(subtree_prims(n_prims, nodes, right).contains(q));
            }
        }
    }
}

/// A subtree's box is the least upper bound of the boxes beneath it:
/// a box contains the subtree's box exactly when it contains the box
/// of every primitive below the handle.
pub proof fn lemma_subtree_box_least(
    n_prims: int,
    nodes: Seq<BvhNode>,
    boxes: Seq<AABB>,
    c: int,
    outer: AABB,
)
    requires
        node_wf(n_prims, nodes, boxes, c),
        n_prims == boxes.len(),
        n_prims <= usize::MAX,
    ensures
        outer.encloses(subtree_box(n_prims, nodes, boxes, c)) <==> (forall|q: usize|
            subtree_prims(n_prims, nodes, c).contains(q) ==> outer.encloses(boxes[q as int])),
    decreases c,
{
    if 0 <= c < n_prims {
        assert(subtree_prims(n_prims, nodes, c) =~= seq![c as usize]);
        if outer.encloses(subtree_box(n_prims, nodes, boxes, c)) {
            assert forall|q: usize| subtree_prims(n_prims, nodes, c).contains(q) implies
                outer.encloses(boxes[q as int]) by {
                assert(q == c as usize);
            }
        } else {
            assert(subtree_prims(n_prims, nodes, c)[0] == c as usize);
            assert(subtree_prims(n_prims, nodes, c).contains(c as usize));
        }
    } else {
        let k = c - n_prims;
        let left = nodes[k].left as int;
        let right = nodes[k].right as int;
        lemma_subtree_box_least(n_prims, nodes, boxes, left, outer);
        lemma_subtree_box_least(n_prims, nodes, boxes, right, outer);
        let lb = subtree_box(n_prims, nodes, boxes, left);
        let rb = subtree_box(n_prims, nodes, boxes, right);
        let lp = subtree_prims(n_prims, nodes, left);
        let rp = subtree_prims(n_prims, nodes, right);
        let sp = subtree_prims(n_prims, nodes, c);
        assert(sp == lp + rp);
        if outer.encloses(subtree_box(n_prims, nodes, boxes, c)) {
            assert(outer.encloses(lb) && outer.encloses(rb));
            assert forall|q: usize| sp.contains(q) implies outer.encloses(boxes[q as int]) by {
                let i = choose|i: int| 0 <= i < sp.len() && sp[i] == q;
                if i < lp.len() {
                    assert(lp.contains(q));
                } else {
                    assert(rp.contains(q));
                }
            }
        } else {
            if !outer.encloses(lb) {
                let q = choose|q: usize| lp.contains(q) && !outer.encloses(boxes[q as int]);
                let i = choose|i: int| 0 <= i < lp.len() && lp[i] == q;
                assert(sp[i] == q);
                assert(sp.contains(q));
            } else {
                assert(!outer.encloses(rb));
                let q = choose|q: usize| rp.contains(q) && !outer.encloses(boxes[q as int]);
                let i = choose|i: int| 0 <= i < rp.len() && rp[i] == q;
                assert(sp[lp.len() + i] == q);
                assert(sp.contains(q));
            }
        }
    }
}

impl Bvh {
    /// The cached box of the whole hierarchy: the tight union of
    /// every primitive's box.
    pub fn bounding_box(&self, boxes: &Vec<AABB>) -> (r: AABB)
        requires
            self.wf(boxes@),
        ensures
            r == subtree_box(self.n_prims as int, self.nodes@, boxes@, self.root as int),
    {
        self.nodes[self.nodes.len() - 1].bbox
    }
}

/// The root's cached box equals the fold of the union over the whole
/// primitive list: building the hierarchy loses no extent and adds
/// none.
pub proof fn lemma_root_box_matches_list_union(b: Bvh, boxes: Seq<AABB>)
    requires
        b.wf(boxes),
        boxes.len() >= 1,
    ensures
        subtree_box(b.n_prims as int, b.nodes@, boxes, b.root as int) == AABB::union_prefix(
            boxes,
            boxes.len() as int,
        ),
{
    let n = b.n_prims as int;
    let root = b.root as int;
    let u_tree = subtree_box(n, b.nodes@, boxes, root);
    let u_list = AABB::union_prefix(boxes, boxes.len() as int);

    lemma_subtree_box_encloses(n, b.nodes@, boxes, root);
    assert forall|k: int| 0 <= k < boxes.len() implies u_tree.encloses(#[trigger] boxes[k]) by {
        assert(subtree_prims(n, b.nodes@, root).contains(k as usize));
    }
    AABB::lemma_union_prefix_least(boxes, boxes.len() as int, u_tree);

    AABB::lemma_union_prefix_least(boxes, boxes.len() as int, u_list);
    assert forall|q: usize| subtree_prims(n, b.nodes@, root).contains(q) implies u_list.encloses(
        boxes[q as int],
    ) by {
        assert((q as int) < boxes.len());
    }
    lemma_subtree_box_least(n, b.nodes@, boxes, root, u_list);

    assert(u_tree.encloses(u_list) && u_list.encloses(u_tree));
}

/// Sort key of primitive `q`: the minimum corner of its box on the axis.
pub open spec fn axis_key(boxes: Seq<AABB>, q: usize, axis: int) -> u64 {
    boxes[q as int].minimum.axis(axis)
}

/// The listed primitives stand in order of their key on the axis.
pub open spec fn sorted_by_axis(boxes: Seq<AABB>, s: Seq<usize>, axis: int) -> bool {
    forall|a: int, b: int|
        0 <= a < b < s.len() ==> axis_key(boxes, #[trigger] s[a], axis) <= axis_key(
            boxes,
            #[trigger] s[b],
            axis,
        )
}

/// The sort key of one primitive.
fn key_of(boxes: &Vec<AABB>, q: usize, axis: usize) -> (k: u64)
    requires
        q < boxes.len(),
        axis < 3,
    ensures
        k == axis_key(boxes@, q, axis as int),
{
    let b = boxes[q];
    if axis == 0 {
        b.minimum.x
    } else if axis == 1 {
        b.minimum.y
    } else {
        b.minimum.z
    }
}

/// Exchanging two positions of a sequence leaves its multiset alone.
pub(crate) proof fn lemma_swap_seq_multiset(s: Seq<usize>, i: int, j: int)
    requires
        0 <= i < j < s.len(),
    ensures
        s.update(i, s[j]).update(j, s[i]).to_multiset() == s.to_multiset(),
{
    broadcast use vstd::seq_lib::group_to_multiset_ensures;
    broadcast use vstd::seq_lib::to_multiset_update;
    broadcast use vstd::multiset::group_multiset_axioms;

    let s1 = s.update(i, s[j]);
    let s2 = s1.update(j, s[i]);
    assert(s.contains(s[i]));
    assert(s.to_multiset().count(s[i]) > 0);
    assert(s1[j] == s[j]);
    assert(s1.to_multiset() == s.to_multiset().insert(s[j]).remove(s[i]));
    assert(s2.to_multiset() == s1.to_multiset().insert(s[i]).remove(s[j]));
    assert(s2.to_multiset() =~= s.to_multiset());
}

/// Insertion sort of a primitive index list by the key on one axis:
/// the same indices come out, in key order.
fn sort_indices(boxes: &Vec<AABB>, v: &mut Vec<usize>, axis: usize)
    requires
        axis < 3,
        forall|k: int| 0 <= k < old(v)@.len() ==> (old(v)@[k] as int) < boxes@.len(),
    ensures
        final(v)@.len() == old(v)@.len(),
        final(v)@.to_multiset() == old(v)@.to_multiset(),
        sorted_by_axis(boxes@, final(v)@, axis as int),
        forall|k: int| 0 <= k < final(v)@.len() ==> (#[trigger] final(v)@[k] as int) < boxes@.len(),
{
    let ghost orig = v@;
    let n = v.len();
    if n == 0 {
        return ;
    }
    for i in 1..n
        invariant
            axis < 3,
            v@.len() == n,
            n == orig.len(),
            v@.to_multiset() == orig.to_multiset(),
            forall|k: int| 0 <= k < n ==> (#[trigger] v@[k] as int) < boxes@.len(),
            forall|a: int, b: int|
                0 <= a < b < i ==> axis_key(boxes@, #[trigger] v@[a], axis as int) <= axis_key(
                    boxes@,
                    #[trigger] v@[b],
                    axis as int,
                ),
    {
        let mut j = i;
        while j > 0 && key_of(boxes, v[j - 1], axis) > key_of(boxes, v[j], axis)
            invariant
                axis < 3,
                0 <= j <= i < n,
                v@.len() == n,
                v@.to_multiset() == orig.to_multiset(),
                forall|k: int| 0 <= k < n ==> (#[trigger] v@[k] as int) < boxes@.len(),
                forall|a: int, b: int|
                    0 <= a < b <= i && b != j ==> axis_key(boxes@, #[trigger] v@[a], axis as int)
                        <= axis_key(boxes@, #[trigger] v@[b], axis as int),
            decreases j,
        {
            let ghost pre = v@;
            let x = v[j - 1];
            let y = v[j];
            v.set(j - 1, y);
            v.set(j, x);
            proof {
                assert(v@ == pre.update(j - 1 as int, pre[j as int]).update(
                    j as int,
                    pre[j - 1 as int],
                ));
                lemma_swap_seq_multiset(pre, j - 1 as int, j as int);
                assert forall|a: int, b: int|
                    0 <= a < b <= i && b != j - 1 implies axis_key(
                    boxes@,
                    #[trigger] v@[a],
                    axis as int,
                ) <= axis_key(boxes@, #[trigger] v@[b], axis as int) by {
                    let ki = axis_key(boxes@, pre[j - 1], axis as int);
                    let kj = axis_key(boxes@, pre[j as int], axis as int);
                    assert(kj < ki);
                    if b == j {
                        if a < j - 1 {
                            assert(axis_key(boxes@, pre[a], axis as int) <= ki);
                        }
                    } else if b > j {
                        if a == j - 1 {
                            assert(kj <= axis_key(boxes@, pre[b], axis as int));
                        } else if a == j {
                            assert(ki <= axis_key(boxes@, pre[b], axis as int));
                        }
                    }
                }
            }
            j = j - 1;
        }
        proof {
            assert forall|a: int, b: int|
                0 <= a < b <= i implies axis_key(boxes@, #[trigger] v@[a], axis as int) <= axis_key(
                boxes@,
                #[trigger] v@[b],
                axis as int,
            ) by {
                if b == j && j > 0 {
                    assert(axis_key(boxes@, v@[j - 1], axis as int) <= axis_key(
                        boxes@,
                        v@[j as int],
                        axis as int,
                    ));
                    if a < j - 1 {
                        assert(axis_key(boxes@, v@[a], axis as int) <= axis_key(
                            boxes@,
                            v@[j - 1],
                            axis as int,
                        ));
                    }
                }
            }
        }
    }
}

/// Sequences with the same multiset hold the same values.
proof fn lemma_same_multiset_same_set(s1: Seq<usize>, s2: Seq<usize>)
    requires
        s1.to_multiset() == s2.to_multiset(),
    ensures
        s1.to_set() == s2.to_set(),
{
    broadcast use vstd::seq_lib::group_to_multiset_ensures;

    assert forall|x: usize| s1.contains(x) implies s2.contains(x) by {
        assert(s1.to_multiset().count(x) > 0);
    }
    assert forall|x: usize| s2.contains(x) implies s1.contains(x) by {
        assert(s2.to_multiset().count(x) > 0);
    }
    assert(s1.to_set() =~= s2.to_set());
}

/// The values of a concatenation are the union of the values.
proof fn lemma_concat_to_set(s1: Seq<usize>, s2: Seq<usize>)
    ensures
        (s1 + s2).to_set() == s1.to_set().union(s2.to_set()),
{
    assert forall|x: usize| (s1 + s2).contains(x) implies s1.contains(x) || s2.contains(x) by {
        let i = choose|i: int| 0 <= i < (s1 + s2).len() && (s1 + s2)[i] == x;
        if i < s1.len() {
            assert(s1[i] == x);
        } else {
            assert(s2[i - s1.len()] == x);
        }
    }
    assert forall|x: usize| s1.contains(x) || s2.contains(x) implies (s1 + s2).contains(x) by {
        if s1.contains(x) {
            let i = choose|i: int| 0 <= i < s1.len() && s1[i] == x;
            assert((s1 + s2)[i] == x);
        } else {
            let i = choose|i: int| 0 <= i < s2.len() && s2[i] == x;
            assert((s1 + s2)[s1.len() + i] == x);
        }
    }
    assert((s1 + s2).to_set() =~= s1.to_set().union(s2.to_set()));
}

/// The elements of a slice of the index list, copied out in order.
fn copy_range(idx: &Vec<usize>, start: usize, end: usize) -> (r: Vec<usize>)
    requires
        start <= end <= idx.len(),
    ensures
        r@ == idx@.subrange(start as int, end as int),
{
    let mut r: Vec<usize> = Vec::new();
    let mut k = start;
    while k < end
        invariant
            start <= k <= end <= idx.len(),
            r@ == idx@.subrange(start as int, k as int),
        decreases end - k,
    {
        r.push(idx[k]);
        k = k + 1;
        proof {
            assert(idx@.subrange(start as int, k as int) =~= idx@.subrange(
                start as int,
                k - 1 as int,
            ).push(idx@[k - 1 as int]));
        }
    }
    r
}

/// Writes a sorted slice back over the range it was copied from.
fn paste_range(idx: &mut Vec<usize>, start: usize, sub: &Vec<usize>)
    requires
        start + sub.len() <= old(idx).len(),
    ensures
        final(idx)@.len() == old(idx)@.len(),
        final(idx)@.subrange(start as int, start as int + sub@.len()) == sub@,
        forall|t: int|
            0 <= t < old(idx)@.len() && !(start <= t < start + sub@.len()) ==> final(idx)@[t]
                == old(idx)@[t],
{
    let mut k: usize = 0;
    while k < sub.len()
        invariant
            0 <= k <= sub.len(),
            start + sub.len() <= usize::MAX,
            start + sub.len() <= idx@.len(),
            idx@.len() == old(idx)@.len(),
            forall|t: int| 0 <= t < k ==> idx@[start + t] == sub@[t],
            forall|t: int|
                0 <= t < idx@.len() && !(start <= t < start + sub@.len()) ==> idx@[t] == old(
                    idx,
                )@[t],
        decreases sub.len() - k,
    {
        let v = sub[k];
        idx.set(start + k, v);
        k = k + 1;
    }
    proof {
        assert(idx@.subrange(start as int, start as int + sub@.len()) =~= sub@);
    }
}

/// The box a child handle stands for, read off the built arena.
fn child_box(boxes: &Vec<AABB>, nodes: &Vec<BvhNode>, c: usize) -> (b: AABB)
    requires
        (c as int) < boxes@.len() + nodes@.len(),
        node_wf(boxes@.len() as int, nodes@, boxes@, c as int),
    ensures
        b == subtree_box(boxes@.len() as int, nodes@, boxes@, c as int),
{
    if c < boxes.len() {
        boxes[c]
    } else {
        nodes[c - boxes.len()].bbox
    }
}

/// Recursively builds the subtree for the index range `[start, end)`:
/// pick a random axis, order the range by it, split it at the middle,
/// and record a node whose cached box is the union of its children's.
/// A range of one primitive becomes a node pointing at that primitive
/// on both sides; a range of two orders the pair directly.  The handle
/// of the finished subtree comes back, always the newest arena entry.
pub fn new_bvh_node(
    boxes: &Vec<AABB>,
    idx: &mut Vec<usize>,
    start: usize,
    end: usize,
    nodes: &mut Vec<BvhNode>,
) -> (c: usize)
    requires
        start < end <= old(idx).len(),
        forall|k: int| 0 <= k < old(idx)@.len() ==> (#[trigger] old(idx)@[k] as int) < boxes@.len(),
        boxes@.len() + old(nodes)@.len() + 2 * (end - start) <= usize::MAX,
    ensures
        final(idx)@.len() == old(idx)@.len(),
        forall|k: int|
            0 <= k < final(idx)@.len() ==> (#[trigger] final(idx)@[k] as int) < boxes@.len(),
        forall|k: int|
            0 <= k < old(idx)@.len() && !(start <= k < end) ==> final(idx)@[k] == old(idx)@[k],
        old(nodes)@.len() < final(nodes)@.len(),
        final(nodes)@.len() <= old(nodes)@.len() + 2 * (end - start) - 1,
        forall|i: int| 0 <= i < old(nodes)@.len() ==> final(nodes)@[i] == old(nodes)@[i],
        c as int == boxes@.len() + final(nodes)@.len() - 1,
        node_wf(boxes@.len() as int, final(nodes)@, boxes@, c as int),
        subtree_prims(boxes@.len() as int, final(nodes)@, c as int).to_set() == old(
            idx,
        )@.subrange(start as int, end as int).to_set(),
    decreases end - start,
{
    let n_prims = boxes.len();
    let axis = rand_below(3);
    let span = end - start;
    if span == 1 {
        let p = idx[start];
        let b = boxes[p];
        let bbox = AABB::surrounding_box(&b, &b);
        nodes.push(BvhNode { left: p, right: p, bbox });
        let c = n_prims + nodes.len() - 1;
        proof {
            let ghost ns = nodes@;
            assert(node_wf(n_prims as int, ns, boxes@, p as int));
            assert(subtree_box(n_prims as int, ns, boxes@, p as int) == boxes@[p as int]);
            assert(subtree_prims(n_prims as int, ns, p as int) =~= seq![p]);
            assert(subtree_prims(n_prims as int, ns, c as int) =~= seq![p, p]);
            assert(subtree_prims(n_prims as int, ns, c as int).to_set() =~= old(idx)@.subrange(
                start as int,
                end as int,
            ).to_set()) by {
                assert(old(idx)@.subrange(start as int, end as int)[0] == p);
            }
        }
        c
    } else if span == 2 {
        let a = idx[start];
        let b = idx[start + 1];
        let ka = key_of(boxes, a, axis);
        let kb = key_of(boxes, b, axis);
        let (l, r) = if kb < ka {
            (b, a)
        } else {
            (a, b)
        };
        let bbox = AABB::surrounding_box(&boxes[l], &boxes[r]);
        nodes.push(BvhNode { left: l, right: r, bbox });
        let c = n_prims + nodes.len() - 1;
        proof {
            let ghost ns = nodes@;
            assert(node_wf(n_prims as int, ns, boxes@, l as int));
            assert(node_wf(n_prims as int, ns, boxes@, r as int));
            assert(subtree_box(n_prims as int, ns, boxes@, l as int) == boxes@[l as int]);
            assert(subtree_box(n_prims as int, ns, boxes@, r as int) == boxes@[r as int]);
            assert(subtree_prims(n_prims as int, ns, l as int) =~= seq![l]);
            assert(subtree_prims(n_prims as int, ns, r as int) =~= seq![r]);
            assert(subtree_prims(n_prims as int, ns, c as int) =~= seq![l, r]);
            assert(subtree_prims(n_prims as int, ns, c as int).to_set() =~= old(idx)@.subrange(
                start as int,
                end as int,
            ).to_set()) by {
                let sub = old(idx)@.subrange(start as int, end as int);
                assert(sub[0] == a && sub[1] == b);
            }
        }
        c
    } else {
        let mut sub = copy_range(idx, start, end);
        sort_indices(boxes, &mut sub, axis);
        paste_range(idx, start, &sub);
        let ghost idx1 = idx@;
        proof {
            assert forall|k: int| 0 <= k < idx1.len() implies (#[trigger] idx1[k] as int)
                < boxes@.len() by {
                if start <= k < end {
                    assert(idx1.subrange(start as int, end as int)[k - start] == idx1[k]);
                    assert((sub@[k - start] as int) < boxes@.len());
                }
            }
            lemma_same_multiset_same_set(
                old(idx)@.subrange(start as int, end as int),
                idx1.subrange(start as int, end as int),
            );
        }
        let mid = start + span / 2;
        let lc = new_bvh_node(boxes, idx, start, mid, nodes);
        let ghost idx2 = idx@;
        let ghost nodes2 = nodes@;
        let rc = new_bvh_node(boxes, idx, mid, end, nodes);
        let ghost nodes3 = nodes@;
        proof {
            lemma_subtree_frame(n_prims as int, nodes2, nodes3, boxes@, lc as int);
        }
        let lb = child_box(boxes, nodes, lc);
        let rb = child_box(boxes, nodes, rc);
        let bbox = AABB::surrounding_box(&lb, &rb);
        nodes.push(BvhNode { left: lc, right: rc, bbox });
        let c = n_prims + nodes.len() - 1;
        proof {
            let ghost ns = nodes@;
            lemma_subtree_frame(n_prims as int, nodes3, ns, boxes@, lc as int);
            lemma_subtree_frame(n_prims as int, nodes3, ns, boxes@, rc as int);
            assert(node_wf(n_prims as int, ns, boxes@, c as int));
            assert(subtree_prims(n_prims as int, ns, c as int) == subtree_prims(
                n_prims as int,
                ns,
                lc as int,
            ) + subtree_prims(n_prims as int, ns, rc as int));
            lemma_concat_to_set(
                subtree_prims(n_prims as int, ns, lc as int),
                subtree_prims(n_prims as int, ns, rc as int),
            );
            assert(idx2.subrange(mid as int, end as int) =~= idx1.subrange(mid as int, end as int));
            lemma_concat_to_set(
                idx1.subrange(start as int, mid as int),
                idx1.subrange(mid as int, end as int),
            );
            assert(idx1.subrange(start as int, mid as int) + idx1.subrange(mid as int, end as int)
                =~= idx1.subrange(start as int, end as int));
            assert(subtree_prims(n_prims as int, ns, c as int).to_set() =~= old(idx)@.subrange(
                start as int,
                end as int,
            ).to_set());
        }
        c
    }
}

/// Pushing an element adds exactly that element to a sequence's values.
proof fn lemma_push_contains(s: Seq<usize>, x: usize, q: usize)
    ensures
        s.push(x).contains(q) <==> s.contains(q) || q == x,
{
    if s.push(x).contains(q) {
        let i = choose|i: int| 0 <= i < s.push(x).len() && s.push(x)[i] == q;
        if i < s.len() {
            assert(s[i] == q);
        }
    }
    if s.contains(q) {
        let i = choose|i: int| 0 <= i < s.len() && s[i] == q;
        assert(s.push(x)[i] == q);
    }
    if q == x {
        assert(s.push(x)[s.len() as int] == q);
    }
}

/// A built hierarchy: the primitive count it was built over, the arena
/// of interior nodes, and the handle of the topmost node.
#[derive(Clone)]
pub struct Bvh {
    pub n_prims: usize,
    pub nodes: Vec<BvhNode>,
    pub root: usize,
}

impl Bvh {
    /// The tree is well formed over the boxes it was built from, its
    /// root is the newest arena entry, and the primitives below the
    /// root are exactly the primitives given.
    pub open spec fn wf(self, boxes: Seq<AABB>) -> bool {
        &&& self.n_prims == boxes.len()
        &&& self.nodes@.len() >= 1
        &&& self.root as int == self.n_prims + self.nodes@.len() - 1
        &&& node_wf(self.n_prims as int, self.nodes@, boxes, self.root as int)
        &&& forall|q: usize|
            #[trigger] subtree_prims(self.n_prims as int, self.nodes@, self.root as int).contains(q)
                <==> (q as int) < boxes.len()
    }

    /// Builds the hierarchy over the given primitive boxes.
    pub fn build(boxes: &Vec<AABB>) -> (b: Bvh)
        requires
            1 <= boxes.len(),
            3 * boxes@.len() <= usize::MAX,
        ensures
            b.wf(boxes@),
    {
        let n = boxes.len();
        let mut idx: Vec<usize> = Vec::new();
        let mut k: usize = 0;
        while k < n
            invariant
                0 <= k <= n,
                idx@.len() == k,
                forall|t: int| 0 <= t < k ==> idx@[t] == t,
            decreases n - k,
        {
            idx.push(k);
            k = k + 1;
        }
        let ghost ident = idx@;
        let mut nodes: Vec<BvhNode> = Vec::new();
        let root = new_bvh_node(boxes, &mut idx, 0, n, &mut nodes);
        proof {
            let ps = subtree_prims(n as int, nodes@, root as int);
            assert(ident.subrange(0, n as int) =~= ident);
            assert forall|q: usize| #[trigger] ps.contains(q) <==> (q as int) < n by {
                assert(ps.contains(q) <==> ps.to_set().contains(q));
                if ident.contains(q) {
                    let i = choose|i: int| 0 <= i < ident.len() && ident[i] == q;
                    assert((q as int) < n);
                }
                if (q as int) < n {
                    assert(ident[q as int] == q);
                }
            }
        }
        Bvh { n_prims: n, nodes, root }
    }

    /// Collects every primitive whose box contains the point, walking
    /// the hierarchy and skipping any subtree whose cached box misses
    /// the point.
    pub fn query_point(&self, boxes: &Vec<AABB>, p: Coord3) -> (r: Vec<usize>)
        requires
            self.wf(boxes@),
        ensures
            forall|q: usize|
                #[trigger] r@.contains(q) <==> (q as int) < boxes@.len() && boxes@[q as int].contains(p),
    {
        let mut out: Vec<usize> = Vec::new();
        query_node(self.n_prims, &self.nodes, boxes, self.root, p, &mut out);
        out
    }
}

/// Collects the primitives below `c` whose box contains `p`, pruning
/// subtrees whose cached box already misses `p`.
fn query_node(
    n_prims: usize,
    nodes: &Vec<BvhNode>,
    boxes: &Vec<AABB>,
    c: usize,
    p: Coord3,
    out: &mut Vec<usize>,
)
    requires
        n_prims == boxes@.len(),
        node_wf(n_prims as int, nodes@, boxes@, c as int),
        (c as int) < n_prims + nodes@.len(),
    ensures
        forall|q: usize|
            #[trigger] final(out)@.contains(q) <==> old(out)@.contains(q) || (subtree_prims(
                n_prims as int,
                nodes@,
                c as int,
            ).contains(q) && boxes@[q as int].contains(p)),
    decreases c,
{
    if c < n_prims {
        proof {
            assert(subtree_prims(n_prims as int, nodes@, c as int) =~= seq![c]);
        }
        if boxes[c].contains_point(p) {
            let ghost pre = out@;
            out.push(c);
            proof {
                assert forall|q: usize| #[trigger] out@.contains(q) <==> pre.contains(q) || (
                subtree_prims(n_prims as int, nodes@, c as int).contains(q) && boxes@[q as int].contains(p)) by {
                    lemma_push_contains(pre, c, q);
                    if q == c {
                        assert(seq![c][0] == q);
                    }
                }
            }
        }
    } else {
        let node = nodes[c - n_prims];
        if node.bbox.contains_point(p) {
            let ghost pre = out@;
            query_node(n_prims, nodes, boxes, node.left, p, out);
            let ghost mid = out@;
            query_node(n_prims, nodes, boxes, node.right, p, out);
            proof {
                let lp = subtree_prims(n_prims as int, nodes@, node.left as int);
                let rp = subtree_prims(n_prims as int, nodes@, node.right as int);
                assert forall|q: usize| #[trigger] out@.contains(q) <==> pre.contains(q) || (
                subtree_prims(n_prims as int, nodes@, c as int).contains(q) && boxes@[q as int].contains(p)) by {
                    assert(mid.contains(q) <==> pre.contains(q) || (lp.contains(q) && boxes@[q as int].contains(p)));
                    assert(out@.contains(q) <==> mid.contains(q) || (rp.contains(q) && boxes@[q as int].contains(p)));
                    lemma_concat_to_set(lp, rp);
                    assert(subtree_prims(n_prims as int, nodes@, c as int) == lp + rp);
                    assert((lp + rp).contains(q) <==> (lp + rp).to_set().contains(q));
                    assert(lp.contains(q) <==> lp.to_set().contains(q));
                    assert(rp.contains(q) <==> rp.to_set().contains(q));
                }
            }
        } else {
            proof {
                lemma_subtree_box_encloses(n_prims as int, nodes@, boxes@, c as int);
                let ps = subtree_prims(n_prims as int, nodes@, c as int);
                assert forall|q: usize| ps.contains(q) implies !boxes@[q as int].contains(p) by {
                    let sb = subtree_box(n_prims as int, nodes@, boxes@, c as int);
                    if boxes@[q as int].contains(p) {
                        AABB::lemma_encloses_contains(sb, boxes@[q as int], p);
                        assert(node.bbox == sb);
                    }
                }
            }
        }
    }
}

/// Brute-force reference: test every primitive's box directly.
pub fn scan_point(boxes: &Vec<AABB>, p: Coord3) -> (r: Vec<usize>)
    ensures
        forall|q: usize|
            #[trigger] r@.contains(q) <==> (q as int) < boxes@.len() && boxes@[q as int].contains(
                p,
            ),
{
    let mut out: Vec<usize> = Vec::new();
    let n = boxes.len();
    let mut k: usize = 0;
    while k < n
        invariant
            0 <= k <= n,
            n == boxes@.len(),
            forall|q: usize|
                #[trigger] out@.contains(q) <==> (q as int) < k && boxes@[q as int].contains(p),
        decreases n - k,
    {
        let ghost pre = out@;
        if boxes[k].contains_point(p) {
            out.push(k);
        }
        proof {
            assert forall|q: usize|
                #[trigger] out@.contains(q) <==> (q as int) < k + 1 && boxes@[q as int].contains(
                    p,
                ) by {
                lemma_push_contains(pre, k, q);
            }
        }
        k = k + 1;
    }
    out
}

/// The hierarchy walk and the linear scan agree: over any primitive
/// boxes and any query point, results that meet the two functions'
/// contracts pick out the same primitives.
pub proof fn lemma_bvh_scan_agree(
    boxes: Seq<AABB>,
    p: Coord3,
    via_bvh: Seq<usize>,
    via_scan: Seq<usize>,
)
    requires
        forall|q: usize|
            #[trigger] via_bvh.contains(q) <==> (q as int) < boxes.len() && boxes[q as int].contains(p),
        forall|q: usize|
            #[trigger] via_scan.contains(q) <==> (q as int) < boxes.len() && boxes[q as int].contains(p),
    ensures
        via_bvh.to_set() == via_scan.to_set(),
{
    assert(via_bvh.to_set() =~= via_scan.to_set());
}

} // verus!
