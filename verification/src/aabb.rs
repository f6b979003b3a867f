//! Axis-aligned bounding boxes over the integer coordinate encoding.
//!
//! A `Coord3` stands for a point of the scene: each component is the
//! image of the corresponding scene coordinate under a fixed
//! order-preserving encoding, so `<` on a component means `<` on the
//! coordinate it encodes, and componentwise `min`/`max` agree with the
//! scene-space ones.

use vstd::prelude::*;

verus! {

/// The key of a raw coordinate bit pattern, in sign-magnitude form:
/// a pattern with the top bit set (a negative coordinate) is inverted
/// wholesale, any other gets the top bit set.  Keys then order as the
/// coordinates do, with all former negatives below all former
/// positives.
pub open spec fn key_of_bits_spec(bits: u64) -> u64 {
    if bits & 0x8000_0000_0000_0000 != 0 {
        !bits
    } else {
        bits | 0x8000_0000_0000_0000
    }
}

/// Turns a coordinate's raw bit pattern into its ordering key.
pub fn key_of_bits(bits: u64) -> (k: u64)
    ensures
        k == key_of_bits_spec(bits),
{
    if bits & 0x8000_0000_0000_0000 != 0 {
        !bits
    } else {
        bits | 0x8000_0000_0000_0000
    }
}

/// Recovers the raw coordinate bit pattern from its ordering key.
pub fn bits_of_key(k: u64) -> (bits: u64)
    ensures
        key_of_bits_spec(bits) == k,
{
    proof {
        assert(k & 0x8000_0000_0000_0000 != 0 ==> ((k & 0x7FFF_FFFF_FFFF_FFFF)
            & 0x8000_0000_0000_0000 == 0 && ((k & 0x7FFF_FFFF_FFFF_FFFF) | 0x8000_0000_0000_0000)
            == k)) by (bit_vector);
        assert(k & 0x8000_0000_0000_0000 == 0 ==> ((!k) & 0x8000_0000_0000_0000 != 0 && !(!k)
            == k)) by (bit_vector);
    }
    if k & 0x8000_0000_0000_0000 != 0 {
        k & 0x7FFF_FFFF_FFFF_FFFF
    } else {
        !k
    }
}

/// The key encoding loses nothing: every bit pattern comes back from
/// its key, so distinct coordinates always get distinct keys.
pub proof fn lemma_key_of_bits_invertible(b1: u64, b2: u64)
    requires
        key_of_bits_spec(b1) == key_of_bits_spec(b2),
    ensures
        b1 == b2,
{
    let k1 = key_of_bits_spec(b1);
    let k2 = key_of_bits_spec(b2);
    assert((if b1 & 0x8000_0000_0000_0000 != 0 {
        !b1
    } else {
        b1 | 0x8000_0000_0000_0000
    }) == (if b2 & 0x8000_0000_0000_0000 != 0 {
        !b2
    } else {
        b2 | 0x8000_0000_0000_0000
    }) ==> b1 == b2) by (bit_vector);
}

/// A point, componentwise in the order-preserving integer encoding.
#[derive(Clone, Copy, PartialEq, Eq, Structural, Debug)]
pub struct Coord3 {
    pub x: u64,
    pub y: u64,
    pub z: u64,
}

impl Coord3 {
    pub fn new(x: u64, y: u64, z: u64) -> (p: Coord3)
        ensures
            p.x == x && p.y == y && p.z == z,
    {
        Coord3 { x, y, z }
    }

    /// Component on a numbered axis, `0` = x, `1` = y, `2` = z.
    pub open spec fn axis(self, a: int) -> u64 {
        if a == 0 {
            self.x
        } else if a == 1 {
            self.y
        } else {
            self.z
        }
    }
}

/// An axis-aligned box, given by its minimum and maximum corner.
///
/// `new` records the two corners as given; a box only describes a
/// region when the corners are ordered (`wf`), which constructors of
/// primitive boxes and `surrounding_box` preserve.
#[derive(Clone, Copy, PartialEq, Eq, Structural, Debug)]
pub struct AABB {
    pub minimum: Coord3,
    pub maximum: Coord3,
}

impl AABB {
    /// The corners are componentwise ordered, so the box describes
    /// the product of three non-empty intervals.
    pub open spec fn wf(self) -> bool {
        self.minimum.x <= self.maximum.x && self.minimum.y <= self.maximum.y
            && self.minimum.z <= self.maximum.z
    }

    /// `p` lies inside the box (borders included).
    pub open spec fn contains(self, p: Coord3) -> bool {
        &&& self.minimum.x <= p.x <= self.maximum.x
        &&& self.minimum.y <= p.y <= self.maximum.y
        &&& self.minimum.z <= p.z <= self.maximum.z
    }

    /// Every point of `inner` lies in `self`.
    pub open spec fn encloses(self, inner: AABB) -> bool {
        &&& self.minimum.x <= inner.minimum.x && inner.maximum.x <= self.maximum.x
        &&& self.minimum.y <= inner.minimum.y && inner.maximum.y <= self.maximum.y
        &&& self.minimum.z <= inner.minimum.z && inner.maximum.z <= self.maximum.z
    }

    /// The smallest box containing both arguments: componentwise
    /// minimum of the minima and maximum of the maxima.
    pub open spec fn union_box(a: AABB, b: AABB) -> AABB {
        AABB {
            minimum: Coord3 {
                x: if a.minimum.x <= b.minimum.x {
                    a.minimum.x
                } else {
                    b.minimum.x
                },
                y: if a.minimum.y <= b.minimum.y {
                    a.minimum.y
                } else {
                    b.minimum.y
                },
                z: if a.minimum.z <= b.minimum.z {
                    a.minimum.z
                } else {
                    b.minimum.z
                },
            },
            maximum: Coord3 {
                x: if a.maximum.x >= b.maximum.x {
                    a.maximum.x
                } else {
                    b.maximum.x
                },
                y: if a.maximum.y >= b.maximum.y {
                    a.maximum.y
                } else {
                    b.maximum.y
                },
                z: if a.maximum.z >= b.maximum.z {
                    a.maximum.z
                } else {
                    b.maximum.z
                },
            },
        }
    }

    pub fn new(a: Coord3, b: Coord3) -> (r: AABB)
        ensures
            r.minimum == a && r.maximum == b,
    {
        AABB { minimum: a, maximum: b }
    }

    /// The minimal box containing both inputs.
    pub fn surrounding_box(box0: &AABB, box1: &AABB) -> (r: AABB)
        ensures
            r == Self::union_box(*box0, *box1),
    {
        let small = Coord3::new(
            if box0.minimum.x <= box1.minimum.x {
                box0.minimum.x
            } else {
                box1.minimum.x
            },
            if box0.minimum.y <= box1.minimum.y {
                box0.minimum.y
            } else {
                box1.minimum.y
            },
            if box0.minimum.z <= box1.minimum.z {
                box0.minimum.z
            } else {
                box1.minimum.z
            },
        );
        let big = Coord3::new(
            if box0.maximum.x >= box1.maximum.x {
                box0.maximum.x
            } else {
                box1.maximum.x
            },
            if box0.maximum.y >= box1.maximum.y {
                box0.maximum.y
            } else {
                box1.maximum.y
            },
            if box0.maximum.z >= box1.maximum.z {
                box0.maximum.z
            } else {
                box1.maximum.z
            },
        );
        AABB::new(small, big)
    }

    /// Box union is commutative: joining two boxes in either order
    /// gives the same box.
    pub proof fn lemma_union_box_commutative(a: AABB, b: AABB)
        ensures
            Self::union_box(a, b) == Self::union_box(b, a),
    {
    }

    /// Box union is associative, so unioning the boxes of a primitive
    /// list is independent of the grouping and, with commutativity,
    /// of the order.
    pub proof fn lemma_union_box_associative(a: AABB, b: AABB, c: AABB)
        ensures
            Self::union_box(Self::union_box(a, b), c) == Self::union_box(a, Self::union_box(b, c)),
    {
    }

    /// The union contains both arguments, so a point outside the
    /// union is outside both.
    pub proof fn lemma_union_box_encloses(a: AABB, b: AABB)
        ensures
            Self::union_box(a, b).encloses(a),
            Self::union_box(a, b).encloses(b),
    {
    }

    /// Enclosure is transitive on containment: a point of an enclosed
    /// box is a point of the enclosing one.
    pub proof fn lemma_encloses_contains(outer: AABB, inner: AABB, p: Coord3)
        requires
            outer.encloses(inner),
            inner.contains(p),
        ensures
            outer.contains(p),
    {
    }

    /// The fold of the union over a list is its least upper bound: a
    /// box contains the fold exactly when it contains every listed
    /// box.
    pub proof fn lemma_union_prefix_least(boxes: Seq<AABB>, n: int, outer: AABB)
        requires
            1 <= n <= boxes.len(),
        ensures
            outer.encloses(Self::union_prefix(boxes, n)) <==> (forall|k: int|
                0 <= k < n ==> outer.encloses(#[trigger] boxes[k])),
        decreases n,
    {
        if n > 1 {
            Self::lemma_union_prefix_least(boxes, n - 1, outer);
        }
    }

    /// Repeated unioning is order-independent: two arrangements of
    /// the same boxes fold to the same surrounding box.
    pub proof fn lemma_union_all_order_independent(s1: Seq<AABB>, s2: Seq<AABB>)
        requires
            s1.len() >= 1,
            s1.to_multiset() == s2.to_multiset(),
        ensures
            Self::union_prefix(s1, s1.len() as int) == Self::union_prefix(s2, s2.len() as int),
    {
        broadcast use vstd::seq_lib::group_to_multiset_ensures;

        assert(s1.to_multiset().len() == s1.len());
        assert(s2.to_multiset().len() == s2.len());
        assert(s2.len() == s1.len());
        let u1 = Self::union_prefix(s1, s1.len() as int);
        let u2 = Self::union_prefix(s2, s2.len() as int);
        Self::lemma_union_prefix_least(s1, s1.len() as int, u1);
        Self::lemma_union_prefix_least(s2, s2.len() as int, u2);
        assert forall|k: int| 0 <= k < s2.len() implies u1.encloses(#[trigger] s2[k]) by {
            assert(s2.contains(s2[k]));
            assert(s2.to_multiset().count(s2[k]) > 0);
            assert(s1.contains(s2[k]));
            let j = choose|j: int| 0 <= j < s1.len() && s1[j] == s2[k];
            assert(u1.encloses(s1[j]));
        }
        assert forall|k: int| 0 <= k < s1.len() implies u2.encloses(#[trigger] s1[k]) by {
            assert(s1.contains(s1[k]));
            assert(s1.to_multiset().count(s1[k]) > 0);
            assert(s2.contains(s1[k]));
            let j = choose|j: int| 0 <= j < s2.len() && s2[j] == s1[k];
            assert(u2.encloses(s2[j]));
        }
        Self::lemma_union_prefix_least(s2, s2.len() as int, u1);
        Self::lemma_union_prefix_least(s1, s1.len() as int, u2);
        assert(u1.encloses(u2) && u2.encloses(u1));
    }

    /// The union of well-formed boxes is well-formed.
    pub proof fn lemma_union_box_wf(a: AABB, b: AABB)
        requires
            a.wf(),
            b.wf(),
        ensures
            Self::union_box(a, b).wf(),
    {
    }

    /// The union of a non-empty prefix of a list of boxes, folded
    /// left to right.
    pub open spec fn union_prefix(boxes: Seq<AABB>, n: int) -> AABB
        decreases n,
    {
        if n <= 1 {
            boxes[0]
        } else {
            Self::union_box(Self::union_prefix(boxes, n - 1), boxes[n - 1])
        }
    }

    /// The box around a whole list of boxes: the fold of the union
    /// over the list, absent only when the list is empty.  The result
    /// contains every listed box.
    pub fn surrounding_box_all(boxes: &Vec<AABB>) -> (r: Option<AABB>)
        ensures
            r is None <==> boxes@.len() == 0,
            boxes@.len() > 0 ==> r == Some(Self::union_prefix(boxes@, boxes@.len() as int)),
            boxes@.len() > 0 ==> forall|k: int|
                0 <= k < boxes@.len() ==> Self::union_prefix(boxes@, boxes@.len() as int).encloses(
                    #[trigger] boxes@[k],
                ),
    {
        if boxes.len() == 0 {
            return None;
        }
        let mut acc = boxes[0];
        let mut k: usize = 1;
        while k < boxes.len()
            invariant
                1 <= k <= boxes@.len(),
                acc == Self::union_prefix(boxes@, k as int),
                forall|t: int| 0 <= t < k ==> acc.encloses(#[trigger] boxes@[t]),
            decreases boxes@.len() - k,
        {
            let ghost prev = acc;
            acc = AABB::surrounding_box(&acc, &boxes[k]);
            proof {
                Self::lemma_union_box_encloses(prev, boxes@[k as int]);
                assert forall|t: int| 0 <= t < k + 1 implies acc.encloses(#[trigger] boxes@[t]) by {
                    if t < k {
                        assert(prev.encloses(boxes@[t]));
                    }
                }
            }
            k = k + 1;
        }
        Some(acc)
    }

    /// Whether `p` lies inside the box.
    pub fn contains_point(&self, p: Coord3) -> (r: bool)
        ensures
            r == self.contains(p),
    {
        self.minimum.x <= p.x && p.x <= self.maximum.x && self.minimum.y <= p.y && p.y
            <= self.maximum.y && self.minimum.z <= p.z && p.z <= self.maximum.z
    }

    /// Orders two boxes by the minimum corner on the given axis.
    pub fn box_compare(a: &AABB, b: &AABB, axis: usize) -> (r: bool)
        requires
            axis < 3,
        ensures
            r == (a.minimum.axis(axis as int) < b.minimum.axis(axis as int)),
    {
        if axis == 0 {
            a.minimum.x < b.minimum.x
        } else if axis == 1 {
            a.minimum.y < b.minimum.y
        } else {
            a.minimum.z < b.minimum.z
        }
    }

    pub fn box_x_compare(a: &AABB, b: &AABB) -> (r: bool)
        ensures
            r == (a.minimum.x < b.minimum.x),
    {
        AABB::box_compare(a, b, 0)
    }

    pub fn box_y_compare(a: &AABB, b: &AABB) -> (r: bool)
        ensures
            r == (a.minimum.y < b.minimum.y),
    {
        AABB::box_compare(a, b, 1)
    }

    pub fn box_z_compare(a: &AABB, b: &AABB) -> (r: bool)
        ensures
            r == (a.minimum.z < b.minimum.z),
    {
        AABB::box_compare(a, b, 2)
    }
}

} // verus!
