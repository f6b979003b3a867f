//! Permutation tables for gradient noise.
//!
//! Gradient noise hashes every lattice corner to one of the random
//! gradient vectors through three shuffled index tables, one per axis.
//! Each table is a permutation of `0..POINT_COUNT`, so the XOR of three
//! entries always addresses a valid gradient, and every gradient can be
//! reached.  The gradient vectors themselves, and the smoothed
//! interpolation over them, live in the floating-point shell.

use vstd::prelude::*;

use crate::rng::rand_below;

verus! {

/// Number of entries in each table, and of gradient vectors.
pub const POINT_COUNT: usize = 256;

/// The table is a permutation of `0..POINT_COUNT`: every entry is a
/// valid gradient index and every index appears exactly once.
pub open spec fn perm_wf(s: Seq<usize>) -> bool {
    &&& s.len() == POINT_COUNT
    &&& forall|k: int| 0 <= k < s.len() ==> (#[trigger] s[k] as int) < POINT_COUNT
    &&& forall|v: usize| (v as int) < POINT_COUNT ==> s.to_multiset().count(v) == 1
}

/// The shuffled index tables for the three axes.
pub struct Perlin {
    pub perm_x: Vec<usize>,
    pub perm_y: Vec<usize>,
    pub perm_z: Vec<usize>,
}

impl Perlin {
    /// All three tables are permutations.
    pub open spec fn wf(self) -> bool {
        perm_wf(self.perm_x@) && perm_wf(self.perm_y@) && perm_wf(self.perm_z@)
    }

    /// Three freshly shuffled tables.
    pub fn new() -> (r: Perlin)
        ensures
            r.wf(),
    {
        Perlin {
            perm_x: Self::perlin_generate_perm(),
            perm_y: Self::perlin_generate_perm(),
            perm_z: Self::perlin_generate_perm(),
        }
    }

    /// A shuffle of the identity table: a permutation of
    /// `0..POINT_COUNT`.
    pub fn perlin_generate_perm() -> (p: Vec<usize>)
        ensures
            perm_wf(p@),
    {
        let mut p: Vec<usize> = Vec::new();
        let mut i: usize = 0;
        while i < POINT_COUNT
            invariant
                0 <= i <= POINT_COUNT,
                p@.len() == i,
                forall|t: int| 0 <= t < i ==> p@[t] == t,
            decreases POINT_COUNT - i,
        {
            p.push(i);
            i = i + 1;
        }
        let ghost ident = p@;
        proof {
            assert(ident.no_duplicates());
            ident.lemma_multiset_has_no_duplicates();
            broadcast use vstd::seq_lib::group_to_multiset_ensures;

            assert forall|v: usize| (v as int) < POINT_COUNT implies ident.to_multiset().count(v)
                == 1 by {
                assert(ident[v as int] == v);
                assert(ident.contains(v));
                assert(ident.to_multiset().contains(v));
            }
        }
        Self::permute(&mut p, POINT_COUNT);
        proof {
            broadcast use vstd::seq_lib::group_to_multiset_ensures;

            assert forall|k: int| 0 <= k < p@.len() implies (#[trigger] p@[k] as int) < POINT_COUNT
                by {
                assert(p@.contains(p@[k]));
                assert(p@.to_multiset().count(p@[k]) > 0);
                assert(ident.to_multiset().count(p@[k]) > 0);
                assert(ident.contains(p@[k]));
                let t = choose|t: int| 0 <= t < ident.len() && ident[t] == p@[k];
                assert(ident[t] == t);
            }
        }
        p
    }

    /// Uniform shuffle of the first `n` entries, swapping each
    /// position downward with a randomly drawn partner: the entries
    /// are rearranged, none added or lost.
    fn permute(p: &mut Vec<usize>, n: usize)
        requires
            n == old(p).len(),
        ensures
            final(p)@.len() == old(p)@.len(),
            final(p)@.to_multiset() == old(p)@.to_multiset(),
    {
        let mut i = n;
        while i > 0
            invariant
                0 <= i <= n,
                p@.len() == n,
                p@.to_multiset() == old(p)@.to_multiset(),
            decreases i,
        {
            i = i - 1;
            let target = rand_below(i + 1);
            if target < i {
                let ghost pre = p@;
                let a = p[target];
                let b = p[i];
                p.set(target, b);
                p.set(i, a);
                proof {
                    assert(p@ == pre.update(target as int, pre[i as int]).update(
                        i as int,
                        pre[target as int],
                    ));
                    crate::bvh::lemma_swap_seq_multiset(pre, target as int, i as int);
                }
            }
        }
    }

    /// The gradient index of lattice corner `(i, j, k)`: each
    /// coordinate is wrapped into the table, and the three entries are
    /// XOR-combined.  The result always addresses a valid gradient.
    pub fn gradient_index(&self, i: i32, j: i32, k: i32) -> (r: usize)
        requires
            self.wf(),
        ensures
            r == (self.perm_x@[(i & 255) as int] ^ self.perm_y@[(j & 255) as int] ^ self.perm_z@[(k
                & 255) as int]),
            r < POINT_COUNT,
    {
        proof {
            assert(0 <= (i & 255) < 256) by (bit_vector);
            assert(0 <= (j & 255) < 256) by (bit_vector);
            assert(0 <= (k & 255) < 256) by (bit_vector);
        }
        let xi = (i & 255) as usize;
        let yi = (j & 255) as usize;
        let zi = (k & 255) as usize;
        let a = self.perm_x[xi];
        let b = self.perm_y[yi];
        let c = self.perm_z[zi];
        let r = a ^ b ^ c;
        proof {
            assert(a < 256 && b < 256 && c < 256 ==> (a ^ b ^ c) < 256) by (bit_vector);
        }
        r
    }
}

} // verus!
