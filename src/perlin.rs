//! Lattice permutation tables of Perlin noise.
use crate::random::random_index;
use vstd::prelude::*;

verus! {

broadcast use vstd::seq_lib::group_to_multiset_ensures, vstd::multiset::group_multiset_axioms;

pub const POINT_COUNT: usize = 256;

/// `p` is a permutation of `0..POINT_COUNT`.
pub open spec fn is_perm(p: Seq<usize>) -> bool {
    &&& p.len() == POINT_COUNT
    &&& forall|i: int| 0 <= i < p.len() ==> #[trigger] p[i] < POINT_COUNT
    &&& p.no_duplicates()
}

/// Three independent random permutations of the lattice indices, one per
/// axis, hashed together to pick a gradient for each lattice point.
pub struct Pelin {
    pub perm_x: Vec<usize>,
    pub perm_y: Vec<usize>,
    pub perm_z: Vec<usize>,
}

/// The low eight bits of `i`, as an index.
pub open spec fn wrap_index(i: i32) -> int {
    (i & 255i32) as int
}

fn low_byte(i: i32) -> (r: usize)
    ensures
        r as int == wrap_index(i),
        r < POINT_COUNT,
{
    let m: i32 = i & 255i32;
    assert(0 <= (i & 255i32) < 256) by (bit_vector);
    m as usize
}

impl Pelin {
    pub open spec fn wf(self) -> bool {
        is_perm(self.perm_x@) && is_perm(self.perm_y@) && is_perm(self.perm_z@)
    }

    /// Draws the three permutations.
    pub fn new() -> (p: Pelin)
        ensures
            p.wf(),
    {
        Pelin {
            perm_x: Self::perlin_generate_perm(),
            perm_y: Self::perlin_generate_perm(),
            perm_z: Self::perlin_generate_perm(),
        }
    }

    /// Index of the gradient at lattice point `(i, j, k)`: the exclusive or
    /// of the three tables at the low eight bits of each coordinate.
    pub fn hash(&self, i: i32, j: i32, k: i32) -> (r: usize)
        requires
            self.wf(),
        ensures
            r == self.perm_x@[wrap_index(i)] ^ self.perm_y@[wrap_index(j)] ^ self.perm_z@[wrap_index(
                k,
            )],
            r < POINT_COUNT,
    {
        let a = self.perm_x[low_byte(i)];
        let b = self.perm_y[low_byte(j)];
        let c = self.perm_z[low_byte(k)];
        assert(a < 256 && b < 256 && c < 256 ==> (a ^ b ^ c) < 256) by (bit_vector);
        a ^ b ^ c
    }

    /// A uniformly shuffled permutation of `0..POINT_COUNT`.
    pub fn perlin_generate_perm() -> (p: Vec<usize>)
        ensures
            is_perm(p@),
    {
        let mut p: Vec<usize> = Vec::new();
        let mut i: usize = 0;
        while i < POINT_COUNT
            invariant
                i <= POINT_COUNT,
                p@ == Seq::new(i as nat, |q: int| q as usize),
            decreases POINT_COUNT - i,
        {
            p.push(i);
            i = i + 1;
        }
        let ghost ident = p@;
        assert(ident.no_duplicates());
        Self::permute(&mut p, POINT_COUNT);
        proof {
            ident.lemma_multiset_has_no_duplicates();
            assert forall|x: usize| p@.to_multiset().contains(x) implies p@.to_multiset().count(x)
                == 1 by {}
            p@.lemma_multiset_has_no_duplicates_conv();
            assert forall|q: int| 0 <= q < p@.len() implies #[trigger] p@[q] < POINT_COUNT by {
                assert(p@.contains(p@[q]));
                assert(ident.to_multiset().count(p@[q]) > 0);
                assert(ident.contains(p@[q]));
            }
        }
        p
    }

    /// Fisher-Yates shuffle of the first `n` entries: for `i` from `n - 1`
    /// down to `1`, swap entry `i` with a random entry of `0..=i`.
    pub fn permute(p: &mut Vec<usize>, n: usize)
        requires
            n <= old(p).len(),
        ensures
            final(p).len() == old(p).len(),
            final(p)@.to_multiset() == old(p)@.to_multiset(),
    {
        let mut i: usize = n;
        while i > 1
            invariant
                i <= n <= p.len(),
                p.len() == old(p).len(),
                p@.to_multiset() == old(p)@.to_multiset(),
            decreases i,
        {
            i = i - 1;
            let target = random_index(i);
            let tmp = p[i];
            let other = p[target];
            let ghost s0 = p@;
            p.set(i, other);
            p.set(target, tmp);
            proof {
                let s1 = s0.update(i as int, other);
                assert(s1.to_multiset() == s0.to_multiset().insert(other).remove(tmp));
                assert(p@ == s1.update(target as int, tmp));
                assert(p@.to_multiset() == s1.to_multiset().insert(tmp).remove(s1[target as int]));
                assert(p@.to_multiset() =~= s0.to_multiset());
            }
        }
    }
}

} // verus!
