//! Flat scenes and the nearest-hit scan.
//!
//! A nearest-hit query is posed through a leaf test `leaf_hit(j)`, which
//! gives the parameter of the nearest intersection of the query's ray with
//! surface `j` past the ray's lower bound, or `None`. The query keeps the
//! smallest parameter below `t_max`. Its contract is stated over the
//! outcomes that the leaf test reported (the scan) or may report (the
//! hierarchy, which asks for a deterministic leaf test).
use crate::aabb::AABB;
use crate::bvh::all_leaves;
use vstd::prelude::*;

verus! {

/// No leaf of `leaves` may report a hit before `t`.
pub open spec fn no_hit_before(
    outcome: spec_fn(usize, i64) -> bool,
    leaves: Set<usize>,
    t: i64,
) -> bool {
    forall|j: usize, s: i64| #[trigger] leaves.contains(j) && #[trigger] outcome(j, s) ==> t <= s
}

/// `r` is a nearest hit among `leaves` below `t_max`, where `outcome(j, s)`
/// says that the test of leaf `j` may report a hit at `s`: `None` when no
/// leaf hits before `t_max`, else a leaf with a reported hit that no leaf
/// beats.
pub open spec fn is_nearest(
    outcome: spec_fn(usize, i64) -> bool,
    leaves: Set<usize>,
    t_max: i64,
    r: Option<(usize, i64)>,
) -> bool {
    match r {
        None => no_hit_before(outcome, leaves, t_max),
        Some((j, s)) => {
            &&& leaves.contains(j)
            &&& outcome(j, s)
            &&& s < t_max
            &&& no_hit_before(outcome, leaves, s)
        },
    }
}

/// Among the nearest leaves, `r` is the one of smallest index.
pub open spec fn is_first(outcome: spec_fn(usize, i64) -> bool, r: Option<(usize, i64)>) -> bool {
    r matches Some((j, s)) ==> forall|k: usize| k < j ==> !#[trigger] outcome(k, s)
}

/// The hits that the leaf test may report: `leaf_hit(j)` may give `Some(s)`.
pub open spec fn leaf_outcome<L: Fn(usize) -> Option<i64>>(leaf_hit: L) -> spec_fn(
    usize,
    i64,
) -> bool {
    |j: usize, s: i64| leaf_hit.ensures((j,), Some(s))
}

/// The leaf test gives one outcome per leaf.
pub open spec fn leaf_deterministic<L: Fn(usize) -> Option<i64>>(leaf_hit: L) -> bool {
    forall|j: usize, a: Option<i64>, b: Option<i64>|
        #![trigger leaf_hit.ensures((j,), a), leaf_hit.ensures((j,), b)]
        leaf_hit.ensures((j,), a) && leaf_hit.ensures((j,), b) ==> a == b
}

/// The result on `a` or `b` follows from the results on each side, when
/// the side `b` was searched below the hit found on side `a`.
pub(crate) proof fn lemma_nearest_join(
    outcome: spec_fn(usize, i64) -> bool,
    a: Set<usize>,
    b: Set<usize>,
    t_max: i64,
    ra: Option<(usize, i64)>,
    rb: Option<(usize, i64)>,
)
    requires
        is_nearest(outcome, a, t_max, ra),
        is_nearest(
            outcome,
            b,
            match ra {
                Some((_, s)) => s,
                None => t_max,
            },
            rb,
        ),
    ensures
        is_nearest(
            outcome,
            a.union(b),
            t_max,
            if rb is Some {
                rb
            } else {
                ra
            },
        ),
{
    let u = a.union(b);
    let bound = match ra {
        Some((_, s)) => s,
        None => t_max,
    };
    let t = match rb {
        Some((_, s)) => s,
        None => bound,
    };
    assert forall|j: usize, s: i64| #[trigger] u.contains(j) && #[trigger] outcome(j, s) implies t
        <= s by {
        if a.contains(j) {
            assert(bound <= s);
        } else {
            assert(b.contains(j));
        }
    }
}

/// What a deterministic leaf test of leaf `j` gave, `o`, settles whether
/// `j` is a hit below `t_max`.
pub(crate) proof fn lemma_leaf_result<L: Fn(usize) -> Option<i64>>(
    leaf_hit: L,
    j: usize,
    o: Option<i64>,
    t_max: i64,
)
    requires
        leaf_deterministic(leaf_hit),
        leaf_hit.ensures((j,), o),
    ensures
        is_nearest(
            leaf_outcome(leaf_hit),
            set![j],
            t_max,
            match o {
                Some(s) => if s < t_max {
                    Some((j, s))
                } else {
                    None
                },
                None => None,
            },
        ),
        forall|s: i64| #[trigger] leaf_outcome(leaf_hit)(j, s) ==> o == Some(s),
{
    let outcome = leaf_outcome(leaf_hit);
    assert forall|s: i64| #[trigger] outcome(j, s) implies o == Some(s) by {
        assert(leaf_hit.ensures((j,), Some(s)));
    }
    assert forall|k: usize, s: i64| #[trigger] set![j].contains(k) && #[trigger] outcome(k, s) implies (
    match o {
        Some(s0) => if s0 < t_max {
            s0
        } else {
            t_max
        },
        None => t_max,
    }) <= s by {
        assert(k == j);
        assert(o == Some(s));
    }
}

/// The hits recorded in `hs`: leaf `j` reported a hit at `s`.
pub open spec fn seq_outcome(hs: Seq<Option<i64>>) -> spec_fn(usize, i64) -> bool {
    |j: usize, s: i64| j < hs.len() && hs[j as int] == Some(s)
}

/// `hs` is one run of the leaf test: `hs[j]` is an outcome of `leaf_hit(j)`.
pub open spec fn leaf_run<L: Fn(usize) -> Option<i64>>(leaf_hit: L, hs: Seq<Option<i64>>) -> bool {
    forall|j: usize| j < hs.len() ==> #[trigger] leaf_hit.ensures((j,), hs[j as int])
}

/// Whether `r` is a nearest hit depends only on the outcomes of the leaves
/// in `leaves`.
proof fn lemma_nearest_same_outcomes(
    o1: spec_fn(usize, i64) -> bool,
    o2: spec_fn(usize, i64) -> bool,
    leaves: Set<usize>,
    t_max: i64,
    r: Option<(usize, i64)>,
)
    requires
        forall|j: usize, s: i64|
            #![trigger o1(j, s)]
            #![trigger o2(j, s)]
            leaves.contains(j) ==> (o1(j, s) == o2(j, s)),
        is_nearest(o1, leaves, t_max, r),
    ensures
        is_nearest(o2, leaves, t_max, r),
{
    let t = match r {
        Some((_, s)) => s,
        None => t_max,
    };
    assert forall|j: usize, s: i64| #[trigger] leaves.contains(j) && #[trigger] o2(j, s) implies t <= s by {
        assert(o1(j, s));
    }
    if let Some((j, s)) = r {
        assert(leaves.contains(j));
    }
}

/// Nearest hit over surfaces `0..count`, scanned in order with a bound that
/// shrinks to each hit found: each leaf is tested once, and the result is the
/// nearest of the reported hits below `t_max`, the first of them in index
/// order on ties. For a deterministic leaf test this is the nearest hit
/// that any leaf may report.
pub fn closest_hit<L>(count: usize, t_max: i64, leaf_hit: &L) -> (r: Option<(usize, i64)>) where
    L: Fn(usize) -> Option<i64>,

    requires
        forall|j: usize| j < count ==> leaf_hit.requires((j,)),
    ensures
        exists|hs: Seq<Option<i64>>|
            #![trigger leaf_run(*leaf_hit, hs)]
            hs.len() == count && leaf_run(*leaf_hit, hs) && is_nearest(
                seq_outcome(hs),
                all_leaves(count as int),
                t_max,
                r,
            ) && is_first(seq_outcome(hs), r),
        leaf_deterministic(*leaf_hit) ==> is_nearest(
            leaf_outcome(*leaf_hit),
            all_leaves(count as int),
            t_max,
            r,
        ) && is_first(leaf_outcome(*leaf_hit), r),
{
    let mut best: Option<(usize, i64)> = None;
    let mut closest: i64 = t_max;
    let mut i: usize = 0;
    let ghost mut hs: Seq<Option<i64>> = Seq::empty();
    while i < count
        invariant
            i <= count,
            hs.len() == i,
            forall|j: usize| j < count ==> leaf_hit.requires((j,)),
            leaf_run(*leaf_hit, hs),
            closest == match best {
                Some((_, s)) => s,
                None => t_max,
            },
            is_nearest(seq_outcome(hs), all_leaves(i as int), t_max, best),
            is_first(seq_outcome(hs), best),
        decreases count - i,
    {
        let o = leaf_hit(i);
        let ghost old_best = best;
        let ghost old_closest = closest;
        let ghost old_hs = hs;
        match o {
            Some(s) => {
                if s < closest {
                    best = Some((i, s));
                    closest = s;
                }
            },
            None => {},
        }
        proof {
            hs = hs.push(o);
            let out = seq_outcome(hs);
            let old_out = seq_outcome(old_hs);
            assert forall|j: usize| j < hs.len() implies #[trigger] leaf_hit.ensures((j,), hs[j as int]) by {
                if j < i {
                    assert(leaf_hit.ensures((j,), old_hs[j as int]));
                }
            }
            let prev = all_leaves(i as int);
            assert forall|j: usize, s: i64|
                #![trigger old_out(j, s)]
                #![trigger out(j, s)]
                prev.contains(j) implies (old_out(j, s) == out(j, s)) by {}
            lemma_nearest_same_outcomes(old_out, out, prev, t_max, old_best);
            let rb = match o {
                Some(s) => if s < old_closest {
                    Some((i, s))
                } else {
                    None
                },
                None => None,
            };
            let t_i = match rb {
                Some((_, s)) => s,
                None => old_closest,
            };
            assert forall|j: usize, s: i64| #[trigger] set![i].contains(j) && #[trigger] out(j, s) implies t_i <= s by {
                assert(j == i);
            }
            assert(rb matches Some((j, s)) ==> set![i].contains(j) && out(j, s));
            lemma_nearest_join(out, prev, set![i], t_max, old_best, rb);
            assert(all_leaves(i + 1) =~= prev.union(set![i]));
            if let Some((j, s)) = best {
                assert forall|k: usize| k < j implies !#[trigger] out(k, s) by {
                    if out(k, s) {
                        assert(prev.contains(k));
                        if j < i {
                            assert(old_out(k, s));
                        }
                    }
                }
            }
        }
        i = i + 1;
    }
    proof {
        if leaf_deterministic(*leaf_hit) {
            let out = seq_outcome(hs);
            let lo = leaf_outcome(*leaf_hit);
            let all = all_leaves(count as int);
            assert forall|j: usize, s: i64|
                #![trigger out(j, s)]
                #![trigger lo(j, s)]
                all.contains(j) implies (out(j, s) == lo(j, s)) by {
                assert(leaf_hit.ensures((j,), hs[j as int]));
                if lo(j, s) {
                    assert(leaf_hit.ensures((j,), Some(s)));
                }
            }
            lemma_nearest_same_outcomes(out, lo, all, t_max, best);
            if let Some((j, s)) = best {
                assert forall|k: usize| k < j implies !#[trigger] lo(k, s) by {
                    if lo(k, s) {
                        assert(all.contains(k));
                        assert(out(k, s));
                    }
                }
            }
        }
        assert(leaf_run(*leaf_hit, hs));
    }
    best
}

/// A flat list of surfaces, searched by a linear scan.
pub struct HittableList<T> {
    pub objects: Vec<T>,
}

impl<T> HittableList<T> {
    /// A list holding one surface.
    pub fn new(object: T) -> (l: Self)
        ensures
            l.objects@ == seq![object],
    {
        HittableList { objects: vec![object] }
    }

    /// An empty list.
    pub fn empty() -> (l: Self)
        ensures
            l.objects@.len() == 0,
    {
        HittableList { objects: Vec::new() }
    }

    pub fn clear(&mut self)
        ensures
            final(self).objects@.len() == 0,
    {
        self.objects.clear();
    }

    pub fn add(&mut self, object: T)
        ensures
            final(self).objects@ == old(self).objects@.push(object),
    {
        self.objects.push(object);
    }

    /// Nearest hit over the list's surfaces, `leaf_hit(j)` testing
    /// `objects[j]`; see [`closest_hit`].
    pub fn hit<L>(&self, t_max: i64, leaf_hit: &L) -> (r: Option<(usize, i64)>) where
        L: Fn(usize) -> Option<i64>,

        requires
            forall|j: usize| j < self.objects.len() ==> leaf_hit.requires((j,)),
        ensures
            exists|hs: Seq<Option<i64>>|
                #![trigger leaf_run(*leaf_hit, hs)]
                hs.len() == self.objects.len() && leaf_run(*leaf_hit, hs) && is_nearest(
                    seq_outcome(hs),
                    all_leaves(self.objects.len() as int),
                    t_max,
                    r,
                ) && is_first(seq_outcome(hs), r),
            leaf_deterministic(*leaf_hit) ==> is_nearest(
                leaf_outcome(*leaf_hit),
                all_leaves(self.objects.len() as int),
                t_max,
                r,
            ) && is_first(leaf_outcome(*leaf_hit), r),
    {
        closest_hit(self.objects.len(), t_max, leaf_hit)
    }

    /// The box around every surface of the list, given the surfaces' boxes
    /// in list order; `None` for an empty list.
    pub fn bounding_box(&self, boxes: &Vec<AABB>) -> (r: Option<AABB>)
        requires
            boxes.len() == self.objects.len(),
        ensures
            self.objects.len() == 0 <==> r is None,
            r matches Some(u) ==> u == crate::aabb::union_seq(boxes@),
    {
        AABB::union_all(boxes)
    }
}

} // verus!
