//! Axis-aligned bounding boxes over ordered keys.
use crate::rtweekend::{ffmax, ffmin, max_i64, min_i64};
use vstd::prelude::*;

verus! {

/// A point (or a triple of ray parameters), one ordered key per axis.
#[derive(Clone, Copy, Debug, PartialEq, Eq, Structural)]
pub struct Point3 {
    pub x: i64,
    pub y: i64,
    pub z: i64,
}

impl Point3 {
    pub fn new() -> (p: Point3)
        ensures
            p == (Point3 { x: 0, y: 0, z: 0 }),
    {
        Point3 { x: 0, y: 0, z: 0 }
    }

    pub fn from(x: i64, y: i64, z: i64) -> (p: Point3)
        ensures
            p == (Point3 { x, y, z }),
    {
        Point3 { x, y, z }
    }

    /// Coordinate along axis 0 (x), 1 (y) or 2 (z).
    pub open spec fn coord(self, axis: int) -> i64 {
        if axis == 0 {
            self.x
        } else if axis == 1 {
            self.y
        } else {
            self.z
        }
    }

    pub fn axis(&self, axis: usize) -> (r: i64)
        requires
            axis < 3,
        ensures
            r == self.coord(axis as int),
    {
        if axis == 0 {
            self.x
        } else if axis == 1 {
            self.y
        } else {
            self.z
        }
    }

    /// Componentwise `self <= o`.
    pub open spec fn le(self, o: Point3) -> bool {
        self.x <= o.x && self.y <= o.y && self.z <= o.z
    }

    pub open spec fn min_spec(self, o: Point3) -> Point3 {
        Point3 { x: min_i64(self.x, o.x), y: min_i64(self.y, o.y), z: min_i64(self.z, o.z) }
    }

    pub open spec fn max_spec(self, o: Point3) -> Point3 {
        Point3 { x: max_i64(self.x, o.x), y: max_i64(self.y, o.y), z: max_i64(self.z, o.z) }
    }
}

/// An axis-aligned box given by its minimum and maximum corners.
#[derive(Clone, Copy, Debug, PartialEq, Eq, Structural)]
pub struct AABB {
    pub min: Point3,
    pub max: Point3,
}

impl AABB {
    /// Componentwise `min <= max`: no axis interval is inverted.
    pub open spec fn valid(self) -> bool {
        self.min.le(self.max)
    }

    pub open spec fn contains_point(self, p: Point3) -> bool {
        self.min.le(p) && p.le(self.max)
    }

    /// Every axis interval of `b` lies inside the one of `self`.
    pub open spec fn contains_box(self, b: AABB) -> bool {
        self.min.le(b.min) && b.max.le(self.max)
    }

    pub open spec fn union_spec(self, b: AABB) -> AABB {
        AABB { min: self.min.min_spec(b.min), max: self.max.max_spec(b.max) }
    }

    /// The corner that takes, on each axis, the maximum where the matching
    /// flag is set and the minimum otherwise.
    pub open spec fn corner(self, hx: bool, hy: bool, hz: bool) -> Point3 {
        Point3 {
            x: if hx { self.max.x } else { self.min.x },
            y: if hy { self.max.y } else { self.min.y },
            z: if hz { self.max.z } else { self.min.z },
        }
    }

    /// The box with both corners at the origin.
    pub fn new() -> (b: AABB)
        ensures
            b.min == (Point3 { x: 0, y: 0, z: 0 }),
            b.max == (Point3 { x: 0, y: 0, z: 0 }),
    {
        AABB { min: Point3::new(), max: Point3::new() }
    }

    pub fn from(a: Point3, b: Point3) -> (r: AABB)
        ensures
            r.min == a,
            r.max == b,
    {
        AABB { min: a, max: b }
    }

    /// The smallest box that holds both boxes: componentwise minimum of the
    /// minima and maximum of the maxima.
    pub fn surrounding_box(box0: &AABB, box1: &AABB) -> (r: AABB)
        ensures
            r == box0.union_spec(*box1),
    {
        let small = Point3::from(
            ffmin(box0.min.x, box1.min.x),
            ffmin(box0.min.y, box1.min.y),
            ffmin(box0.min.z, box1.min.z),
        );
        let big = Point3::from(
            ffmax(box0.max.x, box1.max.x),
            ffmax(box0.max.y, box1.max.y),
            ffmax(box0.max.z, box1.max.z),
        );
        AABB { min: small, max: big }
    }

    /// Point-in-box test, bounds included.
    pub fn contains(&self, p: &Point3) -> (r: bool)
        ensures
            r == self.contains_point(*p),
    {
        self.min.x <= p.x && self.min.y <= p.y && self.min.z <= p.z && p.x <= self.max.x
            && p.y <= self.max.y && p.z <= self.max.z
    }
}

/// Tightened parameter interval of the slab test: the largest of `t_min`
/// and the three entry parameters, and the smallest of `t_max` and the three
/// exit parameters. On an axis marked `reversed` (negative ray direction)
/// the entry is `t1` and the exit `t0`.
pub open spec fn slab_near(t0: Point3, t1: Point3, reversed: [bool; 3], t_min: i64) -> i64 {
    max_i64(
        max_i64(
            max_i64(t_min, if reversed[0] { t1.x } else { t0.x }),
            if reversed[1] { t1.y } else { t0.y },
        ),
        if reversed[2] { t1.z } else { t0.z },
    )
}

pub open spec fn slab_far(t0: Point3, t1: Point3, reversed: [bool; 3], t_max: i64) -> i64 {
    min_i64(
        min_i64(
            min_i64(t_max, if reversed[0] { t0.x } else { t1.x }),
            if reversed[1] { t0.y } else { t1.y },
        ),
        if reversed[2] { t0.z } else { t1.z },
    )
}

impl AABB {
    /// Slab test. `t0` and `t1` hold, per axis, the ray parameters at which
    /// the ray crosses the box's minimum and maximum planes, and `reversed`
    /// marks the axes along which the ray runs towards smaller coordinates.
    /// The box is hit iff the intersection of `(t_min, t_max)` with the
    /// three slab intervals is not empty.
    pub fn hit(t0: &Point3, t1: &Point3, reversed: &[bool; 3], t_min: i64, t_max: i64) -> (r: bool)
        ensures
            r == (slab_near(*t0, *t1, *reversed, t_min) < slab_far(*t0, *t1, *reversed, t_max)),
    {
        let mut lo: i64 = t_min;
        let mut hi: i64 = t_max;
        let mut axis: usize = 0;
        while axis < 3
            invariant
                axis <= 3,
                lo == (if axis == 0 { t_min } else if axis == 1 { max_i64(t_min, if reversed[0] { t1.x } else { t0.x }) } else if axis == 2 {
                    max_i64(max_i64(t_min, if reversed[0] { t1.x } else { t0.x }), if reversed[1] { t1.y } else { t0.y })
                } else { slab_near(*t0, *t1, *reversed, t_min) }),
                hi == (if axis == 0 { t_max } else if axis == 1 { min_i64(t_max, if reversed[0] { t0.x } else { t1.x }) } else if axis == 2 {
                    min_i64(min_i64(t_max, if reversed[0] { t0.x } else { t1.x }), if reversed[1] { t0.y } else { t1.y })
                } else { slab_far(*t0, *t1, *reversed, t_max) }),
                axis > 0 ==> lo < hi,
            decreases 3 - axis,
        {
            let a = t0.axis(axis);
            let b = t1.axis(axis);
            let (enter, exit) = if reversed[axis] { (b, a) } else { (a, b) };
            lo = ffmax(lo, enter);
            hi = ffmin(hi, exit);
            if hi <= lo {
                return false;
            }
            axis = axis + 1;
        }
        true
    }

    /// The union of a non-empty list of boxes; `None` for an empty list.
    pub fn union_all(boxes: &Vec<AABB>) -> (r: Option<AABB>)
        ensures
            boxes.len() == 0 <==> r is None,
            r matches Some(u) ==> u == union_seq(boxes@),
    {
        if boxes.len() == 0 {
            return None;
        }
        let mut acc = boxes[0];
        let mut i: usize = 1;
        while i < boxes.len()
            invariant
                1 <= i <= boxes.len(),
                acc == union_seq(boxes@.subrange(0, i as int)),
            decreases boxes.len() - i,
        {
            assert(boxes@.subrange(0, i + 1).drop_last() == boxes@.subrange(0, i as int));
            acc = AABB::surrounding_box(&acc, &boxes[i]);
            i = i + 1;
        }
        assert(boxes@.subrange(0, i as int) == boxes@);
        Some(acc)
    }

    /// The smallest box that holds every point of a non-empty list; `None`
    /// for an empty list.
    pub fn enclosing(points: &Vec<Point3>) -> (r: Option<AABB>)
        ensures
            points.len() == 0 <==> r is None,
            r matches Some(b) ==> {
                &&& b.valid()
                &&& forall|i: int| 0 <= i < points.len() ==> b.contains_point(#[trigger] points[i])
                &&& exists|i: int| 0 <= i < points.len() && points[i].x == b.min.x
                &&& exists|i: int| 0 <= i < points.len() && points[i].y == b.min.y
                &&& exists|i: int| 0 <= i < points.len() && points[i].z == b.min.z
                &&& exists|i: int| 0 <= i < points.len() && points[i].x == b.max.x
                &&& exists|i: int| 0 <= i < points.len() && points[i].y == b.max.y
                &&& exists|i: int| 0 <= i < points.len() && points[i].z == b.max.z
            },
    {
        if points.len() == 0 {
            return None;
        }
        let mut b = AABB { min: points[0], max: points[0] };
        let mut i: usize = 1;
        while i < points.len()
            invariant
                1 <= i <= points.len(),
                b.valid(),
                forall|k: int| 0 <= k < i ==> b.contains_point(#[trigger] points[k]),
                exists|k: int| 0 <= k < i && points[k].x == b.min.x,
                exists|k: int| 0 <= k < i && points[k].y == b.min.y,
                exists|k: int| 0 <= k < i && points[k].z == b.min.z,
                exists|k: int| 0 <= k < i && points[k].x == b.max.x,
                exists|k: int| 0 <= k < i && points[k].y == b.max.y,
                exists|k: int| 0 <= k < i && points[k].z == b.max.z,
            decreases points.len() - i,
        {
            let p = points[i];
            let ghost old_b = b;
            b = AABB::surrounding_box(&b, &AABB { min: p, max: p });
            assert forall|k: int| 0 <= k < i + 1 implies b.contains_point(#[trigger] points[k]) by {
                if k < i {
                    assert(old_b.contains_point(points[k]));
                }
            }
            i = i + 1;
        }
        Some(b)
    }
}

/// Left fold of `surrounding_box` over a non-empty sequence of boxes.
pub open spec fn union_seq(s: Seq<AABB>) -> AABB
    decreases s.len(),
{
    if s.len() <= 1 {
        s[0]
    } else {
        union_seq(s.drop_last()).union_spec(s.last())
    }
}

/// `b` is the smallest box around the boxes `boxes[j]`, `j` in `ids`: it
/// holds each of them, and each of its six faces is a face of one of them.
pub open spec fn is_hull(boxes: Seq<AABB>, ids: Set<usize>, b: AABB) -> bool {
    &&& forall|j: usize| #[trigger] ids.contains(j) ==> b.contains_box(boxes[j as int])
    &&& exists|j: usize| #[trigger] ids.contains(j) && boxes[j as int].min.x == b.min.x
    &&& exists|j: usize| #[trigger] ids.contains(j) && boxes[j as int].min.y == b.min.y
    &&& exists|j: usize| #[trigger] ids.contains(j) && boxes[j as int].min.z == b.min.z
    &&& exists|j: usize| #[trigger] ids.contains(j) && boxes[j as int].max.x == b.max.x
    &&& exists|j: usize| #[trigger] ids.contains(j) && boxes[j as int].max.y == b.max.y
    &&& exists|j: usize| #[trigger] ids.contains(j) && boxes[j as int].max.z == b.max.z
}

/// There is one smallest box around a set of boxes.
pub proof fn lemma_hull_unique(boxes: Seq<AABB>, ids: Set<usize>, b1: AABB, b2: AABB)
    requires
        is_hull(boxes, ids, b1),
        is_hull(boxes, ids, b2),
    ensures
        b1 == b2,
{
}

/// The hull of `a` and `b` together is the union of their hulls.
pub proof fn lemma_hull_union(boxes: Seq<AABB>, a: Set<usize>, b: Set<usize>, ha: AABB, hb: AABB)
    requires
        is_hull(boxes, a, ha),
        is_hull(boxes, b, hb),
    ensures
        is_hull(boxes, a.union(b), ha.union_spec(hb)),
{
    let u = ha.union_spec(hb);
    lemma_surrounding_box_contains(ha, hb);
    assert forall|j: usize| #[trigger] a.union(b).contains(j) implies u.contains_box(boxes[j as int]) by {
        if a.contains(j) {
            lemma_contains_box_trans(u, ha, boxes[j as int]);
        } else {
            lemma_contains_box_trans(u, hb, boxes[j as int]);
        }
    }
    let ja = choose|j: usize| #[trigger] a.contains(j) && boxes[j as int].min.x == ha.min.x;
    let jb = choose|j: usize| #[trigger] b.contains(j) && boxes[j as int].min.x == hb.min.x;
    assert(a.union(b).contains(ja) && a.union(b).contains(jb));
    let ja = choose|j: usize| #[trigger] a.contains(j) && boxes[j as int].min.y == ha.min.y;
    let jb = choose|j: usize| #[trigger] b.contains(j) && boxes[j as int].min.y == hb.min.y;
    assert(a.union(b).contains(ja) && a.union(b).contains(jb));
    let ja = choose|j: usize| #[trigger] a.contains(j) && boxes[j as int].min.z == ha.min.z;
    let jb = choose|j: usize| #[trigger] b.contains(j) && boxes[j as int].min.z == hb.min.z;
    assert(a.union(b).contains(ja) && a.union(b).contains(jb));
    let ja = choose|j: usize| #[trigger] a.contains(j) && boxes[j as int].max.x == ha.max.x;
    let jb = choose|j: usize| #[trigger] b.contains(j) && boxes[j as int].max.x == hb.max.x;
    assert(a.union(b).contains(ja) && a.union(b).contains(jb));
    let ja = choose|j: usize| #[trigger] a.contains(j) && boxes[j as int].max.y == ha.max.y;
    let jb = choose|j: usize| #[trigger] b.contains(j) && boxes[j as int].max.y == hb.max.y;
    assert(a.union(b).contains(ja) && a.union(b).contains(jb));
    let ja = choose|j: usize| #[trigger] a.contains(j) && boxes[j as int].max.z == ha.max.z;
    let jb = choose|j: usize| #[trigger] b.contains(j) && boxes[j as int].max.z == hb.max.z;
    assert(a.union(b).contains(ja) && a.union(b).contains(jb));
}

/// A box is the hull of itself.
pub proof fn lemma_hull_single(boxes: Seq<AABB>, j: usize)
    ensures
        is_hull(boxes, set![j], boxes[j as int]),
{
    assert(set![j].contains(j));
}

/// The left fold of `surrounding_box` over the first `n` boxes is their
/// hull.
pub proof fn lemma_union_seq_hull(s: Seq<AABB>, n: int)
    requires
        1 <= n <= s.len() <= usize::MAX,
    ensures
        is_hull(s, Set::new(|j: usize| j < n), union_seq(s.subrange(0, n))),
    decreases n,
{
    let ids = Set::new(|j: usize| j < n);
    if n == 1 {
        lemma_hull_single(s, 0);
        assert(ids =~= set![0usize]);
    } else {
        lemma_union_seq_hull(s, n - 1);
        let prev = Set::new(|j: usize| j < n - 1);
        lemma_hull_single(s, (n - 1) as usize);
        lemma_hull_union(s, prev, set![(n - 1) as usize], union_seq(s.subrange(0, n - 1)), s[n - 1]);
        assert(prev.union(set![(n - 1) as usize]) =~= ids);
        assert(s.subrange(0, n).drop_last() == s.subrange(0, n - 1));
    }
}

/// The surrounding box holds both boxes: every point of either box, and in
/// particular each of the eight corners of each valid box, is inside it.
pub proof fn lemma_surrounding_box_contains(a: AABB, b: AABB)
    ensures
        a.union_spec(b).contains_box(a),
        a.union_spec(b).contains_box(b),
        forall|p: Point3| a.contains_point(p) ==> #[trigger] a.union_spec(b).contains_point(p),
        forall|p: Point3| b.contains_point(p) ==> #[trigger] a.union_spec(b).contains_point(p),
        a.valid() ==> forall|hx: bool, hy: bool, hz: bool|
            #[trigger] a.union_spec(b).contains_point(a.corner(hx, hy, hz)),
        b.valid() ==> forall|hx: bool, hy: bool, hz: bool|
            #[trigger] a.union_spec(b).contains_point(b.corner(hx, hy, hz)),
{
}

/// Containment of boxes is transitive.
pub proof fn lemma_contains_box_trans(a: AABB, b: AABB, c: AABB)
    requires
        a.contains_box(b),
        b.contains_box(c),
    ensures
        a.contains_box(c),
{
}

/// A ray that runs parallel to an axis outside the box's slab on that axis
/// crosses both planes of the slab at `+inf` (or both at `-inf`), and then
/// misses, whatever the other axes give.
pub proof fn lemma_parallel_outside_misses(
    t0: Point3,
    t1: Point3,
    reversed: [bool; 3],
    t_min: i64,
    t_max: i64,
    axis: int,
    at: i64,
)
    requires
        0 <= axis < 3,
        at == crate::key::POS_INFINITY || at == crate::key::NEG_INFINITY,
        t0.coord(axis) == at,
        t1.coord(axis) == at,
        crate::key::NEG_INFINITY <= t_min,
        t_max <= crate::key::POS_INFINITY,
    ensures
        !(slab_near(t0, t1, reversed, t_min) < slab_far(t0, t1, reversed, t_max)),
{
}

} // verus!
