//! Discrete decisions of the primitives, on ordered keys of ray parameters
//! and coordinates.
use crate::rtweekend::{max_i64, min_i64};
use crate::key::ZERO;
use vstd::prelude::*;

verus! {

/// `t` lies strictly inside `(t_min, t_max)`.
pub open spec fn open_range(t: i64, t_min: i64, t_max: i64) -> bool {
    t_min < t && t < t_max
}

/// Root choice of the sphere test, given the smaller root `near` and the
/// larger root `far` of the ray/sphere quadratic: the smaller root if it
/// lies in `(t_min, t_max)`, else the larger if it does, else no hit.
pub fn select_root(near: i64, far: i64, t_min: i64, t_max: i64) -> (r: Option<i64>)
    ensures
        open_range(near, t_min, t_max) ==> r == Some(near),
        !open_range(near, t_min, t_max) && open_range(far, t_min, t_max) ==> r == Some(far),
        !open_range(near, t_min, t_max) && !open_range(far, t_min, t_max) ==> r is None,
{
    if t_min < near && near < t_max {
        Some(near)
    } else if t_min < far && far < t_max {
        Some(far)
    } else {
        None
    }
}

/// Acceptance test of an axis-aligned rectangle: the plane is crossed at
/// `t` strictly inside `(t_min, t_max)`, and the crossing point `(a, b)` lies in the
/// rectangle's extent `[a0, a1] x [b0, b1]`.
pub fn rect_accepts(
    t: i64,
    t_min: i64,
    t_max: i64,
    a: i64,
    b: i64,
    a0: i64,
    a1: i64,
    b0: i64,
    b1: i64,
) -> (r: bool)
    ensures
        r == (t_min < t && t < t_max && a0 <= a && a <= a1 && b0 <= b && b <= b1),
{
    if t <= t_min || t >= t_max {
        return false;
    }
    if a < a0 || a > a1 || b < b0 || b > b1 {
        return false;
    }
    true
}

/// The stretch of a ray inside a medium, from the boundary crossings
/// `entry` and `exit`: the start is clamped to be no earlier than `t_min`
/// and than `0`, the end to be no later than `t_max`; an empty stretch is
/// `None`.
pub fn medium_span(entry: i64, exit: i64, t_min: i64, t_max: i64) -> (r: Option<(i64, i64)>)
    ensures
        max_i64(max_i64(entry, t_min), ZERO) >= min_i64(exit, t_max) <==> r is None,
        r matches Some((a, b)) ==> a == max_i64(max_i64(entry, t_min), ZERO) && b == min_i64(
            exit,
            t_max,
        ),
{
    let mut a = entry;
    let mut b = exit;
    if a < t_min {
        a = t_min;
    }
    if b > t_max {
        b = t_max;
    }
    if a < ZERO {
        a = ZERO;
    }
    if a >= b {
        return None;
    }
    Some((a, b))
}

} // verus!
