//! Minimum, maximum and clamping of ordered keys.
use vstd::prelude::*;

verus! {

pub open spec fn min_i64(a: i64, b: i64) -> i64 {
    if a <= b {
        a
    } else {
        b
    }
}

pub open spec fn max_i64(a: i64, b: i64) -> i64 {
    if a >= b {
        a
    } else {
        b
    }
}

pub fn ffmin(a: i64, b: i64) -> (r: i64)
    ensures
        r == min_i64(a, b),
{
    if a <= b {
        a
    } else {
        b
    }
}

pub fn ffmax(a: i64, b: i64) -> (r: i64)
    ensures
        r == max_i64(a, b),
{
    if a >= b {
        a
    } else {
        b
    }
}

/// `x` limited to `[min, max]`: `min` below it, `max` above it.
pub fn clamp(x: i64, min: i64, max: i64) -> (r: i64)
    ensures
        x < min ==> r == min,
        min <= x && x > max ==> r == max,
        min <= x && x <= max ==> r == x,
{
    if x < min {
        min
    } else if x > max {
        max
    } else {
        x
    }
}

} // verus!
