//! Control of the recursive radiance estimate.
//!
//! At each bounce the estimator first asks [`exhausted`]; if not, it
//! queries the scene and hands what happened to [`shade`], which says how
//! the bounce's colour is made.
use vstd::prelude::*;

verus! {

/// What the scene query and the material gave at one bounce.
#[derive(Clone, Copy, Debug, PartialEq, Eq, Structural)]
pub enum Bounce {
    /// The ray hit nothing.
    Miss,
    /// The ray hit a surface whose material does not scatter.
    Absorbed,
    /// The ray hit a surface whose material scattered it.
    Scattered,
}

/// How the colour of one bounce is made.
#[derive(Clone, Copy, Debug, PartialEq, Eq, Structural)]
pub enum Shade {
    /// Black: the bounce budget is spent.
    Black,
    /// The background colour.
    Background,
    /// The material's emission alone.
    Emitted,
    /// Emission plus attenuation times the estimate along the scattered ray,
    /// traced with `next_depth` bounces left.
    EmittedPlus { next_depth: i32 },
}

/// The bounce budget is spent: `depth <= 0`.
pub fn exhausted(depth: i32) -> (r: bool)
    ensures
        r == (depth <= 0),
{
    depth <= 0
}

/// The shading decision at a bounce with `depth` bounces left. The
/// scattered ray gets one bounce fewer, so an estimate started with depth
/// `d` makes at most `d` scene queries.
pub fn shade(depth: i32, bounce: Bounce) -> (r: Shade)
    ensures
        depth <= 0 ==> r == Shade::Black,
        depth > 0 && bounce == Bounce::Miss ==> r == Shade::Background,
        depth > 0 && bounce == Bounce::Absorbed ==> r == Shade::Emitted,
        depth > 0 && bounce == Bounce::Scattered ==> r == (Shade::EmittedPlus {
            next_depth: (depth - 1) as i32,
        }),
        r matches Shade::EmittedPlus { next_depth } ==> 0 <= next_depth < depth,
{
    if depth <= 0 {
        return Shade::Black;
    }
    match bounce {
        Bounce::Miss => Shade::Background,
        Bounce::Absorbed => Shade::Emitted,
        Bounce::Scattered => Shade::EmittedPlus { next_depth: depth - 1 },
    }
}

} // verus!
