//! The decisions of the recursive ray-color estimator, one bounce at a time.
//! The caller does the color arithmetic: it traces the ray, asks the
//! material to scatter, and then does what the step says.
use vstd::prelude::*;

verus! {

/// What one bounce of the estimator does.
#[derive(Clone, Copy, Debug, PartialEq, Eq, Structural)]
pub enum Bounce {
    /// The depth budget is spent: the path contributes white, the color that
    /// stands for a path cut short.
    Exhausted,
    /// The ray left the scene: the background color.
    Background,
    /// The surface does not scatter: its emitted color.
    Emit,
    /// A scatter without a density (mirror, glass): the attenuation times the
    /// color of the scattered ray, one level deeper.
    Specular,
    /// A scatter with a density: a direction drawn from the even mixture of
    /// the light-directed density and the material's own, weighted by the
    /// material's scattering density over the mixture's.
    Mixture,
}

/// The step taken with `depth` bounces left, given whether the ray hit
/// something, whether the material scattered, and whether the scatter came
/// with a density.
pub fn next_bounce(depth: i32, hit: bool, scattered: bool, has_pdf: bool) -> (r: Bounce)
    ensures
        depth <= 0 ==> r == Bounce::Exhausted,
        depth > 0 && !hit ==> r == Bounce::Background,
        depth > 0 && hit && !scattered ==> r == Bounce::Emit,
        depth > 0 && hit && scattered && !has_pdf ==> r == Bounce::Specular,
        depth > 0 && hit && scattered && has_pdf ==> r == Bounce::Mixture,
{
    if depth <= 0 {
        Bounce::Exhausted
    } else if !hit {
        Bounce::Background
    } else if !scattered {
        Bounce::Emit
    } else if !has_pdf {
        Bounce::Specular
    } else {
        Bounce::Mixture
    }
}

/// The depth budget of the scattered ray: one less, for a bounce that
/// recurses.
pub fn deeper(depth: i32) -> (r: i32)
    requires
        depth > 0,
    ensures
        r == depth - 1,
        r >= 0,
{
    depth - 1
}

} // verus!
