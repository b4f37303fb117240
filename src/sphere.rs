//! Which of the two roots of a ray-sphere intersection counts as the hit.
use vstd::prelude::*;
use crate::interval::Interval;
use crate::scalar::Scalar;

verus! {

/// The nearer root `near` if it lies strictly inside `ray_t`, else the
/// farther root `far` if it does, else no hit.
pub fn nearest_root(ray_t: Interval, near: Scalar, far: Scalar) -> (r: Option<Scalar>)
    ensures
        r == (if ray_t.min.spec_lt(near) && near.spec_lt(ray_t.max) {
            Some(near)
        } else if ray_t.min.spec_lt(far) && far.spec_lt(ray_t.max) {
            Some(far)
        } else {
            None::<Scalar>
        }),
{
    if ray_t.surrounds(near) {
        Some(near)
    } else if ray_t.surrounds(far) {
        Some(far)
    } else {
        None
    }
}

} // verus!
