//! The inside test of a parallelogram in its own coordinates.
use vstd::prelude::*;
use crate::interval::Interval;
use crate::scalar::Scalar;

verus! {

/// Bit pattern of the value one.
pub const ONE_BITS: u32 = 0x3f80_0000;

/// The point with plane coordinates `(alpha, beta)` lies on the
/// parallelogram when both are in `[0, 1]`; it then gives them back as the
/// surface coordinates of the hit.
pub fn is_interior(alpha: Scalar, beta: Scalar) -> (r: Option<(Scalar, Scalar)>)
    ensures
        r == (if 0 <= alpha.rank() <= ONE_BITS && 0 <= beta.rank() <= ONE_BITS && !alpha.nan() && !beta.nan() {
            Some((alpha, beta))
        } else {
            None::<(Scalar, Scalar)>
        }),
{
    let unit = Interval::new(Scalar::zero(), Scalar::from_bits(ONE_BITS));
    if !unit.contains(alpha) || !unit.contains(beta) {
        return None;
    }
    Some((alpha, beta))
}

} // verus!
