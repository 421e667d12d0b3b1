//! The divisor of a dispersion.
use vstd::prelude::*;

verus! {

/// The number by which the sum of the squared deviations of `count` numbers
/// from their mean is divided to give their dispersion: one less than their
/// count. The empty sample has none, its dispersion being undefined. For a
/// sample of one number the divisor is 0.
pub fn dispersion_divisor(count: usize) -> (r: Option<usize>)
    ensures
        count == 0 ==> r is None,
        count > 0 ==> r == Some((count - 1) as usize),
{
    if count == 0 {
        None
    } else {
        Some(count - 1)
    }
}

} // verus!
