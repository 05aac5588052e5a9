//! Scaled decimal numbers.

use vstd::prelude::*;

verus! {

/// The number `mantissa / 10^scale`, held exactly. A negative scale
/// multiplies by a power of ten.
#[derive(Clone, Copy, Debug, PartialEq, Eq)]
pub struct Decimal {
    pub mantissa: i64,
    pub scale: i32,
}

impl Decimal {
    pub fn new(mantissa: i64, scale: i32) -> (d: Decimal)
        ensures
            d == (Decimal { mantissa, scale }),
    {
        Decimal { mantissa, scale }
    }
}

} // verus!
