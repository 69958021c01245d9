//! The `font-synthesis` property.

use vstd::prelude::*;

verus! {

/// Which faces the user agent may synthesize.
#[derive(Debug, Clone, Copy, PartialEq, Eq, Structural)]
pub struct SpecifiedValue {
    pub weight: bool,
    pub style: bool,
}

/// Initially both bold and oblique faces may be synthesized.
pub fn get_initial_value() -> (v: SpecifiedValue)
    ensures
        v.weight,
        v.style,
{
    SpecifiedValue { weight: true, style: true }
}

} // verus!
