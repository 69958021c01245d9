//! The keywords of the `font-size` property.

use vstd::prelude::*;

verus! {

/// The absolute font size keywords. `XXXLarge` is no CSS keyword: it is what
/// HTML font size 7 maps to.
#[derive(Debug, Clone, Copy, PartialEq, Eq, Structural)]
pub enum KeywordSize {
    XXSmall,
    XSmall,
    Small,
    Medium,
    Large,
    XLarge,
    XXLarge,
    XXXLarge,
}

impl Default for KeywordSize {
    fn default() -> (k: KeywordSize)
        ensures
            k == KeywordSize::Medium,
    {
        KeywordSize::Medium
    }
}

} // verus!
