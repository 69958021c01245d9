//! The `font-language-override` property.

use vstd::prelude::*;

verus! {

/// The language system the font should use, if overridden.
#[derive(Debug, Clone, PartialEq)]
pub enum T {
    Normal,
    Override(String),
}

/// Initially the language is not overridden.
pub fn get_initial_value() -> (v: T)
    ensures
        v is Normal,
{
    T::Normal
}

/// Initially the specified value is `normal` too.
pub fn get_initial_specified_value() -> (v: T)
    ensures
        v is Normal,
{
    T::Normal
}

} // verus!
