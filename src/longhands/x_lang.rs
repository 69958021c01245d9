//! The internal `-x-lang` property: the language of the content, set by
//! presentation attributes only.

use vstd::prelude::*;

verus! {

/// The content language, as its text.
#[derive(Debug, Clone, PartialEq)]
pub struct T(pub String);

/// Initially the language is empty.
pub fn get_initial_value() -> (v: T)
    ensures
        v.0@.len() == 0,
{
    T(String::new())
}

} // verus!
