//! The `font-feature-settings` property.

use vstd::prelude::*;

verus! {

/// One feature setting: a four-letter tag and its value.
#[derive(Debug, Clone, PartialEq)]
pub struct FeatureTagValue {
    pub tag: String,
    pub value: i32,
}

/// The computed feature settings.
#[derive(Debug, Clone, PartialEq)]
pub enum T {
    Normal,
    Tag(Vec<FeatureTagValue>),
}

/// Initially no feature is set: `normal`.
pub fn get_initial_value() -> (v: T)
    ensures
        v is Normal,
{
    T::Normal
}

} // verus!
