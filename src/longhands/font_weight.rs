//! The `font-weight` property.

use vstd::prelude::*;
use crate::longhands::system_font::SystemFont;

verus! {

/// A specified font weight.
#[derive(Debug, Clone, Copy, PartialEq, Eq, Structural)]
pub enum SpecifiedValue {
    Normal,
    Bold,
    Bolder,
    Lighter,
    Weight100,
    Weight200,
    Weight300,
    Weight400,
    Weight500,
    Weight600,
    Weight700,
    Weight800,
    Weight900,
    System(SystemFont),
}

/// A computed font weight.
#[derive(Debug, Clone, Copy, PartialEq, Eq, Hash, Structural)]
pub enum T {
    Weight100,
    Weight200,
    Weight300,
    Weight400,
    Weight500,
    Weight600,
    Weight700,
    Weight800,
    Weight900,
}

impl T {
    /// Whether the weight counts as bold: 600 and above.
    pub fn is_bold(self) -> (bold: bool)
        ensures
            bold == (self == T::Weight600 || self == T::Weight700 || self == T::Weight800 || self
                == T::Weight900),
    {
        match self {
            T::Weight900 | T::Weight800 | T::Weight700 | T::Weight600 => true,
            _ => false,
        }
    }
}

/// The weight that `bolder` gives over an inherited weight.
pub open spec fn bolder(inherited: T) -> T {
    match inherited {
        T::Weight100 | T::Weight200 | T::Weight300 => T::Weight400,
        T::Weight400 | T::Weight500 => T::Weight700,
        _ => T::Weight900,
    }
}

/// The weight that `lighter` gives over an inherited weight.
pub open spec fn lighter(inherited: T) -> T {
    match inherited {
        T::Weight600 | T::Weight700 => T::Weight400,
        T::Weight800 | T::Weight900 => T::Weight700,
        _ => T::Weight100,
    }
}

/// The specified value that names the weight `w` by its number.
pub open spec fn specified_of(w: T) -> SpecifiedValue {
    match w {
        T::Weight100 => SpecifiedValue::Weight100,
        T::Weight200 => SpecifiedValue::Weight200,
        T::Weight300 => SpecifiedValue::Weight300,
        T::Weight400 => SpecifiedValue::Weight400,
        T::Weight500 => SpecifiedValue::Weight500,
        T::Weight600 => SpecifiedValue::Weight600,
        T::Weight700 => SpecifiedValue::Weight700,
        T::Weight800 => SpecifiedValue::Weight800,
        T::Weight900 => SpecifiedValue::Weight900,
    }
}

/// The computed weight of `v`, given the weight inherited from the parent and
/// the weight of the system font in use.
pub open spec fn computed(v: SpecifiedValue, inherited: T, system_weight: T) -> T {
    match v {
        SpecifiedValue::Normal => T::Weight400,
        SpecifiedValue::Bold => T::Weight700,
        SpecifiedValue::Bolder => bolder(inherited),
        SpecifiedValue::Lighter => lighter(inherited),
        SpecifiedValue::Weight100 => T::Weight100,
        SpecifiedValue::Weight200 => T::Weight200,
        SpecifiedValue::Weight300 => T::Weight300,
        SpecifiedValue::Weight400 => T::Weight400,
        SpecifiedValue::Weight500 => T::Weight500,
        SpecifiedValue::Weight600 => T::Weight600,
        SpecifiedValue::Weight700 => T::Weight700,
        SpecifiedValue::Weight800 => T::Weight800,
        SpecifiedValue::Weight900 => T::Weight900,
        SpecifiedValue::System(_) => system_weight,
    }
}

impl SpecifiedValue {
    /// The computed weight, given the weight inherited from the parent and,
    /// for a system font, the weight of the system font resolved for it.
    pub fn to_computed_value(&self, inherited: T, system_weight: Option<T>) -> (w: T)
        requires
            *self is System ==> system_weight is Some,
        ensures
            w == computed(*self, inherited, system_weight.unwrap_or(inherited)),
    {
        match *self {
            SpecifiedValue::Weight100 => T::Weight100,
            SpecifiedValue::Weight200 => T::Weight200,
            SpecifiedValue::Weight300 => T::Weight300,
            SpecifiedValue::Weight400 => T::Weight400,
            SpecifiedValue::Weight500 => T::Weight500,
            SpecifiedValue::Weight600 => T::Weight600,
            SpecifiedValue::Weight700 => T::Weight700,
            SpecifiedValue::Weight800 => T::Weight800,
            SpecifiedValue::Weight900 => T::Weight900,
            SpecifiedValue::Normal => T::Weight400,
            SpecifiedValue::Bold => T::Weight700,
            SpecifiedValue::Bolder => match inherited {
                T::Weight100 => T::Weight400,
                T::Weight200 => T::Weight400,
                T::Weight300 => T::Weight400,
                T::Weight400 => T::Weight700,
                T::Weight500 => T::Weight700,
                T::Weight600 => T::Weight900,
                T::Weight700 => T::Weight900,
                T::Weight800 => T::Weight900,
                T::Weight900 => T::Weight900,
            },
            SpecifiedValue::Lighter => match inherited {
                T::Weight100 => T::Weight100,
                T::Weight200 => T::Weight100,
                T::Weight300 => T::Weight100,
                T::Weight400 => T::Weight100,
                T::Weight500 => T::Weight100,
                T::Weight600 => T::Weight400,
                T::Weight700 => T::Weight400,
                T::Weight800 => T::Weight700,
                T::Weight900 => T::Weight700,
            },
            SpecifiedValue::System(_) => match system_weight {
                Some(w) => w,
                None => inherited,
            },
        }
    }

    /// The specified value that computes to `computed` whatever the context.
    pub fn from_computed_value(computed: &T) -> (v: SpecifiedValue)
        ensures
            v == specified_of(*computed),
    {
        match *computed {
            T::Weight100 => SpecifiedValue::Weight100,
            T::Weight200 => SpecifiedValue::Weight200,
            T::Weight300 => SpecifiedValue::Weight300,
            T::Weight400 => SpecifiedValue::Weight400,
            T::Weight500 => SpecifiedValue::Weight500,
            T::Weight600 => SpecifiedValue::Weight600,
            T::Weight700 => SpecifiedValue::Weight700,
            T::Weight800 => SpecifiedValue::Weight800,
            T::Weight900 => SpecifiedValue::Weight900,
        }
    }

    /// The value that defers to a system font.
    pub fn system_font(f: SystemFont) -> (v: SpecifiedValue)
        ensures
            v == SpecifiedValue::System(f),
    {
        SpecifiedValue::System(f)
    }

    /// The system font this value defers to, if any.
    pub fn get_system(&self) -> (s: Option<SystemFont>)
        ensures
            s == (match *self {
                SpecifiedValue::System(f) => Some(f),
                _ => None,
            }),
    {
        if let SpecifiedValue::System(s) = *self {
            Some(s)
        } else {
            None
        }
    }
}

/// The initial computed weight: normal, that is 400.
pub fn get_initial_value() -> (v: T)
    ensures
        v == T::Weight400,
{
    T::Weight400
}

/// The initial specified weight: `normal`.
pub fn get_initial_specified_value() -> (v: SpecifiedValue)
    ensures
        v == SpecifiedValue::Normal,
{
    SpecifiedValue::Normal
}

/// A weight given as a number computes to itself, whatever the context.
pub proof fn lemma_computed_round_trip(w: T, inherited: T, system_weight: T)
    ensures
        computed(specified_of(w), inherited, system_weight) == w,
{
}

} // verus!
