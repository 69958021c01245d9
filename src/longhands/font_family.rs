//! The `font-family` property. A family name is held as its text.

use vstd::prelude::*;

verus! {

/// A named font family.
#[derive(Debug, Clone, PartialEq, Eq, Hash)]
pub struct FamilyName(pub String);

/// A font family: a name, or one of the generic families.
#[derive(Debug, Clone, PartialEq, Eq, Hash)]
pub enum FontFamily {
    FamilyName(FamilyName),
    Generic(String),
}

/// The computed list of families, in order of preference.
#[derive(Debug, Clone, PartialEq, Eq, Hash)]
pub struct T(pub Vec<FontFamily>);

/// The code of `c`, with the ASCII capitals taken to lower case.
pub open spec fn ascii_lower(c: char) -> u32 {
    if 65 <= c as u32 <= 90 {
        (c as u32 + 32) as u32
    } else {
        c as u32
    }
}

/// `a` and `b` are the same text but for the case of ASCII letters.
pub open spec fn eq_ignore_case(a: Seq<char>, b: Seq<char>) -> bool {
    a.len() == b.len() && forall|i: int| 0 <= i < a.len() ==> ascii_lower(#[trigger] a[i]) == ascii_lower(b[i])
}

/// The generic family that `s` names, ignoring the case of ASCII letters.
pub open spec fn generic_of(s: Seq<char>) -> Option<Seq<char>> {
    if eq_ignore_case(s, "serif"@) {
        Some("serif"@)
    } else if eq_ignore_case(s, "sans-serif"@) {
        Some("sans-serif"@)
    } else if eq_ignore_case(s, "cursive"@) {
        Some("cursive"@)
    } else if eq_ignore_case(s, "fantasy"@) {
        Some("fantasy"@)
    } else if eq_ignore_case(s, "monospace"@) {
        Some("monospace"@)
    } else {
        None
    }
}

/// Compares two texts, ignoring the case of ASCII letters.
fn eq_ignore_ascii_case(a: &str, b: &str) -> (same: bool)
    ensures
        same == eq_ignore_case(a@, b@),
{
    let n = a.unicode_len();
    if n != b.unicode_len() {
        return false;
    }
    let mut i: usize = 0;
    while i < n
        invariant
            n == a@.len(),
            n == b@.len(),
            i <= n,
            forall|k: int| 0 <= k < i ==> ascii_lower(#[trigger] a@[k]) == ascii_lower(b@[k]),
        decreases n - i,
    {
        let x = a.get_char(i) as u32;
        let y = b.get_char(i) as u32;
        let lx = if 65 <= x && x <= 90 {
            x + 32
        } else {
            x
        };
        let ly = if 65 <= y && y <= 90 {
            y + 32
        } else {
            y
        };
        if lx != ly {
            return false;
        }
        i += 1;
    }
    true
}

impl FontFamily {
    /// The family that a name stands for: one of the generic families when
    /// it names one, whatever the case of its letters, else a named family.
    pub fn from_atom(input: String) -> (family: FontFamily)
        ensures
            match generic_of(input@) {
                Some(g) => family matches FontFamily::Generic(name) && name@ == g,
                None => family matches FontFamily::FamilyName(name) && name.0@ == input@,
            },
    {
        if eq_ignore_ascii_case(input.as_str(), "serif") {
            return FontFamily::Generic(String::from_str("serif"));
        }
        if eq_ignore_ascii_case(input.as_str(), "sans-serif") {
            return FontFamily::Generic(String::from_str("sans-serif"));
        }
        if eq_ignore_ascii_case(input.as_str(), "cursive") {
            return FontFamily::Generic(String::from_str("cursive"));
        }
        if eq_ignore_ascii_case(input.as_str(), "fantasy") {
            return FontFamily::Generic(String::from_str("fantasy"));
        }
        if eq_ignore_ascii_case(input.as_str(), "monospace") {
            return FontFamily::Generic(String::from_str("monospace"));
        }
        FontFamily::FamilyName(FamilyName(input))
    }

    /// The family's name, as held.
    pub fn atom(&self) -> (atom: &String)
        ensures
            atom == (match *self {
                FontFamily::FamilyName(n) => n.0,
                FontFamily::Generic(g) => g,
            }),
    {
        match self {
            FontFamily::FamilyName(n) => &n.0,
            FontFamily::Generic(g) => g,
        }
    }

    /// The text of the family's name.
    pub fn name(&self) -> (name: &String)
        ensures
            name == (match *self {
                FontFamily::FamilyName(n) => n.0,
                FontFamily::Generic(g) => g,
            }),
    {
        self.atom()
    }
}

/// Initially the one family is the generic `serif`.
pub fn get_initial_value() -> (v: T)
    ensures
        v.0@.len() == 1,
        v.0@[0] matches FontFamily::Generic(g) && g@ == "serif"@,
{
    let serif = String::from_str("serif");
    proof {
        reveal_strlit("serif");
    }
    let mut families: Vec<FontFamily> = Vec::new();
    families.push(FontFamily::Generic(serif));
    T(families)
}

} // verus!
