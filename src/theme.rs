//! The colour theme the user asked for.
use vstd::prelude::*;
use crate::fold::{lower_of, lowercase};
use crate::model::same_text;

verus! {

/// A light or a dark colour theme.
#[derive(Clone, Copy, Debug, PartialEq, Eq, Structural)]
pub enum ThemeMode {
    Light,
    Dark,
}

impl ThemeMode {
    /// The theme named by an already lowercased word.
    pub open spec fn spec_from_lowercase(l: Seq<char>) -> Option<ThemeMode> {
        if l == "light"@ {
            Some(ThemeMode::Light)
        } else if l == "dark"@ {
            Some(ThemeMode::Dark)
        } else {
            None
        }
    }

    /// The theme named by an already lowercased word: `light` or `dark`.
    pub fn from_lowercase(l: &str) -> (r: Option<ThemeMode>)
        ensures
            r == Self::spec_from_lowercase(l@),
    {
        if same_text(l, "light") {
            Some(ThemeMode::Light)
        } else if same_text(l, "dark") {
            Some(ThemeMode::Dark)
        } else {
            None
        }
    }

    /// The theme named by `s`, in any case.
    pub fn from_str(s: &str) -> (r: Option<ThemeMode>)
        ensures
            r == Self::spec_from_lowercase(lower_of(s@)),
    {
        let l = lowercase(s);
        Self::from_lowercase(l.as_str())
    }
}

} // verus!
