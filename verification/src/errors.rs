//! The failure kinds that store operations report.

use vstd::prelude::*;

verus! {

/// Why a store operation could not complete.
///
/// Every public operation reports failure through this type; nothing panics.
#[derive(Clone, Copy, Debug, PartialEq, Eq, Structural)]
pub enum I18nError {
    /// The named locale has never been written to, or has been deleted.
    LocaleNotFound,
    /// A path segment is absent from the branch that should contain it.
    KeyNotFound,
    /// A path tried to descend through a leaf where a branch was required.
    TypeMismatch,
    /// Formatting was requested on a branch rather than a leaf string.
    FormatTargetNotString,
}

impl I18nError {
    /// A short human-readable description of the failure.
    pub fn message(&self) -> (r: &'static str)
        ensures
            r@ == self.spec_message(),
    {
        match self {
            I18nError::LocaleNotFound => "Locale not found",
            I18nError::KeyNotFound => "Key not found",
            I18nError::TypeMismatch => "Invalid key path: found a string where a nested map was expected",
            I18nError::FormatTargetNotString => "Translation is not a string",
        }
    }

    /// What `message` returns for each failure kind.
    pub open spec fn spec_message(self) -> Seq<char> {
        match self {
            I18nError::LocaleNotFound => "Locale not found"@,
            I18nError::KeyNotFound => "Key not found"@,
            I18nError::TypeMismatch => "Invalid key path: found a string where a nested map was expected"@,
            I18nError::FormatTargetNotString => "Translation is not a string"@,
        }
    }
}

} // verus!
