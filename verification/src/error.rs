//! Why a record could not be read.

use vstd::prelude::*;

verus! {

/// The ways in which a record can fail to be a key and a value.
#[derive(Clone, Copy, Debug, PartialEq, Eq, Structural)]
pub enum ParseError {
    /// The record holds no separator.
    MissingSeparator,
    /// The value is not a decimal number: an optional sign, digits, and at
    /// most one decimal point, with at least one digit.
    MalformedValue,
    /// The value is a decimal number that a signed 64-bit count of billionths
    /// cannot hold: it is too large, or too fine, with a nonzero digit beyond
    /// the ninth decimal place.
    UnsupportedValue,
}

impl ParseError {
    /// A short description for diagnostics.
    pub fn describe(&self) -> (text: &'static str)
        ensures
            text@ == match *self {
                ParseError::MissingSeparator => "record without a separator"@,
                ParseError::MalformedValue => "value is not a decimal number"@,
                ParseError::UnsupportedValue => "value is too large or too fine to be held"@,
            },
    {
        match self {
            ParseError::MissingSeparator => "record without a separator",
            ParseError::MalformedValue => "value is not a decimal number",
            ParseError::UnsupportedValue => "value is too large or too fine to be held",
        }
    }
}

} // verus!
