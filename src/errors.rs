use vstd::prelude::*;

verus! {

/// Represents errors that can occur during password generation.
#[derive(Clone, Copy, Debug, PartialEq, Eq, Structural)]
pub enum Error {
    /// A generic error variant.
    Default,
    /// The provided regex pattern is invalid.
    InvalidRegex,
    /// No characters match the given criteria.
    NoValidChars,
    /// The regex pattern matches no characters.
    RegexMatchesNoChars,
    /// The number of extra characters is greater than the requested
    /// password length.
    TooManyExtraChars,
}

impl Error {
    /// A short human-readable description of the error.
    pub fn message(&self) -> (r: String)
        ensures
            r@ == match self {
                Error::Default => "error"@,
                Error::InvalidRegex => "invalid regex pattern"@,
                Error::NoValidChars => "no valid characters left in the charset"@,
                Error::RegexMatchesNoChars => "no valid characters found for the provided regex"@,
                Error::TooManyExtraChars => "too many extra characters"@,
            },
    {
        let s = match self {
            Error::Default => "error",
            Error::InvalidRegex => "invalid regex pattern",
            Error::NoValidChars => "no valid characters left in the charset",
            Error::RegexMatchesNoChars => "no valid characters found for the provided regex",
            Error::TooManyExtraChars => "too many extra characters",
        };
        String::from_str(s)
    }
}

} // verus!
