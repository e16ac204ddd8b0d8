use vstd::prelude::*;

verus! {

/// Defines criteria for password generation.
#[derive(Clone, Copy, Debug, PartialEq)]
pub enum PasswordCriteria<'a> {
    /// Allows letters and digits.
    Alphanumeric,
    /// Allows only uppercase letters and digits.
    UppercaseAndDigitsOnly,
    /// Allows only lowercase letters and digits.
    LowercaseAndDigitsOnly,
    /// Allows only digits.
    DigitsOnly,
    /// Allows all printable ASCII characters.
    AllPrintableChars,
    /// Uses a custom base character set provided as a byte slice.
    BaseCharset(&'a [u8]),
    /// Uses a regex pattern.
    RegexPattern(&'a str),
}

pub open spec fn is_digit(b: u8) -> bool {
    0x30 <= b <= 0x39
}

pub open spec fn is_upper(b: u8) -> bool {
    0x41 <= b <= 0x5a
}

pub open spec fn is_lower(b: u8) -> bool {
    0x61 <= b <= 0x7a
}

/// The printable ASCII range, space (0x20) through tilde (0x7e).
pub open spec fn is_printable(b: u8) -> bool {
    0x20 <= b <= 0x7e
}

/// Whether `b` belongs to the base set of the fixed (non-regex) policies.
/// For a regex policy this is `false`: its set comes from the pattern.
pub open spec fn criteria_allows(criteria: PasswordCriteria, b: u8) -> bool {
    match criteria {
        PasswordCriteria::Alphanumeric => is_digit(b) || is_upper(b) || is_lower(b),
        PasswordCriteria::UppercaseAndDigitsOnly => is_digit(b) || is_upper(b),
        PasswordCriteria::LowercaseAndDigitsOnly => is_digit(b) || is_lower(b),
        PasswordCriteria::DigitsOnly => is_digit(b),
        PasswordCriteria::AllPrintableChars => is_printable(b),
        PasswordCriteria::BaseCharset(chars) => chars@.contains(b),
        PasswordCriteria::RegexPattern(_) => false,
    }
}

} // verus!
