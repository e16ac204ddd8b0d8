//! Password generation against a character-set policy, with an exact
//! combinatorial account of how many passwords a policy admits.
//!
//! - `charset`: the alphabet of a policy, sorted and free of duplicates.
//! - `multiplicity`: how often each distinct forced character occurs.
//! - `strength`: the number of passwords of a given length, and the least
//!   length whose passwords reach the entropy threshold.
//! - `password`: drawing a password from an alphabet.
//! - `escape`: backslash escapes in delimiters.

mod charset;
mod criteria;
mod errors;
mod escape;
mod multiplicity;
mod password;
mod strength;

pub use charset::{
    alphabet_allows, charset_allows, charset_result, create_charset, create_charset_from_regex,
    extra_contains, is_alphabet_of, lemma_ascending_same_members,
    lemma_create_charset_deterministic, pattern_compiles, pattern_matches, policy_failure,
    regex_failure, regex_selects, strictly_ascending,
};
pub use criteria::{criteria_allows, is_digit, is_lower, is_printable, is_upper, PasswordCriteria};
pub use errors::Error;
pub use escape::{
    get_newline, hex_digit_value, hex_number, hex_run, is_scalar_value, parse_escape_sequences,
    power16, simple_escape, unescape,
};
pub use multiplicity::{
    byte_count, calculate_char_multiplicities, char_multiplicities, count_bytes, counts_below,
    nondecreasing,
};
pub use password::{
    assemble_password, create_password, extra_bytes, fill_len, forced_len, is_ascii_byte,
    is_password_draw, is_symbol, lemma_draw_from_base, lemma_draw_holds_extra, lemma_draw_length,
    option_bytes,
};
pub use strength::{
    binomial, capped, extra_multiplicities, factorial, is_secure_length, lemma_binomial_absorption,
    lemma_binomial_diagonal, lemma_binomial_factorials, lemma_binomial_positive,
    lemma_binomial_zero, lemma_capped_product, lemma_factorial_positive,
    lemma_multinomial_factorials, lemma_multinomial_positive, lemma_password_space_factorials,
    lemma_power_positive, lemma_secure_space, lemma_space_distinct_forced,
    lemma_space_repeated_forced, lemma_space_without_forced, multinomial, password_space, power,
    product_of_factorials, suggest_password_length, suggested_length, sum_of,
    ENTROPY_THRESHOLD_BITS, MAX_SUGGESTED_LENGTH, SECURE_SPACE,
};
