use randpass::{create_charset, create_charset_from_regex, Error, PasswordCriteria};

fn digits() -> Vec<u8> {
    (b'0'..=b'9').collect()
}

#[test]
fn lib_test_create_charset_with_default_config() {
    let charset = create_charset(&PasswordCriteria::Alphanumeric, None).unwrap();
    assert_eq!(
        charset,
        (b'0'..=b'9')
            .chain(b'A'..=b'Z')
            .chain(b'a'..=b'z')
            .collect::<Vec<u8>>()
    );
}

#[test]
fn lib_test_create_charset_with_uppercase_letters_and_digits_only() {
    let charset = create_charset(&PasswordCriteria::UppercaseAndDigitsOnly, None).unwrap();
    assert_eq!(
        charset,
        (b'0'..=b'9').chain(b'A'..=b'Z').collect::<Vec<u8>>()
    );
}

#[test]
fn lib_test_create_charset_with_lowercase_letters_and_digits_only() {
    let charset = create_charset(&PasswordCriteria::LowercaseAndDigitsOnly, None).unwrap();
    assert_eq!(
        charset,
        (b'0'..=b'9').chain(b'a'..=b'z').collect::<Vec<u8>>()
    );
}

#[test]
fn lib_test_create_charset_with_digits_only() {
    let charset = create_charset(&PasswordCriteria::DigitsOnly, None).unwrap();
    assert_eq!(charset, (b'0'..=b'9').collect::<Vec<u8>>());
}

#[test]
fn lib_test_create_charset_with_all_printable_chars() {
    let charset = create_charset(&PasswordCriteria::AllPrintableChars, None).unwrap();
    assert_eq!(charset, (b' '..=b'~').collect::<Vec<u8>>());
}

#[test]
fn lib_test_create_charset_without_duplication() {
    let charset =
        create_charset(&PasswordCriteria::RegexPattern(&"[0-9]"), Some(b"00000")).unwrap();
    assert_eq!(charset, (b'0'..=b'9').collect::<Vec<u8>>());
}

#[test]
fn lib_test_create_charset_from_regex() {
    let charset = create_charset_from_regex("[a-z]").unwrap();
    assert_eq!(charset, (b'a'..=b'z').collect::<Vec<u8>>());
}

#[test]
fn lib_test_create_charset_from_invalid_regex() {
    let result = create_charset_from_regex("[a-z");
    assert!(result.is_err());
}

#[test]
fn util_test_create_charset_with_default_config() {
    let charset = create_charset(&PasswordCriteria::Alphanumeric, None).unwrap();
    assert_eq!(
        charset,
        (b'0'..=b'9')
            .chain(b'A'..=b'Z')
            .chain(b'a'..=b'z')
            .collect::<Vec<u8>>()
    );
}

#[test]
fn util_test_create_charset_with_uppercase_letters_and_digits_only() {
    let charset = create_charset(&PasswordCriteria::UppercaseAndDigitsOnly, None).unwrap();
    assert_eq!(
        charset,
        (b'0'..=b'9').chain(b'A'..=b'Z').collect::<Vec<u8>>()
    );
}

#[test]
fn util_test_create_charset_with_lowercase_letters_and_digits_only() {
    let charset = create_charset(&PasswordCriteria::LowercaseAndDigitsOnly, None).unwrap();
    assert_eq!(
        charset,
        (b'0'..=b'9').chain(b'a'..=b'z').collect::<Vec<u8>>()
    );
}

#[test]
fn util_test_create_charset_with_digits_only() {
    let charset = create_charset(&PasswordCriteria::DigitsOnly, None).unwrap();
    assert_eq!(charset, (b'0'..=b'9').collect::<Vec<u8>>());
}

#[test]
fn util_test_create_charset_with_all_printable_chars() {
    let charset = create_charset(&PasswordCriteria::AllPrintableChars, None).unwrap();
    assert_eq!(charset, (b' '..=b'~').collect::<Vec<u8>>());
}

#[test]
fn util_test_create_charset_without_duplication() {
    let charset =
        create_charset(&PasswordCriteria::RegexPattern(&"[0-9]"), Some(b"00000")).unwrap();
    assert_eq!(charset, (b'0'..=b'9').collect::<Vec<u8>>());
}

#[test]
fn util_test_create_charset_from_regex() {
    let charset = create_charset_from_regex("[a-z]").unwrap();
    assert_eq!(charset, (b'a'..=b'z').collect::<Vec<u8>>());
}

#[test]
fn util_test_create_charset_from_invalid_regex() {
    let result = create_charset_from_regex("[a-z");
    assert!(result.is_err());
}

#[test]
fn invalid_regex_policy_is_reported() {
    let result = create_charset(&PasswordCriteria::RegexPattern("[a-z"), None);
    assert_eq!(result, Err(Error::InvalidRegex));
}

#[test]
fn invalid_regex_wins_over_extra_bytes() {
    let result = create_charset(&PasswordCriteria::RegexPattern("[a-z"), Some(b"xyz"));
    assert_eq!(result, Err(Error::InvalidRegex));
}

#[test]
fn regex_matching_no_printable_char_is_reported() {
    assert_eq!(
        create_charset_from_regex("[^\\x00-\\x7f]"),
        Err(Error::RegexMatchesNoChars)
    );
    let result = create_charset(&PasswordCriteria::RegexPattern("^ab$"), Some(b"q"));
    assert_eq!(result, Err(Error::RegexMatchesNoChars));
}

#[test]
fn regex_is_matched_against_single_characters() {
    assert_eq!(create_charset_from_regex("^[x-z]$").unwrap(), b"xyz".to_vec());
    assert_eq!(create_charset_from_regex("z").unwrap(), b"z".to_vec());
    assert_eq!(create_charset_from_regex("\\s").unwrap(), b" ".to_vec());
}

#[test]
fn empty_base_charset_without_extra_is_rejected() {
    let result = create_charset(&PasswordCriteria::BaseCharset(b""), None);
    assert_eq!(result, Err(Error::NoValidChars));
    let result = create_charset(&PasswordCriteria::BaseCharset(b""), Some(b""));
    assert_eq!(result, Err(Error::NoValidChars));
}

#[test]
fn base_charset_is_deduplicated_and_sorted() {
    let charset = create_charset(&PasswordCriteria::BaseCharset(b"zzya\xff\x00a"), None).unwrap();
    assert_eq!(charset, vec![0x00, b'a', b'y', b'z', 0xff]);
}

#[test]
fn extra_bytes_join_the_alphabet() {
    let charset = create_charset(&PasswordCriteria::DigitsOnly, Some(b"!!a9")).unwrap();
    let mut expected = vec![b'!'];
    expected.extend(digits());
    expected.push(b'a');
    assert_eq!(charset, expected);
    let charset = create_charset(&PasswordCriteria::BaseCharset(b""), Some(b"ba")).unwrap();
    assert_eq!(charset, b"ab".to_vec());
}

#[test]
fn every_policy_gives_a_strictly_ascending_alphabet() {
    let policies = [
        PasswordCriteria::Alphanumeric,
        PasswordCriteria::UppercaseAndDigitsOnly,
        PasswordCriteria::LowercaseAndDigitsOnly,
        PasswordCriteria::DigitsOnly,
        PasswordCriteria::AllPrintableChars,
        PasswordCriteria::BaseCharset(b"hello world"),
        PasswordCriteria::RegexPattern("[aeiou0-3]"),
    ];
    for policy in policies.iter() {
        let charset = create_charset(policy, Some(b"~~ \x7f")).unwrap();
        assert!(charset.windows(2).all(|w| w[0] < w[1]));
    }
}

#[test]
fn repeated_builds_give_the_same_alphabet() {
    let policy = PasswordCriteria::RegexPattern("[b-f]|[X-Z]|#");
    let first = create_charset(&policy, Some(b"qq!")).unwrap();
    let second = create_charset(&policy, Some(b"qq!")).unwrap();
    assert_eq!(first, second);
    assert_eq!(first, b"!#XYZbcdefq".to_vec());
}

#[test]
fn error_messages() {
    assert_eq!(Error::Default.message(), "error");
    assert_eq!(Error::InvalidRegex.message(), "invalid regex pattern");
    assert_eq!(
        Error::NoValidChars.message(),
        "no valid characters left in the charset"
    );
    assert_eq!(
        Error::RegexMatchesNoChars.message(),
        "no valid characters found for the provided regex"
    );
    assert_eq!(
        Error::TooManyExtraChars.message(),
        "too many extra characters"
    );
}
