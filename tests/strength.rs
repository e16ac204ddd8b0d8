use randpass::{
    calculate_char_multiplicities, create_charset, suggest_password_length, PasswordCriteria,
};

#[test]
fn test_suggest_password_length() {
    let base_charset = create_charset(&PasswordCriteria::Alphanumeric, None).unwrap();
    let small_base_chatset = create_charset(&PasswordCriteria::BaseCharset(b"a"), None).unwrap();

    assert_eq!(suggest_password_length(&base_charset, None), Some(13));

    assert!(suggest_password_length(&small_base_chatset, None).is_none());
}

#[test]
fn test_calculate_char_multiplicities() {
    assert_eq!(
        calculate_char_multiplicities(&"hello".as_bytes().to_vec()),
        vec![1, 1, 1, 2]
    );
}

#[test]
fn multiplicities_of_empty_and_repeated_input() {
    assert_eq!(calculate_char_multiplicities(b""), Vec::<usize>::new());
    assert_eq!(calculate_char_multiplicities(b"00000"), vec![5]);
    assert_eq!(
        calculate_char_multiplicities(b"000001111222334"),
        vec![1, 2, 3, 4, 5]
    );
    assert_eq!(calculate_char_multiplicities(b"zzzya"), vec![1, 1, 3]);
}

#[test]
fn suggestion_for_powers_of_two() {
    // 64 = 2^6: twelve characters give exactly 72 bits.
    let base: Vec<u8> = (0u8..64).collect();
    assert_eq!(suggest_password_length(&base, None), Some(12));
    // 256 = 2^8: nine characters give exactly 72 bits.
    let base: Vec<u8> = (0u8..=255).collect();
    assert_eq!(suggest_password_length(&base, None), Some(9));
    // 2 = 2^1: seventy-two characters.
    assert_eq!(suggest_password_length(b"01", None), Some(72));
}

#[test]
fn empty_extra_collapses_to_no_extra() {
    let base = create_charset(&PasswordCriteria::Alphanumeric, None).unwrap();
    assert_eq!(
        suggest_password_length(&base, Some(b"")),
        suggest_password_length(&base, None)
    );
    let base = create_charset(&PasswordCriteria::DigitsOnly, None).unwrap();
    assert_eq!(suggest_password_length(&base, Some(b"")), Some(22));
}

#[test]
fn suggestion_with_forced_characters() {
    // One forced character among n over 62 symbols: n * 62^(n-1) >= 2^72 first at n = 13.
    let base = create_charset(&PasswordCriteria::Alphanumeric, None).unwrap();
    assert_eq!(suggest_password_length(&base, Some(b"a")), Some(13));
    // With a single-symbol base only the placement of the forced characters
    // counts: m distinct ones among n places give n! / (n - m)! passwords.
    let many: Vec<u8> = (b'A'..=b'Z').collect();
    assert_eq!(suggest_password_length(b"a", Some(&many)), Some(26));
    // 22! < 2^72 <= 23! / 2
    let twenty_one: Vec<u8> = (b'A'..b'A' + 21).collect();
    assert_eq!(suggest_password_length(b"a", Some(&twenty_one)), Some(23));
    // 23! / 6 < 2^72 <= 24! / 24
    let twenty: Vec<u8> = (b'A'..b'A' + 20).collect();
    assert_eq!(suggest_password_length(b"a", Some(&twenty)), Some(24));
    let five = b"!@#$%";
    assert_eq!(suggest_password_length(&base, Some(five)), Some(15));
    let repeated = b"0000011112";
    let digits = create_charset(&PasswordCriteria::DigitsOnly, None).unwrap();
    assert_eq!(suggest_password_length(&digits, Some(repeated)), Some(23));
}

#[test]
fn suggestion_when_forced_characters_never_fit() {
    let base = create_charset(&PasswordCriteria::Alphanumeric, None).unwrap();
    let extra = vec![b'x'; 1000];
    assert_eq!(suggest_password_length(&base, Some(&extra)), None);
    // 998 equal forced characters leave at most one free place below 1000.
    let extra = vec![b'x'; 998];
    assert_eq!(suggest_password_length(&base, Some(&extra)), None);
}

#[test]
fn empty_base_has_no_suggestion() {
    assert_eq!(suggest_password_length(b"", None), None);
    assert_eq!(suggest_password_length(b"", Some(b"abc")), None);
}
