use randpass::{assemble_password, create_password, Error, PasswordCriteria};

const ALNUM: &[u8] = b"abcdefghijklmnopqrstuvwxyzABCDEFGHIJKLMNOPQRSTUVWXYZ0123456789";

#[test]
fn test_create_password_length() {
    let charset = b"abcdefg";
    let password = create_password(10, charset, &PasswordCriteria::Alphanumeric, None)
        .ok()
        .unwrap();
    assert_eq!(password.len(), 10);
}

#[test]
fn test_create_password_with_special_chars() {
    let length = 10;
    let charset = b"abcdefghijklmnopqrstuvwxyzABCDEFGHIJKLMNOPQRSTUVWXYZ0123456789";
    let special_chars: Vec<u8> = (b' '..=b'~')
        .filter(|c: &u8| !c.is_ascii_alphanumeric())
        .collect();
    let password = create_password(length, charset, &PasswordCriteria::AllPrintableChars, None)
        .ok()
        .unwrap();

    assert!(special_chars
        .iter()
        .any(|c| password.contains(char::from(*c))));
}

#[test]
fn test_create_password_with_extra_charset() {
    let length = 10;
    let extra_charset = b"!@#$%";
    let charset = b"abcdefghijklmnopqrstuvwxyzABCDEFGHIJKLMNOPQRSTUVWXYZ0123456789";
    let password = create_password(
        length,
        charset,
        &PasswordCriteria::Alphanumeric,
        Some(extra_charset),
    )
    .ok()
    .unwrap();

    assert!(extra_charset
        .iter()
        .all(|c| password.contains(char::from(*c))));
}

#[test]
fn passwords_use_only_the_base_set() {
    for _ in 0..200 {
        let password =
            create_password(10, b"abcdefg", &PasswordCriteria::Alphanumeric, None).unwrap();
        assert_eq!(password.len(), 10);
        assert!(password.bytes().all(|b| b"abcdefg".contains(&b)));
    }
}

#[test]
fn passwords_hold_every_extra_character() {
    for _ in 0..200 {
        let password =
            create_password(10, ALNUM, &PasswordCriteria::Alphanumeric, Some(b"!@#$%")).unwrap();
        assert_eq!(password.len(), 10);
        for c in b"!@#$%" {
            assert!(password.contains(char::from(*c)));
        }
        let symbols = password.bytes().filter(|b| !b.is_ascii_alphanumeric()).count();
        assert_eq!(symbols, 5);
    }
}

#[test]
fn extra_multiplicities_are_kept() {
    for _ in 0..50 {
        let password =
            create_password(8, b"xy", &PasswordCriteria::Alphanumeric, Some(b"aab")).unwrap();
        assert_eq!(password.bytes().filter(|b| *b == b'a').count(), 2);
        assert_eq!(password.bytes().filter(|b| *b == b'b').count(), 1);
        assert_eq!(password.len(), 8);
    }
}

#[test]
fn forced_characters_may_exceed_the_length() {
    let password =
        create_password(2, b"", &PasswordCriteria::Alphanumeric, Some(b"abcd")).unwrap();
    let mut bytes: Vec<u8> = password.bytes().collect();
    bytes.sort();
    assert_eq!(bytes, b"abcd".to_vec());
}

#[test]
fn all_printable_adds_one_symbol() {
    for _ in 0..100 {
        let password =
            create_password(6, b"a", &PasswordCriteria::AllPrintableChars, None).unwrap();
        assert_eq!(password.len(), 6);
        assert_eq!(password.bytes().filter(|b| *b == b'a').count(), 5);
        let other = password.bytes().find(|b| *b != b'a').unwrap();
        assert!((b' '..=b'~').contains(&other) && !other.is_ascii_alphanumeric());
    }
}

#[test]
fn zero_length_gives_empty_password() {
    let password = create_password(0, ALNUM, &PasswordCriteria::DigitsOnly, None).unwrap();
    assert_eq!(password, "");
}

#[test]
fn invalid_utf8_is_the_default_error() {
    let result = create_password(3, b"\xff", &PasswordCriteria::Alphanumeric, None);
    assert_eq!(result, Err(Error::Default));
}

#[test]
fn assembled_bytes_follow_the_indices() {
    let bytes = assemble_password(Some(b"!!"), Some(b'#'), b"abc", &[2, 0, 0, 1]);
    assert_eq!(bytes, b"!!#caab".to_vec());
    let bytes = assemble_password(None, None, b"xyz", &[1]);
    assert_eq!(bytes, b"y".to_vec());
    let bytes = assemble_password(None, None, b"", &[]);
    assert!(bytes.is_empty());
}

#[test]
fn forced_characters_are_shuffled() {
    let mut positions = std::collections::HashSet::new();
    for _ in 0..300 {
        let password =
            create_password(10, b"a", &PasswordCriteria::Alphanumeric, Some(b"b")).unwrap();
        positions.insert(password.find('b').unwrap());
    }
    assert!(positions.len() > 1);
}
