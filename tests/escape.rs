use randpass::{get_newline, parse_escape_sequences};

#[test]
fn test_parse_escape_sequences() {
    assert_eq!(
        parse_escape_sequences("Hello\\0World"),
        "Hello\u{0000}World"
    );

    assert_eq!(
        parse_escape_sequences("Hello\\aWorld"),
        "Hello\u{0007}World"
    );

    assert_eq!(
        parse_escape_sequences("Hello\\bWorld"),
        "Hello\u{0008}World"
    );

    assert_eq!(
        parse_escape_sequences("Hello\\tWorld"),
        "Hello\u{0009}World"
    );

    assert_eq!(
        parse_escape_sequences("Hello\\nWorld"),
        "Hello\u{000a}World"
    );

    assert_eq!(
        parse_escape_sequences("Hello\\vWorld"),
        "Hello\u{000b}World"
    );

    assert_eq!(
        parse_escape_sequences("Hello\\fWorld"),
        "Hello\u{000c}World"
    );

    assert_eq!(
        parse_escape_sequences("Hello\\rWorld"),
        "Hello\u{000d}World"
    );

    assert_eq!(
        parse_escape_sequences("Hello\\eWorld"),
        "Hello\u{001b}World"
    );

    assert_eq!(parse_escape_sequences("Hello\\\\World"), "Hello\\World");

    assert_eq!(parse_escape_sequences("Hello\\'World"), "Hello'World");

    assert_eq!(parse_escape_sequences("Hello\\\"World"), "Hello\"World");

    for codepoint in 0x0..=0xf {
        if let Some(expected_char) = char::from_u32(codepoint) {
            assert_eq!(
                parse_escape_sequences(&format!("Hello\\u{:01x}World", codepoint)),
                format!("Hello{}World", expected_char)
            );
        }
    }

    for codepoint in 0x00..=0xff {
        if let Some(expected_char) = char::from_u32(codepoint) {
            assert_eq!(
                parse_escape_sequences(&format!("Hello\\u{:02x}World", codepoint)),
                format!("Hello{}World", expected_char)
            );
        }
    }

    for codepoint in 0x000..=0xfff {
        if let Some(expected_char) = char::from_u32(codepoint) {
            assert_eq!(
                parse_escape_sequences(&format!("Hello\\u{:03x}World", codepoint)),
                format!("Hello{}World", expected_char)
            );
        }
    }

    for codepoint in 0x0000..=0xffff {
        if let Some(expected_char) = char::from_u32(codepoint) {
            assert_eq!(
                parse_escape_sequences(&format!("Hello\\u{:04x}World", codepoint)),
                format!("Hello{}World", expected_char)
            );
        }
    }
}

#[test]
fn unicode_escape_edge_cases() {
    // No digits: the backslash and the `u` vanish.
    assert_eq!(parse_escape_sequences("a\\uZ"), "aZ");
    assert_eq!(parse_escape_sequences("a\\u"), "a");
    // At most four digits are read.
    assert_eq!(parse_escape_sequences("\\u00411"), "A1");
    // Upper-case digits count too.
    assert_eq!(parse_escape_sequences("\\u00E9"), "\u{e9}");
    // A surrogate is no character: it vanishes with its digits.
    assert_eq!(parse_escape_sequences("x\\ud800y"), "xy");
}

#[test]
fn unknown_and_trailing_backslashes_stay() {
    assert_eq!(parse_escape_sequences("a\\qb"), "a\\qb");
    assert_eq!(parse_escape_sequences("end\\"), "end\\");
    assert_eq!(parse_escape_sequences("\\\\n"), "\\n");
    assert_eq!(parse_escape_sequences(""), "");
    assert_eq!(parse_escape_sequences("héllo\\t"), "héllo\t");
}

#[test]
fn test_get_newline() {
    assert_eq!(get_newline(Some("\\0"), true, true), "");

    assert_eq!(get_newline(Some("\\0"), false, true), "\0");

    assert_eq!(get_newline(Some("\\0"), true, false), "");

    assert_eq!(get_newline(Some("\\0"), false, false), "\0");

    assert_eq!(get_newline(None, true, true), "");

    assert_eq!(get_newline(None, false, true), "\n");

    assert_eq!(get_newline(None, true, false), "\n");

    assert_eq!(get_newline(None, false, false), "\n");
}

#[test]
fn delimiter_is_unescaped() {
    assert_eq!(get_newline(Some(", "), false, false), ", ");
    assert_eq!(get_newline(Some("\\t|\\u263a"), false, true), "\t|\u{263a}");
}
