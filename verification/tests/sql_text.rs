//! Texts: trimming, words, numbers and quoting.

use bplus_engine::sql::text;

#[test]
fn white_space_is_trimmed() {
    assert_eq!(text::trim("  a b\t\n"), "a b");
    assert_eq!(text::trim("\u{3000}x\u{a0}"), "x");
    assert_eq!(text::trim(" \r\n "), "");
    assert_eq!(text::trim_end_matches("a;;b;;", ';'), "a;;b");
}

#[test]
fn trimming_agrees_with_std() {
    for s in ["", " ", "a", " a ", "\u{2003}b\u{85}", "\u{200b}c", "x\u{1680}"] {
        assert_eq!(text::trim(s), s.trim());
        let second = s.split_whitespace().nth(1).map(|w| w.to_string());
        assert_eq!(text::second_word(s), second);
    }
}

#[test]
fn second_words() {
    assert_eq!(
        text::second_word("DESC  users extra"),
        Some("users".to_string())
    );
    assert_eq!(text::second_word("  one"), None);
    assert_eq!(text::second_word(""), None);
}

#[test]
fn capitals() {
    assert_eq!(text::upper("Desc t1"), "DESC T1");
    assert_eq!(text::upper("straße"), "STRASSE");
    assert!(text::starts_with("DESC T", "DESC "));
    assert!(!text::starts_with("DESC", "DESC "));
    assert!(text::eq_ignore_ascii_case("aZ_1", "Az_1"));
    assert!(!text::eq_ignore_ascii_case("ä", "Ä"));
    assert!(!text::eq_ignore_ascii_case("a", "ab"));
}

#[test]
fn integers() {
    assert_eq!(text::parse_i64("42"), Some(42));
    assert_eq!(text::parse_i64("+42"), Some(42));
    assert_eq!(text::parse_i64("-9223372036854775808"), Some(i64::MIN));
    assert_eq!(text::parse_i64("9223372036854775807"), Some(i64::MAX));
    assert_eq!(text::parse_i64("9223372036854775808"), None);
    for s in ["", "-", "+", "1x", "1.0", " 1", "--1", "18446744073709551616"] {
        assert_eq!(text::parse_i64(s), s.parse::<i64>().ok());
        assert_eq!(text::parse_usize(s), s.parse::<usize>().ok());
    }
    assert_eq!(text::parse_usize("18446744073709551615"), Some(usize::MAX));
    assert_eq!(text::parse_usize("-0"), None);
    assert_eq!(text::parse_usize("+7"), Some(7));
}

#[test]
fn floats() {
    let texts = [
        "1.5", ".5", "5.", ".", "1e10", "1E-3", "1e", "e5", "+1.0", "-2e+2", "inf", "-INF",
        "Infinity", "NaN", "nano", "1.2.3", "", "+", "1_000", "99999999999999999999",
    ];
    for s in texts {
        assert_eq!(text::is_float_text(s), s.parse::<f64>().is_ok(), "{}", s);
    }
}

#[test]
fn numbers_are_written() {
    assert_eq!(text::integer_string(0), "0");
    assert_eq!(text::integer_string(-305), "-305");
    assert_eq!(text::integer_string(i64::MIN), "-9223372036854775808");
    assert_eq!(text::integer_string(i64::MAX), "9223372036854775807");
}

#[test]
fn quoting() {
    assert_eq!(text::quote("it's"), "'it''s'");
    assert_eq!(text::quote(""), "''");
    assert_eq!(text::cat("a", "b"), "ab");
    assert_eq!(text::cat3("a", "b", "c"), "abc");
}
