use agit_selfhost::params::parameter;
use agit_selfhost::text::{
    append_decimal, contains_text, copy_optional, copy_texts, join, less, lists, parse_number,
    parse_signed, prefix_bytes, prefix_chars, replaced, same_ignoring_case, split, split_lines,
    split_once, split_words, starts_with, strip_leading, strip_prefix, strip_suffix,
    strip_trailing, trimmed, trimmed_end, utf8_len, white, NumberError,
};

const SAMPLES: [&str; 12] = [
    "",
    " ",
    "plain",
    "  two words ",
    "tab\tand\nline\r\nend",
    "\u{a0}nbsp\u{2003}",
    "ends with newline\n",
    "\n\nblank\n\n",
    "/api//agents/",
    "a:b:c",
    "Grüße, 世界 🌍",
    "\r\n",
];

#[test]
fn white_space_is_that_of_the_standard_library() {
    for n in 0..=0x10ffffu32 {
        if let Some(c) = char::from_u32(n) {
            assert_eq!(white(c), c.is_whitespace(), "{n:x}");
        }
    }
}

#[test]
fn cutting_and_splitting_agree_with_the_standard_library() {
    for s in SAMPLES {
        assert_eq!(trimmed(s), s.trim());
        assert_eq!(trimmed_end(s), s.trim_end());
        assert_eq!(split(s, '/'), s.split('/').collect::<Vec<_>>());
        assert_eq!(split_words(s), s.split_whitespace().collect::<Vec<_>>());
        assert_eq!(split_lines(s), s.lines().collect::<Vec<_>>());
        assert_eq!(
            split_once(s, ':'),
            s.split_once(':').map(|(a, b)| (a.to_owned(), b.to_owned()))
        );
        assert_eq!(strip_leading(s, '/'), s.trim_start_matches('/'));
        assert_eq!(strip_trailing(s, '/'), s.trim_end_matches('/'));
        assert_eq!(starts_with(s, "/a"), s.starts_with("/a"));
        assert_eq!(strip_prefix(s, "/a"), s.strip_prefix("/a").map(str::to_owned));
        assert_eq!(strip_suffix(s, "end"), s.strip_suffix("end").map(str::to_owned));
        assert_eq!(contains_text(s, "世"), s.contains("世"));
        assert_eq!(replaced(s, 'e', "EE"), s.replace('e', "EE"));
        assert_eq!(utf8_len(s), s.len());
        for t in SAMPLES {
            assert_eq!(less(s, t), s < t);
            assert_eq!(same_ignoring_case(s, t), s.eq_ignore_ascii_case(t));
        }
    }
    assert!(same_ignoring_case("Content-Type", "cONTENT-tYPE"));
    assert!(!same_ignoring_case("Ä", "ä"));
}

#[test]
fn joining_puts_the_separator_between_parts() {
    let parts = vec!["a".to_owned(), "b".to_owned(), "c".to_owned()];
    assert_eq!(join(&parts, 0, "/"), "a/b/c");
    assert_eq!(join(&parts, 2, "/"), "c");
    assert_eq!(join(&parts, 3, "/"), "");
    assert_eq!(copy_texts(&parts), parts);
    assert!(lists(&parts, "b"));
    assert!(!lists(&parts, "d"));
    assert_eq!(copy_optional(&Some("x".to_owned())), Some("x".to_owned()));
}

#[test]
fn numbers_are_read_like_the_standard_library() {
    let cases = [
        "", "0", "7", "+7", "-7", "+", "-", "007", "65535", "65536", "99999x", "x", " 1", "1 ",
        "18446744073709551615", "18446744073709551616", "9223372036854775807",
        "9223372036854775808", "-9223372036854775808", "-9223372036854775809", "--1", "+-1",
        "184467440737095516160x",
    ];
    for s in cases {
        assert_eq!(
            parse_number(s, u64::MAX).map_err(|e| e.message()),
            s.parse::<u64>().map_err(|e| e.to_string()),
            "{s}"
        );
        assert_eq!(
            parse_number(s, u16::MAX as u64).map_err(|e| e.message()),
            s.parse::<u16>().map(u64::from).map_err(|e| e.to_string()),
            "{s}"
        );
        assert_eq!(
            parse_signed(s).map_err(|e| e.message()),
            s.parse::<i64>().map_err(|e| e.to_string()),
            "{s}"
        );
    }
    assert_eq!(parse_signed("-9223372036854775809"), Err(NumberError::TooSmall));
    let mut written = String::from("n=");
    append_decimal(&mut written, 18446744073709551615);
    assert_eq!(written, "n=18446744073709551615");
}

#[test]
fn prefixes_end_at_characters() {
    let s = "aé世🌍b";
    for limit in 0..=s.len() + 1 {
        let mut end = limit.min(s.len());
        while !s.is_char_boundary(end) {
            end -= 1;
        }
        assert_eq!(prefix_bytes(s, limit), &s[..end]);
    }
    assert_eq!(prefix_chars(s, 3), "aé世");
    assert_eq!(prefix_chars(s, 9), s);
}

#[test]
fn the_last_parameter_counts() {
    let params = vec![
        ("q".to_owned(), "first".to_owned()),
        ("page".to_owned(), "2".to_owned()),
        ("q".to_owned(), "second".to_owned()),
    ];
    assert_eq!(parameter(&params, "q"), Some("second".to_owned()));
    assert_eq!(parameter(&params, "page"), Some("2".to_owned()));
    assert_eq!(parameter(&params, "per"), None);
}
