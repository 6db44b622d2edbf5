use wyrd::ops::normalize_excerpt;
use wyrd::text::{
    chars_of, decimal_string, is_blank, is_unicode_whitespace, texts_from_input, trimmed,
};

fn reference_excerpt(text: &str, max_chars: usize) -> String {
    let collapsed = text.split_whitespace().collect::<Vec<_>>().join(" ");
    collapsed.chars().take(max_chars).collect()
}

fn reference_lines(input: &str) -> Vec<String> {
    input
        .lines()
        .map(str::trim)
        .filter(|line| !line.is_empty())
        .map(ToOwned::to_owned)
        .collect()
}

const SAMPLES: &[&str] = &[
    "",
    " ",
    "auth",
    "  Authentication and   login guide \n",
    "\t\ta\u{3000}b\u{85}c\u{a0}\u{2028}d  ",
    "line one\r\nline two\n\n  \n last\r",
    "\u{200b}zero width is not whitespace\u{180e}",
    "a\u{1680}b\u{2000}c\u{200a}d\u{202f}e\u{205f}f",
    "ünïcödé   wörds",
];

#[test]
fn whitespace_matches_char_is_whitespace() {
    for u in 0u32..=0x10FFFF {
        if let Some(c) = char::from_u32(u) {
            assert_eq!(is_unicode_whitespace(c), c.is_whitespace(), "U+{:04X}", u);
        }
    }
}

#[test]
fn trimmed_matches_str_trim() {
    for s in SAMPLES {
        assert_eq!(trimmed(s), s.trim());
        assert_eq!(is_blank(s), s.trim().is_empty());
    }
}

#[test]
fn normalize_excerpt_matches_reference() {
    for s in SAMPLES {
        for max in [0usize, 1, 3, 10, 4000] {
            assert_eq!(normalize_excerpt(s, max), reference_excerpt(s, max), "{:?} {}", s, max);
        }
    }
    assert_eq!(normalize_excerpt("  a \n\t b  c ", 4000), "a b c");
    assert_eq!(normalize_excerpt("Authentication and login", 6), "Authen");
}

#[test]
fn texts_from_input_matches_lines_and_trim() {
    for s in SAMPLES {
        assert_eq!(texts_from_input(s, true), reference_lines(s), "{:?}", s);
        let whole = s.trim();
        let expected: Vec<String> = if whole.is_empty() { Vec::new() } else { vec![whole.to_string()] };
        assert_eq!(texts_from_input(s, false), expected);
    }
    assert_eq!(texts_from_input("auth\nbilling\n", true), vec!["auth", "billing"]);
}

#[test]
fn chars_and_decimals() {
    assert_eq!(chars_of("añb"), vec!['a', 'ñ', 'b']);
    for n in [0usize, 7, 10, 99, 100, 1234, 4000, usize::MAX] {
        assert_eq!(decimal_string(n), n.to_string());
    }
}
