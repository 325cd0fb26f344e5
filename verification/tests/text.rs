//! Trimming and line splitting against the standard library.

use csl_tools::text::{line_ranges, str_eq, trim_end_range, trim_range, trim_start_range};

fn trimmed_by_range(s: &str) -> &str {
    let (a, b) = trim_range(s.as_bytes(), 0, s.len());
    &s[a..b]
}

#[test]
fn trims_exactly_the_whitespace_characters() {
    for code in 0..=0x10FFFFu32 {
        if let Some(c) = char::from_u32(code) {
            let s = format!("{}x{}", c, c);
            let expected = if c.is_whitespace() { "x" } else { s.as_str() };
            assert_eq!(trimmed_by_range(&s), expected, "U+{:04X}", code);
        }
    }
}

#[test]
fn trims_like_the_standard_library() {
    let samples = [
        "",
        " ",
        "  a  ",
        "\t\n a b \r\n",
        "\u{a0}\u{2003}key\u{3000}\u{85}",
        "\u{e9}t\u{e9} ",
        " \u{1680}\u{2028}\u{2029}\u{202f}\u{205f}x",
        "no-space",
        "\u{200b} zero width is not space \u{200b}",
        "\u{c2}",
    ];
    for s in samples {
        assert_eq!(trimmed_by_range(s), s.trim(), "{:?}", s);
        let start = trim_start_range(s.as_bytes(), 0, s.len());
        assert_eq!(&s[start..], s.trim_start(), "{:?}", s);
        let end = trim_end_range(s.as_bytes(), 0, s.len());
        assert_eq!(&s[..end], s.trim_end(), "{:?}", s);
    }
}

#[test]
fn trims_within_a_range_only() {
    let s = "  [ a ]  ";
    assert_eq!(trim_range(s.as_bytes(), 3, 6), (4, 5));
    assert_eq!(trim_range(s.as_bytes(), 3, 3), (3, 3));
    assert_eq!(trim_range(s.as_bytes(), 0, 2), (2, 2));
}

fn check_lines(text: &str) {
    let ranges = line_ranges(text.as_bytes());
    let found: Vec<&str> = ranges.iter().map(|r| &text[r.0..r.1]).collect();
    let expected: Vec<&str> = text.lines().collect();
    assert_eq!(found, expected, "{:?}", text);
}

#[test]
fn splits_lines_like_the_standard_library() {
    let alphabet = ["a", "\n", "\r", "\u{e9}"];
    let mut texts: Vec<String> = vec![String::new()];
    for _ in 0..7 {
        let mut next = Vec::new();
        for t in &texts {
            check_lines(t);
            for a in alphabet {
                next.push(format!("{}{}", t, a));
            }
        }
        texts = next;
    }
    for t in &texts {
        check_lines(t);
    }
}

#[test]
fn line_endings() {
    assert_eq!(line_ranges(b""), vec![]);
    assert_eq!(line_ranges(b"one"), vec![(0, 3)]);
    assert_eq!(line_ranges(b"one\n"), vec![(0, 3)]);
    assert_eq!(line_ranges(b"one\r\ntwo"), vec![(0, 3), (5, 8)]);
    assert_eq!(line_ranges(b"one\n\ntwo\n"), vec![(0, 3), (4, 4), (5, 8)]);
    assert_eq!(line_ranges(b"one\r"), vec![(0, 4)]);
}

#[test]
fn compares_strings() {
    assert!(str_eq("", ""));
    assert!(str_eq("minimal", "minimal"));
    assert!(!str_eq("minimal", "minima"));
    assert!(!str_eq("minimal", "minimaL"));
    assert!(str_eq("\u{e9}", "\u{e9}"));
    assert!(!str_eq("\u{e9}", "e"));
}
