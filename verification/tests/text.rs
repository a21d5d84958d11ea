use screen_streamer::text::{
    contains_text, decimal_text, find_last_char, is_white_space, parse_number, piece, split_lines,
    starts_with, text_from,
};

fn lines(text: &str) -> Vec<String> {
    split_lines(text).into_iter().map(|l| l.into_iter().collect()).collect()
}

#[test]
fn lines_are_those_of_the_standard_library() {
    for text in ["", "a", "a\n", "a\r\nb", "\r\n\n", "a\rb\r", "x\n\r\ny\r\n", "\n"] {
        let expected: Vec<String> = text.lines().map(str::to_owned).collect();
        assert_eq!(lines(text), expected, "{text:?}");
    }
}

#[test]
fn white_space_is_that_of_the_standard_library() {
    for u in 0..0x3100u32 {
        if let Some(c) = char::from_u32(u) {
            assert_eq!(is_white_space(c), c.is_whitespace(), "U+{u:04X}");
        }
    }
}

#[test]
fn numbers_are_written_in_decimal() {
    for n in [0u64, 7, 10, 99, 100, 1234567890, u64::MAX] {
        assert_eq!(decimal_text(n), n.to_string());
    }
}

#[test]
fn parts_are_found() {
    assert!(contains_text("abcabd", "abd"));
    assert!(!contains_text("abcab", "abd"));
    assert!(contains_text("x", ""));
    assert!(!contains_text("", "x"));
    assert!(starts_with("екран", "ек"));
    assert!(!starts_with("е", "ек"));
    let chars: Vec<char> = "a:b:c".chars().collect();
    assert_eq!(find_last_char(&chars, ':'), Some(3));
    assert_eq!(text_from(&chars, 2, 5), "b:c");
    assert_eq!(piece("єґї", 1, 2), "ґ");
}

#[test]
fn numbers_are_digits_with_a_plus_at_most() {
    for (text, n) in [("0", 0), ("007", 7), ("+60", 60), ("18446744073709551615", u64::MAX)] {
        assert_eq!(parse_number(text), Some(n));
        assert_eq!(text.parse::<u64>().ok(), Some(n));
    }
    for text in ["", "+", "-1", "++1", " 1", "1 ", "1.5", "0x10", "18446744073709551616", "99999999999999999999999", "１"] {
        assert_eq!(parse_number(text), None, "{text}");
        assert_eq!(text.parse::<u64>().ok(), None, "{text}");
    }
}
