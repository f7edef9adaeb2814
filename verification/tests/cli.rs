use dix::cli::{display_header, should_style};
use dix::lines::{parse_i64, split_lines, split_words};
use dix::render::{plain_text, Style};

fn chars(s: &str) -> Vec<char> {
    s.chars().collect()
}

fn pieces(s: &str, ranges: &[(usize, usize)]) -> Vec<String> {
    let c = chars(s);
    ranges.iter().map(|&(a, b)| c[a..b].iter().collect()).collect()
}

#[test]
fn styling_follows_color_settings() {
    assert!(!should_style(Some("1"), None, Some("1"), true));
    assert!(should_style(Some(""), None, None, true));
    assert!(!should_style(None, Some("0"), Some("1"), true));
    assert!(should_style(None, Some("1"), Some("1"), false));
    assert!(!should_style(None, None, Some("0"), false));
    assert!(should_style(None, None, None, true));
    assert!(!should_style(None, None, None, false));
}

#[test]
fn header_names_both_paths() {
    let header = display_header("/old", "/new");
    let text: String = plain_text(&header).into_iter().collect();
    assert_eq!(text, "<<< /old\n>>> /new\n");
    assert_eq!(header[0].style, Style::Bold);
    assert_eq!(header[1].style, Style::Plain);
}

#[test]
fn lines_split_like_str_lines() {
    for text in ["", "a", "a\n", "a\nb", "a\r\nb\r\n", "\n\n", "x\ry", "a\n\r", "last\r"] {
        let expected: Vec<String> = text.lines().map(str::to_owned).collect();
        assert_eq!(pieces(text, &split_lines(&chars(text))), expected, "{text:?}");
    }
}

#[test]
fn words_split_like_split_whitespace() {
    for text in ["", "  ", "a b", " a\tb  c ", "x\u{3000}y\u{85}z", "one"] {
        let expected: Vec<String> = text.split_whitespace().map(str::to_owned).collect();
        assert_eq!(pieces(text, &split_words(&chars(text))), expected, "{text:?}");
    }
}

#[test]
fn integers_parse_like_i64_from_str() {
    for text in ["0", "+5", "-5", "", "+", "-", "12a", "9223372036854775807", "9223372036854775808", "-9223372036854775808", "-9223372036854775809", "007"] {
        assert_eq!(parse_i64(&chars(text)), text.parse::<i64>().ok(), "{text:?}");
    }
}
