use deck_forest::decimal::{format_decimal, parse_unsigned};
use deck_forest::logfmt::{format_log_chars, get_new_line_string};
use deck_forest::search::{copy_range, find_first, find_from, split_bytes};

fn chars(s: &str) -> Vec<char> {
    s.chars().collect()
}

#[test]
fn new_line_string_has_one_tab_per_level() {
    assert_eq!(get_new_line_string(&0), vec!['\n']);
    assert_eq!(get_new_line_string(&3), vec!['\n', '\t', '\t', '\t']);
}

#[test]
fn log_rendering_breaks_and_indents() {
    let out: String = format_log_chars(&chars("a{b,c}")).into_iter().collect();
    assert_eq!(out, "a{\n\tb,\n\tc\n}");
}

#[test]
fn log_rendering_nested_brackets() {
    let out: String = format_log_chars(&chars("[(x)]")).into_iter().collect();
    assert_eq!(out, "[\n\t(\n\t\tx\n\t)\n]");
}

#[test]
fn log_rendering_empty_and_plain() {
    assert_eq!(format_log_chars(&chars("")), Vec::<char>::new());
    let out: String = format_log_chars(&chars("plain")).into_iter().collect();
    assert_eq!(out, "plain");
}

#[test]
fn log_rendering_keeps_visible_text() {
    let input = "Some([1, 2], {k: v})";
    let out: String = format_log_chars(&chars(input)).into_iter().collect();
    let visible: String = out.chars().filter(|c| *c != '\n' && *c != '\t').collect();
    assert_eq!(visible, input);
}

#[test]
fn find_first_returns_leftmost_match() {
    assert_eq!(find_first(&b"abcabc".to_vec(), &b"bc".to_vec()), Some(1));
    assert_eq!(find_first(&b"abcabc".to_vec(), &b"cb".to_vec()), None);
    assert_eq!(find_first(&b"ab".to_vec(), &b"abc".to_vec()), None);
    assert_eq!(find_first(&b"aaa".to_vec(), &b"aa".to_vec()), Some(0));
}

#[test]
fn find_from_skips_earlier_matches() {
    assert_eq!(find_from(&b"abcabc".to_vec(), &b"bc".to_vec(), 2), Some(4));
    assert_eq!(find_from(&b"abcabc".to_vec(), &b"bc".to_vec(), 5), None);
}

#[test]
fn split_matches_str_split() {
    let cases: [(&str, &str); 5] = [("a--b--c", "--"), ("--a--", "--"), ("", "--"), ("abc", "--"), ("a---b", "--")];
    for (text, sep) in cases {
        let got = split_bytes(&text.as_bytes().to_vec(), &sep.as_bytes().to_vec());
        let want: Vec<Vec<u8>> = text.split(sep).map(|p| p.as_bytes().to_vec()).collect();
        assert_eq!(got, want);
    }
}

#[test]
fn split_then_join_gives_back_input() {
    let text = b"x;;y;;;;z".to_vec();
    let pieces = split_bytes(&text, &b";;".to_vec());
    assert_eq!(pieces.join(&b";;"[..]), text);
}

#[test]
fn copy_range_copies_the_range() {
    assert_eq!(copy_range(&b"hello".to_vec(), 1, 4), b"ell".to_vec());
    assert_eq!(copy_range(&b"hello".to_vec(), 2, 2), Vec::<u8>::new());
}

#[test]
fn parse_unsigned_matches_std() {
    let cases = ["0", "7", "+42", "007", "255", "256", "", "+", "-1", "1a", " 1", "18446744073709551615", "18446744073709551616"];
    for text in cases {
        let want8 = text.parse::<u8>().ok().map(|v| v as u64);
        assert_eq!(parse_unsigned(&text.as_bytes().to_vec(), 255), want8, "{}", text);
        let want64 = text.parse::<u64>().ok();
        assert_eq!(parse_unsigned(&text.as_bytes().to_vec(), u64::MAX), want64, "{}", text);
    }
}

#[test]
fn format_decimal_matches_display() {
    for n in [0u64, 9, 10, 123, 1000, u64::MAX] {
        assert_eq!(format_decimal(n), n.to_string().into_bytes());
    }
}

#[test]
fn decimal_round_trip() {
    for n in [0u64, 5, 17, 99999, u64::MAX] {
        assert_eq!(parse_unsigned(&format_decimal(n), u64::MAX), Some(n));
    }
}
