use sysmon::text::{
    chars_of, eq_str, parse_u64_chars, split_lines, split_words, starts_with_str, trim_colons_chars,
};

fn v(s: &str) -> Vec<char> {
    s.chars().collect()
}

fn strings(v: Vec<Vec<char>>) -> Vec<String> {
    v.into_iter().map(|w| w.into_iter().collect()).collect()
}

#[test]
fn parse_u64_matches_str_parse() {
    for s in [
        "", "+", "-", "0", "+7", "-7", "007", "12a", " 1", "18446744073709551615",
        "18446744073709551616", "99999999999999999999", "+-1", "١٢", "4\u{a0}",
    ] {
        assert_eq!(parse_u64_chars(&v(s)), s.parse::<u64>().ok(), "input {:?}", s);
    }
}

#[test]
fn split_words_matches_split_whitespace() {
    for s in ["", "  ", "a", " a  bc\td\r\n", "x\u{a0}y\u{3000}z", "tail "] {
        let expected: Vec<String> = s.split_whitespace().map(|w| w.to_string()).collect();
        assert_eq!(strings(split_words(&v(s))), expected, "input {:?}", s);
    }
}

#[test]
fn split_lines_matches_str_lines() {
    for s in ["", "\n", "a", "a\nb\n", "x\r\n\ny", "a\r", "a\n\r", "\r\n\r\n", "p\rq\nr"] {
        let expected: Vec<String> = s.lines().map(|l| l.to_string()).collect();
        assert_eq!(strings(split_lines(&v(s))), expected, "input {:?}", s);
    }
}

#[test]
fn small_helpers() {
    assert_eq!(chars_of("héllo"), v("héllo"));
    assert!(eq_str(&v("MemTotal"), "MemTotal"));
    assert!(!eq_str(&v("MemTota"), "MemTotal"));
    assert!(starts_with_str(&v("cpu0"), "cpu"));
    assert!(!starts_with_str(&v("cp"), "cpu"));
    assert_eq!(trim_colons_chars(&v("Key:::")), v("Key"));
    assert_eq!(trim_colons_chars(&v(":a:")), v(":a"));
}
