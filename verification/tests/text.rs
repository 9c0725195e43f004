use ant_monitor::text::{chars_of, lines_of, parse_decimal, push_decimal, trimmed, words_of,
    IntParseError};

fn s(v: &[char]) -> String {
    v.iter().collect()
}

#[test]
fn trimming_follows_str_trim() {
    for t in ["  coretemp\n", "\u{3000}x y\u{a0}", "", " \t ", "k10temp"] {
        let c = chars_of(t);
        assert_eq!(s(&trimmed(&c)), t.trim());
    }
}

#[test]
fn words_follow_split_whitespace() {
    for t in ["cpu  1 2\t3\n", "", "   ", "a", " a  b "] {
        let c = chars_of(t);
        let w: Vec<String> = words_of(&c).iter().map(|x| s(x)).collect();
        let expected: Vec<String> = t.split_whitespace().map(|x| x.to_string()).collect();
        assert_eq!(w, expected);
    }
}

#[test]
fn lines_follow_str_lines() {
    for t in ["a\nb\n", "a\r\nb", "", "\n", "foo\nbar\n\r\nbaz\r", "x\n\n"] {
        let c = chars_of(t);
        let l: Vec<String> = lines_of(&c).iter().map(|x| s(x)).collect();
        let expected: Vec<String> = t.lines().map(|x| x.to_string()).collect();
        assert_eq!(l, expected, "lines of {t:?}");
    }
}

#[test]
fn decimal_parsing_follows_str_parse() {
    assert_eq!(parse_decimal(&chars_of("0255"), 255), Ok(255));
    assert_eq!(parse_decimal(&chars_of("256"), 255), Err(IntParseError::PosOverflow));
    assert_eq!(parse_decimal(&chars_of("+"), 255), Err(IntParseError::InvalidDigit));
    assert_eq!(parse_decimal(&chars_of(""), 255), Err(IntParseError::Empty));
    assert_eq!(parse_decimal(&chars_of("999x"), 255), Err(IntParseError::PosOverflow));
    assert_eq!(parse_decimal(&chars_of("9x99"), 255), Err(IntParseError::InvalidDigit));
    for t in ["12", "+12", "-1", "", "+", "300", "1 2", "٣"] {
        let ours = parse_decimal(&chars_of(t), 255).ok().map(|v| v as u8);
        assert_eq!(ours, t.parse::<u8>().ok(), "parse of {t:?}");
    }
}

#[test]
fn decimal_text_round_trips() {
    for n in [0u64, 7, 10, 255, 1000, u64::MAX] {
        let mut out = Vec::new();
        push_decimal(n, &mut out);
        assert_eq!(s(&out), n.to_string());
        assert_eq!(parse_decimal(&out, u64::MAX), Ok(n));
    }
}
