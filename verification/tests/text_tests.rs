use quanjp::text::{
    after_colon, chars_of, find, parse_signed_chars, parse_unsigned_chars, split_lines, split_words,
    string_of, trim_chars,
};

fn lines_of(s: &str) -> Vec<String> {
    split_lines(&chars_of(s)).iter().map(|l| string_of(l)).collect()
}

#[test]
fn lines_like_str_lines() {
    for s in ["", "a", "a\n", "a\r\nb", "a\n\nb\n", "x\ry", "\n", "end\r"] {
        let expected: Vec<String> = s.lines().map(|l| l.to_string()).collect();
        assert_eq!(lines_of(s), expected, "{:?}", s);
    }
}

#[test]
fn trim_like_str_trim() {
    for s in ["  a b  ", "\t\u{a0}x\u{3000}", "", "   ", "y"] {
        assert_eq!(string_of(&trim_chars(&chars_of(s))), s.trim());
    }
}

#[test]
fn words_like_split_whitespace() {
    for s in ["Mem:  1  2   3", "  ", "a", " a\tb\u{2003}c "] {
        let w: Vec<String> = split_words(&chars_of(s)).iter().map(|x| string_of(x)).collect();
        let e: Vec<String> = s.split_whitespace().map(|x| x.to_string()).collect();
        assert_eq!(w, e);
    }
}

#[test]
fn colon_fields() {
    assert_eq!(after_colon(&chars_of("Digits: 12")).map(|v| string_of(&v)), Some(" 12".to_string()));
    assert_eq!(after_colon(&chars_of("a:b:c")).map(|v| string_of(&v)), Some("b".to_string()));
    assert_eq!(after_colon(&chars_of("abc")), None);
    assert_eq!(find(&chars_of("abc"), 'c'), Some(2));
}

#[test]
fn number_parsing_like_from_str() {
    for s in ["0", "42", "+7", "", "+", "-3", "12a", "18446744073709551615", "18446744073709551616"] {
        assert_eq!(parse_unsigned_chars(&chars_of(s), u64::MAX), s.parse::<u64>().ok(), "{:?}", s);
    }
    for s in ["2147483647", "2147483648", "-2147483648", "-2147483649", "-", "-0", "+5"] {
        assert_eq!(
            parse_signed_chars(&chars_of(s), 0x8000_0000, 0x7fff_ffff),
            s.parse::<i32>().ok().map(|v| v as i128),
            "{:?}",
            s
        );
    }
    assert_eq!(parse_unsigned_chars(&chars_of("300"), 255), None);
}
