use amberol_glass_lyrics::text::{
    chars_of, is_white_space, lines, parse_signed, parse_unsigned, string_of, trim,
    trim_start_matches,
};

#[test]
fn white_space_is_that_of_unicode() {
    for c in '\0'..=char::MAX {
        assert_eq!(is_white_space(c), c.is_whitespace(), "{:?}", c);
    }
}

#[test]
fn lines_and_trim_agree_with_the_standard_library() {
    let cases = [
        "", "\n", "\r\n", "a", "a\n", "a\r", "a\r\nb", "a\n\nb\r\r\n", "\r\n\r", " x \n\u{3000}y\t",
    ];
    for case in cases {
        let chars = chars_of(case);
        let ours: Vec<String> = lines(&chars).into_iter().map(string_of).collect();
        let theirs: Vec<String> = case.lines().map(|l| l.to_string()).collect();
        assert_eq!(ours, theirs);
        assert_eq!(string_of(trim(&chars)), case.trim());
    }
    let chars = chars_of("xxabx");
    assert_eq!(string_of(trim_start_matches(&chars, 'x')), "abx");
}

#[test]
fn numbers_agree_with_the_standard_library() {
    let cases = [
        "", "+", "-", "0", "-0", "+7", "42", "007", "12a", " 1", "1_0", "18446744073709551615",
        "18446744073709551616", "9223372036854775807", "9223372036854775808",
        "-9223372036854775808", "-9223372036854775809", "99999999999999999999999999", "\u{661}",
    ];
    for case in cases {
        let chars = chars_of(case);
        assert_eq!(parse_signed(&chars), case.parse::<i64>().ok(), "{}", case);
        if !case.starts_with('+') {
            assert_eq!(parse_unsigned(&chars), case.parse::<u64>().ok(), "{}", case);
        }
    }
}
