use helix_notebook::text::{chars_of, decimal_chars, parse_unsigned_chars, string_from_chars, trim_chars};

#[test]
fn decimal_round_trip() {
    for n in [0u64, 7, 10, 12345, u64::MAX] {
        let digits = decimal_chars(n);
        assert_eq!(digits.iter().collect::<String>(), n.to_string());
        assert_eq!(parse_unsigned_chars(&digits, u64::MAX), Some(n));
    }
}

#[test]
fn parsing_follows_str_parse() {
    let cases = ["", "+", "+5", "05", "12a", " 1", "256", "255"];
    for case in cases {
        let chars = chars_of(case);
        assert_eq!(parse_unsigned_chars(&chars, 255), case.parse::<u8>().ok().map(u64::from), "{case}");
    }
}

#[test]
fn trimming_follows_str_trim() {
    for case in ["  a b \n", "\u{2003}x\u{00a0}", "", "   ", "x"] {
        let trimmed = trim_chars(&chars_of(case));
        assert_eq!(string_from_chars(&trimmed), case.trim());
    }
}
