use std::num::IntErrorKind;
use vellum_lyrics::text::{
    chars_of, parse_i64_chars, parse_u64_chars, parse_u8_chars, trim_chars, IntFault,
};

fn std_i64(s: &str) -> Result<i64, IntFault> {
    s.parse::<i64>().map_err(|e| match e.kind() {
        IntErrorKind::Empty => IntFault::Empty,
        IntErrorKind::PosOverflow => IntFault::PosOverflow,
        IntErrorKind::NegOverflow => IntFault::NegOverflow,
        _ => IntFault::InvalidDigit,
    })
}

fn v(s: &str) -> Vec<char> {
    s.chars().collect()
}

#[test]
fn unsigned_parsing_matches_str_parse() {
    for s in ["0", "+5", "+", "", "-1", "12a", "18446744073709551615", "18446744073709551616", "007"] {
        assert_eq!(parse_u64_chars(&v(s)), s.parse::<u64>().ok(), "{s}");
    }
    for s in ["255", "256", "+7", "x"] {
        assert_eq!(parse_u8_chars(&v(s)), s.parse::<u8>().ok(), "{s}");
    }
}

#[test]
fn signed_parsing_matches_str_parse() {
    for s in [
        "-9223372036854775808",
        "-9223372036854775809",
        "9223372036854775807",
        "9223372036854775808",
        "-",
        "+",
        "-0",
        "+12",
        " 1",
        "",
        "99999999999999999999x",
        "-99999999999999999999x",
        "-9x99999999999999999999",
        "+-1",
    ] {
        assert_eq!(parse_i64_chars(&v(s)), std_i64(s), "{s}");
    }
}

#[test]
fn trimming_matches_str_trim() {
    for s in ["  a b  ", "\u{3000}x\u{2029}", "\r\n", "", "\u{85}y\u{200b}"] {
        assert_eq!(trim_chars(&v(s)), v(s.trim()), "{s:?}");
    }
    assert_eq!(chars_of("héllo"), v("héllo"));
}
