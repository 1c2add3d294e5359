use hyprexpose::text::{
    find_chars_from, format_decimal, format_hex, format_unsigned, parse_hex, parse_i32, parse_i64,
    trim_exec,
};

fn chars(s: &str) -> Vec<char> {
    s.chars().collect()
}

#[test]
fn parse_i64_follows_str_parse() {
    for s in ["0", "-0", "+5", "-17", "9223372036854775807", "-9223372036854775808", "007"] {
        assert_eq!(parse_i64(&chars(s)), s.parse::<i64>().ok(), "{s}");
    }
    for s in ["", "-", "+", "--1", "1-", "9223372036854775808", "-9223372036854775809", "1 "] {
        assert_eq!(parse_i64(&chars(s)), None, "{s}");
        assert_eq!(s.parse::<i64>().ok(), None, "{s}");
    }
}

#[test]
fn parse_i32_range() {
    assert_eq!(parse_i32(&chars("2147483647")), Some(i32::MAX));
    assert_eq!(parse_i32(&chars("-2147483648")), Some(i32::MIN));
    assert_eq!(parse_i32(&chars("2147483648")), None);
}

#[test]
fn parse_hex_follows_from_str_radix() {
    for s in ["ff", "FF", "+a", "0", "ffffffffffffffff", "", "+", "-1", "-", "g", "10000000000000000"] {
        assert_eq!(parse_hex(&chars(s)), u64::from_str_radix(s, 16).ok(), "{s}");
    }
}

#[test]
fn formatting() {
    assert_eq!(format_decimal(0).into_iter().collect::<String>(), "0");
    assert_eq!(format_decimal(-120).into_iter().collect::<String>(), "-120");
    assert_eq!(format_decimal(i64::MIN).into_iter().collect::<String>(), i64::MIN.to_string());
    assert_eq!(format_unsigned(u64::MAX).into_iter().collect::<String>(), u64::MAX.to_string());
    assert_eq!(format_hex(0xdead).into_iter().collect::<String>(), "dead");
    assert_eq!(format_hex(0).into_iter().collect::<String>(), "0");
}

#[test]
fn find_and_trim() {
    let s = chars("abcabc");
    assert_eq!(find_chars_from(&s, &chars("bc"), 0), Some(1));
    assert_eq!(find_chars_from(&s, &chars("bc"), 2), Some(4));
    assert_eq!(find_chars_from(&s, &chars("x"), 0), None);
    assert_eq!(find_chars_from(&s, &chars(""), 6), Some(6));
    let t: String = trim_exec(&chars("\u{3000} x y\t\n")).into_iter().collect();
    assert_eq!(t, "x y");
}
