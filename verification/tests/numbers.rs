use hep_ci::number::{i32_text, parse_i32, parse_u16, parse_u64, parse_usize, u64_text};

#[test]
fn natural_numbers_are_read_back() {
    for n in [0u64, 7, 10, 99, 100, 65535, 1700000000, u64::MAX] {
        assert_eq!(u64_text(n), n.to_string());
        assert_eq!(parse_u64(u64_text(n).as_str()), Some(n));
    }
}

#[test]
fn integers_are_read_back() {
    for n in [0i32, 1, -1, 127, -128, i32::MAX, i32::MIN] {
        assert_eq!(i32_text(n), n.to_string());
        assert_eq!(parse_i32(i32_text(n).as_str()), Some(n));
    }
}

#[test]
fn parsing_agrees_with_std() {
    for s in [
        "", "+", "-", "0", "+0", "-0", "-1", "+5", "007", "1 ", " 1", "1a", "٣", "++1", "+-1",
        "65535", "65536", "2147483647", "2147483648", "-2147483648", "-2147483649",
        "18446744073709551615", "18446744073709551616", "99999999999999999999999",
    ] {
        assert_eq!(parse_u64(s), s.parse::<u64>().ok(), "{}", s);
        assert_eq!(parse_usize(s), s.parse::<usize>().ok(), "{}", s);
        assert_eq!(parse_u16(s), s.parse::<u16>().ok(), "{}", s);
        assert_eq!(parse_i32(s), s.parse::<i32>().ok(), "{}", s);
    }
}
