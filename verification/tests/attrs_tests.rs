use mark_six::attrs::{get_color, get_zodiac, has_tail, in_big_class, in_small_class, is_odd};
use mark_six::strutil::{decimal_i64, decimal_u64, pad3_i32, parse_i32, str_le};

#[test]
fn zodiac_cycles_with_period_twelve() {
    assert_eq!(get_zodiac(1), "鼠");
    assert_eq!(get_zodiac(2), "牛");
    assert_eq!(get_zodiac(12), "猪");
    assert_eq!(get_zodiac(13), "鼠");
    assert_eq!(get_zodiac(49), "鼠");
}

#[test]
fn color_partition_tables() {
    assert_eq!(get_color(1), "red");
    assert_eq!(get_color(3), "blue");
    assert_eq!(get_color(5), "green");
    assert_eq!(get_color(46), "red");
    assert_eq!(get_color(48), "blue");
    assert_eq!(get_color(49), "green");
}

#[test]
fn parity_and_size() {
    assert!(is_odd(1));
    assert!(!is_odd(2));
    assert!(!is_odd(-3));
    assert!(in_small_class(1));
    assert!(in_small_class(24));
    assert!(!in_small_class(25));
    assert!(in_big_class(25));
    assert!(in_big_class(49));
    assert!(!in_big_class(0));
}

#[test]
fn tail_digits() {
    assert!(has_tail(40, 0));
    assert!(has_tail(49, 9));
    assert!(!has_tail(49, 4));
    assert!(has_tail(7, 7));
}

#[test]
fn decimal_rendering() {
    assert_eq!(decimal_u64(0), "0".to_string());
    assert_eq!(decimal_u64(49), "49".to_string());
    assert_eq!(decimal_u64(1000), "1000".to_string());
    assert_eq!(decimal_i64(-205), "-205".to_string());
}

#[test]
fn pad3_matches_zero_padded_formatting() {
    assert_eq!(pad3_i32(1), "001".to_string());
    assert_eq!(pad3_i32(12), "012".to_string());
    assert_eq!(pad3_i32(123), "123".to_string());
    assert_eq!(pad3_i32(1234), "1234".to_string());
    assert_eq!(pad3_i32(0), "000".to_string());
    assert_eq!(pad3_i32(-5), "-05".to_string());
    assert_eq!(pad3_i32(-45), "-45".to_string());
}

#[test]
fn parsing_decimal_integers() {
    assert_eq!(parse_i32("0"), Some(0));
    assert_eq!(parse_i32("049"), Some(49));
    assert_eq!(parse_i32("-17"), Some(-17));
    assert_eq!(parse_i32("+17"), Some(17));
    assert_eq!(parse_i32(""), None);
    assert_eq!(parse_i32("-"), None);
    assert_eq!(parse_i32("12a"), None);
    assert_eq!(parse_i32("2147483647"), Some(2147483647));
    assert_eq!(parse_i32("2147483648"), None);
    assert_eq!(parse_i32("-2147483648"), Some(-2147483648));
    assert_eq!(parse_i32("-2147483649"), None);
}

#[test]
fn string_order_is_lexicographic() {
    assert!(str_le("2025-01-01", "2025-01-02"));
    assert!(str_le("abc", "abc"));
    assert!(str_le("ab", "abc"));
    assert!(!str_le("b", "abc"));
}
