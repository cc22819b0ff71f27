use dirsnap::digits::{parse_u64_field, u128_to_hex32, u64_to_dec};
use dirsnap::strutil::{str_lt, trim};

#[test]
fn decimal_rendering() {
    assert_eq!(u64_to_dec(0), "0");
    assert_eq!(u64_to_dec(7), "7");
    assert_eq!(u64_to_dec(1234567890), "1234567890");
    assert_eq!(u64_to_dec(u64::MAX), "18446744073709551615");
}

#[test]
fn decimal_parsing() {
    assert_eq!(parse_u64_field("0"), 0);
    assert_eq!(parse_u64_field("1234567890"), 1234567890);
    assert_eq!(parse_u64_field("18446744073709551615"), u64::MAX);
}

#[test]
fn decimal_parse_rejections_default_to_zero() {
    assert_eq!(parse_u64_field(""), 0);
    assert_eq!(parse_u64_field("12a"), 0);
    assert_eq!(parse_u64_field("-3"), 0);
    assert_eq!(parse_u64_field("18446744073709551616"), 0);
}

#[test]
fn decimal_round_trip() {
    for n in [0u64, 1, 9, 10, 99, 100, 4096, u64::MAX - 1, u64::MAX] {
        assert_eq!(parse_u64_field(&u64_to_dec(n)), n);
    }
}

#[test]
fn hex32_rendering() {
    assert_eq!(u128_to_hex32(0), "00000000000000000000000000000000");
    assert_eq!(u128_to_hex32(255), "000000000000000000000000000000ff");
    assert_eq!(u128_to_hex32(u128::MAX), "ffffffffffffffffffffffffffffffff");
    assert_eq!(
        u128_to_hex32(0x0123456789abcdef0123456789abcdef),
        "0123456789abcdef0123456789abcdef"
    );
}

#[test]
fn string_order_is_lexicographic() {
    assert!(str_lt("a", "b"));
    assert!(str_lt("a", "ab"));
    assert!(!str_lt("ab", "a"));
    assert!(!str_lt("a", "a"));
    assert!(str_lt("a/b", "a0b"));
}

#[test]
fn trim_strips_both_ends_only() {
    assert_eq!(trim("  a b \t"), "a b");
    assert_eq!(trim("\r\n"), "");
    assert_eq!(trim("x"), "x");
}
