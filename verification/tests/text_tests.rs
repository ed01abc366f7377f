use balancer::addr::check_socket_addr;
use balancer::text::{parse_rate, parse_u64, rate_to_string, str_eq, u64_to_string};

#[test]
fn str_eq_basic() {
    assert!(str_eq("", ""));
    assert!(str_eq("abc", "abc"));
    assert!(!str_eq("abc", "abd"));
    assert!(!str_eq("abc", "ab"));
    assert!(!str_eq("", "a"));
}

#[test]
fn parse_u64_plain_digits() {
    assert_eq!(parse_u64("0"), Some(0));
    assert_eq!(parse_u64("7"), Some(7));
    assert_eq!(parse_u64("1234567890"), Some(1234567890));
    assert_eq!(parse_u64("007"), Some(7));
}

#[test]
fn parse_u64_plus_prefix() {
    assert_eq!(parse_u64("+42"), Some(42));
    assert_eq!(parse_u64("+"), None);
}

#[test]
fn parse_u64_rejects_garbage() {
    assert_eq!(parse_u64(""), None);
    assert_eq!(parse_u64("abc"), None);
    assert_eq!(parse_u64("12a"), None);
    assert_eq!(parse_u64("-3"), None);
    assert_eq!(parse_u64("1.5"), None);
    assert_eq!(parse_u64(" 1"), None);
}

#[test]
fn parse_u64_overflow_boundary() {
    assert_eq!(parse_u64("18446744073709551615"), Some(u64::MAX));
    assert_eq!(parse_u64("18446744073709551616"), None);
    assert_eq!(parse_u64("99999999999999999999999"), None);
}

#[test]
fn u64_to_string_renders_decimal() {
    assert_eq!(u64_to_string(0).as_str(), "0");
    assert_eq!(u64_to_string(7).as_str(), "7");
    assert_eq!(u64_to_string(10).as_str(), "10");
    assert_eq!(u64_to_string(1234567890).as_str(), "1234567890");
    assert_eq!(u64_to_string(u64::MAX).as_str(), "18446744073709551615");
}

#[test]
fn parse_rate_fractions() {
    assert_eq!(parse_rate("0.33"), Some(330000));
    assert_eq!(parse_rate("0"), Some(0));
    assert_eq!(parse_rate("0.0"), Some(0));
    assert_eq!(parse_rate("0.000001"), Some(1));
    assert_eq!(parse_rate("0.9999999"), Some(999999));
    assert_eq!(parse_rate(".5"), Some(500000));
    assert_eq!(parse_rate("5."), Some(1000000));
    assert_eq!(parse_rate("+0.25"), Some(250000));
}

#[test]
fn parse_rate_clamps_to_one() {
    assert_eq!(parse_rate("1"), Some(1000000));
    assert_eq!(parse_rate("1.0"), Some(1000000));
    assert_eq!(parse_rate("2.0"), Some(1000000));
    assert_eq!(parse_rate("100"), Some(1000000));
    assert_eq!(parse_rate("1.5"), Some(1000000));
}

#[test]
fn parse_rate_rejects_garbage() {
    assert_eq!(parse_rate(""), None);
    assert_eq!(parse_rate("."), None);
    assert_eq!(parse_rate("abc"), None);
    assert_eq!(parse_rate("-0.5"), None);
    assert_eq!(parse_rate("0.5.5"), None);
    assert_eq!(parse_rate("0.5x"), None);
    assert_eq!(parse_rate("e3"), None);
    assert_eq!(parse_rate("1e"), None);
    assert_eq!(parse_rate("1e+"), None);
    assert_eq!(parse_rate("1e3x"), None);
    assert_eq!(parse_rate("1e1.5"), None);
}

#[test]
fn parse_rate_reads_exponents() {
    assert_eq!(parse_rate("1e-3"), Some(1000));
    assert_eq!(parse_rate("1E-3"), Some(1000));
    assert_eq!(parse_rate("5e-1"), Some(500000));
    assert_eq!(parse_rate("0.5e1"), Some(1000000));
    assert_eq!(parse_rate("33e-2"), Some(330000));
    assert_eq!(parse_rate("1e2"), Some(1000000));
    assert_eq!(parse_rate("1e+2"), Some(1000000));
    assert_eq!(parse_rate("2.5e-1"), Some(250000));
    assert_eq!(parse_rate("1e-6"), Some(1));
    assert_eq!(parse_rate("1e-7"), Some(0));
    assert_eq!(parse_rate("0e99999999999999999999999999"), Some(0));
    assert_eq!(parse_rate("1e99999999999999999999999999"), Some(1000000));
    assert_eq!(parse_rate("1e-99999999999999999999999999"), Some(0));
    assert_eq!(parse_rate("123456789e-9"), Some(123456));
}

#[test]
fn rate_to_string_renders_decimal() {
    assert_eq!(rate_to_string(0).as_str(), "0");
    assert_eq!(rate_to_string(1000000).as_str(), "1");
    assert_eq!(rate_to_string(330000).as_str(), "0.33");
    assert_eq!(rate_to_string(500).as_str(), "0.0005");
    assert_eq!(rate_to_string(999999).as_str(), "0.999999");
    assert_eq!(rate_to_string(100000).as_str(), "0.1");
}

#[test]
fn socket_addr_accepts_dotted_quads() {
    assert!(check_socket_addr("127.0.0.1:3000"));
    assert!(check_socket_addr("0.0.0.0:80"));
    assert!(check_socket_addr("255.255.255.255:65535"));
    assert!(check_socket_addr("10.2.3.4:1"));
    assert!(check_socket_addr("1.2.3.4:0"));
}

#[test]
fn socket_addr_rejects_malformed() {
    assert!(!check_socket_addr(""));
    assert!(!check_socket_addr("127.0.0.1"));
    assert!(!check_socket_addr("127.0.0:80"));
    assert!(!check_socket_addr("256.0.0.1:80"));
    assert!(!check_socket_addr("01.2.3.4:80"));
    assert!(!check_socket_addr("1.2.3.4:65536"));
    assert!(!check_socket_addr("1.2.3.4:80x"));
    assert!(!check_socket_addr("localhost:80"));
    assert!(!check_socket_addr("1.2.3.4:"));
    assert!(!check_socket_addr(":80"));
    assert!(!check_socket_addr("1.2.3.4.5:80"));
}
