use pso_markowitz::{parse_count, parse_fixed};

#[test]
fn counts() {
    assert_eq!(parse_count(b"12"), Some(12));
    assert_eq!(parse_count(b"0"), Some(0));
    assert_eq!(parse_count(b"2147483647"), Some(2_147_483_647));
    assert_eq!(parse_count(b"2147483648"), None);
    assert_eq!(parse_count(b""), None);
    assert_eq!(parse_count(b"1a"), None);
    assert_eq!(parse_count(b"-3"), None);
}

#[test]
fn decimals() {
    assert_eq!(parse_fixed(b"0.10"), Some(1000));
    assert_eq!(parse_fixed(b"-0.1234"), Some(-1234));
    assert_eq!(parse_fixed(b"3"), Some(30_000));
    assert_eq!(parse_fixed(b"0.2"), Some(2000));
    assert_eq!(parse_fixed(b"1000000.9999"), Some(10_000_009_999));
}

#[test]
fn decimals_rounded_after_four_places() {
    assert_eq!(parse_fixed(b"1.23456"), Some(12_346));
    assert_eq!(parse_fixed(b"1.23454999"), Some(12_345));
    assert_eq!(parse_fixed(b"0.00005"), Some(1));
    assert_eq!(parse_fixed(b"-0.00005"), Some(-1));
    assert_eq!(parse_fixed(b"0.99995"), Some(10_000));
    assert_eq!(parse_fixed(b"1.2345x"), None);
}

#[test]
fn malformed_decimals() {
    assert_eq!(parse_fixed(b"1."), None);
    assert_eq!(parse_fixed(b".5"), None);
    assert_eq!(parse_fixed(b"-"), None);
    assert_eq!(parse_fixed(b""), None);
    assert_eq!(parse_fixed(b"1000001"), None);
    assert_eq!(parse_fixed(b"1.2.3"), None);
    assert_eq!(parse_fixed(b"--1"), None);
}
