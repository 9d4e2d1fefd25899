//! Tests for the scalar domain: fixed-point parsing, rendering, digit
//! counts, coin classification.

use l4_book::errors::BookError;
use l4_book::types::{Coin, Oid, Px, Sz};

#[test]
fn parse_integer_prices() {
    assert_eq!(Px::parse_from_str("10").unwrap().value(), 1_000_000_000);
    assert_eq!(Px::parse_from_str("3000").unwrap().value(), 300_000_000_000);
    assert_eq!(Px::parse_from_str("0").unwrap().value(), 0);
}

#[test]
fn parse_fractional_prices() {
    assert_eq!(Px::parse_from_str("1.5").unwrap().value(), 150_000_000);
    assert_eq!(Px::parse_from_str("0.00000001").unwrap().value(), 1);
    assert_eq!(Px::parse_from_str("12.34500000").unwrap().value(), 1_234_500_000);
}

#[test]
fn parse_rounds_past_eight_digits() {
    // the ninth fractional digit rounds half-up
    assert_eq!(Px::parse_from_str("0.000000001").unwrap().value(), 0);
    assert_eq!(Px::parse_from_str("0.000000015").unwrap().value(), 2);
    assert_eq!(Px::parse_from_str("0.000000014").unwrap().value(), 1);
}

#[test]
fn parse_rejects_non_numeric() {
    assert_eq!(Px::parse_from_str("abc"), Err(BookError::ParseError));
    assert_eq!(Px::parse_from_str(""), Err(BookError::ParseError));
    assert_eq!(Px::parse_from_str("1e3"), Err(BookError::ParseError));
    assert_eq!(Px::parse_from_str(".5"), Err(BookError::ParseError));
    assert_eq!(Px::parse_from_str("5."), Err(BookError::ParseError));
    assert_eq!(Px::parse_from_str("-1"), Err(BookError::ParseError));
    assert_eq!(Px::parse_from_str("1.2.3"), Err(BookError::ParseError));
}

#[test]
fn parse_rejects_overflow() {
    // far beyond what 64 bits hold once scaled by 10^8
    assert_eq!(Px::parse_from_str("999999999999999999999"), Err(BookError::ParseError));
    assert_eq!(Sz::parse_from_str("190000000000"), Err(BookError::ParseError));
}

#[test]
fn render_shortest_decimal() {
    assert_eq!(Px::new(1_000_000_000).to_str(), "10");
    assert_eq!(Px::new(150_000_000).to_str(), "1.5");
    assert_eq!(Px::new(0).to_str(), "0");
    assert_eq!(Px::new(1).to_str(), "0.00000001");
    assert_eq!(Sz::new(100_000_001).to_str(), "1.00000001");
    assert_eq!(Sz::new(123_400_000_000).to_str(), "1234");
}

#[test]
fn render_round_trips_through_parse() {
    for v in [0u64, 1, 7, 99, 100_000_000, 150_000_000, 123_456_789_012] {
        let s = Px::new(v).to_str();
        assert_eq!(Px::parse_from_str(&s).unwrap().value(), v);
    }
}

#[test]
fn num_digits_counts() {
    assert_eq!(Px::new(0).num_digits(), 1);
    assert_eq!(Px::new(9).num_digits(), 1);
    assert_eq!(Px::new(10).num_digits(), 2);
    assert_eq!(Px::new(1_000_000_000).num_digits(), 10);
    assert_eq!(Px::new(u64::MAX).num_digits(), 20);
}

#[test]
fn sz_decrement_saturates() {
    let mut s = Sz::new(5);
    s.decrement_sz(3);
    assert_eq!(s.value(), 2);
    s.decrement_sz(10);
    assert_eq!(s.value(), 0);
}

#[test]
fn sz_predicates_and_add() {
    assert!(Sz::new(1).is_positive());
    assert!(!Sz::new(0).is_positive());
    assert!(Sz::new(0).is_zero());
    assert_eq!(Sz::new(2).checked_add_sz(Sz::new(3)), Some(Sz::new(5)));
    assert_eq!(Sz::new(u64::MAX).checked_add_sz(Sz::new(1)), None);
}

#[test]
fn coin_spot_classification() {
    assert!(Coin::new("@123").is_spot());
    assert!(Coin::new("PURR/USDC").is_spot());
    assert!(!Coin::new("BTC").is_spot());
    assert!(!Coin::new("PURR/USDX").is_spot());
    assert!(!Coin::new("").is_spot());
}

#[test]
fn oid_and_px_accessors() {
    assert_eq!(Oid::new(42).value(), 42);
    assert_eq!(Px::new(7).value(), 7);
    assert_eq!(Coin::new("ETH").value(), "ETH");
}
