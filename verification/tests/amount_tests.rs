use exchange_core::amount::{parse_amount, Amount, SCALE};

#[test]
fn parses_whole_numbers() {
    assert_eq!(parse_amount("100").unwrap().units, 100 * SCALE);
    assert_eq!(parse_amount("0").unwrap().units, 0);
    assert_eq!(parse_amount("007").unwrap().units, 7 * SCALE);
}

#[test]
fn parses_fractions() {
    assert_eq!(parse_amount("0.5").unwrap().units, SCALE / 2);
    assert_eq!(parse_amount("1.25").unwrap().units, SCALE + SCALE / 4);
    assert_eq!(parse_amount("2.000000000000000001").unwrap().units, 2 * SCALE + 1);
    assert_eq!(parse_amount("0.000000000000000001").unwrap().units, 1);
}

#[test]
fn parses_large_values() {
    // twenty integer digits are the cap
    let big = "99999999999999999999";
    assert_eq!(
        parse_amount(big).unwrap().units,
        99999999999999999999u128 * SCALE
    );
}

#[test]
fn rejects_malformed_decimals() {
    assert!(parse_amount("").is_none());
    assert!(parse_amount(".").is_none());
    assert!(parse_amount(".5").is_none());
    assert!(parse_amount("5.").is_none());
    assert!(parse_amount("1..2").is_none());
    assert!(parse_amount("1.2.3").is_none());
    assert!(parse_amount("abc").is_none());
    assert!(parse_amount("1a").is_none());
    assert!(parse_amount("-1").is_none());
    assert!(parse_amount("+1").is_none());
    assert!(parse_amount("1 ").is_none());
    // nineteen fractional digits are too many
    assert!(parse_amount("0.0000000000000000001").is_none());
    // twenty-one integer digits are too many
    assert!(parse_amount("100000000000000000000").is_none());
}

#[test]
fn arithmetic_helpers() {
    let a = Amount::from_units(10);
    let b = Amount::from_units(3);
    assert_eq!(a.min(&b).units, 3);
    assert_eq!(b.min(&a).units, 3);
    assert_eq!(a.minus(&b).units, 7);
    assert_eq!(a.checked_add(&b).unwrap().units, 13);
    assert!(Amount::from_units(u128::MAX).checked_add(&Amount::from_units(1)).is_none());
    assert!(Amount::zero().is_zero());
    assert!(!a.is_zero());
    assert!(b.lt(&a));
    assert!(b.le(&b));
}
