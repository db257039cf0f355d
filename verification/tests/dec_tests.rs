use rebalancer::dec::Dec;

#[test]
fn test_decimal_precision_benefits() {
    // Precise percentage arithmetic with no binary-float drift.
    let portfolio_value = Dec::parse("100000.00").unwrap();
    let target_percent = Dec::parse("33.33").unwrap();

    // 100000.00 * 33.33% is exactly 33330.00.
    let target_value = portfolio_value.pct_of(target_percent);
    assert_eq!(target_value, Dec::parse("33330.00").unwrap());

    // Adding one cent a thousand times gives exactly $10.00.
    let mut running_total = Dec::zero();
    let cent = Dec::parse("0.01").unwrap();
    for _ in 0..1000 {
        running_total = running_total.add(cent);
    }
    assert_eq!(running_total, Dec::from_int(10));

    // Small differences are exact.
    let amount1 = Dec::parse("1000.01").unwrap();
    let amount2 = Dec::parse("1000.02").unwrap();
    let difference = amount2.sub(amount1);
    assert_eq!(difference, Dec::parse("0.01").unwrap());

    // Formatting preserves precision.
    let precise_amount = Dec::parse("12345.67").unwrap();
    assert_eq!(precise_amount.round_dp2().fmt_2dp(), "12345.67");

    // Division keeps enough precision for two final digits.
    let total = Dec::parse("100.00").unwrap();
    let shares = Dec::from_int(3);
    let per_share = total.div(shares);
    assert_eq!(per_share.round_dp2(), Dec::parse("33.33").unwrap());
}

#[test]
fn parse_accepts_plain_decimals() {
    assert_eq!(Dec::parse("0").unwrap().units, 0);
    assert_eq!(Dec::parse("5600.43").unwrap().units, 560_043_000_000);
    assert_eq!(Dec::parse("-12").unwrap().units, -1_200_000_000);
    assert_eq!(Dec::parse("+0.5").unwrap().units, 50_000_000);
    assert_eq!(Dec::parse(".5").unwrap().units, 50_000_000);
    assert_eq!(Dec::parse("5.").unwrap().units, 500_000_000);
    assert_eq!(Dec::parse("0007").unwrap().units, 700_000_000);
    assert_eq!(Dec::parse("0.00000001").unwrap().units, 1);
}

#[test]
fn parse_rejects_malformed_text() {
    assert!(Dec::parse("").is_none());
    assert!(Dec::parse("-").is_none());
    assert!(Dec::parse("+").is_none());
    assert!(Dec::parse(".").is_none());
    assert!(Dec::parse("abc").is_none());
    assert!(Dec::parse("1.2.3").is_none());
    assert!(Dec::parse("--5").is_none());
    assert!(Dec::parse("1,000").is_none());
    assert!(Dec::parse("1 0").is_none());
    assert!(Dec::parse(" 1").is_none());
    // Too many fraction digits for an exact amount.
    assert!(Dec::parse("0.000000001").is_none());
    // Integer part at or above 10^18.
    assert!(Dec::parse("1000000000000000000").is_none());
    assert_eq!(
        Dec::parse("999999999999999999").unwrap().units,
        99_999_999_999_999_999_900_000_000
    );
}

#[test]
fn fmt_2dp_rounds_half_away_from_zero() {
    assert_eq!(Dec::parse("1.005").unwrap().fmt_2dp(), "1.01");
    assert_eq!(Dec::parse("-1.005").unwrap().fmt_2dp(), "-1.01");
    assert_eq!(Dec::parse("1.004").unwrap().fmt_2dp(), "1.00");
    assert_eq!(Dec::parse("2.675").unwrap().fmt_2dp(), "2.68");
    assert_eq!(Dec::zero().fmt_2dp(), "0.00");
    assert_eq!(Dec::parse("-0.001").unwrap().fmt_2dp(), "0.00");
    assert_eq!(Dec::parse("-0.25").unwrap().fmt_2dp(), "-0.25");
    assert_eq!(Dec::from_int(1000).fmt_2dp(), "1000.00");
}

#[test]
fn fmt_exact_roundtrips() {
    for text in ["0", "1", "-1", "5600.43", "-0.00000001", "999.999", "123456789.87654321"] {
        let d = Dec::parse(text).unwrap();
        let canon = d.fmt_exact();
        assert_eq!(Dec::parse(&canon).unwrap(), d);
    }
}

#[test]
fn arithmetic_is_exact_integer_math() {
    let a = Dec::parse("0.1").unwrap();
    let b = Dec::parse("0.2").unwrap();
    assert_eq!(a.add(b), Dec::parse("0.3").unwrap());
    assert_eq!(b.sub(a), Dec::parse("0.1").unwrap());
    assert_eq!(Dec::parse("-5.5").unwrap().abs(), Dec::parse("5.5").unwrap());
    // 1% of 100000.00, exactly.
    assert_eq!(
        Dec::parse("100000.00").unwrap().pct_of(Dec::from_int(1)),
        Dec::from_int(1000)
    );
}
