use cost_ledger::conversion::{Conversion, Decimal};

#[test]
fn problem_float_to_int() {
    let float_amount = 17.4;

    #[allow(clippy::cast_possible_truncation)]
    let int_amount: i64 = (float_amount * 100.0) as i64;

    // this should work but the 17,4 * 100 will result in under 1740
    assert_ne!(1740, int_amount);
}

#[test]
fn test_float_to_int() {
    // 17.4 as an exact decimal
    let amount = Decimal::new(174, 1);
    assert_eq!(1740, Conversion::to_int(&amount));
}

#[test]
fn test_int_to_float() {
    let amount = 1740;
    assert_eq!(Decimal::new(1740, 2), Conversion::to_float(amount));
}

#[test]
fn cents_round_trip() {
    for cents in [0i64, 1, -1, 89, 1740, 12345678901, -987654321] {
        let decimal = Conversion::to_float(cents);
        assert_eq!(cents, Conversion::to_int(&decimal));
    }
}

#[test]
fn rounding_is_half_away_from_zero() {
    // 0.005 -> 1 cent, -0.005 -> -1 cent, 0.004 -> 0 cents
    assert_eq!(1, Conversion::to_int(&Decimal::new(5, 3)));
    assert_eq!(-1, Conversion::to_int(&Decimal::new(-5, 3)));
    assert_eq!(0, Conversion::to_int(&Decimal::new(4, 3)));
    assert_eq!(0, Conversion::to_int(&Decimal::new(-4, 3)));
    // 17.446 -> 1745
    assert_eq!(1745, Conversion::to_int(&Decimal::new(17446, 3)));
}

#[test]
fn whole_numbers_scale_up() {
    // 17 with no fraction digits is 1700 cents
    assert_eq!(1700, Conversion::to_int(&Decimal::new(17, 0)));
}
