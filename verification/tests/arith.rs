use mortgage_overpayment_calculator::arith::{
    divide_rounding, divide_rounding_away, mul_div, power_of_ten,
};

#[test]
fn mul_div_of_a_small_product() {
    assert_eq!(mul_div(7, 6, 4), Some((10, 2)));
    assert_eq!(mul_div(0, 6, 4), Some((0, 0)));
    assert_eq!(mul_div(6, 0, 4), Some((0, 0)));
    assert_eq!(mul_div(u128::MAX, 1, 1), Some((u128::MAX, 0)));
}

#[test]
fn mul_div_of_a_product_beyond_128_bits() {
    let big: u128 = 1 << 100;
    assert_eq!(mul_div(big, big, big), Some((big, 0)));
    assert_eq!(mul_div(big + 1, big, big), Some((big + 1, 0)));
    assert_eq!(mul_div(big + 1, big + 1, big), Some((big + 2, 1)));
    assert_eq!(mul_div(u128::MAX, 1 << 126, 1 << 127), Some(((1 << 127) - 1, 1 << 126)));
    assert_eq!(mul_div(u128::MAX, 3, 3), Some((u128::MAX, 0)));
    assert_eq!(mul_div(u128::MAX, 1 << 127, 1 << 127), Some((u128::MAX, 0)));
    // (2^127 - 1) * (2^127 + 1) = 2^254 - 1
    assert_eq!(
        mul_div((1 << 127) - 1, (1 << 127) + 1, 1 << 127),
        Some(((1 << 127) - 1, (1 << 127) - 1))
    );
}

#[test]
fn mul_div_reports_a_quotient_out_of_range() {
    assert_eq!(mul_div(u128::MAX, 2, 1), None);
    assert_eq!(mul_div(u128::MAX, u128::MAX, 1 << 127), None);
    assert_eq!(mul_div(u128::MAX, (1 << 127) + 1, 1 << 127), None);
    assert_eq!(mul_div(u128::MAX - 1, (1 << 127) + 1, 1 << 127), Some((u128::MAX, (1 << 127) - 2)));
    assert_eq!(mul_div(1 << 64, 1 << 64, 1), None);
    assert_eq!(mul_div(1 << 64, (1 << 64) - 1, 1), Some((u128::MAX - (1 << 64) + 1, 0)));
}

#[test]
fn division_rounds_half_up() {
    assert_eq!(divide_rounding(0, 10), 0);
    assert_eq!(divide_rounding(4, 10), 0);
    assert_eq!(divide_rounding(5, 10), 1);
    assert_eq!(divide_rounding(14, 10), 1);
    assert_eq!(divide_rounding(15, 10), 2);
    assert_eq!(divide_rounding(7, 1), 7);
    assert_eq!(divide_rounding(1, 3), 0);
    assert_eq!(divide_rounding(2, 3), 1);
    assert_eq!(divide_rounding(u128::MAX, 1), u128::MAX);
    assert_eq!(divide_rounding(u128::MAX, 2), 1 << 127);
}

#[test]
fn powers_of_ten() {
    assert_eq!(power_of_ten(0), 1);
    assert_eq!(power_of_ten(1), 10);
    assert_eq!(power_of_ten(9), 1_000_000_000);
    assert_eq!(power_of_ten(19), 10_000_000_000_000_000_000);
    assert_eq!(power_of_ten(38), 100_000_000_000_000_000_000_000_000_000_000_000_000);
}

#[test]
fn signed_division_rounds_half_away_from_zero() {
    assert_eq!(divide_rounding_away(25, 10), 3);
    assert_eq!(divide_rounding_away(-25, 10), -3);
    assert_eq!(divide_rounding_away(24, 10), 2);
    assert_eq!(divide_rounding_away(-24, 10), -2);
    assert_eq!(divide_rounding_away(-5, 10), -1);
    assert_eq!(divide_rounding_away(-4, 10), 0);
    assert_eq!(divide_rounding_away(0, 10), 0);
    assert_eq!(divide_rounding_away(-7, 1), -7);
    assert_eq!(divide_rounding_away(i128::MIN, 1), i128::MIN);
    assert_eq!(divide_rounding_away(i128::MAX, 1), i128::MAX);
    assert_eq!(divide_rounding_away(i128::MIN, 2), -(1 << 126));
    assert_eq!(divide_rounding_away(i128::MIN, u128::MAX), -1);
    assert_eq!(divide_rounding_away(i128::MAX, u128::MAX), 0);
}
