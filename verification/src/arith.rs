//! Exact integer arithmetic on products that do not fit in a machine word.

use vstd::prelude::*;
use vstd::arithmetic::div_mod::lemma_fundamental_div_mod_converse;

verus! {

/// The largest divisor that [`mul_div`] accepts: 2^127.
pub const MAX_DIVISOR: u128 = 0x8000_0000_0000_0000_0000_0000_0000_0000u128;

/// The quotient `a / b` rounded up to the next whole number, for `b > 0`.
pub open spec fn ceil_div(a: int, b: int) -> int {
    (a + b - 1) / b
}

/// A product that reaches `bound * c` has a quotient by `c` of at least `bound`.
pub proof fn lemma_quotient_at_least(x: int, bound: int, c: int)
    by (nonlinear_arith)
    requires
        c > 0,
        x >= bound * c,
    ensures
        x / c >= bound,
{
}

/// What pins a rounded-up quotient down: it is the least multiplier of `b`
/// that reaches `a`.
pub proof fn lemma_ceil_div_bounds(a: int, b: int)
    by (nonlinear_arith)
    requires
        b > 0,
    ensures
        ceil_div(a, b) * b >= a,
        (ceil_div(a, b) - 1) * b < a,
{
    let q = (a + b - 1) / b;
    let r = (a + b - 1) % b;
    assert(a + b - 1 == q * b + r && 0 <= r < b);
}

/// The least multiplier of `b` that reaches `a` is the rounded-up quotient.
pub proof fn lemma_ceil_div_unique(a: int, b: int, m: int)
    by (nonlinear_arith)
    requires
        b > 0,
        m * b >= a,
        (m - 1) * b < a,
    ensures
        m == ceil_div(a, b),
{
    let q = (a + b - 1) / b;
    let r = (a + b - 1) % b;
    assert(a + b - 1 == q * b + r && 0 <= r < b);
    assert(q * b >= a);
    assert((q - 1) * b < a);
    assert(m <= q) by {
        if m > q {
            assert((m - 1) * b >= q * b);
        }
    }
    assert(q <= m) by {
        if q > m {
            assert((q - 1) * b >= m * b);
        }
    }
}

/// A rounded-up quotient from the truncating quotient and the remainder.
pub proof fn lemma_ceil_div_from_remainder(a: int, b: int)
    requires
        b > 0,
    ensures
        ceil_div(a, b) == a / b + (if a % b == 0 { 0int } else { 1int }),
{
    let m = a / b + (if a % b == 0 { 0int } else { 1int });
    assert(m * b >= a && (m - 1) * b < a) by (nonlinear_arith)
        requires
            b > 0,
            m == a / b + (if a % b == 0 { 0int } else { 1int }),
    {
        assert(a == (a / b) * b + a % b && 0 <= a % b < b);
    }
    lemma_ceil_div_unique(a, b, m);
}

/// Rounding up twice, by `c` and then by `d`, is rounding up once by `c * d`.
pub proof fn lemma_ceil_div_nested(x: int, c: int, d: int)
    requires
        c > 0,
        d > 0,
    ensures
        c * d > 0,
        ceil_div(ceil_div(x, c), d) == ceil_div(x, c * d),
{
    let y = ceil_div(x, c);
    let m = ceil_div(y, d);
    lemma_ceil_div_bounds(x, c);
    lemma_ceil_div_bounds(y, d);
    assert(c * d > 0) by (nonlinear_arith)
        requires
            c > 0,
            d > 0,
    ;
    assert(m * (c * d) >= x) by (nonlinear_arith)
        requires
            c > 0,
            m * d >= y,
            y * c >= x,
    ;
    assert((m - 1) * (c * d) < x) by (nonlinear_arith)
        requires
            c > 0,
            (m - 1) * d <= y - 1,
            (y - 1) * c < x,
    ;
    lemma_ceil_div_unique(x, c * d, m);
}

/// Whole multiples of the divisor pass through a rounded-up quotient.
pub proof fn lemma_ceil_div_shift(z: int, k: int, b: int)
    requires
        b > 0,
    ensures
        ceil_div(k * b + z, b) == k + ceil_div(z, b),
{
    let m = ceil_div(z, b);
    lemma_ceil_div_bounds(z, b);
    assert((k + m) * b >= k * b + z && (k + m - 1) * b < k * b + z) by (nonlinear_arith)
        requires
            m * b >= z,
            (m - 1) * b < z,
    ;
    lemma_ceil_div_unique(k * b + z, b, k + m);
}

/// A dividend is its quotient times the divisor, and the remainder.
pub proof fn lemma_quotient_and_remainder(x: int, d: int)
    by (nonlinear_arith)
    requires
        d > 0,
    ensures
        x == (x / d) * d + x % d,
        0 <= x % d < d,
{
}

/// Quotient and remainder of the full product `a * b` by `c`, computed without
/// ever forming the product: `None` exactly when the quotient exceeds `u128::MAX`.
pub fn mul_div(a: u128, b: u128, c: u128) -> (res: Option<(u128, u128)>)
    requires
        0 < c <= MAX_DIVISOR,
    ensures
        match res {
            Some((q, r)) => q == (a * b) / (c as int) && r == (a * b) % (c as int),
            None => (a * b) / (c as int) > u128::MAX,
        },
{
    match a.checked_mul(b) {
        Some(product) => {
            return Some((product / c, product % c));
        },
        None => {},
    }
    // Binary long multiplication, least significant bit of `b` first.  `done` is
    // the part of `b` already accounted for, `weight` the value of the next bit.
    let mut q: u128 = 0;
    let mut r: u128 = 0;
    let mut wq: u128 = a / c;
    let mut wr: u128 = a % c;
    let mut rest: u128 = b;
    let ghost mut done: int = 0;
    let ghost mut weight: int = 1;
    proof {
        assert(a * 1 == wq * c + wr) by (nonlinear_arith)
            requires
                c > 0,
                wq == a / c,
                wr == a % c,
        ;
        assert(a * 0 == 0 * c + 0) by (nonlinear_arith);
    }
    while rest > 0
        invariant
            0 < c <= MAX_DIVISOR,
            b == done + rest * weight,
            done >= 0,
            weight >= 1,
            a * done == q * c + r,
            r < c,
            a * weight == wq * c + wr,
            wr < c,
        decreases rest,
    {
        let ghost rest_before = rest;
        if rest % 2 == 1 {
            proof {
                // The product is at least a * (done + weight).
                assert(a * b >= (q + wq) * c + (r + wr)) by (nonlinear_arith)
                    requires
                        b == done + rest * weight,
                        rest >= 1,
                        weight >= 1,
                        a * done == q * c + r,
                        a * weight == wq * c + wr,
                ;
                assert(a * (done + weight) == (q + wq) * c + (r + wr)) by (nonlinear_arith)
                    requires
                        a * done == q * c + r,
                        a * weight == wq * c + wr,
                ;
            }
            q = match q.checked_add(wq) {
                Some(sum) => sum,
                None => {
                    proof {
                        assert(a * b >= (u128::MAX + 1) * c) by (nonlinear_arith)
                            requires
                                a * b >= (q + wq) * c + (r + wr),
                                q + wq >= u128::MAX + 1,
                                c > 0,
                        ;
                        lemma_quotient_at_least(a * b, u128::MAX + 1, c as int);
                    }
                    return None;
                },
            };
            r = r + wr;
            if r >= c {
                r = r - c;
                proof {
                    assert((q + 1) * c + r == q * c + (r + c)) by (nonlinear_arith);
                }
                q = match q.checked_add(1) {
                    Some(sum) => sum,
                    None => {
                        proof {
                            assert(a * b >= (u128::MAX + 1) * c) by (nonlinear_arith)
                                requires
                                    a * b >= (q + 1) * c + r,
                                    q + 1 >= u128::MAX + 1,
                                    c > 0,
                            ;
                            lemma_quotient_at_least(a * b, u128::MAX + 1, c as int);
                        }
                        return None;
                    },
                };
            }
            proof {
                done = done + weight;
            }
        }
        rest = rest / 2;
        proof {
            assert(b == done + rest * (2 * weight)) by (nonlinear_arith)
                requires
                    b == (done - (rest_before % 2) * weight) + rest_before * weight,
                    rest == rest_before / 2,
                    rest_before % 2 == 0 || rest_before % 2 == 1,
            ;
        }
        if rest > 0 {
            proof {
                assert(a * b >= (2 * wq) * c + 2 * wr) by (nonlinear_arith)
                    requires
                        b == done + rest * (2 * weight),
                        rest >= 1,
                        done >= 0,
                        a * weight == wq * c + wr,
                ;
                assert(a * (2 * weight) == (2 * wq) * c + 2 * wr) by (nonlinear_arith)
                    requires
                        a * weight == wq * c + wr,
                ;
            }
            wq = match wq.checked_mul(2) {
                Some(twice) => twice,
                None => {
                    proof {
                        assert(a * b >= (u128::MAX + 1) * c) by (nonlinear_arith)
                            requires
                                a * b >= (2 * wq) * c + 2 * wr,
                                2 * wq >= u128::MAX + 1,
                                c > 0,
                        ;
                        lemma_quotient_at_least(a * b, u128::MAX + 1, c as int);
                    }
                    return None;
                },
            };
            wr = wr * 2;
            if wr >= c {
                wr = wr - c;
                proof {
                    assert((wq + 1) * c + wr == wq * c + (wr + c)) by (nonlinear_arith);
                }
                wq = match wq.checked_add(1) {
                    Some(sum) => sum,
                    None => {
                        proof {
                            assert(a * b >= (u128::MAX + 1) * c) by (nonlinear_arith)
                                requires
                                    a * b >= (wq + 1) * c + wr,
                                    wq + 1 >= u128::MAX + 1,
                                    c > 0,
                            ;
                            lemma_quotient_at_least(a * b, u128::MAX + 1, c as int);
                        }
                        return None;
                    },
                };
            }
            proof {
                weight = 2 * weight;
            }
        } else {
            assert(rest * weight == 0) by (nonlinear_arith)
                requires
                    rest == 0,
            ;
        }
    }
    proof {
        assert(rest * weight == 0) by (nonlinear_arith)
            requires
                rest == 0,
        ;
        lemma_fundamental_div_mod_converse(a * b, c as int, q as int, r as int);
    }
    Some((q, r))
}

/// Ten to the power `exponent`.
pub open spec fn pow10(exponent: nat) -> nat
    decreases exponent,
{
    if exponent == 0 {
        1
    } else {
        10 * pow10((exponent - 1) as nat)
    }
}

/// The largest exponent whose power of ten fits in 128 bits.
pub const MAX_POWER_OF_TEN: u32 = 38;

/// Computes ten to the power `exponent`.
pub fn power_of_ten(exponent: u32) -> (power: u128)
    requires
        exponent <= MAX_POWER_OF_TEN,
    ensures
        power == pow10(exponent as nat),
        power >= 1,
{
    let mut power: u128 = 1;
    let mut done: u32 = 0;
    proof {
        lemma_pow10_monotone(0, MAX_POWER_OF_TEN as nat);
    }
    while done < exponent
        invariant
            done <= exponent <= MAX_POWER_OF_TEN,
            power == pow10(done as nat),
            power >= 1,
            power <= pow10(MAX_POWER_OF_TEN as nat),
        decreases exponent - done,
    {
        proof {
            lemma_pow10_monotone((done + 1) as nat, MAX_POWER_OF_TEN as nat);
            lemma_pow10_largest();
        }
        power = power * 10;
        done = done + 1;
    }
    power
}

/// The largest power of ten in 128 bits, and three smaller ones, written out.
pub proof fn lemma_pow10_largest()
    ensures
        pow10(MAX_POWER_OF_TEN as nat) == 100_000_000_000_000_000_000_000_000_000_000_000_000,
        pow10(19) == 10_000_000_000_000_000_000,
        pow10(18) == 1_000_000_000_000_000_000,
        pow10(9) == 1_000_000_000,
{
    reveal_with_fuel(pow10, 39);
}

/// Powers of ten are positive and grow with the exponent.
pub proof fn lemma_pow10_monotone(smaller: nat, larger: nat)
    requires
        smaller <= larger,
    ensures
        1 <= pow10(smaller) <= pow10(larger),
    decreases larger,
{
    if smaller < larger {
        lemma_pow10_monotone(smaller, (larger - 1) as nat);
    } else if smaller > 0 {
        lemma_pow10_monotone((smaller - 1) as nat, (larger - 1) as nat);
    }
}

/// The quotient `a / b` rounded to the nearest whole number, a half rounded up,
/// for `a >= 0` and `b > 0`.
pub open spec fn round_div(a: int, b: int) -> int {
    (2 * a + b) / (2 * b)
}

/// A rounded quotient from the truncating quotient and the remainder.
pub proof fn lemma_round_div_from_remainder(a: int, b: int)
    requires
        a >= 0,
        b > 0,
    ensures
        round_div(a, b) == a / b + (if 2 * (a % b) >= b { 1int } else { 0int }),
{
    let q = a / b;
    let r = a % b;
    assert(a == q * b + r && 0 <= r < b) by (nonlinear_arith)
        requires
            b > 0,
            q == a / b,
            r == a % b,
    ;
    if 2 * r >= b {
        assert(2 * a + b == (q + 1) * (2 * b) + (2 * r - b)) by (nonlinear_arith)
            requires
                a == q * b + r,
        ;
        lemma_fundamental_div_mod_converse(2 * a + b, 2 * b, q + 1, 2 * r - b);
    } else {
        assert(2 * a + b == q * (2 * b) + (2 * r + b)) by (nonlinear_arith)
            requires
                a == q * b + r,
        ;
        lemma_fundamental_div_mod_converse(2 * a + b, 2 * b, q, 2 * r + b);
    }
}

/// Divides and rounds to the nearest whole number, a half up.
pub fn divide_rounding(a: u128, b: u128) -> (quotient: u128)
    requires
        b > 0,
    ensures
        quotient == round_div(a as int, b as int),
{
    proof {
        lemma_round_div_from_remainder(a as int, b as int);
    }
    let whole: u128 = a / b;
    let rest: u128 = a % b;
    if rest >= b - rest {
        assert(whole < u128::MAX) by (nonlinear_arith)
            requires
                b >= 2,
                whole == a / b,
        ;
        whole + 1
    } else {
        whole
    }
}

/// The quotient `a / b` rounded to the nearest whole number, a half rounded
/// away from zero, for `b > 0`: `-2.5` goes to `-3` as `2.5` goes to `3`.
pub open spec fn round_away(a: int, b: int) -> int {
    if a >= 0 {
        round_div(a, b)
    } else {
        -round_div(-a, b)
    }
}

/// Rounding a half away from zero commutes with the sign.
pub proof fn lemma_round_away_symmetric(a: int, b: int)
    requires
        b > 0,
    ensures
        round_away(-a, b) == -round_away(a, b),
{
    if a == 0 {
        lemma_round_div_from_remainder(0, b);
        assert(0int / b == 0 && 0int % b == 0) by (nonlinear_arith)
            requires
                b > 0,
        ;
    }
}

/// A rounded quotient is no larger than its dividend.
pub proof fn lemma_round_div_bounded(a: int, b: int)
    requires
        a >= 0,
        b > 0,
    ensures
        0 <= round_div(a, b) <= a,
{
    lemma_round_div_from_remainder(a, b);
    let q = a / b;
    let r = a % b;
    assert(a == q * b + r && 0 <= r < b && q >= 0) by (nonlinear_arith)
        requires
            a >= 0,
            b > 0,
            q == a / b,
            r == a % b,
    ;
    assert(q * b >= q) by (nonlinear_arith)
        requires
            q >= 0,
            b >= 1,
    ;
}

/// Divides and rounds to the nearest whole number, a half away from zero.
pub fn divide_rounding_away(a: i128, b: u128) -> (quotient: i128)
    requires
        b > 0,
    ensures
        quotient == round_away(a as int, b as int),
{
    if a >= 0 {
        proof {
            lemma_round_div_bounded(a as int, b as int);
        }
        divide_rounding(a as u128, b) as i128
    } else {
        let size: u128 = if a == i128::MIN {
            0x8000_0000_0000_0000_0000_0000_0000_0000u128
        } else {
            (-a) as u128
        };
        proof {
            lemma_round_div_bounded(size as int, b as int);
        }
        let rounded: u128 = divide_rounding(size, b);
        if rounded == 0x8000_0000_0000_0000_0000_0000_0000_0000u128 {
            i128::MIN
        } else {
            -(rounded as i128)
        }
    }
}

} // verus!
