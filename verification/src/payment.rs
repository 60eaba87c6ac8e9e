//! The level payment of a fixed-rate annuity.

use vstd::prelude::*;
use vstd::arithmetic::power::{lemma_pow0, lemma_pow_positive, pow};
use crate::arith::{
    ceil_div, lemma_ceil_div_bounds, lemma_ceil_div_from_remainder, lemma_ceil_div_nested,
    lemma_ceil_div_shift, lemma_quotient_and_remainder, mul_div,
};
use crate::rate::Rate;

verus! {

/// The fixed-point value that stands for a growth factor of one: 2^64.
pub const GROWTH_ONE: u128 = 0x1_0000_0000_0000_0000u128;

/// The largest growth factor that is tracked: 2^127, or 2^63 as a factor.
pub const GROWTH_CAP: u128 = 0x8000_0000_0000_0000_0000_0000_0000_0000u128;

/// The compound growth factor `(1 + rate)^periods`, in units of `1 / GROWTH_ONE`.
/// Each period's growth is rounded down, and the factor stops at `GROWTH_CAP`.
pub open spec fn growth(rate: Rate, periods: nat) -> int
    decreases periods,
{
    if periods == 0 {
        GROWTH_ONE as int
    } else {
        let before = growth(rate, (periods - 1) as nat);
        let grown = before + before * rate.numerator / (rate.denominator as int);
        if grown > GROWTH_CAP {
            GROWTH_CAP as int
        } else {
            grown
        }
    }
}

/// The growth factor never falls, and stays between one and the cap.
pub proof fn lemma_growth_bounds(rate: Rate, periods: nat)
    requires
        rate.wf(),
    ensures
        GROWTH_ONE <= growth(rate, periods) <= GROWTH_CAP,
        periods > 0 ==> growth(rate, (periods - 1) as nat) <= growth(rate, periods),
    decreases periods,
{
    if periods > 0 {
        lemma_growth_bounds(rate, (periods - 1) as nat);
        let before = growth(rate, (periods - 1) as nat);
        assert(before * rate.numerator / (rate.denominator as int) >= 0) by (nonlinear_arith)
            requires
                before >= 0,
                rate.numerator >= 0,
                rate.denominator > 0,
        ;
    }
}

/// Once the growth factor has reached the cap it stays there.
pub proof fn lemma_growth_capped(rate: Rate, reached: nat, periods: nat)
    requires
        rate.wf(),
        reached <= periods,
        growth(rate, reached) == GROWTH_CAP,
    ensures
        growth(rate, periods) == GROWTH_CAP,
    decreases periods,
{
    if reached < periods {
        lemma_growth_capped(rate, reached, (periods - 1) as nat);
        lemma_growth_bounds(rate, periods);
    }
}

/// The growth factor is monotone in the number of periods.
pub proof fn lemma_growth_monotone(rate: Rate, earlier: nat, later: nat)
    requires
        rate.wf(),
        earlier <= later,
    ensures
        growth(rate, earlier) <= growth(rate, later),
    decreases later,
{
    if earlier < later {
        lemma_growth_monotone(rate, earlier, (later - 1) as nat);
        lemma_growth_bounds(rate, later);
    }
}

/// With a positive rate the growth factor exceeds one after the first period.
pub proof fn lemma_growth_exceeds_one(rate: Rate, periods: nat)
    requires
        rate.wf(),
        rate.numerator > 0,
        periods >= 1,
    ensures
        growth(rate, periods) > GROWTH_ONE,
{
    let one = GROWTH_ONE as int;
    assert(one * rate.numerator / (rate.denominator as int) >= 1) by (nonlinear_arith)
        requires
            one == 0x1_0000_0000_0000_0000,
            rate.numerator >= 1,
            0 < rate.denominator < 0x1_0000_0000_0000_0000,
    ;
    assert(growth(rate, 0) == one);
    assert(growth(rate, 1) > one);
    lemma_growth_monotone(rate, 1, periods);
}

/// Computes the compound growth factor over `periods` periods.
pub fn compound_growth(rate: Rate, periods: u32) -> (factor: u128)
    requires
        rate.wf(),
    ensures
        factor == growth(rate, periods as nat),
{
    let mut factor: u128 = GROWTH_ONE;
    let mut elapsed: u32 = 0;
    while elapsed < periods && factor < GROWTH_CAP
        invariant
            rate.wf(),
            elapsed <= periods,
            factor == growth(rate, elapsed as nat),
            GROWTH_ONE <= factor <= GROWTH_CAP,
        decreases periods - elapsed,
    {
        factor = match mul_div(factor, rate.numerator as u128, rate.denominator as u128) {
            Some((gain, _)) => if gain > GROWTH_CAP - factor {
                GROWTH_CAP
            } else {
                factor + gain
            },
            None => GROWTH_CAP,
        };
        elapsed = elapsed + 1;
        proof {
            lemma_growth_bounds(rate, elapsed as nat);
        }
    }
    proof {
        if elapsed < periods {
            lemma_growth_capped(rate, elapsed as nat, periods as nat);
        }
    }
    factor
}

/// The level payment that repays `principal` over `periods` periods at `rate`
/// per period: `principal * rate * g / (g - 1)` for the growth factor
/// `g = (1 + rate)^periods`, rounded up to a whole unit.  At a rate of zero it is
/// the principal divided evenly, rounded up.
pub open spec fn annuity_payment(principal: int, rate: Rate, periods: nat) -> int {
    if rate.numerator == 0 {
        ceil_div(principal, periods as int)
    } else {
        let factor = growth(rate, periods);
        ceil_div(principal * rate.numerator * factor, rate.denominator * (factor - GROWTH_ONE))
    }
}

/// Computes the level payment, or `None` where it does not fit in 128 bits.
pub fn level_payment(principal: u128, rate: Rate, periods: u32) -> (res: Option<u128>)
    requires
        rate.wf(),
        periods >= 1,
    ensures
        match res {
            Some(payment) => payment == annuity_payment(principal as int, rate, periods as nat),
            None => annuity_payment(principal as int, rate, periods as nat) > u128::MAX,
        },
{
    if rate.numerator == 0 {
        let count: u128 = periods as u128;
        let even: u128 = principal / count;
        proof {
            lemma_ceil_div_from_remainder(principal as int, count as int);
        }
        if principal % count == 0 {
            Some(even)
        } else {
            assert(even < u128::MAX) by (nonlinear_arith)
                requires
                    count >= 2,
                    even == principal / count,
            ;
            Some(even + 1)
        }
    } else {
        let factor: u128 = compound_growth(rate, periods);
        proof {
            lemma_growth_exceeds_one(rate, periods as nat);
            lemma_growth_bounds(rate, periods as nat);
        }
        let excess: u128 = factor - GROWTH_ONE;
        let numerator: u128 = rate.numerator as u128;
        let divisor: u128 = rate.denominator as u128;
        let ghost exact: int = annuity_payment(principal as int, rate, periods as nat);
        let ghost product: int = principal * rate.numerator * factor;
        let ghost owed: int = principal * rate.numerator;
        proof {
            lemma_payment_covers_interest(principal as int, rate, periods as nat);
            assert(divisor * excess > 0) by (nonlinear_arith)
                requires
                    divisor > 0,
                    excess > 0,
            ;
            lemma_ceil_div_bounds(product, divisor * excess);
            lemma_quotient_and_remainder(owed, divisor as int);
        }
        // The interest on the principal: its whole units, and what is left of it.
        let (interest, left) = match mul_div(principal, numerator, divisor) {
            Some(parts) => parts,
            None => {
                return None;
            },
        };
        proof {
            lemma_quotient_and_remainder(interest * factor, excess as int);
            lemma_quotient_and_remainder(left * factor, divisor as int);
            assert(product >= (interest * factor) * divisor) by (nonlinear_arith)
                requires
                    product == owed * factor,
                    owed == interest * divisor + left,
                    left >= 0,
                    factor >= 0,
            ;
        }
        let (grown, short) = match mul_div(interest, factor, excess) {
            Some(parts) => parts,
            None => {
                proof {
                    assert(exact * excess >= interest * factor) by (nonlinear_arith)
                        requires
                            exact * (divisor * excess) >= product,
                            product >= (interest * factor) * divisor,
                            divisor > 0,
                    ;
                    assert(exact >= (interest * factor) / (excess as int)) by (nonlinear_arith)
                        requires
                            exact * excess >= interest * factor,
                            excess > 0,
                    ;
                }
                return None;
            },
        };
        proof {
            assert((left * factor) / (divisor as int) < factor) by (nonlinear_arith)
                requires
                    0 <= left < divisor,
                    factor > 0,
            ;
        }
        let (carried, rest) = match mul_div(left, factor, divisor) {
            Some(parts) => parts,
            None => {
                return None;
            },
        };
        let pending: u128 = short + carried;
        let ceiled: u128 = if rest == 0 {
            pending
        } else {
            pending + 1
        };
        let share: u128 = if ceiled % excess == 0 {
            ceiled / excess
        } else {
            assert(ceiled / excess < u128::MAX) by (nonlinear_arith)
                requires
                    excess >= 2,
            ;
            ceiled / excess + 1
        };
        proof {
            let open = pending * divisor + rest;
            assert(product == grown * (divisor * excess) + open) by (nonlinear_arith)
                requires
                    product == owed * factor,
                    owed == interest * divisor + left,
                    interest * factor == grown * excess + short,
                    left * factor == carried * divisor + rest,
                    pending == short + carried,
                    open == pending * divisor + rest,
            ;
            vstd::arithmetic::div_mod::lemma_fundamental_div_mod_converse(
                open,
                divisor as int,
                pending as int,
                rest as int,
            );
            lemma_ceil_div_from_remainder(open, divisor as int);
            lemma_ceil_div_nested(open, divisor as int, excess as int);
            lemma_ceil_div_from_remainder(ceiled as int, excess as int);
            lemma_ceil_div_shift(open, grown as int, divisor * excess);
            assert(divisor * excess == rate.denominator * (factor - GROWTH_ONE));
            assert(exact == grown + share);
        }
        grown.checked_add(share)
    }
}

/// The interest that accrues on `balance` over one period, rounded down to a
/// whole unit.
pub open spec fn interest_due(balance: int, rate: Rate) -> int {
    balance * rate.numerator / (rate.denominator as int)
}

/// A larger balance never accrues less interest, and none is negative.
pub proof fn lemma_interest_monotone(smaller: int, larger: int, rate: Rate)
    by (nonlinear_arith)
    requires
        rate.wf(),
        0 <= smaller <= larger,
    ensures
        0 <= interest_due(smaller, rate) <= interest_due(larger, rate),
{
    assert(0 <= smaller * rate.numerator <= larger * rate.numerator);
}

/// The level payment covers at least the interest that the whole principal
/// accrues in a period, so no balance up to the principal ever grows.
pub proof fn lemma_payment_covers_interest(principal: int, rate: Rate, periods: nat)
    requires
        rate.wf(),
        principal >= 0,
        periods >= 1,
    ensures
        annuity_payment(principal, rate, periods) >= interest_due(principal, rate),
        annuity_payment(principal, rate, periods) >= 0,
{
    let payment = annuity_payment(principal, rate, periods);
    if rate.numerator == 0 {
        lemma_ceil_div_bounds(principal, periods as int);
        assert(payment >= 0) by (nonlinear_arith)
            requires
                payment * periods >= principal,
                principal >= 0,
                periods >= 1,
        ;
        assert(interest_due(principal, rate) == 0) by (nonlinear_arith)
            requires
                rate.numerator == 0,
                rate.denominator > 0,
                interest_due(principal, rate) == principal * rate.numerator / (
                rate.denominator as int),
        ;
    } else {
        let factor = growth(rate, periods);
        lemma_growth_exceeds_one(rate, periods);
        let excess = factor - GROWTH_ONE;
        let owed = principal * rate.numerator;
        let den = rate.denominator as int;
        assert(den * excess > 0) by (nonlinear_arith)
            requires
                den > 0,
                excess > 0,
        ;
        lemma_ceil_div_bounds(owed * factor, den * excess);
        assert(payment * den >= owed) by (nonlinear_arith)
            requires
                payment * (den * excess) >= owed * factor,
                factor == excess + 0x1_0000_0000_0000_0000,
                excess > 0,
                owed >= 0,
                den > 0,
        ;
        assert(payment >= owed / den && owed / den >= 0) by (nonlinear_arith)
            requires
                payment * den >= owed,
                owed >= 0,
                den > 0,
        ;
    }
}

/// One more factor of the base: `base^(exponent + 1) == base * base^exponent`.
pub proof fn lemma_pow_step(base: int, exponent: nat)
    ensures
        pow(base, exponent + 1) == base * pow(base, exponent),
{
    reveal(pow);
}

/// A power grows with its base.
pub proof fn lemma_pow_base_monotone(smaller: int, larger: int, exponent: nat)
    requires
        0 < smaller <= larger,
    ensures
        0 < pow(smaller, exponent) <= pow(larger, exponent),
    decreases exponent,
{
    if exponent == 0 {
        lemma_pow0(smaller);
        lemma_pow0(larger);
    } else {
        let less = (exponent - 1) as nat;
        lemma_pow_base_monotone(smaller, larger, less);
        lemma_pow_step(smaller, less);
        lemma_pow_step(larger, less);
        assert(0 < smaller * pow(smaller, less) <= larger * pow(larger, less))
            by (nonlinear_arith)
            requires
                0 < smaller <= larger,
                0 < pow(smaller, less) <= pow(larger, less),
        ;
    }
}

/// Whether `periods` payments of `payment` are worth at least `balance` today
/// at `rate`: `balance <= payment * (1 - (1 + rate)^(-periods)) / rate` over
/// the real numbers, stated here without division; at a rate of zero,
/// `balance <= periods * payment`.
pub open spec fn repays(balance: int, payment: int, rate: Rate, periods: nat) -> bool {
    if rate.numerator == 0 {
        balance <= periods * payment
    } else {
        let compounded = pow(rate.denominator + rate.numerator, periods);
        let level = pow(rate.denominator as int, periods);
        balance * rate.numerator * compounded <= payment * rate.denominator * (compounded - level)
    }
}

/// The tracked growth factor never exceeds the exact one:
/// `growth / GROWTH_ONE <= (1 + rate)^periods`.
pub proof fn lemma_growth_below_exact(rate: Rate, periods: nat)
    requires
        rate.wf(),
    ensures
        growth(rate, periods) * pow(rate.denominator as int, periods) <= GROWTH_ONE * pow(
            rate.denominator + rate.numerator,
            periods,
        ),
    decreases periods,
{
    let den = rate.denominator as int;
    let sum = rate.denominator + rate.numerator;
    if periods == 0 {
        lemma_pow0(den);
        lemma_pow0(sum);
    } else {
        let earlier = (periods - 1) as nat;
        lemma_growth_below_exact(rate, earlier);
        lemma_growth_bounds(rate, earlier);
        lemma_pow_step(den, earlier);
        lemma_pow_step(sum, earlier);
        lemma_pow_positive(den, earlier);
        lemma_pow_positive(sum, earlier);
        let before = growth(rate, earlier);
        let after = growth(rate, periods);
        let level = pow(den, earlier);
        let compounded = pow(sum, earlier);
        let one = GROWTH_ONE as int;
        let gain = before * rate.numerator / den;
        assert(gain * den <= before * rate.numerator) by (nonlinear_arith)
            requires
                den > 0,
                gain == before * rate.numerator / den,
        ;
        assert(after * den <= before * sum) by (nonlinear_arith)
            requires
                after <= before + gain,
                gain * den <= before * rate.numerator,
                sum == den + rate.numerator,
                den > 0,
        ;
        assert(after * (den * level) <= (before * sum) * level) by (nonlinear_arith)
            requires
                after * den <= before * sum,
                level > 0,
        ;
        assert((before * sum) * level == sum * (before * level)) by (nonlinear_arith);
        assert(sum * (before * level) <= sum * (one * compounded)) by (nonlinear_arith)
            requires
                before * level <= one * compounded,
                sum > 0,
        ;
        assert(sum * (one * compounded) == one * (sum * compounded)) by (nonlinear_arith);
    }
}

/// The level payment is enough: the payments of the whole term are worth at
/// least the principal.  Over the real numbers this says that the payment is
/// no less than `principal * rate * (1 + rate)^periods / ((1 + rate)^periods - 1)`.
pub proof fn lemma_annuity_payment_repays(principal: int, rate: Rate, periods: nat)
    requires
        rate.wf(),
        principal >= 0,
        periods >= 1,
    ensures
        repays(principal, annuity_payment(principal, rate, periods), rate, periods),
{
    let payment = annuity_payment(principal, rate, periods);
    if rate.numerator == 0 {
        lemma_ceil_div_bounds(principal, periods as int);
        assert(periods * payment == payment * periods) by (nonlinear_arith);
    } else {
        let den = rate.denominator as int;
        let num = rate.numerator as int;
        let sum = den + num;
        let one = GROWTH_ONE as int;
        let factor = growth(rate, periods);
        let excess = factor - one;
        let owed = principal * num;
        let compounded = pow(sum, periods);
        let level = pow(den, periods);
        lemma_growth_exceeds_one(rate, periods);
        lemma_growth_below_exact(rate, periods);
        lemma_pow_positive(den, periods);
        lemma_pow_positive(sum, periods);
        assert(den * excess > 0) by (nonlinear_arith)
            requires
                den > 0,
                excess > 0,
        ;
        lemma_ceil_div_bounds(owed * factor, den * excess);
        lemma_payment_covers_interest(principal, rate, periods);
        let paid = payment * den;
        // What the payment exceeds the interest by, per unit of the denominator.
        let margin = paid - owed;
        assert(margin >= 0) by (nonlinear_arith)
            requires
                payment >= owed / den,
                margin == payment * den - owed,
                payment * (den * excess) >= owed * factor,
                factor > excess,
                excess > 0,
                owed >= 0,
                den > 0,
        ;
        assert(margin * factor >= paid * one) by (nonlinear_arith)
            requires
                payment * (den * excess) >= owed * factor,
                paid == payment * den,
                margin == paid - owed,
                excess == factor - one,
        ;
        assert(margin * (one * compounded) >= margin * (factor * level)) by (nonlinear_arith)
            requires
                factor * level <= one * compounded,
                margin >= 0,
        ;
        assert(margin * (factor * level) == (margin * factor) * level) by (nonlinear_arith);
        assert((margin * factor) * level >= (paid * one) * level) by (nonlinear_arith)
            requires
                margin * factor >= paid * one,
                level > 0,
        ;
        assert(one * (margin * compounded) >= one * (paid * level)) by (nonlinear_arith)
            requires
                margin * (one * compounded) >= (paid * one) * level,
        ;
        assert(margin * compounded >= paid * level) by (nonlinear_arith)
            requires
                one * (margin * compounded) >= one * (paid * level),
                one > 0,
        ;
        assert(owed * compounded <= paid * (compounded - level)) by (nonlinear_arith)
            requires
                margin * compounded >= paid * level,
                margin == paid - owed,
        ;
    }
}

/// Whether `payment` exceeds the exact level payment by less than one unit and
/// the error of the tracked growth factor: over the real numbers, with
/// `g = (1 + rate)^periods`,
/// `payment - 1 < principal * rate * g / (g - t)` for `t = 2^64 / (2^64 - periods)`,
/// where the exact level payment has `1` in place of `t`.  Stated here without
/// division.
pub open spec fn within_tolerance(principal: int, payment: int, rate: Rate, periods: nat) -> bool {
    let compounded = pow(rate.denominator + rate.numerator, periods);
    let level = pow(rate.denominator as int, periods);
    let slack = GROWTH_ONE - periods;
    (payment - 1) * rate.denominator * (slack * compounded - GROWTH_ONE * level) < principal
        * rate.numerator * (slack * compounded)
}

/// As long as it stays under the cap, the tracked growth factor falls short of
/// the exact one by less than one part in `GROWTH_ONE` for each period:
/// `growth / GROWTH_ONE >= (1 - periods / GROWTH_ONE) * (1 + rate)^periods`.
pub proof fn lemma_growth_near_exact(rate: Rate, periods: nat)
    requires
        rate.wf(),
        growth(rate, periods) < GROWTH_CAP,
    ensures
        growth(rate, periods) * pow(rate.denominator as int, periods) >= (GROWTH_ONE - periods)
            * pow(rate.denominator + rate.numerator, periods),
        0 < pow(rate.denominator as int, periods) <= pow(
            rate.denominator + rate.numerator,
            periods,
        ),
    decreases periods,
{
    let den = rate.denominator as int;
    let num = rate.numerator as int;
    let sum = den + num;
    let one = GROWTH_ONE as int;
    if periods == 0 {
        lemma_pow0(den);
        lemma_pow0(sum);
    } else {
        let earlier = (periods - 1) as nat;
        lemma_growth_bounds(rate, periods);
        lemma_growth_near_exact(rate, earlier);
        lemma_pow_step(den, earlier);
        lemma_pow_step(sum, earlier);
        let before = growth(rate, earlier);
        let after = growth(rate, periods);
        let level = pow(den, earlier);
        let compounded = pow(sum, earlier);
        let gain = before * num / den;
        let short = one - earlier;
        assert(after == before + gain);
        assert(gain * den > before * num - den) by (nonlinear_arith)
            requires
                den > 0,
                gain == before * num / den,
        ;
        assert(den * level <= sum * compounded && den * level > 0) by (nonlinear_arith)
            requires
                0 < level <= compounded,
                0 < den <= sum,
        ;
        assert(after * den >= before * sum - den) by (nonlinear_arith)
            requires
                after == before + gain,
                gain * den > before * num - den,
                sum == den + num,
        ;
        assert(after * (den * level) >= (before * sum - den) * level) by (nonlinear_arith)
            requires
                after * den >= before * sum - den,
                level > 0,
        ;
        assert((before * sum - den) * level == sum * (before * level) - den * level)
            by (nonlinear_arith);
        assert(sum * (before * level) >= sum * (short * compounded)) by (nonlinear_arith)
            requires
                before * level >= short * compounded,
                sum > 0,
        ;
        assert(sum * (short * compounded) - sum * compounded == (short - 1) * (sum * compounded))
            by (nonlinear_arith);
    }
}

/// The largest denominator of a rate for which the growth of one period is
/// sure to exceed the error of the tracked growth factor: 2^64 - 2^32.
pub const MAX_ACCURATE_DENOMINATOR: u64 = 0xffff_ffff_0000_0000;

/// Compounding gains at least the simple interest:
/// `(1 + rate)^(periods + 1) >= 1 + (periods + 1) * rate`, stated without
/// division.
pub proof fn lemma_compounding_exceeds_simple(rate: Rate, periods: nat)
    requires
        rate.wf(),
    ensures
        pow(rate.denominator + rate.numerator, periods + 1) >= pow(
            rate.denominator as int,
            periods + 1,
        ) + (periods + 1) * rate.numerator * pow(rate.denominator as int, periods),
    decreases periods,
{
    let den = rate.denominator as int;
    let num = rate.numerator as int;
    let sum = den + num;
    lemma_pow_step(den, periods);
    lemma_pow_step(sum, periods);
    lemma_pow_positive(den, periods);
    let level = pow(den, periods);
    if periods == 0 {
        lemma_pow0(den);
        lemma_pow0(sum);
        assert(sum * 1 >= den * 1 + (0 + 1) * num * 1) by (nonlinear_arith)
            requires
                sum == den + num,
        ;
    } else {
        let earlier = (periods - 1) as nat;
        lemma_compounding_exceeds_simple(rate, earlier);
        lemma_pow_step(den, earlier);
        lemma_pow_positive(den, earlier);
        let compounded = pow(sum, periods);
        let lower = pow(den, earlier);
        assert(sum * compounded >= sum * (level + periods * num * lower)) by (nonlinear_arith)
            requires
                compounded >= level + periods * num * lower,
                sum > 0,
        ;
        assert(sum * (level + periods * num * lower) >= den * level + (periods + 1) * num * level)
            by (nonlinear_arith)
            requires
                sum == den + num,
                level == den * lower,
                lower > 0,
                num >= 0,
                den > 0,
                periods >= 1,
        ;
    }
}

/// With a denominator of at most `MAX_ACCURATE_DENOMINATOR`, a positive rate
/// compounds by more than the error of the tracked growth factor.
pub proof fn lemma_compounding_outgrows_error(rate: Rate, periods: nat)
    requires
        rate.wf(),
        rate.numerator > 0,
        1 <= periods <= u32::MAX,
        rate.denominator <= MAX_ACCURATE_DENOMINATOR,
    ensures
        (GROWTH_ONE - periods) * pow(rate.denominator + rate.numerator, periods) > GROWTH_ONE
            * pow(rate.denominator as int, periods),
{
    let den = rate.denominator as int;
    let num = rate.numerator as int;
    let sum = den + num;
    let one = GROWTH_ONE as int;
    let earlier = (periods - 1) as nat;
    lemma_compounding_exceeds_simple(rate, earlier);
    lemma_pow_step(den, earlier);
    lemma_pow_positive(den, earlier);
    let compounded = pow(sum, periods);
    let level = pow(den, periods);
    let lower = pow(den, earlier);
    let slack = one - periods;
    assert(slack * compounded >= slack * (level + periods * num * lower)) by (nonlinear_arith)
        requires
            compounded >= level + periods * num * lower,
            slack > 0,
    ;
    let gained = (slack * num) * lower;
    assert(slack * num > den) by (nonlinear_arith)
        requires
            slack > den,
            num >= 1,
            den > 0,
    ;
    assert(gained > level) by (nonlinear_arith)
        requires
            gained == (slack * num) * lower,
            level == den * lower,
            slack * num > den,
            lower > 0,
    ;
    assert(periods * gained > periods * level) by (nonlinear_arith)
        requires
            gained > level,
            periods >= 1,
    ;
    assert(slack * (level + periods * num * lower) == slack * level + periods * gained)
        by (nonlinear_arith)
        requires
            gained == (slack * num) * lower,
    ;
    assert(one * level == slack * level + periods * level) by (nonlinear_arith)
        requires
            slack == one - periods,
    ;
}

/// The level payment is close: it exceeds the exact level payment by less
/// than one unit and the error of the tracked growth factor, as long as that
/// factor stays under the cap and the denominator of the rate is at most
/// `MAX_ACCURATE_DENOMINATOR`.
pub proof fn lemma_annuity_payment_accurate(principal: int, rate: Rate, periods: nat)
    requires
        rate.wf(),
        rate.numerator > 0,
        principal >= 0,
        1 <= periods <= u32::MAX,
        growth(rate, periods) < GROWTH_CAP,
        rate.denominator <= MAX_ACCURATE_DENOMINATOR,
    ensures
        within_tolerance(principal, annuity_payment(principal, rate, periods), rate, periods),
        (GROWTH_ONE - periods) * pow(rate.denominator + rate.numerator, periods) > GROWTH_ONE
            * pow(rate.denominator as int, periods),
{
    lemma_compounding_outgrows_error(rate, periods);
    let payment = annuity_payment(principal, rate, periods);
    let den = rate.denominator as int;
    let num = rate.numerator as int;
    let sum = den + num;
    let one = GROWTH_ONE as int;
    let factor = growth(rate, periods);
    let excess = factor - one;
    let owed = principal * num;
    let compounded = pow(sum, periods);
    let level = pow(den, periods);
    let slack = one - periods;
    let room = slack * compounded - one * level;
    lemma_growth_exceeds_one(rate, periods);
    lemma_growth_near_exact(rate, periods);
    assert(den * excess > 0) by (nonlinear_arith)
        requires
            den > 0,
            excess > 0,
    ;
    lemma_ceil_div_bounds(owed * factor, den * excess);
    let below = (payment - 1) * den;
    assert(below * excess < owed * excess + owed * one) by (nonlinear_arith)
        requires
            (payment - 1) * (den * excess) < owed * factor,
            below == (payment - 1) * den,
            excess == factor - one,
    ;
    assert(excess * level >= room) by (nonlinear_arith)
        requires
            factor * level >= slack * compounded,
            excess == factor - one,
            room == slack * compounded - one * level,
    ;
    assert(owed >= 0) by (nonlinear_arith)
        requires
            principal >= 0,
            num > 0,
            owed == principal * num,
    ;
    assert(owed * (slack * compounded) == owed * room + owed * (one * level))
        by (nonlinear_arith)
        requires
            room == slack * compounded - one * level,
    ;
    if below <= owed {
        if owed == 0 {
            assert(below < 0) by (nonlinear_arith)
                requires
                    below * excess < owed * excess + owed * one,
                    owed == 0,
                    excess > 0,
            ;
            assert(below * room < 0) by (nonlinear_arith)
                requires
                    below < 0,
                    room > 0,
            ;
            assert(owed * (slack * compounded) == 0) by (nonlinear_arith)
                requires
                    owed == 0,
            ;
        } else {
            assert(below * room <= owed * room) by (nonlinear_arith)
                requires
                    below <= owed,
                    room > 0,
            ;
            assert(owed * (one * level) > 0) by (nonlinear_arith)
                requires
                    owed > 0,
                    one > 0,
                    level > 0,
            ;
        }
    } else {
        let margin = below - owed;
        assert(margin * excess < owed * one) by (nonlinear_arith)
            requires
                below * excess < owed * excess + owed * one,
                margin == below - owed,
        ;
        assert(margin * (excess * level) < (owed * one) * level) by (nonlinear_arith)
            requires
                margin * excess < owed * one,
                level > 0,
        ;
        assert(margin * room <= margin * (excess * level)) by (nonlinear_arith)
            requires
                margin > 0,
                room <= excess * level,
        ;
        assert((owed * one) * level == owed * (one * level)) by (nonlinear_arith);
        assert(below * room == margin * room + owed * room) by (nonlinear_arith)
            requires
                margin == below - owed,
        ;
    }
    assert(below * room < owed * (slack * compounded));
    assert(principal * rate.numerator * (slack * compounded) == owed * (slack * compounded));
    assert((payment - 1) * rate.denominator * (slack * compounded - GROWTH_ONE * level) == below
        * room);
}

} // verus!
