//! The parameters of a loan as a caller supplies them, and what two runs of
//! them save.

use vstd::prelude::*;
use vstd::utf8::encode_utf8;
use crate::arith::{
    divide_rounding_away, lemma_pow10_monotone, lemma_round_away_symmetric, pow10, power_of_ten,
    round_away,
};
use crate::decimal::{
    parse_rate, parse_scaled, parse_whole_number, rate_of_text, scaled_of, whole_number_of,
    AMOUNT_FRACTION_DIGITS,
};
use crate::mortgage_schedule::{MortgageSchedule, ScheduleError, ScheduleResult, PAYMENT_LIMIT};
use crate::rate::{Rate, MONTHS_PER_YEAR};

verus! {

/// The parameters of a loan: the amount lent, the annual interest rate, the
/// term in monthly periods and the overpayment per period.
#[derive(Clone, Copy, Debug, PartialEq, Eq, Structural)]
pub struct MortgageParameters {
    /// The amount lent.
    pub principal: u128,
    /// The interest rate per year, as a fraction: `4 / 100` for four percent.
    pub annual_rate_as_decimal: Rate,
    /// The term in monthly periods.
    pub mortgage_term_length: u32,
    /// What is paid each period on top of the minimum payment.
    pub overpayment_amount: u128,
}

/// One of the arguments that describe a loan.
#[derive(Clone, Copy, Debug, PartialEq, Eq, Structural)]
pub enum Argument {
    Principal,
    AnnualRate,
    TermLength,
    Overpayment,
}

/// Why a list of arguments describes no loan.
#[derive(Clone, Copy, Debug, PartialEq, Eq, Structural)]
pub enum ArgumentError {
    /// Fewer arguments than a loan needs.
    InvalidArgumentCount,
    /// An argument that is no number of the kind required.
    InvalidArgumentFormat(Argument),
}

/// The amount that a text denotes: the number in units of
/// `10^-AMOUNT_FRACTION_DIGITS`, rounded to the nearest unit, where that fits
/// in 128 bits.
pub open spec fn amount_of_text(text: Seq<u8>) -> Option<u128> {
    scaled_of(text, AMOUNT_FRACTION_DIGITS as nat)
}

/// The parameters that a list of arguments denotes.  The first argument is
/// not read; the next three are the principal, the annual rate and the term;
/// the overpayment follows, and is zero where the list ends before it.  The
/// first argument that is no number of its kind decides the error.
pub open spec fn parameters_of(args: Seq<Seq<u8>>) -> Result<MortgageParameters, ArgumentError> {
    if args.len() < 4 {
        Err(ArgumentError::InvalidArgumentCount)
    } else if amount_of_text(args[1]) is None {
        Err(ArgumentError::InvalidArgumentFormat(Argument::Principal))
    } else if rate_of_text(args[2]) is None {
        Err(ArgumentError::InvalidArgumentFormat(Argument::AnnualRate))
    } else if whole_number_of(args[3]) is None {
        Err(ArgumentError::InvalidArgumentFormat(Argument::TermLength))
    } else if args.len() > 4 && amount_of_text(args[4]) is None {
        Err(ArgumentError::InvalidArgumentFormat(Argument::Overpayment))
    } else {
        Ok(
            MortgageParameters {
                principal: amount_of_text(args[1]).unwrap(),
                annual_rate_as_decimal: rate_of_text(args[2]).unwrap(),
                mortgage_term_length: whole_number_of(args[3]).unwrap(),
                overpayment_amount: if args.len() > 4 {
                    amount_of_text(args[4]).unwrap()
                } else {
                    0
                },
            },
        )
    }
}

/// The bytes of each argument.
pub open spec fn argument_texts(args: Seq<String>) -> Seq<Seq<u8>> {
    Seq::new(args.len(), |i: int| encode_utf8(args[i]@))
}

/// Reads an amount.
pub fn parse_amount(text: &[u8]) -> (res: Option<u128>)
    ensures
        res == amount_of_text(text@),
{
    parse_scaled(text, AMOUNT_FRACTION_DIGITS)
}

/// What two runs of the same loan save: one without and one with the
/// overpayment.
#[derive(Clone, Copy, Debug, PartialEq, Eq, Structural)]
pub struct Comparison {
    /// The minimum payment per period, which both runs share.
    pub minimum_payment: u128,
    /// The totals of the run without overpayment.
    pub baseline: ScheduleResult,
    /// The totals of the run with the overpayment.
    pub overpaid: ScheduleResult,
    /// By how many periods the overpayment shortens the run.
    pub periods_saved: u32,
    /// By how much the overpayment reduces the interest charged.
    pub interest_saved: u128,
    /// By how much the overpayment reduces the sum of all payments.  This one
    /// may be negative: the last period is charged the full payment, and with
    /// an overpayment that is more.
    pub amount_saved: i128,
}

impl ArgumentError {
    /// The error in words.
    pub fn message(&self) -> (text: &'static str)
        ensures
            text@ == self.message_text(),
    {
        match self {
            ArgumentError::InvalidArgumentCount => "Not enough arguments. Please try again",
            ArgumentError::InvalidArgumentFormat(Argument::Principal) => {
                "Starting principal of mortgage must be a float"
            },
            ArgumentError::InvalidArgumentFormat(Argument::AnnualRate) => {
                "Annual Rate as Decimal must be a float"
            },
            ArgumentError::InvalidArgumentFormat(Argument::TermLength) => {
                "Term length of mortgage must be an integer"
            },
            ArgumentError::InvalidArgumentFormat(Argument::Overpayment) => {
                "Overpayment amount must be a float"
            },
        }
    }

    /// The words of each error.
    pub open spec fn message_text(&self) -> Seq<char> {
        match self {
            ArgumentError::InvalidArgumentCount => "Not enough arguments. Please try again"@,
            ArgumentError::InvalidArgumentFormat(Argument::Principal) => {
                "Starting principal of mortgage must be a float"@
            },
            ArgumentError::InvalidArgumentFormat(Argument::AnnualRate) => {
                "Annual Rate as Decimal must be a float"@
            },
            ArgumentError::InvalidArgumentFormat(Argument::TermLength) => {
                "Term length of mortgage must be an integer"@
            },
            ArgumentError::InvalidArgumentFormat(Argument::Overpayment) => {
                "Overpayment amount must be a float"@
            },
        }
    }
}

impl MortgageParameters {
    /// Reads the parameters of a loan from a list of arguments.
    pub fn build(args: &[String]) -> (res: Result<MortgageParameters, ArgumentError>)
        ensures
            res == parameters_of(argument_texts(args@)),
            res matches Ok(parameters) ==> parameters.annual_rate_as_decimal.divisible_by_year(),
    {
        let ghost texts = argument_texts(args@);
        if args.len() < 4 {
            return Err(ArgumentError::InvalidArgumentCount);
        }
        assert(texts[1] == encode_utf8(args@[1]@));
        assert(texts[2] == encode_utf8(args@[2]@));
        assert(texts[3] == encode_utf8(args@[3]@));
        let principal: u128 = match parse_amount(args[1].as_str().as_bytes()) {
            Some(amount) => amount,
            None => {
                return Err(ArgumentError::InvalidArgumentFormat(Argument::Principal));
            },
        };
        let annual_rate_as_decimal: Rate = match parse_rate(args[2].as_str().as_bytes()) {
            Some(rate) => rate,
            None => {
                return Err(ArgumentError::InvalidArgumentFormat(Argument::AnnualRate));
            },
        };
        let mortgage_term_length: u32 = match parse_whole_number(args[3].as_str().as_bytes()) {
            Some(number) => number,
            None => {
                return Err(ArgumentError::InvalidArgumentFormat(Argument::TermLength));
            },
        };
        let overpayment_amount: u128 = if args.len() > 4 {
            assert(texts[4] == encode_utf8(args@[4]@));
            match parse_amount(args[4].as_str().as_bytes()) {
                Some(amount) => amount,
                None => {
                    return Err(ArgumentError::InvalidArgumentFormat(Argument::Overpayment));
                },
            }
        } else {
            0
        };
        Ok(
            MortgageParameters {
                principal,
                annual_rate_as_decimal,
                mortgage_term_length,
                overpayment_amount,
            },
        )
    }

    /// Parameters are valid when they lend a positive amount over at least
    /// one period, at a rate of which a twelfth can be held.
    pub open spec fn valid(&self) -> bool {
        &&& self.principal > 0
        &&& self.mortgage_term_length >= 1
        &&& self.annual_rate_as_decimal.divisible_by_year()
    }

    /// Whether the parameters are valid.
    pub fn is_valid(&self) -> (ok: bool)
        ensures
            ok == self.valid(),
    {
        self.principal > 0 && self.mortgage_term_length >= 1
            && self.annual_rate_as_decimal.denominator > 0
            && self.annual_rate_as_decimal.denominator <= u64::MAX / MONTHS_PER_YEAR
    }

    /// The schedule of the loan with the given overpayment.
    pub open spec fn schedule(&self, overpayment_amount: u128) -> MortgageSchedule {
        MortgageSchedule {
            principal: self.principal,
            running_principal: self.principal,
            monthly_interest_rate: Rate::monthly_spec(self.annual_rate_as_decimal),
            number_of_payments: self.mortgage_term_length,
            overpayment_amount,
        }
    }

    /// What the overpayment saves against the minimum payment alone.
    pub open spec fn comparison(&self) -> Comparison {
        let baseline = self.schedule(0);
        let overpaid = self.schedule(self.overpayment_amount);
        Comparison {
            minimum_payment: baseline.minimum_payment() as u128,
            baseline: baseline.run_totals(),
            overpaid: overpaid.run_totals(),
            periods_saved: (baseline.periods_to_run() - overpaid.periods_to_run()) as u32,
            interest_saved: (baseline.interest_to_pay() - overpaid.interest_to_pay()) as u128,
            amount_saved: (baseline.amount_to_pay() - overpaid.amount_to_pay()) as i128,
        }
    }

    /// Runs the loan twice, without and with the overpayment, and reports what
    /// the overpayment saves.  Fails exactly when the payment per period,
    /// overpayment included, exceeds `PAYMENT_LIMIT`.  The overpayment never
    /// costs periods or interest: both savings are exact differences.
    pub fn compare(&self) -> (res: Result<Comparison, ScheduleError>)
        requires
            self.valid(),
        ensures
            match res {
                Ok(saved) => {
                    &&& self.schedule(self.overpayment_amount).payment_in_range()
                    &&& saved == self.comparison()
                    &&& saved.minimum_payment == self.schedule(0).minimum_payment()
                    &&& saved.periods_saved == saved.baseline.periods - saved.overpaid.periods
                    &&& saved.interest_saved == saved.baseline.total_interest_paid
                        - saved.overpaid.total_interest_paid
                    &&& saved.amount_saved == saved.baseline.total_amount_paid
                        - saved.overpaid.total_amount_paid
                },
                Err(error) => {
                    &&& !self.schedule(self.overpayment_amount).payment_in_range()
                    &&& error == ScheduleError::PaymentOutOfRange
                },
            },
    {
        let mut with_overpayment = build_mortgage(
            self.principal,
            self.annual_rate_as_decimal,
            self.mortgage_term_length,
            self.overpayment_amount,
        );
        let mut without = build_mortgage(
            self.principal,
            self.annual_rate_as_decimal,
            self.mortgage_term_length,
            0,
        );
        proof {
            without.lemma_overpayment_never_costs(with_overpayment);
        }
        let overpaid = match with_overpayment.run_schedule() {
            Ok(totals) => totals,
            Err(error) => {
                return Err(error);
            },
        };
        let minimum_payment: u128 = match without.payment_amount_equation() {
            Some(payment) => payment,
            None => {
                return Err(ScheduleError::PaymentOutOfRange);
            },
        };
        let baseline = match without.run_schedule() {
            Ok(totals) => totals,
            Err(error) => {
                return Err(error);
            },
        };
        proof {
            lemma_total_paid_bound(baseline.periods as int, minimum_payment as int);
            lemma_total_paid_bound(
                overpaid.periods as int,
                minimum_payment + self.overpayment_amount,
            );
        }
        Ok(
            Comparison {
                minimum_payment,
                baseline,
                overpaid,
                periods_saved: baseline.periods - overpaid.periods,
                interest_saved: baseline.total_interest_paid - overpaid.total_interest_paid,
                amount_saved: baseline.total_amount_paid as i128 - overpaid.total_amount_paid
                    as i128,
            },
        )
    }
}

/// All payments of a run together stay well within 127 bits.
proof fn lemma_total_paid_bound(periods: int, payment: int)
    by (nonlinear_arith)
    requires
        0 <= periods <= u32::MAX,
        0 <= payment <= PAYMENT_LIMIT,
    ensures
        0 <= periods * payment <= 0xffff_ffff * 0x7fff_ffff_ffff_ffff_ffff_ffff,
{
}

/// The schedule of a loan of `principal` at `annual_interest_rate` over
/// `term_periods` monthly periods, with `overpayment_amount` paid on top of
/// each minimum payment.  Nothing has been repaid yet, and the rate per period
/// is exactly a twelfth of the annual rate.
pub fn build_mortgage(
    principal: u128,
    annual_interest_rate: Rate,
    term_periods: u32,
    overpayment_amount: u128,
) -> (schedule: MortgageSchedule)
    requires
        annual_interest_rate.divisible_by_year(),
    ensures
        schedule.principal == principal,
        schedule.running_principal == principal,
        schedule.monthly_interest_rate == Rate::monthly_spec(annual_interest_rate),
        schedule.monthly_interest_rate.numerator == annual_interest_rate.numerator,
        schedule.monthly_interest_rate.denominator == annual_interest_rate.denominator
            * MONTHS_PER_YEAR,
        schedule.number_of_payments == term_periods,
        schedule.overpayment_amount == overpayment_amount,
        schedule.wf() <==> principal > 0 && term_periods >= 1,
{
    MortgageSchedule {
        principal,
        overpayment_amount,
        running_principal: principal,
        monthly_interest_rate: Rate::monthly(annual_interest_rate).unwrap(),
        number_of_payments: term_periods,
    }
}

/// What `round` gives: the amount in units of `10^-decimals`, a half rounded
/// away from zero.
pub open spec fn rounded(x: int, decimals: nat) -> int {
    round_away(x, pow10((AMOUNT_FRACTION_DIGITS - decimals) as nat) as int)
}

/// Rounding commutes with the sign: what is owed rounds as what is saved.
pub proof fn lemma_round_symmetric(x: int, decimals: nat)
    requires
        decimals <= AMOUNT_FRACTION_DIGITS,
    ensures
        rounded(-x, decimals) == -rounded(x, decimals),
{
    let unit = pow10((AMOUNT_FRACTION_DIGITS - decimals) as nat);
    lemma_pow10_monotone(0, (AMOUNT_FRACTION_DIGITS - decimals) as nat);
    lemma_round_away_symmetric(x, unit as int);
}

/// An amount, or a difference of amounts, rounded to `decimals` digits behind
/// the point, a half rounded away from zero, as a whole number of units of
/// `10^-decimals`: to two decimals, an amount in hundredths.
pub fn round(x: i128, decimals: u32) -> (res: i128)
    requires
        decimals <= AMOUNT_FRACTION_DIGITS,
    ensures
        res == rounded(x as int, decimals as nat),
{
    let unit: u128 = power_of_ten(AMOUNT_FRACTION_DIGITS - decimals);
    divide_rounding_away(x, unit)
}

/// A number of monthly periods as whole years and the months left over.
pub fn years_and_months(periods: u32) -> (res: (u32, u32))
    ensures
        res.0 == periods / 12,
        res.1 == periods % 12,
        res.0 * MONTHS_PER_YEAR + res.1 == periods,
        res.1 < MONTHS_PER_YEAR,
{
    let per_year: u32 = MONTHS_PER_YEAR as u32;
    (periods / per_year, periods % per_year)
}

} // verus!
