//! The period-by-period repayment of a loan.

use vstd::prelude::*;
use crate::arith::mul_div;
use crate::payment::{
    annuity_payment, compound_growth, growth, interest_due, lemma_growth_bounds,
    lemma_interest_monotone, lemma_payment_covers_interest, level_payment, GROWTH_CAP,
    GROWTH_ONE,
};
use crate::rate::Rate;

verus! {

/// The part of a period's payment that reduces the balance: what the payment
/// leaves after the period's interest, and never more than the balance itself.
pub open spec fn principal_paid(balance: int, payment: int, rate: Rate) -> int {
    let nominal = payment - interest_due(balance, rate);
    if nominal > balance {
        balance
    } else {
        nominal
    }
}

/// The balance that one period leaves.
pub open spec fn balance_after(balance: int, payment: int, rate: Rate) -> int {
    balance - principal_paid(balance, payment, rate)
}

/// The number of periods processed when at most `term` periods are run from
/// `balance`: the run stops with the first period that leaves no balance.
pub open spec fn periods_elapsed(balance: int, payment: int, rate: Rate, term: nat) -> nat
    decreases term,
{
    if term == 0 {
        0
    } else if balance_after(balance, payment, rate) <= 0 {
        1
    } else {
        1 + periods_elapsed(balance_after(balance, payment, rate), payment, rate, (term - 1) as nat)
    }
}

/// The sum of the interest charged in the periods processed.
pub open spec fn interest_paid(balance: int, payment: int, rate: Rate, term: nat) -> int
    decreases term,
{
    if term == 0 {
        0
    } else if balance_after(balance, payment, rate) <= 0 {
        interest_due(balance, rate)
    } else {
        interest_due(balance, rate) + interest_paid(
            balance_after(balance, payment, rate),
            payment,
            rate,
            (term - 1) as nat,
        )
    }
}

/// The balance that is left after the last period processed.
pub open spec fn final_balance(balance: int, payment: int, rate: Rate, term: nat) -> int
    decreases term,
{
    if term == 0 {
        balance
    } else if balance_after(balance, payment, rate) <= 0 {
        balance_after(balance, payment, rate)
    } else {
        final_balance(balance_after(balance, payment, rate), payment, rate, (term - 1) as nat)
    }
}

/// The sum of the payments made: every period processed is charged the full
/// payment, the last one too, whatever balance it had left to clear.
pub open spec fn amount_paid(balance: int, payment: int, rate: Rate, term: nat) -> int {
    periods_elapsed(balance, payment, rate, term) * payment
}

/// The largest payment per period that a run takes, 2^95 - 1: with it the
/// payments of the longest term still add up within 127 bits.
pub const PAYMENT_LIMIT: u128 = 0x7fff_ffff_ffff_ffff_ffff_ffffu128;

/// A loan under repayment.
#[derive(Clone, Copy, Debug, PartialEq, Eq, Structural)]
pub struct MortgageSchedule {
    /// The amount lent, from which the minimum payment is derived.
    pub principal: u128,
    /// The balance still owed.
    pub running_principal: u128,
    /// The interest rate per period.
    pub monthly_interest_rate: Rate,
    /// The term: the largest number of periods that a run processes.
    pub number_of_payments: u32,
    /// What is paid each period on top of the minimum payment.
    pub overpayment_amount: u128,
}

/// The totals of one run.
#[derive(Clone, Copy, Debug, PartialEq, Eq, Structural)]
pub struct ScheduleResult {
    /// The sum of all payments, overpayments included.
    pub total_amount_paid: u128,
    /// The sum of all interest charged.
    pub total_interest_paid: u128,
    /// The number of periods processed.
    pub periods: u32,
}

/// Why a run could not start.
#[derive(Clone, Copy, Debug, PartialEq, Eq, Structural)]
pub enum ScheduleError {
    /// The payment per period, overpayment included, exceeds `PAYMENT_LIMIT`.
    PaymentOutOfRange,
}

/// A dividend is below a multiple of the divisor exactly when its quotient is
/// below the multiplier.
pub proof fn lemma_product_below(x: int, k: int, d: int)
    by (nonlinear_arith)
    requires
        d > 0,
    ensures
        x < k * d <==> x / d < k,
{
}

impl MortgageSchedule {
    /// A schedule is well formed when it lends a positive amount over at least
    /// one period at a well-formed rate, and no more is owed than was lent.
    pub open spec fn wf(&self) -> bool {
        &&& self.principal > 0
        &&& self.number_of_payments >= 1
        &&& self.monthly_interest_rate.wf()
        &&& self.running_principal <= self.principal
    }

    /// The minimum payment per period: the level payment of the principal over
    /// the whole term.
    pub open spec fn minimum_payment(&self) -> int {
        annuity_payment(
            self.principal as int,
            self.monthly_interest_rate,
            self.number_of_payments as nat,
        )
    }

    /// What is paid each period: the minimum payment and the overpayment.
    pub open spec fn period_payment(&self) -> int {
        self.minimum_payment() + self.overpayment_amount
    }

    /// Whether the payment per period is within `PAYMENT_LIMIT`.
    pub open spec fn payment_in_range(&self) -> bool {
        self.period_payment() <= PAYMENT_LIMIT
    }

    /// The number of periods that a run processes.
    pub open spec fn periods_to_run(&self) -> nat {
        periods_elapsed(
            self.running_principal as int,
            self.period_payment(),
            self.monthly_interest_rate,
            self.number_of_payments as nat,
        )
    }

    /// The interest that a run charges in all.
    pub open spec fn interest_to_pay(&self) -> int {
        interest_paid(
            self.running_principal as int,
            self.period_payment(),
            self.monthly_interest_rate,
            self.number_of_payments as nat,
        )
    }

    /// The payments that a run makes in all.
    pub open spec fn amount_to_pay(&self) -> int {
        amount_paid(
            self.running_principal as int,
            self.period_payment(),
            self.monthly_interest_rate,
            self.number_of_payments as nat,
        )
    }

    /// The balance that a run leaves.
    pub open spec fn balance_to_remain(&self) -> int {
        final_balance(
            self.running_principal as int,
            self.period_payment(),
            self.monthly_interest_rate,
            self.number_of_payments as nat,
        )
    }

    /// Whether the schedule is well formed.
    pub fn is_well_formed(&self) -> (ok: bool)
        ensures
            ok == self.wf(),
    {
        self.principal > 0 && self.number_of_payments >= 1
            && self.monthly_interest_rate.is_well_formed() && self.running_principal
            <= self.principal
    }

    /// The minimum payment per period, or `None` where it does not fit in 128 bits.
    pub fn payment_amount_equation(&self) -> (res: Option<u128>)
        requires
            self.wf(),
        ensures
            match res {
                Some(payment) => payment == self.minimum_payment(),
                None => self.minimum_payment() > u128::MAX,
            },
    {
        level_payment(self.principal, self.monthly_interest_rate, self.number_of_payments)
    }

    /// Whether a run without overpayment is sure to take the whole term.  It
    /// is where what the first payment repays, grown at the rate over the
    /// rest of the term, stays below a payment:
    /// `(1 + rate)^(term - 1) * (payment + 1 - interest) < payment + 1`,
    /// for the minimum payment and the interest of the first period, with the
    /// growth factor as it is tracked and its error allowed for.  At a rate
    /// of zero it is where one payment less, each a unit larger, would not
    /// make up the principal.  A loan of a few units, which the rounding of
    /// the payment repays early, does not pass.
    pub open spec fn whole_term_assured(&self) -> bool {
        let payment = self.minimum_payment() + 1;
        let shorter = (self.number_of_payments - 1) as nat;
        let rate = self.monthly_interest_rate;
        &&& self.minimum_payment() <= PAYMENT_LIMIT
        &&& if rate.numerator == 0 {
            shorter * payment < self.principal
        } else {
            &&& growth(rate, shorter) < GROWTH_CAP
            &&& growth(rate, shorter) * (payment - interest_due(self.principal as int, rate))
                < payment * (GROWTH_ONE - shorter)
        }
    }

    /// Tests whether a run without overpayment is sure to take the whole term.
    pub fn is_whole_term_assured(&self) -> (ok: bool)
        requires
            self.wf(),
        ensures
            ok == self.whole_term_assured(),
    {
        let minimum: u128 = match self.payment_amount_equation() {
            Some(payment) => payment,
            None => {
                return false;
            },
        };
        if minimum > PAYMENT_LIMIT {
            return false;
        }
        let payment: u128 = minimum + 1;
        let shorter: u32 = self.number_of_payments - 1;
        let rate = self.monthly_interest_rate;
        if rate.numerator == 0 {
            assert(shorter * payment <= 0xffff_ffff * 0x8000_0000_0000_0000_0000_0000)
                by (nonlinear_arith)
                requires
                    0 <= shorter <= 0xffff_ffff,
                    0 <= payment <= 0x8000_0000_0000_0000_0000_0000,
            ;
            (shorter as u128) * payment < self.principal
        } else {
            let factor: u128 = compound_growth(rate, shorter);
            if factor >= GROWTH_CAP {
                proof {
                    lemma_growth_bounds(rate, shorter as nat);
                }
                return false;
            }
            proof {
                lemma_payment_covers_interest(
                    self.principal as int,
                    rate,
                    self.number_of_payments as nat,
                );
            }
            let interest: u128 = match mul_div(
                self.principal,
                rate.numerator as u128,
                rate.denominator as u128,
            ) {
                Some((whole, _)) => whole,
                None => 0,
            };
            assert(interest == interest_due(self.principal as int, rate));
            let repaid: u128 = payment - interest;
            let slack: u128 = GROWTH_ONE - shorter as u128;
            proof {
                lemma_product_below(factor * repaid, payment as int, slack as int);
            }
            match mul_div(factor, repaid, slack) {
                Some((quotient, _)) => quotient < payment,
                None => false,
            }
        }
    }

    /// The totals of a run.
    pub open spec fn run_totals(&self) -> ScheduleResult {
        ScheduleResult {
            total_amount_paid: self.amount_to_pay() as u128,
            total_interest_paid: self.interest_to_pay() as u128,
            periods: self.periods_to_run() as u32,
        }
    }

    /// What a run returns: the totals, or the error where the payment per
    /// period is out of range.
    pub open spec fn run_outcome(&self) -> Result<ScheduleResult, ScheduleError> {
        if self.payment_in_range() {
            Ok(self.run_totals())
        } else {
            Err(ScheduleError::PaymentOutOfRange)
        }
    }

    /// The schedule as a run leaves it: only the balance owed changes.
    pub open spec fn after_run(&self) -> MortgageSchedule {
        if self.payment_in_range() {
            MortgageSchedule {
                principal: self.principal,
                running_principal: self.balance_to_remain() as u128,
                monthly_interest_rate: self.monthly_interest_rate,
                number_of_payments: self.number_of_payments,
                overpayment_amount: self.overpayment_amount,
            }
        } else {
            *self
        }
    }

    /// Runs the schedule from the balance owed: each period charges interest on
    /// the balance, pays the minimum payment and the overpayment, and reduces
    /// the balance by what the payment leaves after interest, until nothing is
    /// owed or the term is over.  Fails, and changes nothing, exactly when the
    /// payment per period exceeds `PAYMENT_LIMIT`.
    ///
    /// What is returned and what is left depend on the schedule alone.  The
    /// totals are exact: none of them is truncated.  A run takes at least one
    /// period and at most the term, and leaves nothing owed.
    ///
    /// Without overpayment, from the whole principal, a run takes the whole
    /// term where `is_whole_term_assured` says so.  A loan of a few units may
    /// end early: the payment is rounded up to a whole unit, and one unit
    /// lent at 1% over five periods is repaid by the first payment of one.
    pub fn run_schedule(&mut self) -> (res: Result<ScheduleResult, ScheduleError>)
        requires
            old(self).wf(),
        ensures
            res == old(self).run_outcome(),
            *final(self) == old(self).after_run(),
            final(self).wf(),
            res matches Ok(totals) ==> {
                &&& totals.periods == old(self).periods_to_run()
                &&& totals.total_interest_paid == old(self).interest_to_pay()
                &&& totals.total_amount_paid == old(self).amount_to_pay()
                &&& final(self).running_principal == old(self).balance_to_remain()
                &&& 1 <= totals.periods <= old(self).number_of_payments
                &&& final(self).running_principal == 0
                &&& old(self).overpayment_amount == 0 && old(self).running_principal == old(
                    self,
                ).principal && old(self).whole_term_assured() ==> totals.periods == old(
                    self,
                ).number_of_payments
            },
    {
        let minimum: u128 = match self.payment_amount_equation() {
            Some(payment) => payment,
            None => {
                return Err(ScheduleError::PaymentOutOfRange);
            },
        };
        let payment: u128 = match minimum.checked_add(self.overpayment_amount) {
            Some(sum) => sum,
            None => {
                return Err(ScheduleError::PaymentOutOfRange);
            },
        };
        if payment > PAYMENT_LIMIT {
            return Err(ScheduleError::PaymentOutOfRange);
        }
        let rate = self.monthly_interest_rate;
        let term: u32 = self.number_of_payments;
        let ghost start: int = self.running_principal as int;
        let ghost lent: int = self.principal as int;
        let mut balance: u128 = self.running_principal;
        let mut total_interest_paid: u128 = 0;
        let mut total_amount_paid: u128 = 0;
        let mut payment_count: u32 = 0;
        proof {
            lemma_payment_covers_interest(lent, rate, term as nat);
            assert(0 * (payment as int) == 0);
        }
        while payment_count < term
            invariant_except_break
                periods_elapsed(start, payment as int, rate, term as nat) == payment_count
                    + periods_elapsed(
                    balance as int,
                    payment as int,
                    rate,
                    (term - payment_count) as nat,
                ),
                interest_paid(start, payment as int, rate, term as nat) == total_interest_paid
                    + interest_paid(
                    balance as int,
                    payment as int,
                    rate,
                    (term - payment_count) as nat,
                ),
                final_balance(start, payment as int, rate, term as nat) == final_balance(
                    balance as int,
                    payment as int,
                    rate,
                    (term - payment_count) as nat,
                ),
            invariant
                rate.wf(),
                payment_count <= term,
                balance <= lent <= u128::MAX,
                interest_due(lent, rate) <= payment <= PAYMENT_LIMIT,
                total_amount_paid == payment_count * payment,
                total_interest_paid <= payment_count * payment,
            ensures
                payment_count <= term,
                total_amount_paid == payment_count * payment,
                periods_elapsed(start, payment as int, rate, term as nat) == payment_count,
                interest_paid(start, payment as int, rate, term as nat) == total_interest_paid,
                final_balance(start, payment as int, rate, term as nat) == balance,
            decreases term - payment_count,
        {
            proof {
                lemma_interest_monotone(balance as int, lent, rate);
                assert((payment_count + 1) * payment == payment_count * payment + payment)
                    by (nonlinear_arith);
                assert((payment_count + 1) * payment <= 0x1_0000_0000
                    * 0x7fff_ffff_ffff_ffff_ffff_ffff) by (nonlinear_arith)
                    requires
                        payment_count + 1 <= 0x1_0000_0000,
                        0 <= payment <= 0x7fff_ffff_ffff_ffff_ffff_ffff,
                ;
            }
            let interest: u128 = match mul_div(
                balance,
                rate.numerator as u128,
                rate.denominator as u128,
            ) {
                Some((whole, _)) => whole,
                None => 0,
            };
            assert(interest == interest_due(balance as int, rate));
            total_interest_paid = total_interest_paid + interest;
            let nominal: u128 = payment - interest;
            if nominal > balance {
                balance = 0;
            } else {
                balance = balance - nominal;
            }
            total_amount_paid = total_amount_paid + payment;
            payment_count = payment_count + 1;
            if balance == 0 {
                break ;
            }
        }
        proof {
            self.lemma_run_clears_balance();
            self.lemma_run_within_term();
            if self.overpayment_amount == 0 && self.running_principal == self.principal
                && self.whole_term_assured() {
                self.lemma_assured_run_takes_whole_term();
            }
        }
        self.running_principal = balance;
        Ok(ScheduleResult { total_amount_paid, total_interest_paid, periods: payment_count })
    }
}

} // verus!
