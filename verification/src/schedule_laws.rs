//! What holds of every run of a schedule.

use vstd::prelude::*;
use vstd::arithmetic::power::{lemma_pow0, lemma_pow_positive, pow};
use crate::mortgage_schedule::{
    balance_after, final_balance, interest_paid, periods_elapsed, MortgageSchedule,
};
use crate::payment::{
    growth, interest_due, lemma_annuity_payment_repays, lemma_growth_near_exact,
    lemma_interest_monotone, lemma_payment_covers_interest, lemma_pow_base_monotone,
    lemma_pow_step, repays, GROWTH_ONE,
};
use crate::rate::Rate;

verus! {

/// One period never leaves a negative balance; from a smaller balance, or with
/// a larger payment, it leaves no more than it would have otherwise.
pub proof fn lemma_period_monotone(
    smaller: int,
    larger: int,
    more: int,
    less: int,
    rate: Rate,
)
    requires
        rate.wf(),
        0 <= smaller <= larger,
        less <= more,
    ensures
        0 <= balance_after(smaller, more, rate) <= balance_after(larger, less, rate),
{
    lemma_interest_monotone(smaller, larger, rate);
}

/// A payment that covers the interest on a balance does not let it grow.
pub proof fn lemma_period_never_grows(balance: int, lent: int, payment: int, rate: Rate)
    requires
        rate.wf(),
        0 <= balance <= lent,
        interest_due(lent, rate) <= payment,
    ensures
        balance_after(balance, payment, rate) <= balance,
{
    lemma_interest_monotone(balance, lent, rate);
}

/// A run never processes more periods than its term, and with a term of at
/// least one period it processes at least one.
pub proof fn lemma_periods_within_term(balance: int, payment: int, rate: Rate, term: nat)
    ensures
        periods_elapsed(balance, payment, rate, term) <= term,
        term >= 1 ==> periods_elapsed(balance, payment, rate, term) >= 1,
    decreases term,
{
    if term > 0 && balance_after(balance, payment, rate) > 0 {
        lemma_periods_within_term(
            balance_after(balance, payment, rate),
            payment,
            rate,
            (term - 1) as nat,
        );
    }
}

/// A run that starts from a balance that is not negative never leaves a
/// negative one, whatever the payment, and charges no negative interest.
pub proof fn lemma_balance_never_negative(balance: int, payment: int, rate: Rate, term: nat)
    requires
        rate.wf(),
        balance >= 0,
    ensures
        final_balance(balance, payment, rate, term) >= 0,
        interest_paid(balance, payment, rate, term) >= 0,
    decreases term,
{
    lemma_period_monotone(balance, balance, payment, payment, rate);
    lemma_interest_monotone(balance, balance, rate);
    if term > 0 && balance_after(balance, payment, rate) > 0 {
        lemma_balance_never_negative(
            balance_after(balance, payment, rate),
            payment,
            rate,
            (term - 1) as nat,
        );
    }
}

/// With a payment that covers the interest on the amount lent, a run never
/// leaves more than it started from.
pub proof fn lemma_balance_never_grows(
    balance: int,
    lent: int,
    payment: int,
    rate: Rate,
    term: nat,
)
    requires
        rate.wf(),
        0 <= balance <= lent,
        interest_due(lent, rate) <= payment,
    ensures
        final_balance(balance, payment, rate, term) <= balance,
    decreases term,
{
    lemma_period_never_grows(balance, lent, payment, rate);
    lemma_period_monotone(balance, balance, payment, payment, rate);
    if term > 0 && balance_after(balance, payment, rate) > 0 {
        lemma_balance_never_grows(
            balance_after(balance, payment, rate),
            lent,
            payment,
            rate,
            (term - 1) as nat,
        );
    }
}

/// Paying more per period, or owing less, never makes a run longer, never
/// makes it charge more interest, and never makes it leave a larger balance.
pub proof fn lemma_run_monotone(
    smaller: int,
    larger: int,
    more: int,
    less: int,
    rate: Rate,
    term: nat,
)
    requires
        rate.wf(),
        0 <= smaller <= larger,
        less <= more,
    ensures
        periods_elapsed(smaller, more, rate, term) <= periods_elapsed(larger, less, rate, term),
        interest_paid(smaller, more, rate, term) <= interest_paid(larger, less, rate, term),
        final_balance(smaller, more, rate, term) <= final_balance(larger, less, rate, term),
    decreases term,
{
    lemma_period_monotone(smaller, larger, more, less, rate);
    lemma_interest_monotone(smaller, larger, rate);
    if term > 0 {
        let rest = (term - 1) as nat;
        let low = balance_after(smaller, more, rate);
        let high = balance_after(larger, less, rate);
        if high > 0 {
            if low > 0 {
                lemma_run_monotone(low, high, more, less, rate, rest);
            } else {
                lemma_balance_never_negative(high, less, rate, rest);
            }
        }
    }
}

/// A payment whose remaining instalments are worth the balance clears it: the
/// run leaves nothing.
pub proof fn lemma_repaying_payment_clears(balance: int, payment: int, rate: Rate, term: nat)
    requires
        rate.wf(),
        balance >= 0,
        repays(balance, payment, rate, term),
    ensures
        final_balance(balance, payment, rate, term) == 0,
    decreases term,
{
    let den = rate.denominator as int;
    let num = rate.numerator as int;
    let sum = den + num;
    lemma_balance_never_negative(balance, payment, rate, term);
    if term == 0 {
        if num == 0 {
            assert(0 * payment == 0);
        } else {
            lemma_pow0(den);
            lemma_pow0(sum);
            let compounded = pow(sum, 0);
            let level = pow(den, 0);
            assert(balance <= 0) by (nonlinear_arith)
                requires
                    balance * num * compounded <= payment * den * (compounded - level),
                    compounded == 1,
                    level == 1,
                    num > 0,
            ;
        }
    } else {
        let rest = (term - 1) as nat;
        let next = balance_after(balance, payment, rate);
        let interest = interest_due(balance, rate);
        lemma_period_monotone(balance, balance, payment, payment, rate);
        if next > 0 {
            assert(next == balance + interest - payment);
            assert(interest * den <= balance * num) by (nonlinear_arith)
                requires
                    den > 0,
                    interest == balance * num / den,
            ;
            if num == 0 {
                assert(interest == 0) by (nonlinear_arith)
                    requires
                        interest * den <= balance * num,
                        num == 0,
                        den > 0,
                        interest >= 0,
                ;
                assert(term * payment == rest * payment + payment) by (nonlinear_arith)
                    requires
                        term == rest + 1,
                ;
            } else {
                lemma_pow_step(den, rest);
                lemma_pow_step(sum, rest);
                lemma_pow_positive(den, rest);
                lemma_pow_positive(sum, rest);
                let compounded = pow(sum, rest);
                let level = pow(den, rest);
                assert(den * next <= balance * sum - payment * den) by (nonlinear_arith)
                    requires
                        next == balance + interest - payment,
                        interest * den <= balance * num,
                        sum == den + num,
                ;
                assert(den * next * (num * compounded) <= (balance * sum - payment * den) * (num
                    * compounded)) by (nonlinear_arith)
                    requires
                        den * next <= balance * sum - payment * den,
                        num > 0,
                        compounded > 0,
                ;
                assert((balance * sum - payment * den) * (num * compounded) == balance * num * (sum
                    * compounded) - payment * den * (num * compounded)) by (nonlinear_arith);
                assert(payment * den * (sum * compounded - den * level) - payment * den * (num
                    * compounded) == den * (payment * den * (compounded - level)))
                    by (nonlinear_arith)
                    requires
                        sum == den + num,
                ;
                assert(den * next * (num * compounded) == den * (next * num * compounded))
                    by (nonlinear_arith);
                assert(next * num * compounded <= payment * den * (compounded - level))
                    by (nonlinear_arith)
                    requires
                        den * (next * num * compounded) <= den * (payment * den * (compounded
                            - level)),
                        den > 0,
                ;
            }
            lemma_repaying_payment_clears(next, payment, rate, rest);
        }
    }
}

/// A payment that would not clear the balance even if it were one unit
/// larger, the unit that rounding the interest down can save each period,
/// does not clear it: the run leaves a balance.
pub proof fn lemma_short_payment_leaves_balance(
    balance: int,
    payment: int,
    rate: Rate,
    term: nat,
)
    requires
        rate.wf(),
        balance >= 0,
        payment >= 0,
        !repays(balance, payment + 1, rate, term),
    ensures
        final_balance(balance, payment, rate, term) > 0,
    decreases term,
{
    let den = rate.denominator as int;
    let num = rate.numerator as int;
    let sum = den + num;
    let more = payment + 1;
    if term == 0 {
        if num == 0 {
            assert(0 * more == 0);
        } else {
            lemma_pow0(den);
            lemma_pow0(sum);
            let compounded = pow(sum, 0);
            let level = pow(den, 0);
            assert(balance > 0) by (nonlinear_arith)
                requires
                    balance * num * compounded > more * den * (compounded - level),
                    compounded == 1,
                    level == 1,
                    num > 0,
                    balance >= 0,
            ;
        }
    } else {
        let rest = (term - 1) as nat;
        let next = balance_after(balance, payment, rate);
        let interest = interest_due(balance, rate);
        assert(next >= balance + interest - payment);
        assert(interest * den > balance * num - den) by (nonlinear_arith)
            requires
                den > 0,
                interest == balance * num / den,
        ;
        if num == 0 {
            assert(interest >= 0) by (nonlinear_arith)
                requires
                    interest * den > balance * num - den,
                    num == 0,
                    den > 0,
            ;
            assert(term * more == rest * more + more) by (nonlinear_arith)
                requires
                    term == rest + 1,
            ;
            assert(rest * more >= 0) by (nonlinear_arith)
                requires
                    rest >= 0,
                    more >= 0,
            ;
        } else {
            lemma_pow_step(den, rest);
            lemma_pow_step(sum, rest);
            lemma_pow_positive(den, rest);
            lemma_pow_positive(sum, rest);
            lemma_pow_base_monotone(den, sum, rest);
            let compounded = pow(sum, rest);
            let level = pow(den, rest);
            assert(den * next > balance * sum - more * den) by (nonlinear_arith)
                requires
                    next >= balance + interest - payment,
                    interest * den > balance * num - den,
                    sum == den + num,
                    more == payment + 1,
                    den > 0,
            ;
            assert(den * next * (num * compounded) > (balance * sum - more * den) * (num
                * compounded)) by (nonlinear_arith)
                requires
                    den * next > balance * sum - more * den,
                    num > 0,
                    compounded > 0,
            ;
            assert((balance * sum - more * den) * (num * compounded) == balance * num * (sum
                * compounded) - more * den * (num * compounded)) by (nonlinear_arith);
            assert(more * den * (sum * compounded - den * level) - more * den * (num * compounded)
                == den * (more * den * (compounded - level))) by (nonlinear_arith)
                requires
                    sum == den + num,
            ;
            assert(den * next * (num * compounded) == den * (next * num * compounded))
                by (nonlinear_arith);
            assert(next * num * compounded > more * den * (compounded - level))
                by (nonlinear_arith)
                requires
                    den * (next * num * compounded) > den * (more * den * (compounded - level)),
                    den > 0,
            ;
            assert(more * den * (compounded - level) >= 0) by (nonlinear_arith)
                requires
                    more >= 0,
                    den > 0,
                    compounded >= level,
            ;
            assert(next > 0) by (nonlinear_arith)
                requires
                    next * num * compounded > 0,
                    num > 0,
                    compounded > 0,
            ;
        }
        lemma_short_payment_leaves_balance(next, payment, rate, rest);
    }
}

/// A run that would leave a balance after `term` periods does not stop
/// before: given one period more, it takes them all.
pub proof fn lemma_unfinished_run_goes_on(balance: int, payment: int, rate: Rate, term: nat)
    requires
        final_balance(balance, payment, rate, term) > 0,
    ensures
        periods_elapsed(balance, payment, rate, term) == term,
        periods_elapsed(balance, payment, rate, term + 1) == term + 1,
    decreases term,
{
    let next = balance_after(balance, payment, rate);
    if term > 0 {
        lemma_unfinished_run_goes_on(next, payment, rate, (term - 1) as nat);
    } else {
        assert(periods_elapsed(next, payment, rate, 0) == 0);
    }
}

impl MortgageSchedule {
    /// A run processes at least one period and never more than the term.
    pub proof fn lemma_run_within_term(self)
        requires
            self.wf(),
        ensures
            1 <= self.periods_to_run() <= self.number_of_payments,
    {
        lemma_periods_within_term(
            self.running_principal as int,
            self.period_payment(),
            self.monthly_interest_rate,
            self.number_of_payments as nat,
        );
    }

    /// The balance that a run leaves is never negative and never more than the
    /// balance that it started from.
    pub proof fn lemma_balance_in_range(self)
        requires
            self.wf(),
        ensures
            0 <= self.balance_to_remain() <= self.running_principal,
    {
        let rate = self.monthly_interest_rate;
        let term = self.number_of_payments as nat;
        lemma_payment_covers_interest(self.principal as int, rate, term);
        lemma_balance_never_negative(
            self.running_principal as int,
            self.period_payment(),
            rate,
            term,
        );
        lemma_balance_never_grows(
            self.running_principal as int,
            self.principal as int,
            self.period_payment(),
            rate,
            term,
        );
    }

    /// Of two schedules that differ in the overpayment alone, the one that
    /// overpays more runs no longer and is charged no more interest.
    pub proof fn lemma_overpayment_never_costs(self, other: MortgageSchedule)
        requires
            self.wf(),
            other.principal == self.principal,
            other.running_principal == self.running_principal,
            other.monthly_interest_rate == self.monthly_interest_rate,
            other.number_of_payments == self.number_of_payments,
            self.overpayment_amount <= other.overpayment_amount,
        ensures
            other.periods_to_run() <= self.periods_to_run(),
            other.interest_to_pay() <= self.interest_to_pay(),
    {
        lemma_run_monotone(
            self.running_principal as int,
            self.running_principal as int,
            other.period_payment(),
            self.period_payment(),
            self.monthly_interest_rate,
            self.number_of_payments as nat,
        );
    }

    /// The minimum payment is exact for the term: a run over the whole term
    /// clears the balance, with or without an overpayment.
    pub proof fn lemma_run_clears_balance(self)
        requires
            self.wf(),
        ensures
            self.balance_to_remain() == 0,
    {
        let rate = self.monthly_interest_rate;
        let term = self.number_of_payments as nat;
        let lent = self.principal as int;
        lemma_annuity_payment_repays(lent, rate, term);
        lemma_repaying_payment_clears(lent, self.minimum_payment(), rate, term);
        lemma_run_monotone(
            self.running_principal as int,
            lent,
            self.period_payment(),
            self.minimum_payment(),
            rate,
            term,
        );
        lemma_balance_never_negative(
            self.running_principal as int,
            self.period_payment(),
            rate,
            term,
        );
    }

    /// Without overpayment a run takes the whole term, and no period less,
    /// as long as the minimum payment is not so small that one unit more of
    /// it each period would clear the loan a period early.
    pub proof fn lemma_minimum_payment_takes_whole_term(self)
        requires
            self.wf(),
            self.overpayment_amount == 0,
            self.running_principal == self.principal,
            !repays(
                self.principal as int,
                self.minimum_payment() + 1,
                self.monthly_interest_rate,
                (self.number_of_payments - 1) as nat,
            ),
        ensures
            self.periods_to_run() == self.number_of_payments,
            self.balance_to_remain() == 0,
    {
        let rate = self.monthly_interest_rate;
        let shorter = (self.number_of_payments - 1) as nat;
        let lent = self.principal as int;
        lemma_payment_covers_interest(lent, rate, self.number_of_payments as nat);
        lemma_short_payment_leaves_balance(lent, self.minimum_payment(), rate, shorter);
        lemma_unfinished_run_goes_on(lent, self.minimum_payment(), rate, shorter);
        self.lemma_run_clears_balance();
    }

    /// Without overpayment a run takes the whole term wherever the test of
    /// `is_whole_term_assured` holds.
    pub proof fn lemma_assured_run_takes_whole_term(self)
        requires
            self.wf(),
            self.overpayment_amount == 0,
            self.running_principal == self.principal,
            self.whole_term_assured(),
        ensures
            self.periods_to_run() == self.number_of_payments,
            self.balance_to_remain() == 0,
    {
        let rate = self.monthly_interest_rate;
        let shorter = (self.number_of_payments - 1) as nat;
        let lent = self.principal as int;
        let more = self.minimum_payment() + 1;
        if rate.numerator > 0 {
            let den = rate.denominator as int;
            let num = rate.numerator as int;
            let sum = den + num;
            let one = GROWTH_ONE as int;
            let factor = growth(rate, shorter);
            let compounded = pow(sum, shorter);
            let level = pow(den, shorter);
            let interest = interest_due(lent, rate);
            let repaid = more - interest;
            let slack = one - shorter;
            lemma_growth_near_exact(rate, shorter);
            lemma_payment_covers_interest(lent, rate, self.number_of_payments as nat);
            assert(interest * den <= lent * num) by (nonlinear_arith)
                requires
                    den > 0,
                    interest == lent * num / den,
            ;
            assert(repaid * (slack * compounded) <= repaid * (factor * level))
                by (nonlinear_arith)
                requires
                    factor * level >= slack * compounded,
                    repaid >= 1,
            ;
            assert(repaid * (factor * level) < (more * slack) * level) by (nonlinear_arith)
                requires
                    factor * repaid < more * slack,
                    level > 0,
            ;
            assert(slack * (repaid * compounded) < slack * (more * level)) by (nonlinear_arith)
                requires
                    repaid * (slack * compounded) < (more * slack) * level,
            ;
            assert(repaid * compounded < more * level) by (nonlinear_arith)
                requires
                    slack * (repaid * compounded) < slack * (more * level),
                    slack > 0,
            ;
            assert(more * den * (compounded - level) < (interest * den) * compounded)
                by (nonlinear_arith)
                requires
                    repaid * compounded < more * level,
                    repaid == more - interest,
                    den > 0,
            ;
            assert((interest * den) * compounded <= (lent * num) * compounded)
                by (nonlinear_arith)
                requires
                    interest * den <= lent * num,
                    compounded > 0,
            ;
        }
        self.lemma_minimum_payment_takes_whole_term();
    }
}

} // verus!
