//! Interest rates as exact fractions.

use vstd::prelude::*;

verus! {

/// A non-negative interest rate per period, held as the exact fraction
/// `numerator / denominator`: `0.04` is `4 / 100`.
#[derive(Clone, Copy, Debug, PartialEq, Eq, Structural)]
pub struct Rate {
    /// The number of parts.
    pub numerator: u64,
    /// The number of parts that make a whole; never zero in a well-formed rate.
    pub denominator: u64,
}

/// The number of monthly periods in a year.
pub const MONTHS_PER_YEAR: u64 = 12;

impl Rate {
    /// A rate is well formed when its denominator is not zero.
    pub open spec fn wf(&self) -> bool {
        self.denominator > 0
    }

    /// Whether the denominator is not zero.
    pub fn is_well_formed(&self) -> (ok: bool)
        ensures
            ok == self.wf(),
    {
        self.denominator > 0
    }

    /// The monthly rate that an annual rate stands for: exactly a twelfth of it.
    pub open spec fn monthly_spec(annual: Rate) -> Rate {
        Rate {
            numerator: annual.numerator,
            denominator: (annual.denominator * MONTHS_PER_YEAR) as u64,
        }
    }

    /// Whether a twelfth of this annual rate can be held: the denominator,
    /// multiplied by twelve, must fit in 64 bits.
    pub open spec fn divisible_by_year(&self) -> bool {
        self.wf() && self.denominator * MONTHS_PER_YEAR <= u64::MAX
    }

    /// A twelfth of the annual rate, or `None` where its denominator does not fit.
    pub fn monthly(annual: Rate) -> (res: Option<Rate>)
        ensures
            match res {
                Some(rate) => annual.denominator * MONTHS_PER_YEAR <= u64::MAX && rate
                    == Rate::monthly_spec(annual) && (annual.wf() ==> rate.wf()),
                None => annual.denominator * MONTHS_PER_YEAR > u64::MAX,
            },
    {
        match annual.denominator.checked_mul(MONTHS_PER_YEAR) {
            Some(denominator) => Some(Rate { numerator: annual.numerator, denominator }),
            None => None,
        }
    }
}

} // verus!
