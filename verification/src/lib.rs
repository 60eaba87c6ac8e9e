//! Fixed-rate mortgage amortization with an optional constant overpayment,
//! computed in exact integer arithmetic and verified with Verus.
//!
//! Amounts are whole numbers of a billionth of the currency unit, rates are
//! exact fractions, and every rounding is stated in the contracts.

pub mod arith;
pub mod decimal;
pub mod mortgage_schedule;
pub mod parameters;
pub mod payment;
pub mod rate;
pub mod schedule_laws;

pub use crate::mortgage_schedule::MortgageSchedule;
pub use crate::parameters::{build_mortgage, round, MortgageParameters};
