use mortgage_overpayment_calculator::mortgage_schedule::{
    MortgageSchedule, ScheduleError, ScheduleResult, PAYMENT_LIMIT,
};
use mortgage_overpayment_calculator::payment::{compound_growth, level_payment};
use mortgage_overpayment_calculator::rate::Rate;
use mortgage_overpayment_calculator::round;

const UNIT: u128 = 1_000_000_000;

fn in_units(hundredths: i128) -> f64 {
    hundredths as f64 / 100.0
}

fn run(mut schedule: MortgageSchedule) -> (ScheduleResult, MortgageSchedule) {
    let totals = schedule.run_schedule().expect("the payment fits");
    (totals, schedule)
}

#[test]
fn small_loan_with_annual_rate() {
    let Ok(totals) = (MortgageSchedule {
        principal: 10000 * UNIT,
        overpayment_amount: 0,
        running_principal: 10000 * UNIT,
        monthly_interest_rate: Rate { numerator: 2, denominator: 100 },
        number_of_payments: 5,
    })
    .run_schedule() else {
        panic!("the payment fits");
    };
    let total_cost = in_units(round(totals.total_amount_paid as i128, 2));
    let total_interest = in_units(round(totals.total_interest_paid as i128, 2));

    assert_eq!(total_cost, 10607.92);
    assert_eq!(total_interest, 607.92)
}

#[test]
fn calculates_mortgage_without_overpaying() {
    let Ok(totals) = (MortgageSchedule {
        principal: 100000 * UNIT,
        overpayment_amount: 0,
        running_principal: 100000 * UNIT,
        monthly_interest_rate: Rate { numerator: 2, denominator: 100 * 12 },
        number_of_payments: 35 * 12,
    })
    .run_schedule() else {
        panic!("the payment fits");
    };
    let total_cost = in_units(round(totals.total_amount_paid as i128, 2));
    let total_interest = in_units(round(totals.total_interest_paid as i128, 2));

    assert_eq!(total_cost, 139130.36);
    assert_eq!(total_interest, 39130.36)
}

#[test]
fn calculates_mortgage_with_overpaying() {
    let Ok(totals) = (MortgageSchedule {
        principal: 100000 * UNIT,
        overpayment_amount: 100 * UNIT,
        running_principal: 100000 * UNIT,
        monthly_interest_rate: Rate { numerator: 2, denominator: 100 * 12 },
        number_of_payments: 35 * 12,
    })
    .run_schedule() else {
        panic!("the payment fits");
    };
    let total_cost = in_units(round(totals.total_amount_paid as i128, 2));
    let total_interest = in_units(round(totals.total_interest_paid as i128, 2));

    assert_eq!(total_cost, 126791.25);
    assert_eq!(total_interest, 26511.89);
}

#[test]
fn calculates_mortgage_without_overpaying_2() {
    let Ok(totals) = (MortgageSchedule {
        principal: 300000 * UNIT,
        overpayment_amount: 0,
        running_principal: 300000 * UNIT,
        monthly_interest_rate: Rate { numerator: 4, denominator: 100 * 12 },
        number_of_payments: 30 * 12,
    })
    .run_schedule() else {
        panic!("the payment fits");
    };
    let total_cost = in_units(round(totals.total_amount_paid as i128, 2));
    let total_interest = in_units(round(totals.total_interest_paid as i128, 2));

    assert_eq!(total_cost, 515608.52);
    assert_eq!(total_interest, 215608.52);
}

#[test]
fn calculates_mortgage_with_overpaying_2() {
    let Ok(totals) = (MortgageSchedule {
        principal: 300000 * UNIT,
        overpayment_amount: 100 * UNIT,
        running_principal: 300000 * UNIT,
        monthly_interest_rate: Rate { numerator: 4, denominator: 100 * 12 },
        number_of_payments: 30 * 12,
    })
    .run_schedule() else {
        panic!("the payment fits");
    };
    let total_cost = in_units(round(totals.total_amount_paid as i128, 2));
    let total_interest = in_units(round(totals.total_interest_paid as i128, 2));

    assert_eq!(total_cost, 487254.19);
    assert_eq!(total_interest, 186861.93);
}

fn loan(principal: u128, numerator: u64, denominator: u64, term: u32, over: u128) -> MortgageSchedule {
    MortgageSchedule {
        principal,
        running_principal: principal,
        monthly_interest_rate: Rate { numerator, denominator },
        number_of_payments: term,
        overpayment_amount: over,
    }
}

#[test]
fn small_loan_totals_are_exact() {
    let (totals, after) = run(loan(10000 * UNIT, 2, 100, 5, 0));
    assert_eq!(
        totals,
        ScheduleResult {
            total_amount_paid: 10_607_919_705_220,
            total_interest_paid: 607_919_705_214,
            periods: 5,
        }
    );
    assert_eq!(after.running_principal, 0);
    assert_eq!(after.principal, 10000 * UNIT);
    assert_eq!(after.number_of_payments, 5);
}

#[test]
fn minimum_payment_follows_the_annuity_formula() {
    assert_eq!(loan(10000 * UNIT, 2, 100, 5, 0).payment_amount_equation(), Some(2_121_583_941_044));
    assert_eq!(loan(100000 * UNIT, 2, 1200, 420, 0).payment_amount_equation(), Some(331_262_769_701));
    assert_eq!(loan(300000 * UNIT, 4, 1200, 360, 0).payment_amount_equation(), Some(1_432_245_886_397));
    // The overpayment is no part of the minimum payment.
    assert_eq!(loan(300000 * UNIT, 4, 1200, 360, 7).payment_amount_equation(), Some(1_432_245_886_397));
    let float = 10000.0 * (0.02 * 1.02f64.powi(5)) / (1.02f64.powi(5) - 1.0);
    assert!((float - 2_121_583_941_044u128 as f64 / 1e9).abs() < 1e-8);
}

#[test]
fn total_paid_is_periods_times_payment() {
    let (totals, _) = run(loan(100000 * UNIT, 2, 1200, 420, 100 * UNIT));
    assert_eq!(totals.periods, 294);
    assert_eq!(totals.total_amount_paid, 294 * (331_262_769_701 + 100 * UNIT));
    assert_eq!(totals.total_amount_paid, 126_791_254_292_094);
    assert_eq!(totals.total_interest_paid, 26_511_887_305_076);
}

#[test]
fn run_is_deterministic() {
    let first = run(loan(300000 * UNIT, 4, 1200, 360, 100 * UNIT));
    let second = run(loan(300000 * UNIT, 4, 1200, 360, 100 * UNIT));
    assert_eq!(first, second);
}

#[test]
fn larger_overpayment_never_costs_more() {
    let mut last = run(loan(1000 * UNIT, 5, 1200, 12, 0)).0;
    assert_eq!(last.periods, 12);
    assert_eq!(last.total_interest_paid, 27_289_781_455);
    for over in [1, 50 * UNIT, 51 * UNIT, 500 * UNIT, 2000 * UNIT, PAYMENT_LIMIT / 2] {
        let next = run(loan(1000 * UNIT, 5, 1200, 12, over)).0;
        assert!(next.periods <= last.periods);
        assert!(next.total_interest_paid <= last.total_interest_paid);
        last = next;
    }
    let fifty = run(loan(1000 * UNIT, 5, 1200, 12, 50 * UNIT)).0;
    assert_eq!(fifty.periods, 8);
    assert_eq!(fifty.total_interest_paid, 17_870_114_089);
    assert_eq!(fifty.total_amount_paid, 1_084_859_854_312);
}

#[test]
fn periods_never_exceed_the_term() {
    for term in [1u32, 2, 3, 12, 59, 360] {
        for over in [0u128, 1, 1000 * UNIT] {
            let (totals, _) = run(loan(25000 * UNIT, 7, 1200, term, over));
            assert!(totals.periods >= 1);
            assert!(totals.periods <= term);
        }
    }
}

#[test]
fn balance_is_cleared_and_never_negative() {
    for (numerator, term, over) in [(0u64, 7u32, 0u128), (4, 360, 0), (4, 360, 100 * UNIT), (1200, 3, 0)] {
        let (_, after) = run(loan(300000 * UNIT, numerator, 1200, term, over));
        assert_eq!(after.running_principal, 0);
    }
}

#[test]
fn minimum_payment_alone_takes_the_whole_term() {
    assert_eq!(run(loan(100000 * UNIT, 2, 1200, 420, 0)).0.periods, 420);
    assert_eq!(run(loan(300000 * UNIT, 4, 1200, 360, 0)).0.periods, 360);
    assert_eq!(run(loan(10000 * UNIT, 2, 100, 5, 0)).0.periods, 5);
}

#[test]
fn zero_rate_divides_the_principal_evenly() {
    let schedule = loan(1200 * UNIT, 0, 12, 12, 0);
    assert_eq!(schedule.payment_amount_equation(), Some(100 * UNIT));
    let (totals, after) = run(schedule);
    assert_eq!(
        totals,
        ScheduleResult { total_amount_paid: 1200 * UNIT, total_interest_paid: 0, periods: 12 }
    );
    assert_eq!(after.running_principal, 0);
    // An uneven division is rounded up.
    assert_eq!(loan(100, 0, 1, 3, 0).payment_amount_equation(), Some(34));
    assert_eq!(level_payment(100, Rate { numerator: 0, denominator: 1 }, 3), Some(34));
}

#[test]
fn last_period_is_charged_the_full_payment() {
    // 100 at no interest over two periods: 50 a period, 99 with the overpayment.
    // The second period owes 1 and is still charged 99.
    let (totals, after) = run(loan(100, 0, 1, 2, 49));
    assert_eq!(totals, ScheduleResult { total_amount_paid: 198, total_interest_paid: 0, periods: 2 });
    assert_eq!(after.running_principal, 0);
    let (plain, _) = run(loan(100, 0, 1, 2, 0));
    assert_eq!(plain, ScheduleResult { total_amount_paid: 100, total_interest_paid: 0, periods: 2 });
}

#[test]
fn interest_is_rounded_down_each_period() {
    // 1000 at 1% a period over three periods: the payment is 341, and the
    // interest charged is 10, 6 and 3.
    let (totals, _) = run(loan(1000, 1, 100, 3, 0));
    assert_eq!(totals, ScheduleResult { total_amount_paid: 1023, total_interest_paid: 19, periods: 3 });
    let (over, _) = run(loan(1000, 1, 100, 3, 500));
    assert_eq!(over, ScheduleResult { total_amount_paid: 1682, total_interest_paid: 11, periods: 2 });
}

#[test]
fn smallest_loan_is_repaid_in_one_period() {
    let (totals, after) = run(loan(1, 1, 100, 5, 0));
    assert_eq!(totals, ScheduleResult { total_amount_paid: 1, total_interest_paid: 0, periods: 1 });
    assert_eq!(after.running_principal, 0);
}

#[test]
fn second_run_of_a_cleared_schedule_takes_one_period() {
    let (_, after) = run(loan(10000 * UNIT, 2, 100, 5, 0));
    let (again, still) = run(after);
    assert_eq!(
        again,
        ScheduleResult { total_amount_paid: 2_121_583_941_044, total_interest_paid: 0, periods: 1 }
    );
    assert_eq!(still, after);
}

#[test]
fn run_starts_from_the_balance_owed() {
    let mut schedule = loan(1000, 1, 100, 3, 0);
    schedule.running_principal = 341;
    let (totals, after) = run(schedule);
    // Interest of 3 on 341 leaves 3 owed after the first payment of 341.
    assert_eq!(totals, ScheduleResult { total_amount_paid: 682, total_interest_paid: 3, periods: 2 });
    assert_eq!(after.running_principal, 0);
}

#[test]
fn payment_out_of_range_is_an_error() {
    // At 100% a period over one period the payment is twice the principal.
    let mut schedule = loan(1 << 94, 1, 1, 1, 0);
    assert_eq!(schedule.payment_amount_equation(), Some(1 << 95));
    let before = schedule;
    assert_eq!(schedule.run_schedule(), Err(ScheduleError::PaymentOutOfRange));
    assert_eq!(schedule, before);
    let mut fits = loan((1 << 94) - 1, 1, 1, 1, 0);
    assert_eq!(fits.payment_amount_equation(), Some(PAYMENT_LIMIT - 1));
    assert_eq!(
        fits.run_schedule(),
        Ok(ScheduleResult {
            total_amount_paid: PAYMENT_LIMIT - 1,
            total_interest_paid: (1 << 94) - 1,
            periods: 1,
        })
    );
    assert_eq!(PAYMENT_LIMIT, (1 << 95) - 1);
}

#[test]
fn minimum_payment_beyond_128_bits_is_none() {
    assert_eq!(loan(1 << 127, 1, 1, 1, 0).payment_amount_equation(), None);
    assert_eq!(loan((1 << 127) - 1, 1, 1, 1, 0).payment_amount_equation(), Some(u128::MAX - 1));
    assert_eq!(loan(u128::MAX, 0, 1, 1, 0).payment_amount_equation(), Some(u128::MAX));
    assert_eq!(
        loan(u128::MAX, 0, 7, 3, 0).payment_amount_equation(),
        Some(113_427_455_640_312_821_154_458_202_477_256_070_485)
    );
    assert_eq!(loan(u128::MAX, 1, u64::MAX, 1, 0).payment_amount_equation(), None);
    assert_eq!(
        loan(1 << 100, u64::MAX, u64::MAX - 1, 2, 0).payment_amount_equation(),
        Some(1_690_200_800_304_305_868_723_354_919_823)
    );
    assert_eq!(
        loan(u128::MAX, 0, 1, 1, 0).run_schedule(),
        Err(ScheduleError::PaymentOutOfRange)
    );
}

#[test]
fn overpayment_out_of_range_is_an_error() {
    let mut schedule = loan(1000, 1, 100, 3, PAYMENT_LIMIT - 340);
    let before = schedule;
    assert_eq!(schedule.run_schedule(), Err(ScheduleError::PaymentOutOfRange));
    assert_eq!(schedule, before);
    let mut beyond = loan(1000, 1, 100, 3, u128::MAX);
    assert_eq!(beyond.run_schedule(), Err(ScheduleError::PaymentOutOfRange));
    let mut fits = loan(1000, 1, 100, 3, PAYMENT_LIMIT - 341);
    assert_eq!(
        fits.run_schedule(),
        Ok(ScheduleResult { total_amount_paid: PAYMENT_LIMIT, total_interest_paid: 10, periods: 1 })
    );
}

#[test]
fn loans_beyond_64_bits_are_run() {
    // Fifty thousand million at 4% a year over thirty years.
    let (totals, after) = run(loan(50_000_000_000 * UNIT, 4, 1200, 360, 0));
    assert_eq!(
        totals,
        ScheduleResult {
            total_amount_paid: 85_934_753_183_782_708_920,
            total_interest_paid: 35_934_753_183_782_708_021,
            periods: 360,
        }
    );
    assert_eq!(after.running_principal, 0);
    let (over, _) = run(loan(50_000_000_000 * UNIT, 4, 1200, 360, 10_000_000 * UNIT));
    assert_eq!(
        over,
        ScheduleResult {
            total_amount_paid: 83_068_354_342_731_735_498,
            total_interest_paid: 32_887_373_391_386_941_924,
            periods: 334,
        }
    );
    // The same loan as the 300000 one, a thousand million million times over.
    let huge = 1_000_000_000_000_000_000_000_000_000_000u128;
    let expected = ScheduleResult {
        total_amount_paid: 1_718_695_063_675_654_176_834_072_855_000,
        total_interest_paid: 718_695_063_675_654_168_595_715_492_941,
        periods: 360,
    };
    assert_eq!(run(loan(huge, 4, 1200, 360, 0)).0, expected);
    // A rate written with more digits is the same rate.
    assert_eq!(
        run(loan(huge, 40_000_000_000_000_000, 12_000_000_000_000_000_000, 360, 0)).0,
        expected
    );
    assert_eq!(
        loan(huge, 40_000_000_000_000_000, 12_000_000_000_000_000_000, 360, 0)
            .payment_amount_equation(),
        Some(4_774_152_954_654_594_935_650_202_375)
    );
}

#[test]
fn well_formedness_is_checked() {
    assert!(loan(1, 0, 1, 1, 0).is_well_formed());
    assert!(!loan(0, 0, 1, 1, 0).is_well_formed());
    assert!(!loan(1, 0, 0, 1, 0).is_well_formed());
    assert!(!loan(1, 0, 1, 0, 0).is_well_formed());
    let mut owing_more = loan(1, 0, 1, 1, 0);
    owing_more.running_principal = 2;
    assert!(!owing_more.is_well_formed());
    assert!(Rate { numerator: 0, denominator: 1 }.is_well_formed());
    assert!(!Rate { numerator: 1, denominator: 0 }.is_well_formed());
}

#[test]
fn growth_compounds_and_stops_at_the_cap() {
    let one: u128 = 1 << 64;
    assert_eq!(compound_growth(Rate { numerator: 2, denominator: 100 }, 0), one);
    assert_eq!(compound_growth(Rate { numerator: 0, denominator: 7 }, 1000), one);
    assert_eq!(compound_growth(Rate { numerator: 1, denominator: 1 }, 3), 8 * one);
    assert_eq!(
        compound_growth(Rate { numerator: 2, denominator: 100 }, 5),
        20_366_696_013_326_081_750
    );
    assert_eq!(compound_growth(Rate { numerator: 1, denominator: 1 }, 62), 1 << 126);
    assert_eq!(compound_growth(Rate { numerator: 1, denominator: 1 }, 63), 1 << 127);
    assert_eq!(compound_growth(Rate { numerator: 1, denominator: 1 }, 200), 1 << 127);
    assert_eq!(compound_growth(Rate { numerator: u64::MAX, denominator: 1 }, u32::MAX), 1 << 127);
}

#[test]
fn monthly_rate_is_a_twelfth() {
    assert_eq!(
        Rate::monthly(Rate { numerator: 4, denominator: 100 }),
        Some(Rate { numerator: 4, denominator: 1200 })
    );
    assert_eq!(Rate::monthly(Rate { numerator: 4, denominator: u64::MAX / 12 + 1 }), None);
    assert!(Rate::monthly(Rate { numerator: 4, denominator: u64::MAX / 12 }).is_some());
}

#[test]
fn whole_term_is_assured_for_loans_of_size() {
    let huge = 1_000_000_000_000_000_000_000_000_000_000u128;
    for schedule in [
        loan(10000 * UNIT, 2, 100, 5, 0),
        loan(100000 * UNIT, 2, 1200, 420, 0),
        loan(300000 * UNIT, 4, 1200, 360, 0),
        loan(1200 * UNIT, 0, 12, 12, 0),
        loan(1000, 1, 100, 3, 0),
        loan(100, 0, 1, 2, 0),
        loan(UNIT, 24, 1200, 600, 0),
        loan(50_000_000_000 * UNIT, 4, 1200, 360, 0),
        loan(huge, 4, 1200, 360, 0),
        loan(huge, 40_000_000_000_000_000, 12_000_000_000_000_000_000, 360, 0),
        loan(5, 0, 1, 1, 0),
        loan(500, 1, 100, 1, 0),
    ] {
        assert!(schedule.is_whole_term_assured());
        assert_eq!(run(schedule).0.periods, schedule.number_of_payments);
    }
}

#[test]
fn whole_term_is_not_assured_for_loans_of_a_few_units() {
    // The payment of one unit repays the loan of one unit at once.
    assert!(!loan(1, 1, 100, 5, 0).is_whole_term_assured());
    assert_eq!(run(loan(1, 1, 100, 5, 0)).0.periods, 1);
    assert!(!loan(1, 0, 1, 5, 0).is_whole_term_assured());
    assert_eq!(run(loan(1, 0, 1, 5, 0)).0.periods, 1);
    // Seven units at 1% over five periods: payments of two repay them in four.
    assert!(!loan(7, 1, 100, 5, 0).is_whole_term_assured());
    assert_eq!(run(loan(7, 1, 100, 5, 0)).0.periods, 4);
    // Eleven units over ten periods at no interest: payments of two, six of them.
    assert!(!loan(11, 0, 1, 10, 0).is_whole_term_assured());
    assert_eq!(run(loan(11, 0, 1, 10, 0)).0.periods, 6);
}

#[test]
fn whole_term_is_not_assured_out_of_range() {
    // The minimum payment does not fit, or exceeds the limit.
    assert!(!loan(1 << 127, 1, 1, 1, 0).is_whole_term_assured());
    assert!(!loan(1 << 94, 1, 1, 1, 0).is_whole_term_assured());
    assert!(loan((1 << 94) - 1, 1, 1, 1, 0).is_whole_term_assured());
    // The growth factor has reached its cap.
    assert!(!loan(1 << 90, 1, 1, 64, 0).is_whole_term_assured());
    assert!(!loan(1 << 90, 1, 1, 200, 0).is_whole_term_assured());
}

#[test]
fn the_test_for_the_whole_term_is_about_the_minimum_payment_alone() {
    // The overpayment and the balance owed play no part in the test; the
    // run itself is shorter with them.
    let mut schedule = loan(100000 * UNIT, 2, 1200, 420, 100 * UNIT);
    assert!(schedule.is_whole_term_assured());
    assert_eq!(run(schedule).0.periods, 294);
    schedule.overpayment_amount = 0;
    schedule.running_principal = 50000 * UNIT;
    assert!(schedule.is_whole_term_assured());
    assert!(run(schedule).0.periods < 420);
}
