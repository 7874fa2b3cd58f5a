use chrono::{Datelike, NaiveDate};
use depo_advisor::accrual::{PayStrategy, Stamp};
use depo_advisor::advisor::{
    check_diversification, suggest_reallocations, AdviceError, Bank, Deposit, Suggestion,
};

fn day(y: i32, m: u32, d: u32) -> Stamp {
    Stamp { day: NaiveDate::from_ymd_opt(y, m, d).unwrap().num_days_from_ce(), sec: 0 }
}

fn bank(name: &str, rate: i32, min: u32, max: u32, commission: u32) -> Bank {
    Bank {
        name: name.to_string(),
        rate,
        min_capacity: min,
        max_capacity: max,
        transfer_commission: commission,
        pay_strategy: PayStrategy::Once,
    }
}

fn deposit(bank: &str, amount: u64, rate: i32) -> Deposit {
    Deposit {
        bank: bank.to_string(),
        name: "savings".to_string(),
        date_open: day(2024, 1, 1),
        date_close: day(2025, 1, 1),
        amount,
        rate,
        pay_strategy: PayStrategy::Once,
    }
}

#[test]
fn diversification_bounds() {
    let b = bank("B", 80_000, 100_000, 500_000, 0);
    // 40 + 10 of 100: a half, right at the upper bound
    assert!(check_diversification(&b, 10, 40, 100, false, true));
    assert!(!check_diversification(&b, 11, 40, 100, false, true));
    // 40 - 30 of 100: a tenth, right at the lower bound
    assert!(check_diversification(&b, -30, 40, 100, true, false));
    assert!(!check_diversification(&b, -31, 40, 100, true, false));
    // unchecked bounds never fail
    assert!(check_diversification(&b, -40, 40, 100, false, false));
    assert!(check_diversification(&b, 60, 40, 100, false, false));
}

#[test]
fn diversification_is_monotonic() {
    let b = bank("B", 80_000, 200_000, 600_000, 0);
    let mut upper_passed_before = true;
    let mut lower_passed_before = false;
    for delta in -50i128..=50 {
        let upper = check_diversification(&b, delta, 40, 100, false, true);
        let lower = check_diversification(&b, delta, 40, 100, true, false);
        assert!(upper_passed_before || !upper);
        assert!(!lower_passed_before || lower);
        upper_passed_before = upper;
        lower_passed_before = lower;
    }
}

#[test]
fn full_bank_keeps_the_deposit() {
    let banks = vec![bank("A", 50_000, 0, 1_000_000, 0), bank("B", 80_000, 0, 500_000, 10_000)];
    let deps = vec![deposit("A", 10_000_000, 50_000)];
    let r = suggest_reallocations(&deps, &banks, day(2024, 1, 1));
    assert_eq!(r, Ok(vec![]));
}

#[test]
fn open_bank_takes_the_deposit() {
    let banks = vec![bank("A", 50_000, 0, 1_000_000, 0), bank("B", 80_000, 0, 1_000_000, 10_000)];
    let deps = vec![deposit("A", 10_000_000, 50_000)];
    let r = suggest_reallocations(&deps, &banks, day(2024, 1, 1)).unwrap();
    assert_eq!(r.len(), 1);
    let g: Suggestion = r[0];
    assert_eq!((g.deposit, g.from_bank, g.to_bank), (0, 0, 1));
    // 1% of 100,000.00 is 1,000.00
    assert_eq!(g.commission, 10_000_000 * 10_000 * 1461);
    // 366 days at 8% minus the commission minus 366 days at 5%
    let possible: i128 = 10_000_000 * 366 * 4 * 80_000;
    let current: i128 = 10_000_000 * 366 * 4 * 50_000;
    assert_eq!(g.benefit, possible - g.commission - current);
}

#[test]
fn small_gain_is_not_suggested() {
    // 6% over 5% gains about 1,002.05, less than the 1,000.00 commission plus ten
    let banks = vec![bank("A", 50_000, 0, 1_000_000, 0), bank("B", 60_000, 0, 1_000_000, 10_000)];
    let deps = vec![deposit("A", 10_000_000, 50_000)];
    assert_eq!(suggest_reallocations(&deps, &banks, day(2024, 1, 1)), Ok(vec![]));
}

#[test]
fn lower_bound_pins_the_deposit() {
    let banks = vec![bank("A", 50_000, 600_000, 1_000_000, 0), bank("B", 80_000, 0, 1_000_000, 0)];
    let deps = vec![deposit("A", 6_000_000, 50_000), deposit("B", 4_000_000, 80_000)];
    assert_eq!(suggest_reallocations(&deps, &banks, day(2024, 1, 1)), Ok(vec![]));
}

#[test]
fn highest_rate_that_fits_is_chosen() {
    let banks = vec![
        bank("A", 50_000, 0, 1_000_000, 0),
        bank("C", 70_000, 0, 1_000_000, 0),
        bank("B", 90_000, 0, 100_000, 0),
        bank("D", 70_000, 0, 1_000_000, 0),
    ];
    let deps = vec![deposit("A", 10_000_000, 50_000)];
    let r = suggest_reallocations(&deps, &banks, day(2024, 1, 1)).unwrap();
    assert_eq!(r.len(), 1);
    // B is full; C and D tie, C comes first
    assert_eq!(r[0].to_bank, 1);
    assert_eq!(r[0].commission, 0);
}

#[test]
fn same_inputs_same_advice() {
    let banks = vec![bank("A", 50_000, 0, 1_000_000, 0), bank("B", 80_000, 0, 1_000_000, 10_000)];
    let deps = vec![deposit("A", 10_000_000, 50_000), deposit("B", 5_000_000, 80_000)];
    let first = suggest_reallocations(&deps, &banks, day(2024, 3, 1));
    let second = suggest_reallocations(&deps, &banks, day(2024, 3, 1));
    assert_eq!(first, second);
}

#[test]
fn unknown_bank_is_an_error() {
    let banks = vec![bank("A", 50_000, 0, 1_000_000, 0)];
    let deps = vec![deposit("A", 10_000_000, 50_000), deposit("Z", 10_000_000, 50_000)];
    assert_eq!(
        suggest_reallocations(&deps, &banks, day(2024, 1, 1)),
        Err(AdviceError::UnknownBank { deposit: 1 })
    );
}

#[test]
fn oversized_portfolio_is_an_error() {
    let banks = vec![bank("A", 50_000, 0, 1_000_000, 0)];
    let deps = vec![deposit("A", u64::MAX, 50_000), deposit("A", 1, 50_000)];
    assert_eq!(suggest_reallocations(&deps, &banks, day(2024, 1, 1)), Err(AdviceError::TotalTooLarge));
}

#[test]
fn oversized_principal_is_out_of_range() {
    let banks = vec![bank("A", 50_000, 0, 1_000_000, 0)];
    let deps = vec![deposit("A", u64::MAX, 50_000)];
    assert_eq!(
        suggest_reallocations(&deps, &banks, day(2024, 1, 1)),
        Err(AdviceError::OutOfRange { deposit: 0 })
    );
}

#[test]
fn expired_deposit_earns_nothing_more() {
    let banks = vec![bank("A", 50_000, 0, 1_000_000, 0), bank("B", 80_000, 0, 1_000_000, 0)];
    let deps = vec![deposit("A", 10_000_000, 50_000)];
    assert_eq!(suggest_reallocations(&deps, &banks, day(2025, 6, 1)), Ok(vec![]));
}

#[test]
fn deposit_earns_on_its_own_terms() {
    let mut d = deposit("A", 10_000_000, 50_000);
    d.pay_strategy = PayStrategy::Capitalization;
    let half = depo_advisor::advisor::calc_depo_earn(&d, day(2024, 7, 1)).unwrap();
    let full = depo_advisor::advisor::calc_depo_earn(&d, d.date_close).unwrap();
    // first month on the bare principal: 31 days of January
    let january = depo_advisor::advisor::calc_depo_earn(&d, day(2024, 2, 1)).unwrap();
    assert_eq!(january, 10_000_000 * 31 * 4 * 50_000);
    assert!(january < half && half < full);
    assert_eq!(depo_advisor::advisor::calc_depo_earn(&d, d.date_open), Some(0));
}

#[test]
fn namesake_ranked_above_blocks_the_search() {
    // A 8%, X 6%, A 5%: the deposit's bank is the 5% A, and the search stops
    // at the 8% A, so X never takes it
    let banks = vec![
        bank("A", 80_000, 0, 1_000_000, 0),
        bank("X", 60_000, 0, 1_000_000, 0),
        bank("A", 50_000, 0, 1_000_000, 0),
    ];
    let deps = vec![deposit("A", 10_000_000, 50_000)];
    assert_eq!(suggest_reallocations(&deps, &banks, day(2024, 1, 1)), Ok(vec![]));
}

#[test]
fn lowest_ranked_namesake_holds_the_deposit() {
    // A 5%, Z 9%, A 8%: the deposit sits at the 5% A and moves to Z
    let banks = vec![
        bank("A", 50_000, 0, 1_000_000, 0),
        bank("Z", 90_000, 0, 1_000_000, 0),
        bank("A", 80_000, 0, 1_000_000, 0),
    ];
    let deps = vec![deposit("A", 10_000_000, 50_000)];
    let r = suggest_reallocations(&deps, &banks, day(2024, 1, 1)).unwrap();
    assert_eq!(r.len(), 1);
    assert_eq!((r[0].from_bank, r[0].to_bank), (0, 1));
}

#[test]
fn equal_rate_namesakes_resolve_to_the_later() {
    // two A banks at 5%: the later one stands last in the order of rates
    let banks = vec![
        bank("A", 50_000, 0, 1_000_000, 0),
        bank("A", 50_000, 0, 1_000_000, 0),
        bank("B", 90_000, 0, 1_000_000, 0),
    ];
    let deps = vec![deposit("A", 10_000_000, 50_000)];
    let r = suggest_reallocations(&deps, &banks, day(2024, 1, 1)).unwrap();
    assert_eq!((r[0].from_bank, r[0].to_bank), (1, 2));
}
