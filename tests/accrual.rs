use chrono::{Datelike, NaiveDate};
use depo_advisor::accrual::{calc_earn, PayStrategy, Stamp, EARN_SCALE};

fn day(y: i32, m: u32, d: u32) -> Stamp {
    Stamp { day: NaiveDate::from_ymd_opt(y, m, d).unwrap().num_days_from_ce(), sec: 0 }
}

#[test]
fn one_month_once_at_five_percent() {
    // 100,000.00 at 5% for April 2023 (30 days)
    let r = calc_earn(10_000_000, 50_000, day(2023, 4, 1), day(2023, 5, 1), PayStrategy::Once).unwrap();
    assert_eq!(r, 10_000_000 * 30 * 4 * 50_000);
    assert_eq!(r / EARN_SCALE, 41_067);
    let currency = r as f64 / EARN_SCALE as f64 / 100.0;
    assert!((currency - 410.68).abs() < 0.01);
}

#[test]
fn empty_range_earns_nothing() {
    for strategy in [PayStrategy::Once, PayStrategy::Capitalization] {
        let at = day(2024, 2, 29);
        assert_eq!(calc_earn(10_000_000, 80_000, at, at, strategy), Some(0));
        let noon = Stamp { day: at.day, sec: 43_200 };
        assert_eq!(calc_earn(10_000_000, -80_000, noon, noon, strategy), Some(0));
    }
}

#[test]
fn once_is_linear_in_principal() {
    let s = day(2023, 1, 15);
    let e = day(2023, 11, 3);
    let one = calc_earn(1_234_567, 73_000, s, e, PayStrategy::Once).unwrap();
    let two = calc_earn(2_469_134, 73_000, s, e, PayStrategy::Once).unwrap();
    assert_eq!(two, 2 * one);
    // 292 days in all
    assert_eq!(one, 1_234_567 * 292 * 4 * 73_000);
}

#[test]
fn capitalization_beats_once_over_a_year() {
    let s = day(2023, 1, 1);
    let e = day(2024, 1, 1);
    let once = calc_earn(10_000_000, 50_000, s, e, PayStrategy::Once).unwrap();
    let cap = calc_earn(10_000_000, 50_000, s, e, PayStrategy::Capitalization).unwrap();
    assert_eq!(once, 10_000_000 * 365 * 4 * 50_000);
    assert!(cap > once);
}

#[test]
fn month_steps_clamp_to_month_end() {
    // Jan 31 -> Feb 28 -> Mar 28, then cut at Mar 31: 28 + 28 + 3 days
    let r = calc_earn(100, 1_000_000, day(2023, 1, 31), day(2023, 3, 31), PayStrategy::Once).unwrap();
    assert_eq!(r, 100 * 59 * 4 * 1_000_000);
}

#[test]
fn partial_last_day_is_dropped() {
    let start = Stamp { day: day(2023, 6, 1).day, sec: 43_200 };
    let end = Stamp { day: day(2023, 6, 3).day, sec: 3_600 };
    // one full day and 15 hours
    let r = calc_earn(1_000, 100_000, start, end, PayStrategy::Once).unwrap();
    assert_eq!(r, 1_000 * 1 * 4 * 100_000);
}

#[test]
fn negative_rate_rounds_toward_zero() {
    let s = day(2023, 4, 1);
    let e = day(2023, 5, 1);
    let r = calc_earn(1, -1, s, e, PayStrategy::Capitalization).unwrap();
    assert_eq!(r, -120);
    let once = calc_earn(1, -1, s, e, PayStrategy::Once).unwrap();
    assert_eq!(once, -120);
}

#[test]
fn principal_past_the_limit_is_refused() {
    assert_eq!(calc_earn(u64::MAX, 50_000, day(2023, 4, 1), day(2023, 5, 1), PayStrategy::Once), None);
}
