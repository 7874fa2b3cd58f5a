//! Interest accrual over a date range, walked in calendar-month steps.
//!
//! Money is counted in whole minor units (cents), rates in parts per million
//! per year, and accrued interest in fine units: `EARN_SCALE` fine units make
//! one minor unit. With that scale one day of interest at a yearly rate `r`
//! on `a` fine units is exactly `a * 4 * r / EARN_SCALE`, since a year counts
//! 365.25 = 1461 / 4 days.
use chrono::Datelike;
use vstd::arithmetic::div_mod::{lemma_div_is_ordered, lemma_div_multiples_vanish_fancy};
use vstd::prelude::*;

verus! {

/// Seconds in one day.
pub const SECONDS_PER_DAY: u32 = 86400;

/// Parts per million: the scale of rates and shares.
pub const RATE_SCALE: i128 = 1000000;

/// Fine units of interest in one minor unit of money (1461 * RATE_SCALE).
pub const EARN_SCALE: i128 = 1461000000;

/// Largest magnitude that a running amount or total may reach (2^88).
pub const EARN_LIMIT: i128 = 309485009821345068724781056;

/// How interest is paid out.
#[derive(Clone, Copy, PartialEq, Eq, Debug, Structural)]
pub enum PayStrategy {
    /// Each month's interest is added to the principal.
    Capitalization,
    /// Interest is kept apart; the principal never changes.
    Once,
}

/// A moment in time: a day number (day 1 is 0001-01-01 of the proleptic
/// Gregorian calendar) and the second within that day.
#[derive(Clone, Copy, PartialEq, Eq, Debug, Structural)]
pub struct Stamp {
    pub day: i32,
    pub sec: u32,
}

impl Stamp {
    pub open spec fn wf(self) -> bool {
        self.sec < SECONDS_PER_DAY
    }

    /// This moment comes strictly after `other`.
    pub open spec fn after(self, other: Stamp) -> bool {
        is_after(self.day as int, self.sec as int, other)
    }

    pub fn is_after(&self, other: &Stamp) -> (r: bool)
        ensures
            r == self.after(*other),
    {
        self.day > other.day || (self.day == other.day && self.sec > other.sec)
    }
}

/// The moment (`day`, `sec`) comes strictly after `end`.
pub open spec fn is_after(day: int, sec: int, end: Stamp) -> bool {
    day > end.day || (day == end.day && sec > end.sec)
}

/// Whole days from (`day`, `sec`) to `end`, the last partial day dropped.
pub open spec fn whole_days(day: int, sec: int, end: Stamp) -> int {
    ((end.day - day) * SECONDS_PER_DAY + end.sec - sec) / (SECONDS_PER_DAY as int)
}

/// The day number one calendar month after `day` (the day of the month
/// kept, or the last day of a shorter month), or `None` where the calendar
/// ends.
pub uninterp spec fn month_after(day: int) -> Option<int>;

/// Relies on chrono's `NaiveDate::from_num_days_from_ce_opt`,
/// `NaiveDate::checked_add_months` and `Datelike::num_days_from_ce`: one
/// month after a date lies 28 to 31 days later, in the next month.
#[verifier::external_body]
fn add_one_month(day: i32) -> (r: Option<i32>)
    ensures
        match r {
            Some(n) => month_after(day as int) == Some(n as int) && day + 28 <= n <= day + 31,
            None => month_after(day as int) is None,
        },
{
    let date = chrono::NaiveDate::from_num_days_from_ce_opt(day)?;
    let next = date.checked_add_months(chrono::Months::new(1))?;
    Some(next.num_days_from_ce())
}

/// The value lies within the magnitude that amounts and totals may reach.
pub open spec fn in_limit(x: int) -> bool {
    -EARN_LIMIT <= x <= EARN_LIMIT
}

/// `n / d` rounded toward zero.
pub open spec fn div_toward_zero(n: int, d: int) -> int {
    if n >= 0 {
        n / d
    } else {
        -((-n) / d)
    }
}

/// Interest, in fine units, on `amount` fine units over `days` days at the
/// yearly rate `rate` (parts per million), rounded toward zero.
pub open spec fn period_interest(amount: int, rate: int, days: int) -> int {
    div_toward_zero(amount * days * (4 * rate), EARN_SCALE as int)
}

/// The running total after accruing from (`day`, `sec`) to `end`, starting
/// from the running `total` and `amount` (both in fine units). Each step
/// runs to one month later, or to `end` if that would overshoot, which is
/// the last step. `None` where the calendar ends or a running value leaves
/// the limit.
pub open spec fn accrue(
    total: int,
    amount: int,
    rate: int,
    day: int,
    sec: int,
    end: Stamp,
    strategy: PayStrategy,
) -> Option<int>
    decreases end.day - day,
{
    if !in_limit(total) || !in_limit(amount) {
        None
    } else {
        match month_after(day) {
            None => None,
            Some(next) => {
                if next <= day {
                    // a month step always moves forward; this keeps the definition total
                    None
                } else if is_after(next, sec, end) {
                    let t = total + period_interest(amount, rate, whole_days(day, sec, end));
                    if in_limit(t) {
                        Some(t)
                    } else {
                        None
                    }
                } else {
                    let earn = period_interest(amount, rate, next - day);
                    let amount2 = match strategy {
                        PayStrategy::Capitalization => amount + earn,
                        PayStrategy::Once => amount,
                    };
                    accrue(total + earn, amount2, rate, next, sec, end, strategy)
                }
            },
        }
    }
}

/// Interest, in fine units, that `principal` minor units earn at `rate`
/// from `start` to `end` under `strategy`.
pub open spec fn earned(
    principal: int,
    rate: int,
    start: Stamp,
    end: Stamp,
    strategy: PayStrategy,
) -> Option<int> {
    accrue(0, principal * EARN_SCALE, rate, start.day as int, start.sec as int, end, strategy)
}

pub open spec fn opt_int(r: Option<i128>) -> Option<int> {
    match r {
        Some(v) => Some(v as int),
        None => None,
    }
}

fn div_toward_zero_exec(n: i128, d: i128) -> (r: i128)
    requires
        d > 0,
        n > i128::MIN,
    ensures
        r == div_toward_zero(n as int, d as int),
        n >= 0 ==> 0 <= r <= n,
        n < 0 ==> n <= r <= 0,
{
    if n >= 0 {
        assert(0 <= n / d <= n) by (nonlinear_arith)
            requires
                n >= 0,
                d > 0,
        ;
        n / d
    } else {
        let m: i128 = -n;
        assert(0 <= m / d <= m) by (nonlinear_arith)
            requires
                m >= 0,
                d > 0,
        ;
        -(m / d)
    }
}

/// Interest on `amount` fine units over `days` days at `rate`.
fn interest(amount: i128, rate: i32, days: i128) -> (r: i128)
    requires
        in_limit(amount as int),
        0 <= days <= 31,
    ensures
        r == period_interest(amount as int, rate as int, days as int),
        -0x4000_0000_0000_0000_0000_0000_0000_0000 < r < 0x4000_0000_0000_0000_0000_0000_0000_0000,
{
    let r4: i128 = 4 * (rate as i128);
    assert(-0x2_0000_0000 <= r4 <= 0x2_0000_0000);
    assert(-0x3e00_0000_0000_0000_0000_0000 <= amount * days <= 0x3e00_0000_0000_0000_0000_0000)
        by (nonlinear_arith)
        requires
            -0x100_0000_0000_0000_0000_0000 <= amount <= 0x100_0000_0000_0000_0000_0000,
            0 <= days <= 31,
    ;
    let ad: i128 = amount * days;
    assert(-0x7c00_0000_0000_0000_0000_0000_0000_0000 <= ad * r4 <= 0x7c00_0000_0000_0000_0000_0000_0000_0000)
        by (nonlinear_arith)
        requires
            -0x3e00_0000_0000_0000_0000_0000 <= ad <= 0x3e00_0000_0000_0000_0000_0000,
            -0x2_0000_0000 <= r4 <= 0x2_0000_0000,
    ;
    let n: i128 = ad * r4;
    div_toward_zero_exec(n, EARN_SCALE)
}

/// Whole days from `from` to `to`, where `to` is less than 31 days later.
fn whole_days_exec(from: Stamp, to: Stamp) -> (r: i128)
    requires
        from.wf(),
        to.wf(),
        !from.after(to),
        (to.day - from.day) * SECONDS_PER_DAY + to.sec - from.sec < 31 * SECONDS_PER_DAY,
    ensures
        r == whole_days(from.day as int, from.sec as int, to),
        0 <= r <= 31,
{
    let secs: i128 = (to.day as i128 - from.day as i128) * (SECONDS_PER_DAY as i128)
        + to.sec as i128 - from.sec as i128;
    secs / (SECONDS_PER_DAY as i128)
}

/// Total interest, in fine units, that `principal` minor units earn at the
/// yearly `rate` (parts per million) from `start` to `end` under `strategy`:
/// the sum over month-long steps, the last one cut at `end`. `None` where the
/// calendar ends or a running value leaves the limit.
pub fn calc_earn(principal: u64, rate: i32, start: Stamp, end: Stamp, strategy: PayStrategy) -> (r: Option<i128>)
    requires
        start.wf(),
        end.wf(),
        !start.after(end),
    ensures
        opt_int(r) == earned(principal as int, rate as int, start, end, strategy),
        r matches Some(v) ==> in_limit(v as int),
{
    let amount0: i128 = (principal as i128) * EARN_SCALE;
    if amount0 > EARN_LIMIT {
        return None;
    }
    let mut amount: i128 = amount0;
    let mut total: i128 = 0;
    let mut day: i32 = start.day;
    let sec: u32 = start.sec;
    loop
        invariant
            start.wf(),
            end.wf(),
            in_limit(total as int),
            in_limit(amount as int),
            sec == start.sec,
            !is_after(day as int, sec as int, end),
            accrue(total as int, amount as int, rate as int, day as int, sec as int, end, strategy)
                == earned(principal as int, rate as int, start, end, strategy),
        decreases end.day - day,
    {
        let stepped = add_one_month(day);
        match stepped {
            None => {
                return None;
            },
            Some(next) => {
                let here = Stamp { day, sec };
                let there = Stamp { day: next, sec };
                if there.is_after(&end) {
                    let days = whole_days_exec(here, end);
                    let earn = interest(amount, rate, days);
                    let t: i128 = total + earn;
                    if t < -EARN_LIMIT || t > EARN_LIMIT {
                        return None;
                    }
                    return Some(t);
                } else {
                    let earn = interest(amount, rate, (next - day) as i128);
                    let t: i128 = total + earn;
                    let a: i128 = match strategy {
                        PayStrategy::Capitalization => amount + earn,
                        PayStrategy::Once => amount,
                    };
                    if t < -EARN_LIMIT || t > EARN_LIMIT || a < -EARN_LIMIT || a > EARN_LIMIT {
                        assert(accrue(t as int, a as int, rate as int, next as int, sec as int, end, strategy) is None);
                        return None;
                    }
                    total = t;
                    amount = a;
                    day = next;
                }
            },
        }
    }
}

/// The calendar can step one month on from `day`.
pub open spec fn month_defined(day: int) -> bool {
    month_after(day) matches Some(n) && n > day
}

/// Over an empty range nothing is earned: the one step is cut at once.
pub proof fn lemma_empty_range_earns_nothing(
    principal: u64,
    rate: i32,
    at: Stamp,
    strategy: PayStrategy,
)
    requires
        at.wf(),
        in_limit(principal * EARN_SCALE),
        month_defined(at.day as int),
    ensures
        earned(principal as int, rate as int, at, at, strategy) == Some(0int),
{
    assert(whole_days(at.day as int, at.sec as int, at) == 0);
    let a = principal * EARN_SCALE;
    assert(a * 0 * (4 * rate) == 0) by (nonlinear_arith);
    assert(period_interest(a, rate as int, 0) == 0);
}

/// Interest on a whole number of minor units never needs rounding.
proof fn lemma_whole_interest(units: int, rate: int, days: int)
    ensures
        period_interest(units * EARN_SCALE, rate, days) == units * days * (4 * rate),
{
    let m = units * days * (4 * rate);
    let s = EARN_SCALE as int;
    assert(units * EARN_SCALE * days * (4 * rate) == s * m) by (nonlinear_arith)
        requires
            m == units * days * (4 * rate),
            s == EARN_SCALE,
    ;
    lemma_div_multiples_vanish_fancy(m, 0, s);
    lemma_div_multiples_vanish_fancy(-m, 0, s);
    assert(s * m + 0 == s * m);
    assert(s * (-m) + 0 == -(s * m)) by (nonlinear_arith);
}

proof fn lemma_once_doubles(
    t1: int,
    units: int,
    rate: int,
    day: int,
    sec: int,
    end: Stamp,
)
    requires
        accrue(t1, units * EARN_SCALE, rate, day, sec, end, PayStrategy::Once) is Some,
        accrue(2 * t1, (2 * units) * EARN_SCALE, rate, day, sec, end, PayStrategy::Once) is Some,
    ensures
        accrue(2 * t1, (2 * units) * EARN_SCALE, rate, day, sec, end, PayStrategy::Once)->Some_0
            == 2 * accrue(t1, units * EARN_SCALE, rate, day, sec, end, PayStrategy::Once)->Some_0,
    decreases end.day - day,
{
    let next = month_after(day)->Some_0;
    if is_after(next, sec, end) {
        let d = whole_days(day, sec, end);
        lemma_whole_interest(units, rate, d);
        lemma_whole_interest(2 * units, rate, d);
        assert((2 * units) * d * (4 * rate) == 2 * (units * d * (4 * rate))) by (nonlinear_arith);
    } else {
        let d = next - day;
        lemma_whole_interest(units, rate, d);
        lemma_whole_interest(2 * units, rate, d);
        let e1 = units * d * (4 * rate);
        assert((2 * units) * d * (4 * rate) == 2 * e1) by (nonlinear_arith)
            requires
                e1 == units * d * (4 * rate),
        ;
        assert(2 * t1 + 2 * e1 == 2 * (t1 + e1));
        lemma_once_doubles(t1 + e1, units, rate, next, sec, end);
    }
}

/// Under `Once`, doubling the principal doubles the interest, wherever both
/// are defined.
pub proof fn lemma_once_is_linear(principal: int, rate: int, start: Stamp, end: Stamp)
    requires
        earned(principal, rate, start, end, PayStrategy::Once) is Some,
        earned(2 * principal, rate, start, end, PayStrategy::Once) is Some,
    ensures
        earned(2 * principal, rate, start, end, PayStrategy::Once)->Some_0 == 2 * earned(
            principal,
            rate,
            start,
            end,
            PayStrategy::Once,
        )->Some_0,
{
    lemma_once_doubles(0, principal, rate, start.day as int, start.sec as int, end);
}

proof fn lemma_interest_monotonic(small: int, large: int, rate: int, days: int)
    requires
        0 <= small <= large,
        rate >= 0,
        days >= 0,
    ensures
        0 <= period_interest(small, rate, days) <= period_interest(large, rate, days),
{
    assert(0 <= small * days * (4 * rate) <= large * days * (4 * rate)) by (nonlinear_arith)
        requires
            0 <= small <= large,
            rate >= 0,
            days >= 0,
    ;
    lemma_div_is_ordered(0, small * days * (4 * rate), EARN_SCALE as int);
    lemma_div_is_ordered(small * days * (4 * rate), large * days * (4 * rate), EARN_SCALE as int);
}

proof fn lemma_compounding_keeps_ahead(
    tc: int,
    ac: int,
    to: int,
    ao: int,
    rate: int,
    day: int,
    sec: int,
    end: Stamp,
)
    requires
        0 <= sec < SECONDS_PER_DAY,
        end.wf(),
        !is_after(day, sec, end),
        to <= tc,
        0 <= ao <= ac,
        rate >= 0,
        accrue(tc, ac, rate, day, sec, end, PayStrategy::Capitalization) is Some,
        accrue(to, ao, rate, day, sec, end, PayStrategy::Once) is Some,
    ensures
        accrue(to, ao, rate, day, sec, end, PayStrategy::Once)->Some_0 + (tc - to) <= accrue(
            tc,
            ac,
            rate,
            day,
            sec,
            end,
            PayStrategy::Capitalization,
        )->Some_0,
    decreases end.day - day,
{
    let next = month_after(day)->Some_0;
    if is_after(next, sec, end) {
        let d = whole_days(day, sec, end);
        assert(d >= 0);
        lemma_interest_monotonic(ao, ac, rate, d);
    } else {
        let d = next - day;
        lemma_interest_monotonic(ao, ac, rate, d);
        let ec = period_interest(ac, rate, d);
        let eo = period_interest(ao, rate, d);
        lemma_compounding_keeps_ahead(tc + ec, ac + ec, to + eo, ao, rate, next, sec, end);
    }
}

/// With a rate of zero or more, capitalizing the interest never earns less
/// than paying it out once, wherever both are defined.
pub proof fn lemma_capitalization_not_below_once(
    principal: u64,
    rate: int,
    start: Stamp,
    end: Stamp,
)
    requires
        start.wf(),
        end.wf(),
        !start.after(end),
        rate >= 0,
        earned(principal as int, rate, start, end, PayStrategy::Capitalization) is Some,
        earned(principal as int, rate, start, end, PayStrategy::Once) is Some,
    ensures
        earned(principal as int, rate, start, end, PayStrategy::Once)->Some_0 <= earned(
            principal as int,
            rate,
            start,
            end,
            PayStrategy::Capitalization,
        )->Some_0,
{
    assert(0 <= principal * EARN_SCALE) by (nonlinear_arith);
    lemma_compounding_keeps_ahead(
        0,
        principal * EARN_SCALE,
        0,
        principal * EARN_SCALE,
        rate,
        start.day as int,
        start.sec as int,
        end,
    );
}

/// With a positive rate, capitalizing earns strictly more than paying once
/// over a range that holds two whole month steps, where the first month's
/// interest, earning over the second month, reaches one fine unit.
pub proof fn lemma_capitalization_above_once(
    principal: u64,
    rate: int,
    start: Stamp,
    end: Stamp,
    first: int,
    second: int,
)
    requires
        start.wf(),
        end.wf(),
        rate > 0,
        month_after(start.day as int) == Some(first),
        month_after(first) == Some(second),
        start.day < first < second,
        !is_after(second, start.sec as int, end),
        principal * (first - start.day) * (4 * rate) * (second - first) * (4 * rate) >= EARN_SCALE,
        earned(principal as int, rate, start, end, PayStrategy::Capitalization) is Some,
        earned(principal as int, rate, start, end, PayStrategy::Once) is Some,
    ensures
        earned(principal as int, rate, start, end, PayStrategy::Once)->Some_0 < earned(
            principal as int,
            rate,
            start,
            end,
            PayStrategy::Capitalization,
        )->Some_0,
{
    let p = principal as int;
    let s = EARN_SCALE as int;
    let a = p * s;
    let sec = start.sec as int;
    let d1 = first - start.day;
    let d2 = second - first;
    let e1 = p * d1 * (4 * rate);
    lemma_whole_interest(p, rate, d1);
    lemma_whole_interest(p, rate, d2);
    assert(!is_after(first, sec, end));
    // second month: the capitalized amount earns at least one fine unit more
    let eo2 = p * d2 * (4 * rate);
    let m = (a + e1) * d2 * (4 * rate);
    assert(m >= s * (eo2 + 1)) by (nonlinear_arith)
        requires
            m == (a + e1) * d2 * (4 * rate),
            a == p * s,
            e1 == p * d1 * (4 * rate),
            eo2 == p * d2 * (4 * rate),
            e1 * d2 * (4 * rate) >= s,
            principal * (first - start.day) * (4 * rate) * (second - first) * (4 * rate) >= s,
            d1 == first - start.day,
            d2 == second - first,
            p == principal,
    ;
    assert(m >= 0);
    lemma_div_is_ordered(s * (eo2 + 1) + 0, m, s);
    lemma_div_multiples_vanish_fancy(eo2 + 1, 0, s);
    let ec2 = period_interest(a + e1, rate, d2);
    assert(ec2 >= eo2 + 1);
    assert(0 <= a) by (nonlinear_arith)
        requires
            a == p * s,
            p >= 0,
            s > 0,
    ;
    assert(e1 >= 0) by (nonlinear_arith)
        requires
            e1 == p * d1 * (4 * rate),
            p >= 0,
            d1 > 0,
            rate > 0,
    ;
    assert(ec2 >= 0);
    let cap = PayStrategy::Capitalization;
    let once = PayStrategy::Once;
    assert(earned(p, rate, start, end, cap) == accrue(0, a, rate, start.day as int, sec, end, cap));
    assert(accrue(0, a, rate, start.day as int, sec, end, cap) == accrue(
        e1,
        a + e1,
        rate,
        first,
        sec,
        end,
        cap,
    ));
    assert(accrue(e1, a + e1, rate, first, sec, end, cap) == accrue(
        e1 + ec2,
        a + e1 + ec2,
        rate,
        second,
        sec,
        end,
        cap,
    ));
    assert(earned(p, rate, start, end, once) == accrue(0, a, rate, start.day as int, sec, end, once));
    assert(accrue(0, a, rate, start.day as int, sec, end, once) == accrue(
        e1,
        a,
        rate,
        first,
        sec,
        end,
        once,
    ));
    assert(accrue(e1, a, rate, first, sec, end, once) == accrue(
        e1 + eo2,
        a,
        rate,
        second,
        sec,
        end,
        once,
    ));
    lemma_compounding_keeps_ahead(
        e1 + ec2,
        a + e1 + ec2,
        e1 + eo2,
        a,
        rate,
        second,
        sec,
        end,
    );
}

} // verus!
