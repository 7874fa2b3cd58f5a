//! The diversification policy and the reallocation advisor.
//!
//! Shares of the portfolio and commissions are in parts per million; money in
//! minor units; interest, commissions and benefits in fine units of
//! `EARN_SCALE` per minor unit.
use crate::accrual::{calc_earn, earned, in_limit, opt_int, PayStrategy, Stamp, RATE_SCALE};
use vstd::prelude::*;

verus! {

/// Fine units of interest for one minor unit times one part per million
/// (`EARN_SCALE / RATE_SCALE`).
pub const FINE_PER_PPM: i128 = 1461;

/// A move is suggested only when it gains at least this much, in fine units
/// (ten whole currency units).
pub const MIN_BENEFIT: i128 = 1461000000000;

/// A counterparty offering a deposit product.
pub struct Bank {
    pub name: String,
    /// Offered yearly rate, in parts per million.
    pub rate: i32,
    /// Smallest allowed share of the portfolio, in parts per million.
    pub min_capacity: u32,
    /// Largest allowed share of the portfolio, in parts per million.
    pub max_capacity: u32,
    /// Cost of moving money here, in parts per million of the moved amount.
    pub transfer_commission: u32,
    pub pay_strategy: PayStrategy,
}

/// One active term deposit.
pub struct Deposit {
    /// Name of the bank that holds it.
    pub bank: String,
    pub name: String,
    pub date_open: Stamp,
    pub date_close: Stamp,
    /// Principal, in minor units.
    pub amount: u64,
    /// Yearly rate, in parts per million.
    pub rate: i32,
    pub pay_strategy: PayStrategy,
}

impl Deposit {
    /// Well-formed: valid stamps, closing no earlier than opening, and a
    /// positive principal.
    pub open spec fn wf(self) -> bool {
        self.date_open.wf() && self.date_close.wf() && !self.date_open.after(self.date_close)
            && self.amount > 0
    }
}

/// A recommendation to move one deposit to another bank.
#[derive(Clone, Copy, PartialEq, Eq, Debug, Structural)]
pub struct Suggestion {
    /// Index of the deposit.
    pub deposit: usize,
    /// Index of the bank that holds it now.
    pub from_bank: usize,
    /// Index of the bank to move it to.
    pub to_bank: usize,
    /// Cost of the move, in fine units.
    pub commission: i128,
    /// Gain of the move net of the commission, in fine units.
    pub benefit: i128,
}

/// Interest, in fine units, that the deposit earns on its own terms from
/// its opening up to `date_end`.
pub fn calc_depo_earn(deposit: &Deposit, date_end: Stamp) -> (r: Option<i128>)
    requires
        deposit.date_open.wf(),
        date_end.wf(),
        !deposit.date_open.after(date_end),
    ensures
        opt_int(r) == earned(
            deposit.amount as int,
            deposit.rate as int,
            deposit.date_open,
            date_end,
            deposit.pay_strategy,
        ),
        r matches Some(v) ==> in_limit(v as int),
{
    calc_earn(deposit.amount, deposit.rate, deposit.date_open, date_end, deposit.pay_strategy)
}

/// Why no advice could be given.
#[derive(Clone, Copy, PartialEq, Eq, Debug, Structural)]
pub enum AdviceError {
    /// The deposit names a bank that is not known.
    UnknownBank { deposit: usize },
    /// The principals sum past `u64::MAX`.
    TotalTooLarge,
    /// The deposit's dates or amounts leave the range the accrual can hold.
    OutOfRange { deposit: usize },
}

/// The bank would hold a share of the portfolio within its bounds, the
/// checked ones only, after `delta` is added to its `bank_total`. The share
/// `(bank_total + delta) / total` is compared with bounds in parts per
/// million, multiplied out.
pub open spec fn fits(
    bank: Bank,
    delta: int,
    bank_total: int,
    total: int,
    check_lower: bool,
    check_upper: bool,
) -> bool {
    let share = (bank_total + delta) * RATE_SCALE;
    (!check_lower || bank.min_capacity * total <= share) && (!check_upper || share
        <= bank.max_capacity * total)
}

/// Decides whether `bank` stays within its diversification bounds once
/// `amount_diff` is added to its current `bank_total`, out of a portfolio of
/// `total_amount`.
pub fn check_diversification(
    bank: &Bank,
    amount_diff: i128,
    bank_total: u64,
    total_amount: u64,
    check_lower_bound: bool,
    check_upper_bound: bool,
) -> (r: bool)
    requires
        total_amount > 0,
        -0x1_0000_0000_0000_0000 <= amount_diff <= 0x1_0000_0000_0000_0000,
    ensures
        r == fits(
            *bank,
            amount_diff as int,
            bank_total as int,
            total_amount as int,
            check_lower_bound,
            check_upper_bound,
        ),
{
    let projected: i128 = bank_total as i128 + amount_diff;
    let share: i128 = projected * RATE_SCALE;
    let min_c: u32 = bank.min_capacity;
    let max_c: u32 = bank.max_capacity;
    assert(min_c * total_amount <= 0xffff_ffff * 0xffff_ffff_ffff_ffff) by (nonlinear_arith)
        requires
            min_c <= 0xffff_ffff,
            total_amount <= 0xffff_ffff_ffff_ffff,
    ;
    assert(max_c * total_amount <= 0xffff_ffff * 0xffff_ffff_ffff_ffff) by (nonlinear_arith)
        requires
            max_c <= 0xffff_ffff,
            total_amount <= 0xffff_ffff_ffff_ffff,
    ;
    let low: i128 = min_c as i128 * total_amount as i128;
    let high: i128 = max_c as i128 * total_amount as i128;
    (!check_lower_bound || low <= share) && (!check_upper_bound || share <= high)
}

/// A move of `delta` never helps a bank past its upper bound more than a
/// smaller one does, nor below its lower bound more than a larger one does.
pub proof fn lemma_fits_monotonic(
    bank: Bank,
    smaller: int,
    larger: int,
    bank_total: int,
    total: int,
)
    requires
        smaller <= larger,
    ensures
        fits(bank, larger, bank_total, total, false, true) ==> fits(
            bank,
            smaller,
            bank_total,
            total,
            false,
            true,
        ),
        fits(bank, smaller, bank_total, total, true, false) ==> fits(
            bank,
            larger,
            bank_total,
            total,
            true,
            false,
        ),
{
}

/// Sum of the principals.
pub open spec fn sum_amounts(deps: Seq<Deposit>) -> int
    decreases deps.len(),
{
    if deps.len() == 0 {
        0
    } else {
        sum_amounts(deps.drop_last()) + deps.last().amount
    }
}

/// Sum of the principals of the deposits held at the bank named `name`.
pub open spec fn bank_sum(deps: Seq<Deposit>, name: Seq<char>) -> int
    decreases deps.len(),
{
    if deps.len() == 0 {
        0
    } else {
        bank_sum(deps.drop_last(), name) + if deps.last().bank@ == name {
            deps.last().amount as int
        } else {
            0
        }
    }
}

/// Bank `j` comes before bank `c` when banks are ordered by rate, highest
/// first, equal rates in their given order.
pub open spec fn ranks_above(banks: Seq<Bank>, j: int, c: int) -> bool {
    banks[j].rate > banks[c].rate || (banks[j].rate == banks[c].rate && j < c)
}

/// Among the first `n` banks, the lowest ranked one named `name`: the last
/// of that name in the order of rates, highest first.
pub open spec fn lowest_named(banks: Seq<Bank>, name: Seq<char>, n: int) -> Option<int>
    decreases n,
{
    if n <= 0 {
        None
    } else {
        let b = lowest_named(banks, name, n - 1);
        if banks[n - 1].name@ == name && match b {
            None => true,
            Some(k) => ranks_above(banks, k, n - 1),
        } {
            Some(n - 1)
        } else {
            b
        }
    }
}

/// Among the first `n` banks, the highest ranked one named `name`: the first
/// of that name in the order of rates, highest first.
pub open spec fn highest_named(banks: Seq<Bank>, name: Seq<char>, n: int) -> Option<int>
    decreases n,
{
    if n <= 0 {
        None
    } else {
        let b = highest_named(banks, name, n - 1);
        if banks[n - 1].name@ == name && match b {
            None => true,
            Some(k) => ranks_above(banks, n - 1, k),
        } {
            Some(n - 1)
        } else {
            b
        }
    }
}

/// Bank `j` may take `amount` away from a bank whose namesakes rank no
/// higher than bank `top`: it ranks above `top`, and stays within its upper
/// bound afterwards.
pub open spec fn qualifies(
    deps: Seq<Deposit>,
    banks: Seq<Bank>,
    top: int,
    j: int,
    amount: int,
) -> bool {
    ranks_above(banks, j, top) && fits(
        banks[j],
        amount,
        bank_sum(deps, banks[j].name@),
        sum_amounts(deps),
        false,
        true,
    )
}

/// The highest ranked of the first `n` banks that qualifies.
pub open spec fn best_candidate(
    deps: Seq<Deposit>,
    banks: Seq<Bank>,
    top: int,
    amount: int,
    n: int,
) -> Option<int>
    decreases n,
{
    if n <= 0 {
        None
    } else {
        let b = best_candidate(deps, banks, top, amount, n - 1);
        if qualifies(deps, banks, top, n - 1, amount) && match b {
            None => true,
            Some(k) => ranks_above(banks, n - 1, k),
        } {
            Some(n - 1)
        } else {
            b
        }
    }
}

/// The bank that deposit `d` is best placed in, where `c` is the lowest
/// and `top` the highest ranked bank of its bank's name: `c` itself when its
/// lower bound forbids the withdrawal or no bank qualifies.
pub open spec fn target_bank(
    deps: Seq<Deposit>,
    banks: Seq<Bank>,
    d: Deposit,
    c: int,
    top: int,
) -> int {
    if fits(
        banks[c],
        -(d.amount as int),
        bank_sum(deps, banks[c].name@),
        sum_amounts(deps),
        true,
        false,
    ) {
        match best_candidate(deps, banks, top, d.amount as int, banks.len() as int) {
            Some(j) => j,
            None => c,
        }
    } else {
        c
    }
}

/// Where the remaining schedule starts: now, or the closing date once it
/// has passed.
pub open spec fn remaining_start(d: Deposit, now: Stamp) -> Stamp {
    if now.after(d.date_close) {
        d.date_close
    } else {
        now
    }
}

/// The advice for deposit `i`: a suggestion, none, or an error.
pub open spec fn deposit_advice(
    deps: Seq<Deposit>,
    banks: Seq<Bank>,
    i: int,
    now: Stamp,
) -> Result<Option<Suggestion>, AdviceError> {
    let d = deps[i];
    match (
        lowest_named(banks, d.bank@, banks.len() as int),
        highest_named(banks, d.bank@, banks.len() as int),
    ) {
        (Some(c), Some(top)) => {
            let t = target_bank(deps, banks, d, c, top);
            let commission = if t == c {
                0
            } else {
                d.amount * banks[t].transfer_commission * FINE_PER_PPM
            };
            let possible = earned(
                d.amount as int,
                banks[t].rate as int,
                remaining_start(d, now),
                d.date_close,
                banks[t].pay_strategy,
            );
            let current = earned(
                d.amount as int,
                d.rate as int,
                d.date_open,
                d.date_close,
                d.pay_strategy,
            );
            match (possible, current) {
                (Some(p), Some(e)) => {
                    let benefit = p - commission - e;
                    if benefit >= MIN_BENEFIT {
                        Ok(
                            Some(
                                Suggestion {
                                    deposit: i as usize,
                                    from_bank: c as usize,
                                    to_bank: t as usize,
                                    commission: commission as i128,
                                    benefit: benefit as i128,
                                },
                            ),
                        )
                    } else {
                        Ok(None)
                    }
                },
                _ => Err(AdviceError::OutOfRange { deposit: i as usize }),
            }
        },
        _ => Err(AdviceError::UnknownBank { deposit: i as usize }),
    }
}

/// The suggestions for the first `n` deposits, in their order, or the first
/// error among them.
pub open spec fn advise_prefix(
    deps: Seq<Deposit>,
    banks: Seq<Bank>,
    now: Stamp,
    n: int,
) -> Result<Seq<Suggestion>, AdviceError>
    decreases n,
{
    if n <= 0 {
        Ok(Seq::empty())
    } else {
        match advise_prefix(deps, banks, now, n - 1) {
            Err(e) => Err(e),
            Ok(s) => match deposit_advice(deps, banks, n - 1, now) {
                Err(e) => Err(e),
                Ok(None) => Ok(s),
                Ok(Some(g)) => Ok(s.push(g)),
            },
        }
    }
}

/// The advisor's answer for the whole portfolio.
pub open spec fn advice(deps: Seq<Deposit>, banks: Seq<Bank>, now: Stamp) -> Result<
    Seq<Suggestion>,
    AdviceError,
> {
    if sum_amounts(deps) > u64::MAX {
        Err(AdviceError::TotalTooLarge)
    } else {
        advise_prefix(deps, banks, now, deps.len() as int)
    }
}

proof fn lemma_bank_sum_bounded(deps: Seq<Deposit>, name: Seq<char>)
    ensures
        0 <= bank_sum(deps, name) <= sum_amounts(deps),
    decreases deps.len(),
{
    if deps.len() > 0 {
        lemma_bank_sum_bounded(deps.drop_last(), name);
    }
}

proof fn lemma_prefix_sum_bounded(deps: Seq<Deposit>, i: int)
    requires
        0 <= i <= deps.len(),
    ensures
        0 <= sum_amounts(deps.take(i)) <= sum_amounts(deps),
    decreases deps.len(),
{
    if i == deps.len() {
        assert(deps.take(i) =~= deps);
        if deps.len() > 0 {
            lemma_prefix_sum_bounded(deps.drop_last(), i - 1);
        }
    } else {
        lemma_prefix_sum_bounded(deps.drop_last(), i);
        assert(deps.drop_last().take(i) =~= deps.take(i));
    }
}

proof fn lemma_sum_covers_member(deps: Seq<Deposit>, i: int)
    requires
        0 <= i < deps.len(),
    ensures
        deps[i].amount <= sum_amounts(deps),
    decreases deps.len(),
{
    lemma_prefix_sum_bounded(deps.drop_last(), deps.len() - 1);
    assert(deps.drop_last().take(deps.len() - 1) =~= deps.drop_last());
    if i < deps.len() - 1 {
        lemma_sum_covers_member(deps.drop_last(), i);
    }
}

proof fn lemma_error_persists(
    deps: Seq<Deposit>,
    banks: Seq<Bank>,
    now: Stamp,
    n: int,
    m: int,
    e: AdviceError,
)
    requires
        0 <= n <= m,
        advise_prefix(deps, banks, now, n) == Err::<Seq<Suggestion>, AdviceError>(e),
    ensures
        advise_prefix(deps, banks, now, m) == Err::<Seq<Suggestion>, AdviceError>(e),
    decreases m - n,
{
    if n < m {
        lemma_error_persists(deps, banks, now, n, m - 1, e);
    }
}

/// Sum of all principals, or `None` past `u64::MAX`.
fn total_amount(deps: &Vec<Deposit>) -> (r: Option<u64>)
    ensures
        match r {
            Some(t) => t == sum_amounts(deps@),
            None => sum_amounts(deps@) > u64::MAX,
        },
{
    let mut sum: u64 = 0;
    let mut i: usize = 0;
    while i < deps.len()
        invariant
            i <= deps.len(),
            sum == sum_amounts(deps@.take(i as int)),
        decreases deps.len() - i,
    {
        assert(deps@.take(i + 1).drop_last() =~= deps@.take(i as int));
        let a: u64 = deps[i].amount;
        if sum > u64::MAX - a {
            proof {
                lemma_prefix_sum_bounded(deps@, i + 1);
            }
            return None;
        }
        sum = sum + a;
        i = i + 1;
    }
    assert(deps@.take(i as int) =~= deps@);
    Some(sum)
}

/// Sum of the principals held at the bank named `name`.
fn bank_total(deps: &Vec<Deposit>, name: &String) -> (r: u64)
    requires
        sum_amounts(deps@) <= u64::MAX,
    ensures
        r == bank_sum(deps@, name@),
{
    let mut sum: u64 = 0;
    let mut i: usize = 0;
    while i < deps.len()
        invariant
            i <= deps.len(),
            sum_amounts(deps@) <= u64::MAX,
            sum == bank_sum(deps@.take(i as int), name@),
        decreases deps.len() - i,
    {
        assert(deps@.take(i + 1).drop_last() =~= deps@.take(i as int));
        proof {
            lemma_prefix_sum_bounded(deps@, i + 1);
            lemma_bank_sum_bounded(deps@.take(i + 1), name@);
        }
        if deps[i].bank == *name {
            sum = sum + deps[i].amount;
        }
        i = i + 1;
    }
    assert(deps@.take(i as int) =~= deps@);
    sum
}

/// The lowest and the highest ranked bank named `name`, if any.
fn find_bank(banks: &Vec<Bank>, name: &String) -> (r: (Option<usize>, Option<usize>))
    ensures
        opt_usize(r.0) == lowest_named(banks@, name@, banks.len() as int),
        opt_usize(r.1) == highest_named(banks@, name@, banks.len() as int),
        r.0 matches Some(c) ==> c < banks.len(),
        r.1 matches Some(c) ==> c < banks.len(),
{
    let mut low: Option<usize> = None;
    let mut high: Option<usize> = None;
    let mut i: usize = 0;
    while i < banks.len()
        invariant
            i <= banks.len(),
            opt_usize(low) == lowest_named(banks@, name@, i as int),
            opt_usize(high) == highest_named(banks@, name@, i as int),
            low matches Some(k) ==> k < i,
            high matches Some(k) ==> k < i,
        decreases banks.len() - i,
    {
        let bank = &banks[i];
        if bank.name == *name {
            match low {
                None => {
                    low = Some(i);
                },
                Some(k) => {
                    if banks[k].rate >= bank.rate {
                        low = Some(i);
                    }
                },
            }
            match high {
                None => {
                    high = Some(i);
                },
                Some(k) => {
                    if bank.rate > banks[k].rate {
                        high = Some(i);
                    }
                },
            }
        }
        i = i + 1;
    }
    (low, high)
}

pub open spec fn opt_usize(r: Option<usize>) -> Option<int> {
    match r {
        Some(v) => Some(v as int),
        None => None,
    }
}

/// The highest ranked bank that ranks above bank `top` and may take `amount`.
fn find_candidate(
    deps: &Vec<Deposit>,
    banks: &Vec<Bank>,
    totals: &Vec<u64>,
    total: u64,
    top: usize,
    amount: u64,
) -> (r: Option<usize>)
    requires
        top < banks.len(),
        total == sum_amounts(deps@),
        total > 0,
        totals.len() == banks.len(),
        forall|j: int| 0 <= j < banks.len() ==> totals[j] == bank_sum(deps@, #[trigger] banks@[j].name@),
    ensures
        opt_usize(r) == best_candidate(deps@, banks@, top as int, amount as int, banks.len() as int),
        r matches Some(j) ==> j < banks.len(),
{
    let mut best: Option<usize> = None;
    let mut j: usize = 0;
    while j < banks.len()
        invariant
            j <= banks.len(),
            top < banks.len(),
            total == sum_amounts(deps@),
            total > 0,
            totals.len() == banks.len(),
            forall|k: int| 0 <= k < banks.len() ==> totals[k] == bank_sum(deps@, #[trigger] banks@[k].name@),
            opt_usize(best) == best_candidate(deps@, banks@, top as int, amount as int, j as int),
            best matches Some(k) ==> k < j,
        decreases banks.len() - j,
    {
        let bank = &banks[j];
        let cur = &banks[top];
        let above = bank.rate > cur.rate || (bank.rate == cur.rate && j < top);
        if above && check_diversification(
            bank,
            amount as i128,
            totals[j],
            total,
            false,
            true,
        ) {
            let better = match best {
                None => true,
                Some(k) => bank.rate > banks[k].rate || (bank.rate == banks[k].rate && j < k),
            };
            if better {
                best = Some(j);
            }
        }
        j = j + 1;
    }
    best
}

/// For every deposit, in order, suggests a move where the gain net of the
/// transfer commission reaches `MIN_BENEFIT`. Its bank is the lowest ranked
/// bank of its name. The deposit leaves it only if that bank stays at or
/// above its lower bound; it goes to the highest ranked bank that ranks
/// above every bank of that name and stays within its upper bound. The
/// moved deposit would earn from `now` to its closing date; the kept one
/// earns over its own schedule.
pub fn suggest_reallocations(deposits: &Vec<Deposit>, banks: &Vec<Bank>, now: Stamp) -> (r: Result<
    Vec<Suggestion>,
    AdviceError,
>)
    requires
        now.wf(),
        forall|i: int| 0 <= i < deposits.len() ==> (#[trigger] deposits@[i]).wf(),
    ensures
        match r {
            Ok(v) => advice(deposits@, banks@, now) == Ok::<Seq<Suggestion>, AdviceError>(v@),
            Err(e) => advice(deposits@, banks@, now) == Err::<Seq<Suggestion>, AdviceError>(e),
        },
{
    let total = match total_amount(deposits) {
        None => {
            return Err(AdviceError::TotalTooLarge);
        },
        Some(t) => t,
    };
    let mut totals: Vec<u64> = Vec::new();
    let mut j: usize = 0;
    while j < banks.len()
        invariant
            j <= banks.len(),
            total == sum_amounts(deposits@),
            totals.len() == j,
            forall|k: int| 0 <= k < j ==> totals[k] == bank_sum(deposits@, #[trigger] banks@[k].name@),
        decreases banks.len() - j,
    {
        let t = bank_total(deposits, &banks[j].name);
        totals.push(t);
        j = j + 1;
    }
    let mut out: Vec<Suggestion> = Vec::new();
    let mut i: usize = 0;
    while i < deposits.len()
        invariant
            i <= deposits.len(),
            now.wf(),
            forall|k: int| 0 <= k < deposits.len() ==> (#[trigger] deposits@[k]).wf(),
            total == sum_amounts(deposits@),
            totals.len() == banks.len(),
            forall|k: int| 0 <= k < banks.len() ==> totals[k] == bank_sum(deposits@, #[trigger] banks@[k].name@),
            advise_prefix(deposits@, banks@, now, i as int) == Ok::<Seq<Suggestion>, AdviceError>(out@),
        decreases deposits.len() - i,
    {
        let d = &deposits[i];
        proof {
            lemma_sum_covers_member(deposits@, i as int);
        }
        let (low, high) = find_bank(banks, &d.bank);
        let (c, top) = match (low, high) {
            (Some(c), Some(top)) => (c, top),
            _ => {
                proof {
                    lemma_error_persists(
                        deposits@,
                        banks@,
                        now,
                        i + 1,
                        deposits.len() as int,
                        AdviceError::UnknownBank { deposit: i },
                    );
                }
                return Err(AdviceError::UnknownBank { deposit: i });
            },
        };
        let mut t: usize = c;
        if check_diversification(&banks[c], -(d.amount as i128), totals[c], total, true, false) {
            match find_candidate(deposits, banks, &totals, total, top, d.amount) {
                Some(k) => {
                    t = k;
                },
                None => {},
            }
        }
        let commission: i128 = if t == c {
            0
        } else {
            let a: u64 = d.amount;
            let tc: u32 = banks[t].transfer_commission;
            assert(a * tc * 1461 <= 0xffff_ffff_ffff_ffff * 0xffff_ffff * 1461) by (nonlinear_arith)
                requires
                    a <= 0xffff_ffff_ffff_ffff,
                    tc <= 0xffff_ffff,
            ;
            a as i128 * tc as i128 * FINE_PER_PPM
        };
        assert(0 <= commission <= 0xffff_ffff_ffff_ffff * 0xffff_ffff * 1461);
        let start = if now.is_after(&d.date_close) {
            d.date_close
        } else {
            now
        };
        let possible = calc_earn(d.amount, banks[t].rate, start, d.date_close, banks[t].pay_strategy);
        let current = calc_depo_earn(d, d.date_close);
        match (possible, current) {
            (Some(p), Some(e)) => {
                let benefit: i128 = p - commission - e;
                if benefit >= MIN_BENEFIT {
                    out.push(
                        Suggestion { deposit: i, from_bank: c, to_bank: t, commission, benefit },
                    );
                }
            },
            _ => {
                proof {
                    lemma_error_persists(
                        deposits@,
                        banks@,
                        now,
                        i + 1,
                        deposits.len() as int,
                        AdviceError::OutOfRange { deposit: i },
                    );
                }
                return Err(AdviceError::OutOfRange { deposit: i });
            },
        }
        i = i + 1;
    }
    Ok(out)
}

/// The advice depends on the deposits, the banks and the moment alone:
/// asked twice on the same inputs, the advisor answers the same.
pub proof fn lemma_advice_repeatable(
    deps: Seq<Deposit>,
    banks: Seq<Bank>,
    now: Stamp,
    first: Result<Seq<Suggestion>, AdviceError>,
    second: Result<Seq<Suggestion>, AdviceError>,
)
    requires
        first == advice(deps, banks, now),
        second == advice(deps, banks, now),
    ensures
        first == second,
{
}

/// The candidate search picks the first qualifying bank in the order of
/// rates, highest first, equal rates in their given order; or none when no
/// bank qualifies.
pub proof fn lemma_best_candidate_is_first(
    deps: Seq<Deposit>,
    banks: Seq<Bank>,
    top: int,
    amount: int,
    n: int,
)
    requires
        0 <= top < banks.len(),
        0 <= n <= banks.len(),
    ensures
        match best_candidate(deps, banks, top, amount, n) {
            Some(j) => 0 <= j < n && qualifies(deps, banks, top, j, amount) && forall|k: int|
                0 <= k < n && k != j && #[trigger] qualifies(deps, banks, top, k, amount)
                    ==> ranks_above(banks, j, k),
            None => forall|k: int| 0 <= k < n ==> !#[trigger] qualifies(deps, banks, top, k, amount),
        },
    decreases n,
{
    if n > 0 {
        lemma_best_candidate_is_first(deps, banks, top, amount, n - 1);
    }
}

/// Of the banks named `name`, `lowest_named` finds the one ranked below all
/// others of that name and `highest_named` the one ranked above them; both
/// find none exactly when no bank has that name.
pub proof fn lemma_namesakes(banks: Seq<Bank>, name: Seq<char>, n: int)
    requires
        0 <= n <= banks.len(),
    ensures
        match lowest_named(banks, name, n) {
            Some(c) => 0 <= c < n && banks[c].name@ == name && forall|k: int|
                0 <= k < n && k != c && #[trigger] banks[k].name@ == name ==> ranks_above(
                    banks,
                    k,
                    c,
                ),
            None => forall|k: int| 0 <= k < n ==> #[trigger] banks[k].name@ != name,
        },
        match highest_named(banks, name, n) {
            Some(c) => 0 <= c < n && banks[c].name@ == name && forall|k: int|
                0 <= k < n && k != c && #[trigger] banks[k].name@ == name ==> ranks_above(
                    banks,
                    c,
                    k,
                ),
            None => forall|k: int| 0 <= k < n ==> #[trigger] banks[k].name@ != name,
        },
    decreases n,
{
    if n > 0 {
        lemma_namesakes(banks, name, n - 1);
    }
}

/// A bank that qualifies ranks above every bank of the deposit's bank name,
/// and so carries another name.
pub proof fn lemma_candidate_above_namesakes(
    deps: Seq<Deposit>,
    banks: Seq<Bank>,
    name: Seq<char>,
    j: int,
    amount: int,
)
    requires
        0 <= j < banks.len(),
        highest_named(banks, name, banks.len() as int) is Some,
        qualifies(
            deps,
            banks,
            highest_named(banks, name, banks.len() as int)->Some_0,
            j,
            amount,
        ),
    ensures
        banks[j].name@ != name,
        forall|k: int|
            0 <= k < banks.len() && #[trigger] banks[k].name@ == name ==> ranks_above(banks, j, k),
{
    lemma_namesakes(banks, name, banks.len() as int);
}

/// A deposit whose bank cannot be resolved makes the whole advice fail; it
/// is never skipped.
pub proof fn lemma_unknown_bank_is_fatal(deps: Seq<Deposit>, banks: Seq<Bank>, now: Stamp, i: int)
    requires
        0 <= i < deps.len(),
        forall|k: int| 0 <= k < banks.len() ==> #[trigger] banks[k].name@ != deps[i].bank@,
    ensures
        advice(deps, banks, now) is Err,
{
    lemma_namesakes(banks, deps[i].bank@, banks.len() as int);
    if sum_amounts(deps) <= u64::MAX {
        let e = match advise_prefix(deps, banks, now, i) {
            Err(e) => e,
            Ok(_) => AdviceError::UnknownBank { deposit: i as usize },
        };
        assert(advise_prefix(deps, banks, now, i + 1) == Err::<Seq<Suggestion>, AdviceError>(e));
        lemma_error_persists(deps, banks, now, i + 1, deps.len() as int, e);
    }
}

} // verus!
