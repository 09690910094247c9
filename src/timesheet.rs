use vstd::prelude::*;

use crate::amount::{lemma_pow10_add, lemma_pow10_max_scale, lemma_pow10_mono, lemma_round_div_exact, pow10, pow10_exec, round_div, round_div_exec, Amount, MAX_MANTISSA, MAX_SCALE};
use crate::id::Id;
use crate::money::{same_currency, ExchangeError, Money, RateTable};
use crate::records::{Employee, Expense, Job};
use crate::time::{elapsed_seconds, Timestamp};
use money2::Currency;

verus! {

/// A continuous period of work by one employee on a [`Job`].
#[derive(Debug)]
pub struct Timesheet {
    pub id: Id,
    pub employee: Employee,
    pub expenses: Vec<Expense>,
    pub job: Job,
    pub time_begin: Timestamp,
    /// `None` while the work is ongoing.
    pub time_end: Option<Timestamp>,
    pub work_notes: String,
}

/// Why [`Timesheet::total_all`] produced no total.
#[derive(Clone, Copy, Debug, PartialEq, Eq, Structural)]
pub enum TotalError {
    /// A finished timesheet ends before it begins.
    NegativeDuration,
    /// A finished timesheet holds an expense in another currency than the hourly rate.
    CurrencyMismatch,
    /// The total, or a step towards it, does not fit in the machine's integers.
    Overflow,
}

/// The number of seconds in an hour.
pub const SECONDS_PER_HOUR: i128 = 3600;

impl Timesheet {
    pub open spec fn wf(self) -> bool {
        &&& forall|j: int| 0 <= j < self.expenses@.len() ==> (#[trigger] self.expenses@[j]).wf()
        &&& self.job.wf()
        &&& self.time_begin.wf()
        &&& self.time_end matches Some(e) ==> e.wf()
    }
}

pub open spec fn max_nat(a: nat, b: nat) -> nat {
    if a >= b {
        a
    } else {
        b
    }
}

/// A finished timesheet whose end lies before its beginning.
pub open spec fn runs_backwards(t: Timesheet) -> bool {
    t.time_end matches Some(end) && end.total_nanos() < t.time_begin.total_nanos()
}

pub open spec fn any_runs_backwards(s: Seq<Timesheet>) -> bool {
    exists|i: int| 0 <= i < s.len() && runs_backwards(#[trigger] s[i])
}

/// Every expense in `es` is in currency `c`.
pub open spec fn expenses_in(es: Seq<Expense>, c: Currency) -> bool {
    forall|j: int| 0 <= j < es.len() ==> (#[trigger] es[j]).cost.currency == c
}

/// A finished timesheet with an expense in another currency than `c`.
pub open spec fn has_foreign_expense(t: Timesheet, c: Currency) -> bool {
    t.time_end is Some && !expenses_in(t.expenses@, c)
}

pub open spec fn any_foreign_expense(s: Seq<Timesheet>, c: Currency) -> bool {
    exists|i: int| 0 <= i < s.len() && has_foreign_expense(#[trigger] s[i], c)
}

/// The largest scale among the costs of `es`.
pub open spec fn expenses_scale(es: Seq<Expense>) -> nat
    decreases es.len(),
{
    if es.len() == 0 {
        0
    } else {
        max_nat(expenses_scale(es.drop_last()), es.last().cost.amount.scale as nat)
    }
}

/// The largest of `base` and the scales of the expenses of the finished timesheets in `s`.
pub open spec fn common_scale(s: Seq<Timesheet>, base: nat) -> nat
    decreases s.len(),
{
    if s.len() == 0 {
        base
    } else if s.last().time_end is Some {
        max_nat(common_scale(s.drop_last(), base), expenses_scale(s.last().expenses@))
    } else {
        common_scale(s.drop_last(), base)
    }
}

/// The mantissa of `a` at `scale` fractional digits (`scale` is at least `a.scale`).
pub open spec fn scaled(a: Amount, scale: nat) -> int {
    a.mantissa * pow10((scale - a.scale) as nat)
}

/// The sum of the costs of `es`, as a mantissa at `scale` fractional digits.
pub open spec fn expenses_num(es: Seq<Expense>, scale: nat) -> int
    decreases es.len(),
{
    if es.len() == 0 {
        0
    } else {
        expenses_num(es.drop_last(), scale) + scaled(es.last().cost.amount, scale)
    }
}

/// What a timesheet adds to the total, in units of `10^-scale / 3600`: its whole seconds times
/// the rate, plus 3600 times its expenses; nothing while it is ongoing.
pub open spec fn term_num(t: Timesheet, rate: Amount, scale: nat) -> int {
    match t.time_end {
        Some(end) => scaled(rate, scale) * elapsed_seconds(t.time_begin, end)
            + SECONDS_PER_HOUR * expenses_num(t.expenses@, scale),
        None => 0,
    }
}

/// The exact total of `s`, in units of `10^-scale / 3600`.
pub open spec fn total_num(s: Seq<Timesheet>, rate: Amount, scale: nat) -> int
    decreases s.len(),
{
    if s.len() == 0 {
        0
    } else {
        total_num(s.drop_last(), rate, scale) + term_num(s.last(), rate, scale)
    }
}

/// The scale at which the total of `s` is computed exactly.
pub open spec fn total_scale(s: Seq<Timesheet>, rate: Amount) -> nat {
    common_scale(s, rate.scale as nat)
}

/// The total of `s` at the hourly rate `rate`, rounded half away from zero to two fractional
/// digits: the mantissa of the result at scale 2.
pub open spec fn total_cents(s: Seq<Timesheet>, rate: Amount) -> int {
    round_div(
        total_num(s, rate, total_scale(s, rate)),
        36 * pow10(total_scale(s, rate)),
    )
}

pub open spec fn in_i128(x: int) -> bool {
    i128::MIN <= x <= i128::MAX
}

/// Each scaled cost of `es`, and each running sum of them, fits in an `i128`.
pub open spec fn expenses_fit(es: Seq<Expense>, scale: nat) -> bool
    decreases es.len(),
{
    es.len() == 0 || (expenses_fit(es.drop_last(), scale) && in_i128(
        scaled(es.last().cost.amount, scale),
    ) && in_i128(expenses_num(es, scale)))
}

/// Each step of the term of `t` fits in an `i128`.
pub open spec fn term_fits(t: Timesheet, rate: Amount, scale: nat) -> bool {
    match t.time_end {
        Some(end) => {
            &&& in_i128(scaled(rate, scale) * elapsed_seconds(t.time_begin, end))
            &&& expenses_fit(t.expenses@, scale)
            &&& in_i128(SECONDS_PER_HOUR * expenses_num(t.expenses@, scale))
            &&& in_i128(term_num(t, rate, scale))
        },
        None => true,
    }
}

/// Each term of `s`, and each running sum of them, fits in an `i128`.
pub open spec fn totals_fit(s: Seq<Timesheet>, rate: Amount, scale: nat) -> bool
    decreases s.len(),
{
    s.len() == 0 || (totals_fit(s.drop_last(), rate, scale) && term_fits(s.last(), rate, scale)
        && in_i128(total_num(s, rate, scale)))
}

/// The total of `s` can be computed within the machine's integers and fits in an [`Amount`].
pub open spec fn total_fits(s: Seq<Timesheet>, rate: Amount) -> bool {
    let scale = total_scale(s, rate);
    &&& in_i128(scaled(rate, scale))
    &&& totals_fit(s, rate, scale)
    &&& total_num(s, rate, scale) > i128::MIN
    &&& -MAX_MANTISSA <= total_cents(s, rate) <= MAX_MANTISSA
}

proof fn lemma_expenses_scale_bound(es: Seq<Expense>, j: int)
    requires
        0 <= j < es.len(),
    ensures
        es[j].cost.amount.scale <= expenses_scale(es),
    decreases es.len(),
{
    if j < es.len() - 1 {
        lemma_expenses_scale_bound(es.drop_last(), j);
    }
}

proof fn lemma_common_scale_bound(s: Seq<Timesheet>, base: nat, i: int)
    requires
        0 <= i < s.len(),
        s[i].time_end is Some,
    ensures
        expenses_scale(s[i].expenses@) <= common_scale(s, base),
    decreases s.len(),
{
    if i < s.len() - 1 {
        lemma_common_scale_bound(s.drop_last(), base, i);
    }
}

proof fn lemma_common_scale_base(s: Seq<Timesheet>, base: nat)
    ensures
        base <= common_scale(s, base),
    decreases s.len(),
{
    if s.len() > 0 {
        lemma_common_scale_base(s.drop_last(), base);
    }
}

proof fn lemma_expenses_fit_prefix(es: Seq<Expense>, scale: nat, k: int)
    requires
        0 <= k <= es.len(),
        expenses_fit(es, scale),
    ensures
        expenses_fit(es.subrange(0, k), scale),
    decreases es.len(),
{
    if k == es.len() {
        assert(es.subrange(0, k) =~= es);
    } else {
        assert(es.drop_last().subrange(0, k) =~= es.subrange(0, k));
        lemma_expenses_fit_prefix(es.drop_last(), scale, k);
    }
}

proof fn lemma_totals_fit_prefix(s: Seq<Timesheet>, rate: Amount, scale: nat, k: int)
    requires
        0 <= k <= s.len(),
        totals_fit(s, rate, scale),
    ensures
        totals_fit(s.subrange(0, k), rate, scale),
    decreases s.len(),
{
    if k == s.len() {
        assert(s.subrange(0, k) =~= s);
    } else {
        assert(s.drop_last().subrange(0, k) =~= s.subrange(0, k));
        lemma_totals_fit_prefix(s.drop_last(), rate, scale, k);
    }
}

/// Whether a finished timesheet of `ts` ends before it begins.
fn find_runs_backwards(ts: &[Timesheet]) -> (r: bool)
    ensures
        r == any_runs_backwards(ts@),
{
    let mut i: usize = 0;
    while i < ts.len()
        invariant
            i <= ts@.len(),
            forall|k: int| 0 <= k < i ==> !runs_backwards(#[trigger] ts@[k]),
        decreases ts@.len() - i,
    {
        let t = &ts[i];
        match t.time_end {
            Some(end) => {
                if end.total_nanos_exec() < t.time_begin.total_nanos_exec() {
                    assert(runs_backwards(ts@[i as int]));
                    return true;
                }
            },
            None => {},
        }
        i = i + 1;
    }
    false
}

/// Whether every expense of `es` is in `c`.
fn all_expenses_in(es: &Vec<Expense>, c: Currency) -> (r: bool)
    ensures
        r == expenses_in(es@, c),
{
    let mut j: usize = 0;
    while j < es.len()
        invariant
            j <= es@.len(),
            forall|k: int| 0 <= k < j ==> (#[trigger] es@[k]).cost.currency == c,
        decreases es@.len() - j,
    {
        if !same_currency(es[j].cost.currency, c) {
            return false;
        }
        j = j + 1;
    }
    true
}

/// Whether a finished timesheet of `ts` holds an expense in another currency than `c`.
fn find_foreign_expense(ts: &[Timesheet], c: Currency) -> (r: bool)
    ensures
        r == any_foreign_expense(ts@, c),
{
    let mut i: usize = 0;
    while i < ts.len()
        invariant
            i <= ts@.len(),
            forall|k: int| 0 <= k < i ==> !has_foreign_expense(#[trigger] ts@[k], c),
        decreases ts@.len() - i,
    {
        if ts[i].time_end.is_some() && !all_expenses_in(&ts[i].expenses, c) {
            assert(has_foreign_expense(ts@[i as int], c));
            return true;
        }
        i = i + 1;
    }
    false
}

/// The largest scale among the costs of `es`.
fn expenses_scale_exec(es: &Vec<Expense>) -> (r: u32)
    requires
        forall|j: int| 0 <= j < es@.len() ==> (#[trigger] es@[j]).wf(),
    ensures
        r == expenses_scale(es@),
        r <= MAX_SCALE,
{
    let mut r: u32 = 0;
    let mut j: usize = 0;
    while j < es.len()
        invariant
            j <= es@.len(),
            forall|k: int| 0 <= k < es@.len() ==> (#[trigger] es@[k]).wf(),
            r == expenses_scale(es@.subrange(0, j as int)),
            r <= MAX_SCALE,
        decreases es@.len() - j,
    {
        assert(es@.subrange(0, j + 1).drop_last() =~= es@.subrange(0, j as int));
        let s = es[j].cost.amount.scale;
        if s > r {
            r = s;
        }
        j = j + 1;
    }
    assert(es@.subrange(0, es@.len() as int) =~= es@);
    r
}

/// The largest of `base` and the scales of the expenses of the finished timesheets in `ts`.
fn common_scale_exec(ts: &[Timesheet], base: u32) -> (r: u32)
    requires
        base <= MAX_SCALE,
        forall|i: int| 0 <= i < ts@.len() ==> (#[trigger] ts@[i]).wf(),
    ensures
        r == common_scale(ts@, base as nat),
        r <= MAX_SCALE,
{
    let mut r: u32 = base;
    let mut i: usize = 0;
    while i < ts.len()
        invariant
            i <= ts@.len(),
            base <= MAX_SCALE,
            forall|k: int| 0 <= k < ts@.len() ==> (#[trigger] ts@[k]).wf(),
            r == common_scale(ts@.subrange(0, i as int), base as nat),
            r <= MAX_SCALE,
        decreases ts@.len() - i,
    {
        assert(ts@.subrange(0, i + 1).drop_last() =~= ts@.subrange(0, i as int));
        if ts[i].time_end.is_some() {
            assert(ts@[i as int].wf());
            let s = expenses_scale_exec(&ts[i].expenses);
            if s > r {
                r = s;
            }
        }
        i = i + 1;
    }
    assert(ts@.subrange(0, ts@.len() as int) =~= ts@);
    r
}

/// The sum of the costs of `es` at `scale` fractional digits, or `None` where a step of it
/// leaves the `i128` range.
fn expenses_sum(es: &Vec<Expense>, scale: u32) -> (r: Option<i128>)
    requires
        forall|j: int| 0 <= j < es@.len() ==> (#[trigger] es@[j]).wf(),
        expenses_scale(es@) <= scale <= MAX_SCALE,
    ensures
        r is Some <==> expenses_fit(es@, scale as nat),
        r matches Some(v) ==> v == expenses_num(es@, scale as nat),
{
    let mut acc: i128 = 0;
    let mut j: usize = 0;
    while j < es.len()
        invariant
            j <= es@.len(),
            forall|k: int| 0 <= k < es@.len() ==> (#[trigger] es@[k]).wf(),
            expenses_scale(es@) <= scale <= MAX_SCALE,
            expenses_fit(es@.subrange(0, j as int), scale as nat),
            acc == expenses_num(es@.subrange(0, j as int), scale as nat),
        decreases es@.len() - j,
    {
        let ghost next = es@.subrange(0, j + 1);
        assert(next.drop_last() =~= es@.subrange(0, j as int));
        assert(next.last() == es@[j as int]);
        proof {
            lemma_expenses_scale_bound(es@, j as int);
        }
        let a = es[j].cost.amount;
        let p = pow10_exec(scale - a.scale);
        let x = match a.mantissa.checked_mul(p) {
            Some(x) => x,
            None => {
                proof {
                    if expenses_fit(es@, scale as nat) {
                        lemma_expenses_fit_prefix(es@, scale as nat, j + 1);
                    }
                }
                return None;
            },
        };
        acc = match acc.checked_add(x) {
            Some(v) => v,
            None => {
                proof {
                    if expenses_fit(es@, scale as nat) {
                        lemma_expenses_fit_prefix(es@, scale as nat, j + 1);
                    }
                }
                return None;
            },
        };
        j = j + 1;
    }
    assert(es@.subrange(0, es@.len() as int) =~= es@);
    Some(acc)
}

/// What the finished timesheet `t` adds to the total, in units of `10^-scale / 3600`, or `None`
/// where a step of it leaves the `i128` range.
fn term_exec(t: &Timesheet, rate: Amount, scaled_rate: i128, scale: u32) -> (r: Option<i128>)
    requires
        t.wf(),
        t.time_end is Some,
        !runs_backwards(*t),
        expenses_scale(t.expenses@) <= scale <= MAX_SCALE,
        scaled_rate == scaled(rate, scale as nat),
    ensures
        r is Some <==> term_fits(*t, rate, scale as nat),
        r matches Some(v) ==> v == term_num(*t, rate, scale as nat),
{
    let end = t.time_end.unwrap();
    let span = end.total_nanos_exec() - t.time_begin.total_nanos_exec();
    let secs = span / 1000000000;
    assert(secs == elapsed_seconds(t.time_begin, end));
    let labor = match scaled_rate.checked_mul(secs) {
        Some(v) => v,
        None => {
            return None;
        },
    };
    let es = match expenses_sum(&t.expenses, scale) {
        Some(v) => v,
        None => {
            return None;
        },
    };
    let fee = match es.checked_mul(SECONDS_PER_HOUR) {
        Some(v) => v,
        None => {
            return None;
        },
    };
    labor.checked_add(fee)
}

impl Timesheet {
    /// The money owed for the finished timesheets of `timesheets` at `hourly_rate`: for each,
    /// the rate times its duration in whole seconds over 3600, plus its expenses. Ongoing
    /// timesheets, expenses included, count for nothing. The exact sum is rounded half away from
    /// zero to two fractional digits, in the currency of `hourly_rate`.
    ///
    /// Fails with `NegativeDuration` when a finished timesheet ends before it begins; else with
    /// `CurrencyMismatch` when a finished timesheet holds an expense in another currency than the
    /// rate; else with `Overflow` when the computation leaves the machine's integers.
    pub fn total_all(timesheets: &[Timesheet], hourly_rate: Money) -> (r: Result<Money, TotalError>)
        requires
            hourly_rate.wf(),
            forall|i: int| 0 <= i < timesheets@.len() ==> (#[trigger] timesheets@[i]).wf(),
        ensures
            r == Err::<Money, TotalError>(TotalError::NegativeDuration) <==> any_runs_backwards(
                timesheets@,
            ),
            r == Err::<Money, TotalError>(TotalError::CurrencyMismatch) <==> !any_runs_backwards(
                timesheets@,
            ) && any_foreign_expense(timesheets@, hourly_rate.currency),
            r == Err::<Money, TotalError>(TotalError::Overflow) <==> !any_runs_backwards(
                timesheets@,
            ) && !any_foreign_expense(timesheets@, hourly_rate.currency) && !total_fits(
                timesheets@,
                hourly_rate.amount,
            ),
            r matches Ok(m) ==> m.currency == hourly_rate.currency && m.amount.scale == 2
                && m.amount.mantissa == total_cents(timesheets@, hourly_rate.amount),
    {
        let ghost s = timesheets@;
        let ghost rate = hourly_rate.amount;
        if find_runs_backwards(timesheets) {
            return Err(TotalError::NegativeDuration);
        }
        if find_foreign_expense(timesheets, hourly_rate.currency) {
            return Err(TotalError::CurrencyMismatch);
        }
        let scale = common_scale_exec(timesheets, hourly_rate.amount.scale);
        let ghost sc = scale as nat;
        proof {
            lemma_common_scale_base(s, rate.scale as nat);
        }
        let scaled_rate = match hourly_rate.amount.mantissa.checked_mul(
            pow10_exec(scale - hourly_rate.amount.scale),
        ) {
            Some(v) => v,
            None => {
                return Err(TotalError::Overflow);
            },
        };
        let mut acc: i128 = 0;
        let mut i: usize = 0;
        while i < timesheets.len()
            invariant
                i <= s.len(),
                s == timesheets@,
                rate == hourly_rate.amount,
                forall|k: int| 0 <= k < s.len() ==> (#[trigger] s[k]).wf(),
                !any_runs_backwards(s),
                !any_foreign_expense(s, hourly_rate.currency),
                sc == scale,
                scale == total_scale(s, rate),
                scale <= MAX_SCALE,
                scaled_rate == scaled(rate, sc),
                totals_fit(s.subrange(0, i as int), rate, sc),
                acc == total_num(s.subrange(0, i as int), rate, sc),
            decreases s.len() - i,
        {
            let ghost next = s.subrange(0, i + 1);
            assert(next.drop_last() =~= s.subrange(0, i as int));
            assert(next.last() == s[i as int]);
            let t = &timesheets[i];
            if t.time_end.is_some() {
                proof {
                    lemma_common_scale_bound(s, rate.scale as nat, i as int);
                    assert(!runs_backwards(s[i as int]));
                }
                let term = match term_exec(t, hourly_rate.amount, scaled_rate, scale) {
                    Some(v) => v,
                    None => {
                        proof {
                            if totals_fit(s, rate, sc) {
                                lemma_totals_fit_prefix(s, rate, sc, i + 1);
                            }
                        }
                        return Err(TotalError::Overflow);
                    },
                };
                acc = match acc.checked_add(term) {
                    Some(v) => v,
                    None => {
                        proof {
                            if totals_fit(s, rate, sc) {
                                lemma_totals_fit_prefix(s, rate, sc, i + 1);
                            }
                        }
                        return Err(TotalError::Overflow);
                    },
                };
            }
            i = i + 1;
        }
        assert(s.subrange(0, s.len() as int) =~= s);
        if acc == i128::MIN {
            return Err(TotalError::Overflow);
        }
        proof {
            lemma_pow10_mono(sc, MAX_SCALE as nat);
            lemma_pow10_max_scale();
        }
        let d = 36 * pow10_exec(scale);
        let c = round_div_exec(acc, d);
        if c < -MAX_MANTISSA || c > MAX_MANTISSA {
            return Err(TotalError::Overflow);
        }
        Ok(Money { amount: Amount { mantissa: c, scale: 2 }, currency: hourly_rate.currency })
    }
}

impl Timesheet {
    /// Every amount of money in `self` is in `c`.
    pub open spec fn in_currency(self, c: Currency) -> bool {
        expenses_in(self.expenses@, c) && self.job.in_currency(c)
    }

    /// Exchanging `self` into `target` with `rates` succeeds: every expense and the job can be
    /// exchanged.
    pub open spec fn exchange_ok(self, target: Currency, rates: Seq<(Currency, Amount)>) -> bool {
        &&& forall|j: int|
            0 <= j < self.expenses@.len() ==> (#[trigger] self.expenses@[j]).exchange_ok(
                target,
                rates,
            )
        &&& self.job.exchange_ok(target, rates)
    }

    /// `t` is `self` with every amount of money exchanged into `target` with `rates`: each
    /// expense, in order, and the job; every other field kept.
    pub open spec fn exchanged(self, target: Currency, rates: Seq<(Currency, Amount)>, t: Timesheet) -> bool {
        &&& t.id == self.id
        &&& t.employee == self.employee
        &&& t.time_begin == self.time_begin
        &&& t.time_end == self.time_end
        &&& t.work_notes == self.work_notes
        &&& t.expenses@.len() == self.expenses@.len()
        &&& forall|j: int|
            0 <= j < self.expenses@.len() ==> (#[trigger] self.expenses@[j]).exchanged(
                target,
                rates,
                t.expenses@[j],
            )
        &&& self.job.exchanged(target, rates, t.job)
    }

    /// `t` holds the same values as `self`, field by field.
    pub open spec fn same_values(self, t: Timesheet) -> bool {
        &&& t.id == self.id
        &&& t.employee == self.employee
        &&& t.time_begin == self.time_begin
        &&& t.time_end == self.time_end
        &&& t.work_notes == self.work_notes
        &&& t.expenses@ == self.expenses@
        &&& t.job == self.job
    }

    /// Exchanges every amount of money in `self` into `target` with `rates`: each expense, in
    /// order, and the job's invoice. Fails, with no partial result, when one of them cannot be
    /// exchanged.
    pub fn exchange(self, target: Currency, rates: &RateTable) -> (r: Result<Timesheet, ExchangeError>)
        requires
            self.wf(),
            rates.wf(),
        ensures
            r is Ok <==> self.exchange_ok(target, rates.rates@),
            r matches Ok(t) ==> self.exchanged(target, rates.rates@, t) && t.wf(),
    {
        let ghost table = rates.rates@;
        let mut out: Vec<Expense> = Vec::new();
        let mut j: usize = 0;
        while j < self.expenses.len()
            invariant
                j <= self.expenses@.len(),
                self.wf(),
                rates.wf(),
                table == rates.rates@,
                out@.len() == j,
                forall|k: int|
                    0 <= k < j ==> (#[trigger] self.expenses@[k]).exchanged(target, table, out@[k])
                        && self.expenses@[k].exchange_ok(target, table),
                forall|k: int| 0 <= k < j ==> (#[trigger] out@[k]).wf(),
            decreases self.expenses@.len() - j,
        {
            let e = self.expenses[j].duplicate();
            assert(e.wf());
            match e.exchange(target, rates) {
                Ok(x) => {
                    out.push(x);
                },
                Err(err) => {
                    assert(!self.expenses@[j as int].exchange_ok(target, table));
                    return Err(err);
                },
            }
            j = j + 1;
        }
        let Timesheet { id, employee, expenses: _, job, time_begin, time_end, work_notes } = self;
        match job.exchange(target, rates) {
            Ok(job) => Ok(
                Timesheet { id, employee, expenses: out, job, time_begin, time_end, work_notes },
            ),
            Err(err) => Err(err),
        }
    }
}

/// Exchanging a timesheet whose money is all in `c` into `c` leaves every value as it was.
pub proof fn lemma_exchange_identity(
    t: Timesheet,
    c: Currency,
    rates: Seq<(Currency, Amount)>,
    u: Timesheet,
)
    requires
        t.in_currency(c),
        t.exchanged(c, rates, u),
    ensures
        u.same_values(t),
{
    assert forall|j: int| 0 <= j < t.expenses@.len() implies u.expenses@[j] == t.expenses@[j] by {
        assert(t.expenses@[j].exchanged(c, rates, u.expenses@[j]));
        assert(t.expenses@[j].cost.currency == c);
    }
    assert(u.expenses@ =~= t.expenses@);
}

/// After an exchange into `c`, every amount of money is in `c`.
pub proof fn lemma_exchanged_in_currency(
    t: Timesheet,
    c: Currency,
    rates: Seq<(Currency, Amount)>,
    u: Timesheet,
)
    requires
        t.exchanged(c, rates, u),
    ensures
        u.in_currency(c),
{
    assert forall|j: int| 0 <= j < u.expenses@.len() implies (
    #[trigger] u.expenses@[j]).cost.currency == c by {
        assert(t.expenses@[j].exchanged(c, rates, u.expenses@[j]));
    }
}

/// Exchanging into `c` a timesheet that was just exchanged into `c` changes no value.
pub proof fn lemma_exchange_idempotent(
    t: Timesheet,
    c: Currency,
    rates: Seq<(Currency, Amount)>,
    once: Timesheet,
    twice: Timesheet,
)
    requires
        t.exchanged(c, rates, once),
        once.exchanged(c, rates, twice),
    ensures
        twice.same_values(once),
{
    lemma_exchanged_in_currency(t, c, rates, once);
    lemma_exchange_identity(once, c, rates, twice);
}

/// Exchange changes only amounts of money and their currencies: ids, names, labels, times, notes
/// and the order of the expenses stay as they were.
pub proof fn lemma_exchange_keeps_non_monetary(
    t: Timesheet,
    c: Currency,
    rates: Seq<(Currency, Amount)>,
    u: Timesheet,
)
    requires
        t.exchanged(c, rates, u),
    ensures
        u.id == t.id,
        u.employee == t.employee,
        u.time_begin == t.time_begin,
        u.time_end == t.time_end,
        u.work_notes == t.work_notes,
        t.job.same_but_invoice(u.job),
        u.job.invoice.date == t.job.invoice.date,
        u.expenses@.len() == t.expenses@.len(),
        forall|j: int|
            0 <= j < t.expenses@.len() ==> {
                &&& (#[trigger] u.expenses@[j]).id == t.expenses@[j].id
                &&& u.expenses@[j].category == t.expenses@[j].category
                &&& u.expenses@[j].description == t.expenses@[j].description
            },
{
    assert forall|j: int| 0 <= j < t.expenses@.len() implies {
        &&& (#[trigger] u.expenses@[j]).id == t.expenses@[j].id
        &&& u.expenses@[j].category == t.expenses@[j].category
        &&& u.expenses@[j].description == t.expenses@[j].description
    } by {
        assert(t.expenses@[j].exchanged(c, rates, u.expenses@[j]));
    }
}

/// An ongoing timesheet counts for nothing: added to any timesheets, it changes neither the total
/// nor whether it fails, however many expenses it holds.
pub proof fn lemma_ongoing_adds_nothing(s: Seq<Timesheet>, t: Timesheet, hourly_rate: Money)
    requires
        t.time_end is None,
    ensures
        total_cents(s.push(t), hourly_rate.amount) == total_cents(s, hourly_rate.amount),
        any_runs_backwards(s.push(t)) == any_runs_backwards(s),
        any_foreign_expense(s.push(t), hourly_rate.currency) == any_foreign_expense(
            s,
            hourly_rate.currency,
        ),
        total_fits(s.push(t), hourly_rate.amount) == total_fits(s, hourly_rate.amount),
{
    let u = s.push(t);
    let rate = hourly_rate.amount;
    let c = hourly_rate.currency;
    assert(u.drop_last() =~= s);
    assert(total_scale(u, rate) == total_scale(s, rate));
    assert(total_num(u, rate, total_scale(s, rate)) == total_num(s, rate, total_scale(s, rate)));
    if any_runs_backwards(u) {
        let i = choose|i: int| 0 <= i < u.len() && runs_backwards(#[trigger] u[i]);
        assert(s[i] == u[i]);
    }
    if any_runs_backwards(s) {
        let i = choose|i: int| 0 <= i < s.len() && runs_backwards(#[trigger] s[i]);
        assert(s[i] == u[i]);
    }
    if any_foreign_expense(u, c) {
        let i = choose|i: int| 0 <= i < u.len() && has_foreign_expense(#[trigger] u[i], c);
        assert(s[i] == u[i]);
    }
    if any_foreign_expense(s, c) {
        let i = choose|i: int| 0 <= i < s.len() && has_foreign_expense(#[trigger] s[i], c);
        assert(s[i] == u[i]);
    }
}

/// Exact totals add up: at one scale, the exact total of the timesheets `a` followed by `b` is
/// the exact total of `a` plus that of `b`, at the same hourly rate.
pub proof fn lemma_total_additive(a: Seq<Timesheet>, b: Seq<Timesheet>, rate: Amount, scale: nat)
    ensures
        total_num(a + b, rate, scale) == total_num(a, rate, scale) + total_num(b, rate, scale),
    decreases b.len(),
{
    if b.len() == 0 {
        assert(a + b =~= a);
    } else {
        assert((a + b).drop_last() =~= a + b.drop_last());
        lemma_total_additive(a, b.drop_last(), rate, scale);
    }
}

/// The exact total of `s` is a whole number of cents: it needs no rounding.
pub open spec fn whole_cents(s: Seq<Timesheet>, rate: Amount) -> bool {
    total_num(s, rate, total_scale(s, rate)) % (36 * pow10(total_scale(s, rate))) == 0
}

proof fn lemma_scaled_up(x: Amount, scale: nat, k: nat)
    requires
        x.scale <= scale,
    ensures
        scaled(x, scale + k) == scaled(x, scale) * pow10(k),
{
    lemma_pow10_add((scale - x.scale) as nat, k);
    assert((scale + k - x.scale) as nat == ((scale - x.scale) as nat + k) as nat);
    let m = x.mantissa as int;
    let p = pow10((scale - x.scale) as nat);
    let q = pow10(k);
    assert(m * (p * q) == (m * p) * q) by (nonlinear_arith);
}

proof fn lemma_expenses_num_up(es: Seq<Expense>, scale: nat, k: nat)
    requires
        expenses_scale(es) <= scale,
    ensures
        expenses_num(es, scale + k) == expenses_num(es, scale) * pow10(k),
    decreases es.len(),
{
    if es.len() > 0 {
        lemma_expenses_num_up(es.drop_last(), scale, k);
        lemma_scaled_up(es.last().cost.amount, scale, k);
        let a = expenses_num(es.drop_last(), scale);
        let b = scaled(es.last().cost.amount, scale);
        let q = pow10(k);
        assert((a + b) * q == a * q + b * q) by (nonlinear_arith);
    }
}

proof fn lemma_total_num_up(s: Seq<Timesheet>, rate: Amount, scale: nat, k: nat)
    requires
        common_scale(s, rate.scale as nat) <= scale,
    ensures
        total_num(s, rate, scale + k) == total_num(s, rate, scale) * pow10(k),
    decreases s.len(),
{
    if s.len() > 0 {
        let t = s.last();
        lemma_total_num_up(s.drop_last(), rate, scale, k);
        lemma_common_scale_base(s, rate.scale as nat);
        let q = pow10(k);
        let a = total_num(s.drop_last(), rate, scale);
        if let Some(end) = t.time_end {
            lemma_scaled_up(rate, scale, k);
            lemma_expenses_num_up(t.expenses@, scale, k);
            let r = scaled(rate, scale);
            let e = elapsed_seconds(t.time_begin, end);
            let x = expenses_num(t.expenses@, scale);
            assert((r * q) * e == (r * e) * q) by (nonlinear_arith);
            assert(SECONDS_PER_HOUR * (x * q) == (SECONDS_PER_HOUR * x) * q) by (nonlinear_arith);
            let b = r * e + SECONDS_PER_HOUR * x;
            assert(term_num(t, rate, scale) == b);
            assert(term_num(t, rate, scale + k) == (r * q) * e + SECONDS_PER_HOUR * (x * q));
            assert(b * q == (r * e) * q + (SECONDS_PER_HOUR * x) * q) by (nonlinear_arith)
                requires
                    b == r * e + SECONDS_PER_HOUR * x,
            ;
            assert((a + b) * q == a * q + b * q) by (nonlinear_arith);
        } else {
            assert(term_num(t, rate, scale) == 0);
            assert(term_num(t, rate, scale + k) == 0);
        }
    }
}

proof fn lemma_common_scale_concat(a: Seq<Timesheet>, b: Seq<Timesheet>, base: nat)
    ensures
        common_scale(a + b, base) == max_nat(common_scale(a, base), common_scale(b, base)),
    decreases b.len(),
{
    lemma_common_scale_base(a, base);
    if b.len() == 0 {
        assert(a + b =~= a);
    } else {
        assert((a + b).drop_last() =~= a + b.drop_last());
        assert((a + b).last() == b.last());
        lemma_common_scale_concat(a, b.drop_last(), base);
    }
}

/// Where the exact total of `s` is whole cents, computing it at a larger scale `to` gives those
/// same cents.
proof fn lemma_cents_at(s: Seq<Timesheet>, rate: Amount, to: nat)
    requires
        whole_cents(s, rate),
        total_scale(s, rate) <= to,
    ensures
        total_num(s, rate, to) == total_cents(s, rate) * (36 * pow10(to)),
{
    let from = total_scale(s, rate);
    let k = (to - from) as nat;
    let n = total_num(s, rate, from);
    let d = 36 * pow10(from);
    lemma_pow10_mono(0, from);
    vstd::arithmetic::div_mod::lemma_fundamental_div_mod(n, d);
    let q = n / d;
    assert(n == d * q);
    assert(d * q == q * d) by (nonlinear_arith);
    lemma_round_div_exact(q, d);
    lemma_total_num_up(s, rate, from, k);
    lemma_pow10_add(from, k);
    assert(from + k == to);
    assert((q * d) * pow10(k) == q * (36 * (pow10(from) * pow10(k)))) by (nonlinear_arith)
        requires
            d == 36 * pow10(from),
    ;
}

/// Totals add up where no rounding is needed: when the exact totals of `a` and of `b` are whole
/// cents, the total of `a` followed by `b` is the total of `a` plus the total of `b`, at the same
/// hourly rate.
pub proof fn lemma_total_cents_additive(a: Seq<Timesheet>, b: Seq<Timesheet>, rate: Amount)
    requires
        whole_cents(a, rate),
        whole_cents(b, rate),
    ensures
        total_cents(a + b, rate) == total_cents(a, rate) + total_cents(b, rate),
{
    let base = rate.scale as nat;
    let sc = total_scale(a + b, rate);
    lemma_common_scale_concat(a, b, base);
    lemma_cents_at(a, rate, sc);
    lemma_cents_at(b, rate, sc);
    lemma_total_additive(a, b, rate, sc);
    let qa = total_cents(a, rate);
    let qb = total_cents(b, rate);
    let d = 36 * pow10(sc);
    lemma_pow10_mono(0, sc);
    assert(qa * d + qb * d == (qa + qb) * d) by (nonlinear_arith);
    lemma_round_div_exact(qa + qb, d);
}

/// `t` and `u` bill alike: the same times and the same expenses.
pub open spec fn same_billing(t: Timesheet, u: Timesheet) -> bool {
    &&& t.time_begin == u.time_begin
    &&& t.time_end == u.time_end
    &&& t.expenses@ == u.expenses@
}

/// `s1` and `s2` bill alike, timesheet by timesheet.
pub open spec fn bill_alike(s1: Seq<Timesheet>, s2: Seq<Timesheet>) -> bool {
    &&& s1.len() == s2.len()
    &&& forall|i: int| 0 <= i < s1.len() ==> same_billing(#[trigger] s1[i], s2[i])
}

/// [`Timesheet::total_all`] gives the same outcome on `s1` and on `s2` at `hourly_rate`: the
/// same error, or the same total.
pub open spec fn same_totals(s1: Seq<Timesheet>, s2: Seq<Timesheet>, hourly_rate: Money) -> bool {
    &&& any_runs_backwards(s1) == any_runs_backwards(s2)
    &&& any_foreign_expense(s1, hourly_rate.currency) == any_foreign_expense(
        s2,
        hourly_rate.currency,
    )
    &&& total_fits(s1, hourly_rate.amount) == total_fits(s2, hourly_rate.amount)
    &&& total_cents(s1, hourly_rate.amount) == total_cents(s2, hourly_rate.amount)
}

proof fn lemma_bill_alike_agree(
    s1: Seq<Timesheet>,
    s2: Seq<Timesheet>,
    rate: Amount,
    base: nat,
    scale: nat,
)
    requires
        bill_alike(s1, s2),
    ensures
        common_scale(s1, base) == common_scale(s2, base),
        total_num(s1, rate, scale) == total_num(s2, rate, scale),
        totals_fit(s1, rate, scale) == totals_fit(s2, rate, scale),
    decreases s1.len(),
{
    if s1.len() > 0 {
        let n = s1.len() - 1;
        assert(same_billing(s1[n], s2[n]));
        assert(bill_alike(s1.drop_last(), s2.drop_last())) by {
            assert forall|i: int| 0 <= i < s1.drop_last().len() implies same_billing(
                #[trigger] s1.drop_last()[i],
                s2.drop_last()[i],
            ) by {
                assert(same_billing(s1[i], s2[i]));
            }
        }
        lemma_bill_alike_agree(s1.drop_last(), s2.drop_last(), rate, base, scale);
    }
}

/// Timesheets that bill alike have the same outcome under [`Timesheet::total_all`].
pub proof fn lemma_bill_alike_same_totals(
    s1: Seq<Timesheet>,
    s2: Seq<Timesheet>,
    hourly_rate: Money,
)
    requires
        bill_alike(s1, s2),
    ensures
        same_totals(s1, s2, hourly_rate),
{
    let rate = hourly_rate.amount;
    let c = hourly_rate.currency;
    lemma_bill_alike_agree(s1, s2, rate, rate.scale as nat, 0);
    let sc = total_scale(s1, rate);
    lemma_bill_alike_agree(s1, s2, rate, rate.scale as nat, sc);
    if any_runs_backwards(s1) {
        let i = choose|i: int| 0 <= i < s1.len() && runs_backwards(#[trigger] s1[i]);
        assert(same_billing(s1[i], s2[i]));
    }
    if any_runs_backwards(s2) {
        let i = choose|i: int| 0 <= i < s2.len() && runs_backwards(#[trigger] s2[i]);
        assert(same_billing(s1[i], s2[i]));
    }
    if any_foreign_expense(s1, c) {
        let i = choose|i: int| 0 <= i < s1.len() && has_foreign_expense(#[trigger] s1[i], c);
        assert(same_billing(s1[i], s2[i]));
    }
    if any_foreign_expense(s2, c) {
        let i = choose|i: int| 0 <= i < s2.len() && has_foreign_expense(#[trigger] s2[i], c);
        assert(same_billing(s1[i], s2[i]));
    }
}

/// Exchanging timesheets whose money is all in `c` into `c` keeps every value, and so the
/// outcome of [`Timesheet::total_all`].
pub proof fn lemma_exchange_identity_same_totals(
    s: Seq<Timesheet>,
    c: Currency,
    rates: Seq<(Currency, Amount)>,
    u: Seq<Timesheet>,
    hourly_rate: Money,
)
    requires
        u.len() == s.len(),
        forall|i: int| 0 <= i < s.len() ==> (#[trigger] s[i]).in_currency(c),
        forall|i: int| 0 <= i < s.len() ==> (#[trigger] s[i]).exchanged(c, rates, u[i]),
    ensures
        forall|i: int| 0 <= i < s.len() ==> (#[trigger] u[i]).same_values(s[i]),
        same_totals(s, u, hourly_rate),
{
    assert forall|i: int| 0 <= i < s.len() implies (#[trigger] u[i]).same_values(s[i]) by {
        lemma_exchange_identity(s[i], c, rates, u[i]);
    }
    assert forall|i: int| 0 <= i < s.len() implies same_billing(#[trigger] s[i], u[i]) by {
        assert(u[i].same_values(s[i]));
    }
    lemma_bill_alike_same_totals(s, u, hourly_rate);
}

/// Exchanging into `c` twice changes nothing the first exchange did not: every value, and so
/// the outcome of [`Timesheet::total_all`], stays that of the first.
pub proof fn lemma_exchange_twice_same_totals(
    s: Seq<Timesheet>,
    c: Currency,
    rates: Seq<(Currency, Amount)>,
    once: Seq<Timesheet>,
    twice: Seq<Timesheet>,
    hourly_rate: Money,
)
    requires
        once.len() == s.len(),
        twice.len() == s.len(),
        forall|i: int| 0 <= i < s.len() ==> (#[trigger] s[i]).exchanged(c, rates, once[i]),
        forall|i: int| 0 <= i < s.len() ==> (#[trigger] once[i]).exchanged(c, rates, twice[i]),
    ensures
        forall|i: int| 0 <= i < s.len() ==> (#[trigger] twice[i]).same_values(once[i]),
        same_totals(once, twice, hourly_rate),
{
    assert forall|i: int| 0 <= i < s.len() implies (#[trigger] once[i]).in_currency(c) by {
        lemma_exchanged_in_currency(s[i], c, rates, once[i]);
    }
    lemma_exchange_identity_same_totals(once, c, rates, twice, hourly_rate);
}

/// Exchange keeps the times of timesheets, so for timesheets without expenses it keeps the
/// outcome of [`Timesheet::total_all`] at every hourly rate.
pub proof fn lemma_exchange_without_expenses_same_totals(
    s: Seq<Timesheet>,
    c: Currency,
    rates: Seq<(Currency, Amount)>,
    u: Seq<Timesheet>,
    hourly_rate: Money,
)
    requires
        u.len() == s.len(),
        forall|i: int| 0 <= i < s.len() ==> (#[trigger] s[i]).expenses@.len() == 0,
        forall|i: int| 0 <= i < s.len() ==> (#[trigger] s[i]).exchanged(c, rates, u[i]),
    ensures
        same_totals(s, u, hourly_rate),
{
    assert forall|i: int| 0 <= i < s.len() implies same_billing(#[trigger] s[i], u[i]) by {
        assert(s[i].exchanged(c, rates, u[i]));
        assert(u[i].expenses@ =~= s[i].expenses@);
    }
    lemma_bill_alike_same_totals(s, u, hourly_rate);
}

} // verus!
