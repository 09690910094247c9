use vstd::prelude::*;

use crate::amount::{cents_exec, cents_of, Amount, MAX_MANTISSA};
use money2::{Currency, Decimal};

verus! {

/// `money2::Currency`, carried through as an opaque value.
#[verifier::external_type_specification]
#[verifier::external_body]
pub struct ExCurrency(money2::Currency);

/// `money2::Error`, which the conversion of text into `money2::Currency` names; Verus asks for
/// it wherever `money2::Currency` is used.
#[verifier::external_type_specification]
#[verifier::external_body]
pub struct ExMoneyError(money2::Error);

/// Relies on the derived `PartialEq` of `money2::Currency`, a field-less enum: two values are
/// equal exactly when they are the same currency.
#[verifier::external_body]
pub(crate) fn same_currency(a: Currency, b: Currency) -> (r: bool)
    ensures
        r == (a == b),
{
    a == b
}

/// The quotient `a / b` as `rust_decimal` computes it, `None` where it fails.
pub uninterp spec fn quotient_of(a: Amount, b: Amount) -> Option<Amount>;

/// Relies on `rust_decimal::Decimal::checked_div` (re-exported by `money2`): `None` when the
/// divisor is zero or the quotient overflows. `Decimal::try_from_i128_with_scale` accepts every
/// well-formed amount, and a `Decimal` has a 96-bit mantissa and a scale of at most 28.
#[verifier::external_body]
fn divide(a: Amount, b: Amount) -> (r: Option<Amount>)
    requires
        a.wf(),
        b.wf(),
    ensures
        r == quotient_of(a, b),
        b.mantissa == 0 ==> r is None,
        r matches Some(q) ==> q.wf(),
{
    let x = Decimal::try_from_i128_with_scale(a.mantissa, a.scale);
    let y = Decimal::try_from_i128_with_scale(b.mantissa, b.scale);
    match (x, y) {
        (Ok(x), Ok(y)) => match x.checked_div(y) {
            Some(q) => Some(Amount { mantissa: q.mantissa(), scale: q.scale() }),
            None => None,
        },
        _ => None,
    }
}

/// Exchange rates: for each currency, how much of it one unit of a common base currency buys.
/// Where a currency is listed twice, its first entry counts.
pub struct RateTable {
    pub rates: Vec<(Currency, Amount)>,
}

/// The rate of `c` in `rates`: the amount of its first entry.
pub open spec fn rate_in(rates: Seq<(Currency, Amount)>, c: Currency) -> Option<Amount>
    decreases rates.len(),
{
    if rates.len() == 0 {
        None
    } else if rates[0].0 == c {
        Some(rates[0].1)
    } else {
        rate_in(rates.drop_first(), c)
    }
}

/// The factor that turns an amount in `from` into `to`: the rate of `to` divided by that of
/// `from`; `None` when either is missing or the division fails.
pub open spec fn factor_of(rates: Seq<(Currency, Amount)>, from: Currency, to: Currency) -> Option<
    Amount,
> {
    match (rate_in(rates, from), rate_in(rates, to)) {
        (Some(f), Some(t)) => quotient_of(t, f),
        _ => None,
    }
}

proof fn lemma_rate_in_wf(rates: Seq<(Currency, Amount)>, c: Currency)
    requires
        forall|i: int| 0 <= i < rates.len() ==> (#[trigger] rates[i]).1.wf(),
    ensures
        rate_in(rates, c) matches Some(a) ==> a.wf(),
    decreases rates.len(),
{
    if rates.len() > 0 && rates[0].0 != c {
        assert forall|i: int| 0 <= i < rates.drop_first().len() implies (
        #[trigger] rates.drop_first()[i]).1.wf() by {
            assert(rates.drop_first()[i] == rates[i + 1]);
        }
        lemma_rate_in_wf(rates.drop_first(), c);
    }
}

impl RateTable {
    /// Every rate is a well-formed amount.
    pub open spec fn wf(self) -> bool {
        forall|i: int| 0 <= i < self.rates@.len() ==> (#[trigger] self.rates@[i]).1.wf()
    }

    /// The table with the entries `rates`.
    pub fn new(rates: Vec<(Currency, Amount)>) -> (r: RateTable)
        ensures
            r.rates@ == rates@,
    {
        RateTable { rates }
    }

    /// The rate of `c`: the amount of its first entry.
    pub fn rate(&self, c: Currency) -> (r: Option<Amount>)
        requires
            self.wf(),
        ensures
            r == rate_in(self.rates@, c),
            r matches Some(a) ==> a.wf(),
    {
        let ghost all = self.rates@;
        proof {
            lemma_rate_in_wf(all, c);
        }
        let mut i: usize = 0;
        assert(all.subrange(0, all.len() as int) =~= all);
        while i < self.rates.len()
            invariant
                i <= all.len(),
                rate_in(all, c) matches Some(a) ==> a.wf(),
                all == self.rates@,
                rate_in(all, c) == rate_in(all.subrange(i as int, all.len() as int), c),
            decreases all.len() - i,
        {
            let ghost rest = all.subrange(i as int, all.len() as int);
            assert(rest.drop_first() =~= all.subrange(i + 1, all.len() as int));
            assert(rest[0] == all[i as int]);
            if same_currency(self.rates[i].0, c) {
                return Some(self.rates[i].1);
            }
            i = i + 1;
        }
        assert(all.subrange(i as int, all.len() as int) =~= Seq::<(Currency, Amount)>::empty());
        None
    }

    /// The factor that turns an amount in `from` into `to` ([`factor_of`]).
    pub fn factor(&self, from: Currency, to: Currency) -> (r: Option<Amount>)
        requires
            self.wf(),
        ensures
            r == factor_of(self.rates@, from, to),
            r matches Some(f) ==> f.wf(),
    {
        match self.rate(from) {
            None => None,
            Some(f) => match self.rate(to) {
                None => None,
                Some(t) => divide(t, f),
            },
        }
    }
}

/// Why a currency exchange produced no value.
#[derive(Clone, Copy, Debug, PartialEq, Eq, Structural)]
pub enum ExchangeError {
    /// The rate table holds no factor between the two currencies.
    UnresolvableRate,
    /// The converted amount does not fit in an [`Amount`].
    Overflow,
}

/// An amount of money in one currency.
#[derive(Clone, Copy, Debug)]
pub struct Money {
    pub amount: Amount,
    pub currency: Currency,
}

/// The exact product of `a` and `f`, rounded half away from zero to two fractional digits.
pub open spec fn converted_cents(a: Amount, f: Amount) -> int {
    cents_of(a.mantissa * f.mantissa, (a.scale + f.scale) as nat)
}

/// Converting `a` by the factor `f` stays within the machine's limits.
pub open spec fn conversion_fits(a: Amount, f: Amount) -> bool {
    i128::MIN < a.mantissa * f.mantissa <= i128::MAX
        && -MAX_MANTISSA <= converted_cents(a, f) <= MAX_MANTISSA
}

impl Money {
    pub open spec fn wf(self) -> bool {
        self.amount.wf()
    }

    /// `amount` of `currency`.
    pub fn new(amount: Amount, currency: Currency) -> (r: Money)
        ensures
            r.amount == amount,
            r.currency == currency,
    {
        Money { amount, currency }
    }

    /// Exchanging `self` into `target` with `rates` succeeds: `self` is already in `target`, or
    /// the table gives a factor and the converted amount fits.
    pub open spec fn exchange_ok(self, target: Currency, rates: Seq<(Currency, Amount)>) -> bool {
        self.currency == target || (factor_of(rates, self.currency, target) matches Some(f)
            && conversion_fits(self.amount, f))
    }

    /// `m` is what exchanging `self` into `target` with `rates` gives: `self` itself where it is
    /// already in `target`, else its amount times the table's factor, rounded to two digits.
    pub open spec fn exchanged(self, target: Currency, rates: Seq<(Currency, Amount)>, m: Money) -> bool {
        if self.currency == target {
            m == self
        } else {
            factor_of(rates, self.currency, target) matches Some(f) && m == (Money {
                amount: Amount { mantissa: converted_cents(self.amount, f) as i128, scale: 2 },
                currency: target,
            })
        }
    }

    /// Converts `self` into `target` by the factor `factor`, rounding the exact product to two
    /// fractional digits; an amount already in `target` is returned as it is.
    pub fn exchange_by(self, target: Currency, factor: Amount) -> (r: Result<Money, ExchangeError>)
        requires
            self.wf(),
            factor.wf(),
        ensures
            self.currency == target ==> r == Ok::<Money, ExchangeError>(self),
            self.currency != target ==> {
                &&& (r is Ok <==> conversion_fits(self.amount, factor))
                &&& r matches Ok(m) ==> m.currency == target && m.amount.scale == 2
                    && m.amount.mantissa == converted_cents(self.amount, factor)
                &&& r matches Err(e) ==> e == ExchangeError::Overflow
            },
    {
        if same_currency(self.currency, target) {
            return Ok(self);
        }
        let p = match self.amount.mantissa.checked_mul(factor.mantissa) {
            Some(p) => p,
            None => {
                return Err(ExchangeError::Overflow);
            },
        };
        if p == i128::MIN {
            return Err(ExchangeError::Overflow);
        }
        match cents_exec(p, self.amount.scale + factor.scale) {
            Some(c) => Ok(Money { amount: Amount { mantissa: c, scale: 2 }, currency: target }),
            None => Err(ExchangeError::Overflow),
        }
    }

    /// Converts `self` into `target` with the factor that `rates` gives between the two
    /// currencies, rounded to two fractional digits. An amount already in `target` is returned as
    /// it is, without a lookup.
    pub fn exchange(self, target: Currency, rates: &RateTable) -> (r: Result<Money, ExchangeError>)
        requires
            self.wf(),
            rates.wf(),
        ensures
            r is Ok <==> self.exchange_ok(target, rates.rates@),
            r matches Ok(m) ==> self.exchanged(target, rates.rates@, m) && m.wf(),
            r == Err::<Money, ExchangeError>(ExchangeError::UnresolvableRate) <==> self.currency
                != target && factor_of(rates.rates@, self.currency, target) is None,
    {
        if same_currency(self.currency, target) {
            return Ok(self);
        }
        match rates.factor(self.currency, target) {
            None => Err(ExchangeError::UnresolvableRate),
            Some(f) => self.exchange_by(target, f),
        }
    }
}

} // verus!
