use vstd::prelude::*;

use crate::id::Id;
use crate::location::Location;
use crate::amount::Amount;
use crate::money::{ExchangeError, Money, RateTable};
use crate::time::Timestamp;
use money2::Currency;

verus! {

/// Someone who works for the organization that keeps these records.
#[derive(Clone, Debug)]
pub struct Employee {
    pub id: Id,
    pub name: String,
    pub status: String,
    pub title: String,
}

/// A business, located somewhere.
#[derive(Debug)]
pub struct Organization {
    pub id: Id,
    pub location: Location,
    pub name: String,
}

/// A cost, other than hourly pay, incurred while working.
#[derive(Clone, Debug)]
pub struct Expense {
    pub id: Id,
    pub category: String,
    pub cost: Money,
    pub description: String,
}

/// When an [`Invoice`] was issued and, if it has been, paid.
#[derive(Clone, Copy, Debug, PartialEq, Eq, Structural)]
pub struct InvoiceDate {
    pub issued: Timestamp,
    pub paid: Option<Timestamp>,
}

/// How a [`Job`] is paid for.
#[derive(Clone, Copy, Debug)]
pub struct Invoice {
    pub date: Option<InvoiceDate>,
    pub hourly_rate: Money,
}

/// Work requested by a client.
#[derive(Debug)]
pub struct Job {
    pub client: Organization,
    pub date_close: Option<Timestamp>,
    pub date_open: Timestamp,
    pub id: Id,
    /// The step to which the start and end of recorded work are rounded.
    pub increment: core::time::Duration,
    pub invoice: Invoice,
    pub notes: String,
    pub objectives: String,
}

impl Expense {
    pub open spec fn wf(self) -> bool {
        self.cost.wf()
    }

    /// Every amount of money in `self` is in `c`.
    pub open spec fn in_currency(self, c: Currency) -> bool {
        self.cost.currency == c
    }

    /// Exchanging `self` into `target` with `rates` succeeds.
    pub open spec fn exchange_ok(self, target: Currency, rates: Seq<(Currency, Amount)>) -> bool {
        self.cost.exchange_ok(target, rates)
    }

    /// `e` is `self` with its cost exchanged into `target` with `rates`, every other field kept.
    pub open spec fn exchanged(self, target: Currency, rates: Seq<(Currency, Amount)>, e: Expense) -> bool {
        &&& e.id == self.id
        &&& e.category == self.category
        &&& e.description == self.description
        &&& self.cost.exchanged(target, rates, e.cost)
    }

    /// A copy of `self`.
    pub fn duplicate(&self) -> (r: Expense)
        ensures
            r == *self,
    {
        Expense {
            id: self.id,
            category: self.category.clone(),
            cost: self.cost,
            description: self.description.clone(),
        }
    }

    /// Exchanges the cost into `target`; nothing else changes.
    pub fn exchange(self, target: Currency, rates: &RateTable) -> (r: Result<Expense, ExchangeError>)
        requires
            self.wf(),
            rates.wf(),
        ensures
            r is Ok <==> self.exchange_ok(target, rates.rates@),
            r matches Ok(e) ==> self.exchanged(target, rates.rates@, e) && e.wf(),
            self.in_currency(target) ==> r == Ok::<Expense, ExchangeError>(self),
    {
        let Expense { id, category, cost, description } = self;
        match cost.exchange(target, rates) {
            Ok(cost) => Ok(Expense { id, category, cost, description }),
            Err(e) => Err(e),
        }
    }
}

impl Invoice {
    pub open spec fn wf(self) -> bool {
        self.hourly_rate.wf()
    }

    /// Every amount of money in `self` is in `c`.
    pub open spec fn in_currency(self, c: Currency) -> bool {
        self.hourly_rate.currency == c
    }

    /// Exchanging `self` into `target` with `rates` succeeds.
    pub open spec fn exchange_ok(self, target: Currency, rates: Seq<(Currency, Amount)>) -> bool {
        self.hourly_rate.exchange_ok(target, rates)
    }

    /// `i` is `self` with its hourly rate exchanged into `target` with `rates`, its dates kept.
    pub open spec fn exchanged(self, target: Currency, rates: Seq<(Currency, Amount)>, i: Invoice) -> bool {
        &&& i.date == self.date
        &&& self.hourly_rate.exchanged(target, rates, i.hourly_rate)
    }

    /// Exchanges the hourly rate into `target`; the dates do not change.
    pub fn exchange(self, target: Currency, rates: &RateTable) -> (r: Result<Invoice, ExchangeError>)
        requires
            self.wf(),
            rates.wf(),
        ensures
            r is Ok <==> self.exchange_ok(target, rates.rates@),
            r matches Ok(i) ==> self.exchanged(target, rates.rates@, i) && i.wf(),
            self.in_currency(target) ==> r == Ok::<Invoice, ExchangeError>(self),
    {
        match self.hourly_rate.exchange(target, rates) {
            Ok(hourly_rate) => Ok(Invoice { date: self.date, hourly_rate }),
            Err(e) => Err(e),
        }
    }
}

impl Job {
    pub open spec fn wf(self) -> bool {
        self.invoice.wf()
    }

    /// Every amount of money in `self` is in `c`.
    pub open spec fn in_currency(self, c: Currency) -> bool {
        self.invoice.in_currency(c)
    }

    /// Every field of `j` but the invoice is that of `self`.
    pub open spec fn same_but_invoice(self, j: Job) -> bool {
        &&& j.client == self.client
        &&& j.date_close == self.date_close
        &&& j.date_open == self.date_open
        &&& j.id == self.id
        &&& j.increment == self.increment
        &&& j.notes == self.notes
        &&& j.objectives == self.objectives
    }

    /// Exchanging `self` into `target` with `rates` succeeds.
    pub open spec fn exchange_ok(self, target: Currency, rates: Seq<(Currency, Amount)>) -> bool {
        self.invoice.exchange_ok(target, rates)
    }

    /// `j` is `self` with its invoice exchanged into `target` with `rates`, every other field
    /// kept.
    pub open spec fn exchanged(self, target: Currency, rates: Seq<(Currency, Amount)>, j: Job) -> bool {
        &&& self.same_but_invoice(j)
        &&& self.invoice.exchanged(target, rates, j.invoice)
    }

    /// Exchanges the invoice into `target`; nothing else changes.
    pub fn exchange(self, target: Currency, rates: &RateTable) -> (r: Result<Job, ExchangeError>)
        requires
            self.wf(),
            rates.wf(),
        ensures
            r is Ok <==> self.exchange_ok(target, rates.rates@),
            r matches Ok(j) ==> self.exchanged(target, rates.rates@, j) && j.wf(),
            self.in_currency(target) ==> r == Ok::<Job, ExchangeError>(self),
    {
        let Job { client, date_close, date_open, id, increment, invoice, notes, objectives } = self;
        match invoice.exchange(target, rates) {
            Ok(invoice) => Ok(
                Job { client, date_close, date_open, id, increment, invoice, notes, objectives },
            ),
            Err(e) => Err(e),
        }
    }
}

/// Exchanging a job already in `c` into `c` gives it back unchanged.
pub proof fn lemma_job_exchange_identity(j: Job, c: Currency, rates: Seq<(Currency, Amount)>, k: Job)
    requires
        j.in_currency(c),
        j.exchanged(c, rates, k),
    ensures
        k == j,
{
}

} // verus!
