//! Billing records (organizations, jobs, timesheets, expenses, contacts and locations) with
//! fully inlined references, and the verified logic over them: currency exchange that cascades
//! through nested records, and the total owed for a set of timesheets.

pub mod amount;
pub mod id;
pub mod location;
pub mod money;
pub mod records;
pub mod time;
pub mod timesheet;

pub use amount::Amount;
pub use id::Id;
pub use location::{Contact, ContactKind, Location};
pub use money::{ExchangeError, Money, RateTable};
pub use records::{Employee, Expense, Invoice, InvoiceDate, Job, Organization};
pub use time::Timestamp;
pub use timesheet::{Timesheet, TotalError};
pub use money2::Currency;
