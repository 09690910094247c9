use winvoice_schema::{
    Amount, Currency, Employee, ExchangeError, Expense, Invoice, Job, Location, Money,
    Organization, RateTable, Timesheet, Timestamp,
};

fn rates() -> RateTable {
    RateTable::new(vec![
        (Currency::Eur, Amount::new(1, 0)),
        (Currency::Usd, Amount::new(1_2187, 4)),
        (Currency::Jpy, Amount::new(133_81, 2)),
    ])
}

fn money(mantissa: i128, scale: u32, currency: Currency) -> Money {
    Money::new(Amount::new(mantissa, scale), currency)
}

fn parts(m: Money) -> (i128, u32, Currency) {
    (m.amount.mantissa, m.amount.scale, m.currency)
}

fn job(rate: Money) -> Job {
    Job {
        client: Organization {
            id: 1,
            location: Location { id: 2, name: "Earth".into(), outer: None },
            name: "Client".into(),
        },
        date_close: Some(Timestamp::new(500, 7)),
        date_open: Timestamp::new(100, 0),
        id: 3,
        increment: core::time::Duration::from_secs(15 * 60),
        invoice: Invoice { date: None, hourly_rate: rate },
        notes: "Job notes".into(),
        objectives: "Objectives".into(),
    }
}

fn sheet(expenses: Vec<Expense>, rate: Money) -> Timesheet {
    Timesheet {
        id: 5,
        employee: Employee {
            id: 6,
            name: "Ann".into(),
            status: "Employed".into(),
            title: "Engineer".into(),
        },
        expenses,
        job: job(rate),
        time_begin: Timestamp::new(1000, 0),
        time_end: Some(Timestamp::new(2800, 0)),
        work_notes: "Work notes".into(),
    }
}

fn expense(id: i64, cost: Money) -> Expense {
    Expense { id, category: "Travel".into(), cost, description: "Bus".into() }
}

#[test]
fn money_exchange_converts_and_rounds() {
    let r = rates();
    let jpy = money(20_00, 2, Currency::Usd).exchange(Currency::Jpy, &r).unwrap();
    assert_eq!(parts(jpy), (2195_95, 2, Currency::Jpy));
    let back = jpy.exchange(Currency::Usd, &r).unwrap();
    assert_eq!(parts(back), (20_00, 2, Currency::Usd));
}

#[test]
fn money_exchange_to_base_currency() {
    let eur = money(20_00, 2, Currency::Usd).exchange(Currency::Eur, &rates()).unwrap();
    assert_eq!(parts(eur), (16_41, 2, Currency::Eur));
}

#[test]
fn money_exchange_same_currency_is_identity() {
    let m = money(1_23456, 5, Currency::Gbp);
    // no rate for GBP is needed, and the scale is kept
    assert_eq!(parts(m.exchange(Currency::Gbp, &rates()).unwrap()), (1_23456, 5, Currency::Gbp));
}

#[test]
fn money_exchange_missing_rate() {
    let m = money(1_00, 2, Currency::Gbp);
    assert_eq!(m.exchange(Currency::Usd, &rates()).unwrap_err(), ExchangeError::UnresolvableRate);
}

#[test]
fn exchange_by_factor_exact() {
    let m = money(20_00, 2, Currency::Usd);
    let r = m.exchange_by(Currency::Eur, Amount::new(15, 1)).unwrap();
    assert_eq!(parts(r), (30_00, 2, Currency::Eur));
    let r = m.exchange_by(Currency::Eur, Amount::new(3333, 4)).unwrap();
    assert_eq!(parts(r), (6_67, 2, Currency::Eur));
    let r = m.exchange_by(Currency::Usd, Amount::new(3333, 4)).unwrap();
    assert_eq!(parts(r), (20_00, 2, Currency::Usd));
}

#[test]
fn exchange_by_factor_overflow() {
    let max = 79228162514264337593543950335;
    let m = money(max, 0, Currency::Usd);
    assert_eq!(m.exchange_by(Currency::Eur, Amount::new(max, 0)).unwrap_err(), ExchangeError::Overflow);
    assert_eq!(m.exchange_by(Currency::Eur, Amount::new(2, 0)).unwrap_err(), ExchangeError::Overflow);
}

#[test]
fn timesheet_exchange_cascades_and_keeps_the_rest() {
    let t = sheet(
        vec![expense(10, money(20_00, 2, Currency::Usd)), expense(11, money(1750, 0, Currency::Jpy))],
        money(20_00, 2, Currency::Usd),
    );
    let u = t.exchange(Currency::Jpy, &rates()).unwrap();
    assert_eq!(u.id, 5);
    assert_eq!(u.employee.name, "Ann");
    assert_eq!(u.work_notes, "Work notes");
    assert_eq!(u.time_begin, Timestamp::new(1000, 0));
    assert_eq!(u.time_end, Some(Timestamp::new(2800, 0)));
    assert_eq!(u.expenses.len(), 2);
    assert_eq!(u.expenses[0].id, 10);
    assert_eq!(u.expenses[1].id, 11);
    assert_eq!(u.expenses[0].category, "Travel");
    assert_eq!(parts(u.expenses[0].cost), (2195_95, 2, Currency::Jpy));
    assert_eq!(parts(u.expenses[1].cost), (1750, 0, Currency::Jpy));
    assert_eq!(parts(u.job.invoice.hourly_rate), (2195_95, 2, Currency::Jpy));
    assert_eq!(u.job.notes, "Job notes");
    assert_eq!(u.job.date_close, Some(Timestamp::new(500, 7)));
    assert_eq!(u.job.client.location.to_string(), "Earth");
}

#[test]
fn timesheet_exchange_is_idempotent() {
    let r = rates();
    let t = sheet(vec![expense(10, money(7_77, 2, Currency::Usd))], money(12_34, 2, Currency::Jpy));
    let once = t.exchange(Currency::Usd, &r).unwrap();
    let once_rate = parts(once.job.invoice.hourly_rate);
    let once_cost = parts(once.expenses[0].cost);
    let twice = once.exchange(Currency::Usd, &r).unwrap();
    assert_eq!(parts(twice.job.invoice.hourly_rate), once_rate);
    assert_eq!(parts(twice.expenses[0].cost), once_cost);
}

#[test]
fn timesheet_exchange_missing_rate_fails_whole() {
    let t = sheet(
        vec![expense(10, money(20_00, 2, Currency::Usd)), expense(11, money(5_00, 2, Currency::Gbp))],
        money(20_00, 2, Currency::Usd),
    );
    assert_eq!(t.exchange(Currency::Jpy, &rates()).unwrap_err(), ExchangeError::UnresolvableRate);
}

#[test]
fn expense_exchange_identity() {
    let e = expense(10, money(3_333, 3, Currency::Usd));
    let f = e.exchange(Currency::Usd, &rates()).unwrap();
    assert_eq!(parts(f.cost), (3_333, 3, Currency::Usd));
    assert_eq!(f.description, "Bus");
}

#[test]
fn rate_table_first_entry_counts() {
    let t = RateTable::new(vec![
        (Currency::Usd, Amount::new(2, 0)),
        (Currency::Usd, Amount::new(3, 0)),
    ]);
    let r = t.rate(Currency::Usd).unwrap();
    assert_eq!((r.mantissa, r.scale), (2, 0));
    assert!(t.rate(Currency::Jpy).is_none());
}

#[test]
fn rate_table_factor_divides_rates() {
    let t = RateTable::new(vec![
        (Currency::Eur, Amount::new(1, 0)),
        (Currency::Usd, Amount::new(2, 0)),
        (Currency::Jpy, Amount::new(300, 0)),
    ]);
    let f = t.factor(Currency::Usd, Currency::Jpy).unwrap();
    assert_eq!(f.mantissa * 10i128.pow(28 - f.scale), 150 * 10i128.pow(28));
    let f = t.factor(Currency::Usd, Currency::Eur).unwrap();
    assert_eq!(f.mantissa * 10i128.pow(28 - f.scale), 5 * 10i128.pow(27));
    assert!(t.factor(Currency::Gbp, Currency::Eur).is_none());
}

#[test]
fn zero_rate_is_unresolvable() {
    let t = RateTable::new(vec![
        (Currency::Usd, Amount::new(1_2187, 4)),
        (Currency::Gbp, Amount::new(0, 0)),
    ]);
    let m = money(1_00, 2, Currency::Gbp);
    assert_eq!(m.exchange(Currency::Usd, &t).unwrap_err(), ExchangeError::UnresolvableRate);
    let m = money(1_00, 2, Currency::Usd);
    assert_eq!(parts(m.exchange(Currency::Gbp, &t).unwrap()), (0, 2, Currency::Gbp));
}

#[test]
fn timesheet_exchange_to_own_currency_keeps_total() {
    let t = sheet(vec![expense(10, money(3_00, 2, Currency::Usd))], money(20_00, 2, Currency::Usd));
    let before = Timesheet::total_all(&[t], money(20_00, 2, Currency::Usd)).unwrap();
    let t = sheet(vec![expense(10, money(3_00, 2, Currency::Usd))], money(20_00, 2, Currency::Usd));
    let u = t.exchange(Currency::Usd, &RateTable::new(vec![])).unwrap();
    let after = Timesheet::total_all(&[u], money(20_00, 2, Currency::Usd)).unwrap();
    assert_eq!(parts(before), parts(after));
    assert_eq!(parts(after), (13_00, 2, Currency::Usd));
}
