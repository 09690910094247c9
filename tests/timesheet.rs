use winvoice_schema::{
    Amount, Currency, Employee, Expense, Invoice, Job, Location, Money, Organization, Timesheet,
    Timestamp, TotalError,
};

fn usd(mantissa: i128, scale: u32) -> Money {
    Money::new(Amount::new(mantissa, scale), Currency::Usd)
}

fn job(rate: Money) -> Job {
    Job {
        client: Organization {
            id: 1,
            location: Location { id: 2, name: "Earth".into(), outer: None },
            name: "Client".into(),
        },
        date_close: None,
        date_open: Timestamp::new(0, 0),
        id: 3,
        increment: core::time::Duration::from_secs(15 * 60),
        invoice: Invoice { date: None, hourly_rate: rate },
        notes: String::new(),
        objectives: String::new(),
    }
}

fn expense(cost: Money) -> Expense {
    Expense { id: 4, category: "Travel".into(), cost, description: "Bus".into() }
}

fn sheet(begin: i64, end: Option<i64>, expenses: Vec<Expense>) -> Timesheet {
    Timesheet {
        id: 5,
        employee: Employee {
            id: 6,
            name: "Ann".into(),
            status: "Employed".into(),
            title: "Engineer".into(),
        },
        expenses,
        job: job(usd(20_00, 2)),
        time_begin: Timestamp::new(begin, 0),
        time_end: end.map(|e| Timestamp::new(e, 0)),
        work_notes: "Notes".into(),
    }
}

const HOUR: i64 = 3600;

fn cents(r: Result<Money, TotalError>) -> (i128, u32) {
    let m = r.unwrap();
    (m.amount.mantissa, m.amount.scale)
}

#[test]
fn total_all_adds_labor_and_expenses() {
    let sheets = [
        sheet(2 * HOUR, Some(2 * HOUR + 1800), vec![]),
        sheet(3 * HOUR, Some(3 * HOUR + 1800), vec![expense(usd(20_00, 2))]),
    ];
    let total = Timesheet::total_all(&sheets, usd(20_00, 2)).unwrap();
    assert_eq!(total.currency, Currency::Usd);
    assert_eq!((total.amount.mantissa, total.amount.scale), (4000, 2));
}

#[test]
fn total_all_skips_ongoing_with_its_expenses() {
    let sheets = [
        sheet(2 * HOUR, None, vec![expense(usd(20_00, 2))]),
        sheet(3 * HOUR, Some(3 * HOUR + 1800), vec![]),
    ];
    assert_eq!(cents(Timesheet::total_all(&sheets, usd(20_00, 2))), (10_00, 2));
}

#[test]
fn total_all_ongoing_alone_is_zero() {
    let sheets = [sheet(0, None, vec![expense(usd(20_00, 2))])];
    assert_eq!(cents(Timesheet::total_all(&sheets, usd(20_00, 2))), (0, 2));
}

#[test]
fn total_all_of_nothing_is_zero() {
    assert_eq!(cents(Timesheet::total_all(&[], usd(20_00, 2))), (0, 2));
}

#[test]
fn total_all_is_additive_on_whole_cents() {
    let a = sheet(0, Some(1800), vec![expense(usd(5_25, 2))]);
    let b = sheet(HOUR, Some(HOUR + 900), vec![expense(usd(1_10, 2))]);
    let both = cents(Timesheet::total_all(&[a, b], usd(20_00, 2)));
    let a = sheet(0, Some(1800), vec![expense(usd(5_25, 2))]);
    let b = sheet(HOUR, Some(HOUR + 900), vec![expense(usd(1_10, 2))]);
    let one = cents(Timesheet::total_all(&[a], usd(20_00, 2)));
    let two = cents(Timesheet::total_all(&[b], usd(20_00, 2)));
    assert_eq!(both.0, one.0 + two.0);
    assert_eq!(both, (21_35, 2));
}

#[test]
fn total_all_rescales_to_two_digits() {
    // 20 minutes at 20.000 an hour is 6.666...
    let sheets = [sheet(0, Some(1200), vec![])];
    assert_eq!(cents(Timesheet::total_all(&sheets, usd(20_000, 3))), (6_67, 2));
    // a rate with no fractional digits
    assert_eq!(cents(Timesheet::total_all(&sheets, usd(30, 0))), (10_00, 2));
    // an expense with four fractional digits
    let sheets = [sheet(0, Some(0), vec![expense(usd(1_2345, 4))])];
    assert_eq!(cents(Timesheet::total_all(&sheets, usd(30, 0))), (1_23, 2));
}

#[test]
fn total_all_rounds_half_away_from_zero() {
    // 18 seconds at 1.00 an hour is exactly 0.005
    let sheets = [sheet(0, Some(18), vec![])];
    assert_eq!(cents(Timesheet::total_all(&sheets, usd(1_00, 2))), (1, 2));
    // a refund of 0.005
    let sheets = [sheet(0, Some(0), vec![expense(usd(-5, 3))])];
    assert_eq!(cents(Timesheet::total_all(&sheets, usd(1_00, 2))), (-1, 2));
}

#[test]
fn total_all_drops_fractional_seconds() {
    let mut s = sheet(0, Some(1), vec![]);
    s.time_end = Some(Timestamp::new(3599, 999_999_999));
    assert_eq!(cents(Timesheet::total_all(&[s], usd(3600_00, 2))), (3599_00, 2));
}

#[test]
fn total_all_rejects_negative_duration() {
    let sheets = [sheet(HOUR, Some(HOUR - 1), vec![])];
    assert_eq!(Timesheet::total_all(&sheets, usd(20_00, 2)).unwrap_err(), TotalError::NegativeDuration);
}

#[test]
fn total_all_rejects_currency_mismatch() {
    let sheets = [sheet(0, Some(1800), vec![expense(usd(20_00, 2))])];
    let eur = Money::new(Amount::new(20_00, 2), Currency::Eur);
    assert_eq!(Timesheet::total_all(&sheets, eur).unwrap_err(), TotalError::CurrencyMismatch);
}

#[test]
fn total_all_negative_duration_comes_before_mismatch() {
    let sheets = [sheet(10, Some(0), vec![expense(usd(20_00, 2))])];
    let eur = Money::new(Amount::new(20_00, 2), Currency::Eur);
    assert_eq!(Timesheet::total_all(&sheets, eur).unwrap_err(), TotalError::NegativeDuration);
}

#[test]
fn total_all_reports_overflow() {
    let max = 79228162514264337593543950335;
    let sheets = [sheet(0, Some(3600 * 24 * 365 * 100), vec![])];
    assert_eq!(
        Timesheet::total_all(&sheets, usd(max, 0)).unwrap_err(),
        TotalError::Overflow
    );
    let sheets = [sheet(0, Some(0), vec![expense(usd(max, 0))])];
    assert_eq!(Timesheet::total_all(&sheets, usd(0, 0)).unwrap_err(), TotalError::Overflow);
}

#[test]
fn total_all_largest_representable_expense() {
    let max = 79228162514264337593543950335;
    let sheets = [sheet(0, Some(0), vec![expense(usd(max, 2))])];
    assert_eq!(cents(Timesheet::total_all(&sheets, usd(0, 2))), (max, 2));
}

#[test]
fn total_all_rounds_once_over_the_whole_set() {
    // each 18 seconds at 1.00 an hour is 0.005, rounded to 0.01 alone; together they are 0.01
    let one = cents(Timesheet::total_all(&[sheet(0, Some(18), vec![])], usd(1_00, 2)));
    let both = cents(Timesheet::total_all(
        &[sheet(0, Some(18), vec![]), sheet(100, Some(118), vec![])],
        usd(1_00, 2),
    ));
    assert_eq!(one, (1, 2));
    assert_eq!(both, (1, 2));
}
