use kouhia::amount::{non_zero_amount, parse_non_zero, Amount};
use kouhia::date::{date_from_parts, parse_date, Date, DATE_FORMAT};
use kouhia::error::LedgerError;

const ONE: i128 = 10_000_000_000_000_000_000_000_000_000;

#[test]
fn parse_non_zero_reads_decimal_numbers() {
    assert_eq!(parse_non_zero("3.5"), Ok(Amount::from_units(35 * ONE / 10)));
    assert_eq!(parse_non_zero("-2.0"), Ok(Amount::from_units(-2 * ONE)));
    assert_eq!(parse_non_zero("1"), Ok(Amount::from_units(ONE)));
    assert_eq!(parse_non_zero("0.0000000000000000000000000001"), Ok(Amount::from_units(1)));
    assert_eq!(parse_non_zero("1.50"), parse_non_zero("1.5"));
}

#[test]
fn parse_non_zero_refuses_zero_and_what_is_no_number() {
    assert_eq!(parse_non_zero("0"), Err(LedgerError::InvalidAmount));
    assert_eq!(parse_non_zero("0.00"), Err(LedgerError::InvalidAmount));
    assert_eq!(parse_non_zero("-0"), Err(LedgerError::InvalidAmount));
    assert_eq!(parse_non_zero("abc"), Err(LedgerError::InvalidAmount));
    assert_eq!(parse_non_zero(""), Err(LedgerError::InvalidAmount));
    assert_eq!(parse_non_zero("100000000000"), Err(LedgerError::InvalidAmount));
}

#[test]
fn non_zero_amount_scales_the_mantissa() {
    assert_eq!(non_zero_amount(Some((35, 1))), Ok(Amount::from_units(35 * ONE / 10)));
    assert_eq!(non_zero_amount(Some((-7, 28))), Ok(Amount::from_units(-7)));
    assert_eq!(non_zero_amount(Some((0, 3))), Err(LedgerError::InvalidAmount));
    assert_eq!(non_zero_amount(Some((1, 29))), Err(LedgerError::InvalidAmount));
    assert_eq!(non_zero_amount(Some((17_014_118_346, 0))), Ok(Amount::from_units(17_014_118_346 * ONE)));
    assert_eq!(non_zero_amount(Some((17_014_118_347, 0))), Err(LedgerError::InvalidAmount));
    assert_eq!(non_zero_amount(None), Err(LedgerError::InvalidAmount));
}

#[test]
fn amount_from_parts_is_exact() {
    assert_eq!(Amount::from_parts(45, 1), Some(Amount::from_units(45 * ONE / 10)));
    assert_eq!(Amount::from_parts(0, 0), Some(Amount::zero()));
    assert_eq!(Amount::from_parts(0, 29), None);
    assert_eq!(Amount::from_parts(i128::MAX, 28), Some(Amount::from_units(i128::MAX)));
    assert_eq!(Amount::from_parts(i128::MIN, 28), Some(Amount::from_units(i128::MIN)));
    assert_eq!(Amount::from_parts(i128::MAX, 27), None);
    assert!(Amount::zero().is_zero());
    assert!(!Amount::from_units(-1).is_zero());
}

#[test]
fn amount_normal_form_drops_trailing_zeros() {
    assert_eq!(Amount::from_units(35 * ONE / 10).normal_form(), Some((35, 1)));
    assert_eq!(Amount::from_units(-2 * ONE).normal_form(), Some((-2, 0)));
    assert_eq!(Amount::from_units(0).normal_form(), Some((0, 0)));
    assert_eq!(Amount::from_units(1).normal_form(), Some((1, 28)));
    assert_eq!(Amount::from_units(1200 * ONE).normal_form(), Some((1200, 0)));
    assert_eq!(Amount::from_units(i128::MIN).normal_form(), None);
}

#[test]
fn amount_to_text_is_written_by_the_decimal() {
    assert_eq!(Amount::from_units(35 * ONE / 10).to_text(), Some("3.5".to_string()));
    assert_eq!(Amount::from_units(-2 * ONE).to_text(), Some("-2".to_string()));
    assert_eq!(Amount::from_units(1).to_text(), Some("0.0000000000000000000000000001".to_string()));
    assert_eq!(Amount::from_units(10 * ONE + 1).to_text(), None);
    assert_eq!(Amount::from_units(i128::MIN).to_text(), None);
    let amount = parse_non_zero("12.25").unwrap();
    assert_eq!(parse_non_zero(&amount.to_text().unwrap()), Ok(amount));
}

#[test]
fn date_new_knows_the_calendar() {
    assert_eq!(Date::new(2024, 2, 29), Some(Date { year: 2024, month: 2, day: 29 }));
    assert_eq!(Date::new(2023, 2, 29), None);
    assert_eq!(Date::new(1900, 2, 29), None);
    assert_eq!(Date::new(2000, 2, 29), Some(Date { year: 2000, month: 2, day: 29 }));
    assert_eq!(Date::new(-4, 2, 29), Some(Date { year: -4, month: 2, day: 29 }));
    assert_eq!(Date::new(-100, 2, 29), None);
    assert_eq!(Date::new(2024, 4, 31), None);
    assert_eq!(Date::new(2024, 12, 31), Some(Date { year: 2024, month: 12, day: 31 }));
    assert_eq!(Date::new(2024, 0, 1), None);
    assert_eq!(Date::new(2024, 13, 1), None);
    assert_eq!(Date::new(2024, 1, 0), None);
    assert_eq!(Date::new(i32::MIN, 1, 1), Some(Date { year: i32::MIN, month: 1, day: 1 }));
}

#[test]
fn dates_are_ordered_by_year_month_day() {
    let a = Date::new(2023, 12, 31).unwrap();
    let b = Date::new(2024, 1, 1).unwrap();
    let c = Date::new(2024, 1, 2).unwrap();
    assert!(a.is_before(&b));
    assert!(b.is_before(&c));
    assert!(a.is_before(&c));
    assert!(!b.is_before(&a));
    assert!(!b.is_before(&b));
}

#[test]
fn parse_date_reads_year_month_day() {
    assert_eq!(parse_date("2024-01-02"), Some(Date { year: 2024, month: 1, day: 2 }));
    assert_eq!(parse_date("2024-1-2"), Some(Date { year: 2024, month: 1, day: 2 }));
    assert_eq!(parse_date("2023-02-29"), None);
    assert_eq!(parse_date("2024-13-01"), None);
    assert_eq!(parse_date("01.02.2024"), None);
    assert_eq!(parse_date(""), None);
    assert_eq!(parse_date("Now"), None);
}

#[test]
fn parse_date_takes_now_for_the_current_date() {
    let today = chrono::Local::now().date_naive();
    let parsed = parse_date("now").unwrap();
    let again = chrono::Local::now().date_naive();
    let text = parsed.to_text().unwrap();
    assert!(
        text == today.format(DATE_FORMAT).to_string()
            || text == again.format(DATE_FORMAT).to_string()
    );
}

#[test]
fn date_from_parts_checks_the_parts() {
    assert_eq!(date_from_parts(Some((2024, 6, 30))), Some(Date { year: 2024, month: 6, day: 30 }));
    assert_eq!(date_from_parts(Some((2024, 6, 31))), None);
    assert_eq!(date_from_parts(None), None);
}

#[test]
fn date_to_text_is_year_month_day() {
    assert_eq!(Date::new(2024, 1, 2).unwrap().to_text(), Some("2024-01-02".to_string()));
    assert_eq!(Date::new(987, 11, 30).unwrap().to_text(), Some("0987-11-30".to_string()));
    assert_eq!(Date { year: 2024, month: 2, day: 30 }.to_text(), None);
    assert_eq!(Date::new(i32::MAX, 1, 1).unwrap().to_text(), None);
    let date = Date::new(2031, 7, 9).unwrap();
    assert_eq!(parse_date(&date.to_text().unwrap()), Some(date));
}

#[test]
fn amount_display_cuts_off_behind_the_first_fractional_digit() {
    assert_eq!(parse_non_zero("3.5").unwrap().to_display(), "3.5");
    assert_eq!(parse_non_zero("-2.0").unwrap().to_display(), "-2.0");
    assert_eq!(parse_non_zero("2.57").unwrap().to_display(), "2.5");
    assert_eq!(parse_non_zero("-2.57").unwrap().to_display(), "-2.5");
    assert_eq!(parse_non_zero("12.99").unwrap().to_display(), "12.9");
    assert_eq!(parse_non_zero("-0.05").unwrap().to_display(), "-0.0");
    assert_eq!(parse_non_zero("1200").unwrap().to_display(), "1200.0");
    assert_eq!(Amount::zero().to_display(), "0.0");
    assert_eq!(Amount::from_units(i128::MAX).to_display(), "17014118346.0");
    assert_eq!(Amount::from_units(i128::MIN).to_display(), "-17014118346.0");
}
