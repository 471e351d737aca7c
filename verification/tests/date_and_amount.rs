use ledger_sync::amount::parse_amount;
use ledger_sync::date::{parse_date, Date};

fn day(year: u16, month: u8, day: u8) -> Option<Date> {
    Some(Date { year, month, day })
}

#[test]
fn parse_date_reads_the_dashed_form() {
    assert_eq!(parse_date("2024-01-05"), day(2024, 1, 5));
    assert_eq!(parse_date("1999-12-31"), day(1999, 12, 31));
    assert_eq!(parse_date("0000-01-01"), day(0, 1, 1));
    assert_eq!(parse_date("9999-12-31"), day(9999, 12, 31));
}

#[test]
fn parse_date_reads_the_compact_form() {
    assert_eq!(parse_date("20240105"), day(2024, 1, 5));
    assert_eq!(parse_date("19991231"), day(1999, 12, 31));
}

#[test]
fn parse_date_disregards_the_time_of_day() {
    assert_eq!(parse_date("2024-01-05T10:30:00"), day(2024, 1, 5));
    assert_eq!(parse_date("2024-01-05 23:59:59"), day(2024, 1, 5));
    assert_eq!(parse_date("20240105120000"), day(2024, 1, 5));
    assert_eq!(parse_date("20240105120000.000[-5:EST]"), day(2024, 1, 5));
}

#[test]
fn parse_date_knows_the_lengths_of_the_months() {
    assert_eq!(parse_date("2024-01-31"), day(2024, 1, 31));
    assert_eq!(parse_date("2024-01-32"), None);
    assert_eq!(parse_date("2024-04-30"), day(2024, 4, 30));
    assert_eq!(parse_date("2024-04-31"), None);
    assert_eq!(parse_date("2024-06-31"), None);
    assert_eq!(parse_date("2024-09-31"), None);
    assert_eq!(parse_date("2024-11-31"), None);
    assert_eq!(parse_date("2024-12-31"), day(2024, 12, 31));
}

#[test]
fn parse_date_knows_leap_years() {
    assert_eq!(parse_date("2024-02-29"), day(2024, 2, 29));
    assert_eq!(parse_date("2023-02-29"), None);
    assert_eq!(parse_date("2000-02-29"), day(2000, 2, 29));
    assert_eq!(parse_date("1900-02-29"), None);
    assert_eq!(parse_date("2024-02-30"), None);
    assert_eq!(parse_date("20230229"), None);
}

#[test]
fn parse_date_refuses_malformed_text() {
    assert_eq!(parse_date(""), None);
    assert_eq!(parse_date("2024"), None);
    assert_eq!(parse_date("2024-1-5"), None);
    assert_eq!(parse_date("2024/01/05"), None);
    assert_eq!(parse_date("05-01-2024"), None);
    assert_eq!(parse_date("2024-13-01"), None);
    assert_eq!(parse_date("2024-00-10"), None);
    assert_eq!(parse_date("2024-01-00"), None);
    assert_eq!(parse_date("2024-01-5x"), None);
    assert_eq!(parse_date("yesterday!"), None);
    assert_eq!(parse_date(" 2024-01-05"), None);
    assert_eq!(parse_date("2024-01_05"), None);
    assert_eq!(parse_date("２０２４-01-05"), None);
}

#[test]
fn date_new_gives_calendar_days_only() {
    assert_eq!(Date::new(2024, 4, 30), day(2024, 4, 30));
    assert_eq!(Date::new(2024, 4, 31), None);
    assert_eq!(Date::new(2024, 0, 1), None);
    assert_eq!(Date::new(2024, 13, 1), None);
    assert_eq!(Date::new(2024, 1, 0), None);
    assert_eq!(Date::new(10000, 1, 1), None);
    assert_eq!(Date::new(2100, 2, 29), None);
    assert_eq!(Date::new(2400, 2, 29), day(2400, 2, 29));
}

#[test]
fn parse_amount_reads_signed_whole_numbers() {
    assert_eq!(parse_amount("-1250"), Some(-1250));
    assert_eq!(parse_amount("1250"), Some(1250));
    assert_eq!(parse_amount("+5"), Some(5));
    assert_eq!(parse_amount("0"), Some(0));
    assert_eq!(parse_amount("-0"), Some(0));
    assert_eq!(parse_amount("007"), Some(7));
}

#[test]
fn parse_amount_at_the_limits_of_the_machine() {
    assert_eq!(parse_amount("9223372036854775807"), Some(i64::MAX));
    assert_eq!(parse_amount("9223372036854775808"), None);
    assert_eq!(parse_amount("+9223372036854775808"), None);
    assert_eq!(parse_amount("-9223372036854775808"), Some(i64::MIN));
    assert_eq!(parse_amount("-9223372036854775809"), None);
    assert_eq!(parse_amount("99999999999999999999999"), None);
}

#[test]
fn parse_amount_refuses_malformed_text() {
    assert_eq!(parse_amount(""), None);
    assert_eq!(parse_amount("-"), None);
    assert_eq!(parse_amount("+"), None);
    assert_eq!(parse_amount("--1"), None);
    assert_eq!(parse_amount("+-1"), None);
    assert_eq!(parse_amount("12.50"), None);
    assert_eq!(parse_amount("12,50"), None);
    assert_eq!(parse_amount(" 12"), None);
    assert_eq!(parse_amount("12 "), None);
    assert_eq!(parse_amount("1e3"), None);
    assert_eq!(parse_amount("twelve"), None);
}
