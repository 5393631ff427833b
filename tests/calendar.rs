use wakalyze::calendar::{iter_dates, month_last_day, parse_month, week_range, Date};
use wakalyze::cli::{analysis_range, month_label};
use wakalyze::error::WakalyzeError;

fn date(year: i32, month: u32, day: u32) -> Date {
    Date { year, month, day }
}

#[test]
fn parse_month_valid() {
    assert_eq!(parse_month("2026/02").unwrap(), date(2026, 2, 1));
}

#[test]
fn parse_month_invalid_format() {
    assert!(parse_month("2026-02").is_err());
}

#[test]
fn parse_month_no_leading_zero() {
    assert!(parse_month("2026/2").is_err());
}

#[test]
fn parse_month_invalid_month_number() {
    assert!(parse_month("2026/00").is_err());
    assert!(parse_month("2026/13").is_err());
}

#[test]
fn parse_month_rejects_signs_and_extra_text() {
    assert_eq!(parse_month("+202/02"), Err(WakalyzeError::InvalidMonth));
    assert_eq!(parse_month("2026/+2"), Err(WakalyzeError::InvalidMonth));
    assert_eq!(parse_month("2026/021"), Err(WakalyzeError::InvalidMonth));
    assert_eq!(parse_month(""), Err(WakalyzeError::InvalidMonth));
    assert_eq!(parse_month("20a6/02"), Err(WakalyzeError::InvalidMonth));
}

#[test]
fn parse_month_edges_of_four_digit_years() {
    assert_eq!(parse_month("0000/01").unwrap(), date(0, 1, 1));
    assert_eq!(parse_month("9999/12").unwrap(), date(9999, 12, 1));
}

#[test]
fn month_label_round_trips_through_parse_month() {
    for (y, m) in [(2026, 2), (7, 11), (0, 1), (9999, 12)] {
        let label = month_label(date(y, m, 1));
        assert_eq!(parse_month(&label).unwrap(), date(y, m, 1));
    }
    assert_eq!(month_label(date(7, 11, 1)), "0007/11");
}

#[test]
fn month_last_day_january() {
    assert_eq!(month_last_day(date(2026, 1, 1)), date(2026, 1, 31));
}

#[test]
fn month_last_day_february_non_leap() {
    assert_eq!(month_last_day(date(2025, 2, 1)), date(2025, 2, 28));
}

#[test]
fn month_last_day_february_leap() {
    assert_eq!(month_last_day(date(2024, 2, 1)), date(2024, 2, 29));
}

#[test]
fn month_last_day_december() {
    assert_eq!(month_last_day(date(2025, 12, 1)), date(2025, 12, 31));
}

#[test]
fn month_last_day_april() {
    assert_eq!(month_last_day(date(2025, 4, 1)), date(2025, 4, 30));
}

#[test]
fn month_last_day_century_years() {
    assert_eq!(month_last_day(date(1900, 2, 1)), date(1900, 2, 28));
    assert_eq!(month_last_day(date(2000, 2, 1)), date(2000, 2, 29));
}

#[test]
fn iter_dates_single_day() {
    let d = date(2026, 2, 1);
    assert_eq!(iter_dates(d, d), vec![d]);
}

#[test]
fn iter_dates_range() {
    let result = iter_dates(date(2026, 2, 1), date(2026, 2, 3));
    assert_eq!(result, vec![date(2026, 2, 1), date(2026, 2, 2), date(2026, 2, 3)]);
}

#[test]
fn iter_dates_empty_when_start_after_end() {
    assert_eq!(iter_dates(date(2026, 2, 5), date(2026, 2, 1)), Vec::<Date>::new());
}

#[test]
fn iter_dates_across_year_end() {
    let result = iter_dates(date(2024, 12, 30), date(2025, 1, 2));
    assert_eq!(
        result,
        vec![date(2024, 12, 30), date(2024, 12, 31), date(2025, 1, 1), date(2025, 1, 2)]
    );
    assert_eq!(iter_dates(date(2024, 2, 1), date(2024, 2, 29)).len(), 29);
}

// 2026-02-01 is a Sunday, so week 1 of February 2026 is that day and the six after it.
#[test]
fn week_range_week_1_feb_2026() {
    let (start, end) = week_range(date(2026, 2, 1), 1).unwrap();
    assert_eq!(start, date(2026, 2, 1));
    assert_eq!(end, date(2026, 2, 7));
}

// Week 5 of February 2026 would start on March 1, after the month's last day.
#[test]
fn week_range_week_5_feb_2026() {
    assert_eq!(week_range(date(2026, 2, 1), 5), Err(WakalyzeError::WeekOutOfRange(5)));
    let (start, end) = week_range(date(2026, 2, 1), 4).unwrap();
    assert_eq!(start, date(2026, 2, 22));
    assert_eq!(end, date(2026, 2, 28));
}

// 2026-06-01 is a Monday: week 1 starts on the Sunday before it.
#[test]
fn week_range_first_is_monday() {
    let (start, end) = week_range(date(2026, 6, 1), 1).unwrap();
    assert_eq!(start, date(2026, 5, 31));
    assert_eq!(end, date(2026, 6, 6));
}

#[test]
fn week_range_invalid_0() {
    assert!(week_range(date(2026, 2, 1), 0).is_err());
}

#[test]
fn week_range_invalid_7() {
    assert!(week_range(date(2026, 2, 1), 7).is_err());
}

#[test]
fn week_range_out_of_month() {
    assert!(week_range(date(2026, 2, 1), 6).is_err());
}

#[test]
fn week_range_error_kinds() {
    assert_eq!(week_range(date(2026, 2, 1), 0), Err(WakalyzeError::InvalidWeek));
    assert_eq!(week_range(date(2026, 2, 1), 7), Err(WakalyzeError::InvalidWeek));
    assert_eq!(week_range(date(2026, 2, 1), 6), Err(WakalyzeError::WeekOutOfRange(6)));
}

#[test]
fn week_range_crosses_into_next_month() {
    // 2026-03-01 is a Sunday; week 5 runs from March 29 to April 4.
    let (start, end) = week_range(date(2026, 3, 1), 5).unwrap();
    assert_eq!(start, date(2026, 3, 29));
    assert_eq!(end, date(2026, 4, 4));
    // 2026-05-01 is a Friday; week 6 starts on May 31, the month's last day.
    let (start, end) = week_range(date(2026, 5, 1), 6).unwrap();
    assert_eq!(start, date(2026, 5, 31));
    assert_eq!(end, date(2026, 6, 6));
}

#[test]
fn analysis_range_month_and_week() {
    let (start, end, label) = analysis_range("2026/02", None).unwrap();
    assert_eq!((start, end, label.as_str()), (date(2026, 2, 1), date(2026, 2, 28), "2026/02"));
    let (start, end, label) = analysis_range("2026/06", Some(1)).unwrap();
    assert_eq!(
        (start, end, label.as_str()),
        (date(2026, 5, 31), date(2026, 6, 6), "2026/06 week 1")
    );
    assert_eq!(analysis_range("2026-06", Some(1)), Err(WakalyzeError::InvalidMonth));
    assert_eq!(analysis_range("2026/06", Some(9)), Err(WakalyzeError::InvalidWeek));
}
