use wakalyze::calendar::Date;
use wakalyze::format::{clock_label, format_date_short, format_duration};

#[test]
fn format_duration_zero() {
    assert_eq!(format_duration(0), "0h00m");
}

#[test]
fn format_duration_minutes_only() {
    assert_eq!(format_duration(300), "0h05m");
}

#[test]
fn format_duration_hours_and_minutes() {
    assert_eq!(format_duration(3661), "1h01m");
}

#[test]
fn format_duration_many_hours() {
    assert_eq!(format_duration(36000), "10h00m");
}

#[test]
fn format_duration_negative_and_extreme() {
    assert_eq!(format_duration(-300), format!("{}h{:02}m", -300i64 / 3600, (-300i64 % 3600) / 60));
    assert_eq!(format_duration(-3661), "-1h-1m");
    assert_eq!(format_duration(59), "0h00m");
    assert_eq!(format_duration(3600 * 25 + 60 * 10), "25h10m");
    let max = i64::MAX;
    assert_eq!(format_duration(max), format!("{}h{:02}m", max / 3600, (max % 3600) / 60));
    let min = i64::MIN;
    assert_eq!(format_duration(min), format!("{}h{:02}m", min / 3600, (min % 3600) / 60));
}

#[test]
fn format_date_short_basic() {
    assert_eq!(format_date_short(Date { year: 2026, month: 2, day: 1 }), "2/1");
}

#[test]
fn format_date_short_double_digit() {
    assert_eq!(format_date_short(Date { year: 2026, month: 12, day: 25 }), "12/25");
}

#[test]
fn clock_label_drops_leading_zero_and_lowercases() {
    assert_eq!(clock_label("09:30AM"), "9:30am");
    assert_eq!(clock_label("02:05PM"), "2:05pm");
    assert_eq!(clock_label("12:00PM"), "12:00pm");
    assert_eq!(clock_label("12:00AM"), "12:00am");
    assert_eq!(clock_label("000"), "");
}
