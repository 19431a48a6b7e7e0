use cursor_stats::time::{
    calendar_days_for_budget, days_from_civil, epoch_millis, iso_ms_in_range, now_ms, parse_iso_ms, MS_PER_DAY,
};

const DAY: u64 = MS_PER_DAY;

#[test]
fn days_from_civil_counts_from_the_epoch() {
    assert_eq!(days_from_civil(1970, 1, 1), Some(0));
    assert_eq!(days_from_civil(1970, 1, 2), Some(1));
    assert_eq!(days_from_civil(1969, 12, 31), Some(-1));
    assert_eq!(days_from_civil(2000, 3, 1), Some(11_017));
    assert_eq!(days_from_civil(2024, 2, 29) .map(|d| d + 1), days_from_civil(2024, 3, 1));
    assert_eq!(days_from_civil(2023, 2, 28).map(|d| d + 1), days_from_civil(2023, 3, 1));
    assert_eq!(days_from_civil(1600, 1, 1), Some(-135_140));
}

#[test]
fn parse_iso_ms_reads_billing_dates() {
    assert_eq!(parse_iso_ms("2025-08-29T12:00:00.000Z"), Some(1_756_468_800_000));
    assert_eq!(parse_iso_ms("  1970-01-01T00:00:01Z  "), Some(1000));
    assert_eq!(parse_iso_ms("2024-02-29T23:59:59"), Some(1_709_251_199_000));
    assert_eq!(parse_iso_ms("2024-02-29T23:59:59.999ZZ"), Some(1_709_251_199_000));
}

#[test]
fn parse_iso_ms_rejects_other_shapes() {
    assert_eq!(parse_iso_ms("2024-02-29"), None);
    assert_eq!(parse_iso_ms("2024-02T00:00:00Z"), None);
    assert_eq!(parse_iso_ms("2024-02-29T00:00Z"), None);
    assert_eq!(parse_iso_ms("2025-01-01T10:00:00+07:00"), None);
    assert_eq!(parse_iso_ms("yyyy-02-29T00:00:00Z"), None);
    assert_eq!(parse_iso_ms(""), None);
}

#[test]
fn parse_iso_ms_wraps_before_the_epoch() {
    assert_eq!(parse_iso_ms("1969-12-31T23:59:59Z"), Some(u64::MAX - 999));
}

#[test]
fn iso_range_check() {
    assert!(iso_ms_in_range("2025-08-29T12:00:00.000Z"));
    assert!(iso_ms_in_range("not a date"));
    assert!(!iso_ms_in_range("2025-03-00T00:00:00Z"));
    assert!(iso_ms_in_range("2025-04-00T00:00:00Z"));
    assert!(!iso_ms_in_range("2147483647-12-31T00:00:00Z"));
}

#[test]
fn calendar_days_two_calendar_days_remain() {
    let day_start = 1_700_000_000_000u64;
    assert_eq!(calendar_days_for_budget(day_start, day_start + 2 * DAY), 2);
}

#[test]
fn calendar_days_count_from_midnight_not_from_now() {
    let day_start = 1_700_000_000_000u64;
    let now = day_start + 9 * 3600_000;
    assert_eq!(calendar_days_for_budget(day_start, now + DAY), 2);
}

#[test]
fn calendar_days_is_one_on_renewal_day() {
    let day_start = 1_700_000_000_000u64;
    assert_eq!(calendar_days_for_budget(day_start, day_start + DAY / 2), 1);
    assert_eq!(calendar_days_for_budget(day_start, day_start), 1);
    assert_eq!(calendar_days_for_budget(day_start, day_start - 1), 1);
    assert_eq!(calendar_days_for_budget(day_start, day_start + DAY + 1), 2);
}

#[test]
fn clock_reads_after_2020() {
    assert!(now_ms() > 1_577_836_800_000);
}

#[test]
fn epoch_millis_keeps_reading_or_zero() {
    assert_eq!(epoch_millis(Some(1_700_000_000_123)), 1_700_000_000_123);
    assert_eq!(epoch_millis(None), 0);
    assert_eq!(epoch_millis(Some((1u128 << 64) + 5)), 5);
    assert_eq!(epoch_millis(Some(u64::MAX as u128)), u64::MAX);
}
