use blog_search::datetime::{midnight_timestamp, parse_datetime, transform_date};

#[test]
fn console_dates_become_midnight_timestamps() {
    assert_eq!(transform_date("1970-01-01"), 0);
    assert_eq!(transform_date("1970-01-02"), 86400);
    assert_eq!(transform_date("2022-09-15"), 1663200000);
    assert_eq!(transform_date("2000-02-29"), 951782400);
}

#[test]
fn unparsable_console_dates_mean_unbounded() {
    assert_eq!(transform_date(""), 0);
    assert_eq!(transform_date("yesterday"), 0);
    assert_eq!(transform_date("2022-13-01"), 0);
    assert_eq!(transform_date("2022-02-30"), 0);
    assert_eq!(transform_date("2100-02-29"), 0); // not a leap year
}

#[test]
fn published_stamps_parse_with_their_zone_offset() {
    assert_eq!(parse_datetime("2022-09-15T23:45:08+08:00"), Some(1663256708));
    assert_eq!(parse_datetime("2022-09-16T00:00:00+00:00"), Some(1663286400));
    assert_eq!(
        parse_datetime("2022-09-15T20:00:00-04:00"),
        Some(1663286400)
    );
    assert_eq!(parse_datetime("2022-09-15"), None);
    assert_eq!(parse_datetime("2022-09-15T25:00:00+00:00"), None);
}

#[test]
fn midnight_arithmetic_handles_early_years() {
    assert_eq!(midnight_timestamp(1969, 12, 31), -86400);
    assert_eq!(midnight_timestamp(1970, 1, 1), 0);
}
