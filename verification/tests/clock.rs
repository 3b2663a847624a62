use gradebook::clock::unix_seconds;
use gradebook::datetime::sql_datetime;

#[test]
fn datetime_text_of_known_instants() {
    assert_eq!(sql_datetime(0), Some("1970-01-01 00:00:00".to_string()));
    assert_eq!(sql_datetime(-1), Some("1969-12-31 23:59:59".to_string()));
    assert_eq!(sql_datetime(951782400), Some("2000-02-29 00:00:00".to_string()));
    assert_eq!(sql_datetime(1717236000), Some("2024-06-01 10:00:00".to_string()));
    assert_eq!(sql_datetime(4107542399), Some("2100-02-28 23:59:59".to_string()));
    assert_eq!(sql_datetime(4107542400), Some("2100-03-01 00:00:00".to_string()));
    assert_eq!(sql_datetime(-62167219200), Some("0000-01-01 00:00:00".to_string()));
    assert_eq!(sql_datetime(-62162035201), Some("0000-02-29 23:59:59".to_string()));
    assert_eq!(sql_datetime(253402300799), Some("9999-12-31 23:59:59".to_string()));
}

#[test]
fn datetime_text_outside_the_years_0000_to_9999() {
    assert_eq!(sql_datetime(253402300800), None);
    assert_eq!(sql_datetime(-62167219201), None);
    assert_eq!(sql_datetime(i64::MIN), None);
    assert_eq!(sql_datetime(i64::MAX), None);
}

#[test]
fn clock_readings_round_down_to_seconds() {
    assert_eq!(unix_seconds(Ok((1700000000, 999_999_999))), Some(1700000000));
    assert_eq!(unix_seconds(Ok((0, 0))), Some(0));
    assert_eq!(unix_seconds(Err((5, 0))), Some(-5));
    assert_eq!(unix_seconds(Err((5, 1))), Some(-6));
    assert_eq!(unix_seconds(Err((0, 500))), Some(-1));
    assert_eq!(unix_seconds(Ok((u64::MAX, 0))), None);
    assert_eq!(unix_seconds(Err((9223372036854775808, 0))), Some(i64::MIN));
    assert_eq!(unix_seconds(Err((9223372036854775808, 1))), None);
}
