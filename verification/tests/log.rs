use qstream::log::{
    civil_from_days, debug, error, info, set_level, trace, utc_timestamp, warn, DEFAULT_LEVEL,
};

#[test]
fn civil_date_epoch() {
    assert_eq!(civil_from_days(0), (1970, 1, 1));
}

#[test]
fn civil_date_known_value() {
    assert_eq!(civil_from_days(20_000), (2024, 10, 4));
}

#[test]
fn civil_dates_around_leap_days() {
    assert_eq!(civil_from_days(-1), (1969, 12, 31));
    assert_eq!(civil_from_days(11_016), (2000, 2, 29));
    assert_eq!(civil_from_days(11_017), (2000, 3, 1));
    assert_eq!(civil_from_days(-25_508), (1900, 3, 1));
    assert_eq!(civil_from_days(-25_509), (1900, 2, 28));
    assert_eq!(civil_from_days(-719_468), (0, 3, 1));
    assert_eq!(civil_from_days(-719_469), (0, 2, 29));
}

#[test]
fn timestamps() {
    assert_eq!(utc_timestamp(0), "1970-01-01T00:00:00.000");
    assert_eq!(utc_timestamp(1_728_000_000_123), "2024-10-04T00:00:00.123");
    assert_eq!(utc_timestamp(951_868_799_999), "2000-02-29T23:59:59.999");
}

#[test]
fn levels() {
    assert_eq!(DEFAULT_LEVEL, 2);
    assert_eq!(set_level(2, "error"), 0);
    assert_eq!(set_level(2, "warn"), 1);
    assert_eq!(set_level(0, "info"), 2);
    assert_eq!(set_level(2, "debug"), 3);
    assert_eq!(set_level(2, "trace"), 4);
    assert_eq!(set_level(2, "TRACE"), 2);
    assert_eq!(set_level(1, ""), 1);
}

#[test]
fn lines_and_verbosity() {
    assert_eq!(
        info(2, 0, "hello"),
        Some("[1970-01-01T00:00:00.000] INFO  hello".to_string())
    );
    assert_eq!(
        error(0, 0, "x"),
        Some("[1970-01-01T00:00:00.000] ERROR x".to_string())
    );
    assert_eq!(
        warn(4, 0, "x"),
        Some("[1970-01-01T00:00:00.000] WARN  x".to_string())
    );
    assert_eq!(warn(0, 0, "x"), None);
    assert_eq!(debug(2, 0, "x"), None);
    assert_eq!(
        debug(3, 0, "x"),
        Some("[1970-01-01T00:00:00.000] DEBUG x".to_string())
    );
    assert_eq!(trace(3, 0, "x"), None);
    assert_eq!(
        trace(4, 0, "x"),
        Some("[1970-01-01T00:00:00.000] TRACE x".to_string())
    );
}
