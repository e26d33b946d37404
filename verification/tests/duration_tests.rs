use isoduration::Duration;
use isoduration::ParseError;

fn full(years: u64, months: u8, days: u8, hours: u8, minutes: u8, seconds: u8) -> Duration {
    Duration::Full { years, months, days, hours, minutes, seconds }
}

#[test]
fn it_works() {}

#[test]
fn parse_full_defaults() {
    assert_eq!(Duration::parse("P"), Ok(full(0, 0, 0, 0, 0, 0)));
}

#[test]
fn parse_full_explicit() {
    assert_eq!(Duration::parse("P3Y6M4DT12H30M5S"), Ok(full(3, 6, 4, 12, 30, 5)));
}

#[test]
fn parse_full_partial_groups() {
    assert_eq!(Duration::parse("P6M"), Ok(full(0, 6, 0, 0, 0, 0)));
    assert_eq!(Duration::parse("PT30M"), Ok(full(0, 0, 0, 0, 30, 0)));
    assert_eq!(Duration::parse("P1YT5S"), Ok(full(1, 0, 0, 0, 0, 5)));
}

#[test]
fn parse_weeks() {
    assert_eq!(Duration::parse("P10W"), Ok(Duration::Weeks { weeks: 10 }));
    assert_eq!(Duration::parse("P0W"), Ok(Duration::Weeks { weeks: 0 }));
}

#[test]
fn weeks_never_full() {
    match Duration::parse("P10W") {
        Ok(Duration::Weeks { weeks }) => assert_eq!(weeks, 10),
        other => panic!("expected a weeks duration, got {:?}", other),
    }
}

#[test]
fn format_weeks() {
    assert_eq!(Duration::Weeks { weeks: 10 }.format(), "P10W");
    assert_eq!(Duration::Weeks { weeks: 0 }.format(), "P0W");
}

#[test]
fn format_zero_omission() {
    assert_eq!(full(0, 0, 0, 0, 0, 0).format(), "P");
}

#[test]
fn format_time_separator() {
    assert_eq!(full(0, 0, 0, 0, 5, 0).format(), "PT5M");
    assert_eq!(full(1, 0, 0, 0, 0, 0).format(), "P1Y");
    assert_eq!(full(1, 2, 3, 0, 0, 0).format(), "P1Y2M3D");
    assert_eq!(full(0, 0, 0, 4, 0, 6).format(), "PT4H6S");
}

#[test]
fn malformed_rejected() {
    assert_eq!(Duration::parse("garbage"), Err(ParseError::FormatMismatch));
    assert_eq!(Duration::parse("10W"), Err(ParseError::FormatMismatch));
    assert_eq!(Duration::parse("P10X"), Err(ParseError::FormatMismatch));
    assert_eq!(Duration::parse(""), Err(ParseError::FormatMismatch));
    assert_eq!(Duration::parse("P5W3D"), Err(ParseError::FormatMismatch));
    assert_eq!(Duration::parse("P1M2Y"), Err(ParseError::FormatMismatch));
}

#[test]
fn overflow_rejected() {
    assert_eq!(Duration::parse("P1000M"), Err(ParseError::FieldOverflow));
    assert_eq!(Duration::parse("P256D"), Err(ParseError::FieldOverflow));
    assert_eq!(Duration::parse("PT999H"), Err(ParseError::FieldOverflow));
    assert_eq!(
        Duration::parse("P99999999999999999999Y"),
        Err(ParseError::FieldOverflow)
    );
    assert_eq!(
        Duration::parse("P99999999999999999999W"),
        Err(ParseError::FieldOverflow)
    );
}

#[test]
fn overflow_boundaries() {
    assert_eq!(Duration::parse("P255M"), Ok(full(0, 255, 0, 0, 0, 0)));
    assert_eq!(
        Duration::parse("P18446744073709551615Y"),
        Ok(full(u64::MAX, 0, 0, 0, 0, 0))
    );
    assert_eq!(
        Duration::parse("P18446744073709551616Y"),
        Err(ParseError::FieldOverflow)
    );
    assert_eq!(
        Duration::parse("P18446744073709551615W"),
        Ok(Duration::Weeks { weeks: u64::MAX })
    );
}

#[test]
fn leading_zeros_normalized() {
    assert_eq!(Duration::parse("P01Y"), Ok(full(1, 0, 0, 0, 0, 0)));
    assert_eq!(full(1, 0, 0, 0, 0, 0).format(), "P1Y");
    assert_eq!(Duration::parse("P007W"), Ok(Duration::Weeks { weeks: 7 }));
}

#[test]
fn empty_weeks_digits_rejected() {
    assert_eq!(Duration::parse("PW"), Err(ParseError::FieldOverflow));
}

#[test]
fn dangling_time_separator_accepted() {
    assert_eq!(Duration::parse("P1YT"), Ok(full(1, 0, 0, 0, 0, 0)));
    assert_eq!(Duration::parse("PT"), Ok(full(0, 0, 0, 0, 0, 0)));
}

#[test]
fn round_trip() {
    let values = [
        Duration::Weeks { weeks: 0 },
        Duration::Weeks { weeks: 10 },
        Duration::Weeks { weeks: u64::MAX },
        full(0, 0, 0, 0, 0, 0),
        full(3, 6, 4, 12, 30, 5),
        full(0, 0, 0, 0, 5, 0),
        full(1, 0, 0, 0, 0, 0),
        full(0, 255, 255, 255, 255, 255),
        full(u64::MAX, 0, 0, 0, 0, 1),
    ];
    for d in values {
        assert_eq!(Duration::parse(&d.format()), Ok(d));
    }
}

#[test]
fn error_messages() {
    assert_eq!(
        ParseError::FormatMismatch.message(),
        "does not match either duration format"
    );
    assert_eq!(
        ParseError::FieldOverflow.message(),
        "a numeric field does not fit its integer width"
    );
}
