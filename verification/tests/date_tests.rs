use proposal_ledger::codec::format_date;
use proposal_ledger::codec::parse_date;
use proposal_ledger::date::date_to_timestamp;
use proposal_ledger::date::days_in_month;
use proposal_ledger::date::is_leap_year;
use proposal_ledger::date::timestamp_to_date;
use proposal_ledger::types::ErrorKind;

#[test]
fn leap_year_table() {
    assert!(is_leap_year(2000));
    assert!(is_leap_year(2024));
    assert!(!is_leap_year(1900));
    assert!(!is_leap_year(2023));
    assert!(!is_leap_year(2100));
}

#[test]
fn month_lengths() {
    assert_eq!(days_in_month(2024, 2), 29);
    assert_eq!(days_in_month(2023, 2), 28);
    assert_eq!(days_in_month(2000, 2), 29);
    assert_eq!(days_in_month(1900, 2), 28);
    assert_eq!(days_in_month(2023, 1), 31);
    assert_eq!(days_in_month(2023, 4), 30);
    assert_eq!(days_in_month(2023, 6), 30);
    assert_eq!(days_in_month(2023, 9), 30);
    assert_eq!(days_in_month(2023, 11), 30);
    assert_eq!(days_in_month(2023, 12), 31);
}

#[test]
fn epoch_of_known_dates() {
    assert_eq!(date_to_timestamp(1970, 1, 1), 0);
    assert_eq!(date_to_timestamp(1970, 1, 2), 86400);
    assert_eq!(date_to_timestamp(2024, 1, 1), 1_704_067_200);
    assert_eq!(date_to_timestamp(2025, 6, 15), 1_749_945_600);
    assert_eq!(date_to_timestamp(2030, 1, 1), 1_893_456_000);
}

#[test]
fn decompose_known_timestamps() {
    assert_eq!(timestamp_to_date(0), (1970, 1, 1));
    assert_eq!(timestamp_to_date(86399), (1970, 1, 1));
    assert_eq!(timestamp_to_date(86400), (1970, 1, 2));
    assert_eq!(timestamp_to_date(1_704_067_200), (2024, 1, 1));
    assert_eq!(timestamp_to_date(1_709_164_800), (2024, 2, 29));
}

#[test]
fn epoch_round_trip_at_day_granularity() {
    let dates = [
        (1970u32, 1u32, 1u32),
        (2000, 2, 29),
        (2023, 12, 31),
        (2024, 2, 29),
        (2030, 1, 1),
        (2100, 3, 1),
    ];
    for (y, m, d) in dates {
        let ts = date_to_timestamp(y, m, d);
        assert_eq!(timestamp_to_date(ts), (y, m, d));
    }
}

#[test]
fn parse_format_round_trip() {
    let dates = [(2023u32, 1u32, 1u32), (2024, 2, 29), (2030, 1, 2), (2099, 12, 31)];
    for (y, m, d) in dates {
        let text = format_date(y, m, d);
        let (ts, py, pm, pd) = parse_date(&text).unwrap();
        assert_eq!((py, pm, pd), (y, m, d));
        assert_eq!(ts, date_to_timestamp(y, m, d));
    }
}

#[test]
fn format_is_zero_padded() {
    assert_eq!(format_date(2030, 1, 2), "02-01-2030");
    assert_eq!(format_date(2024, 12, 25), "25-12-2024");
}

#[test]
fn parse_valid_dates() {
    assert_eq!(parse_date("01-01-2030").unwrap(), (1_893_456_000, 2030, 1, 1));
    assert_eq!(parse_date("15-06-2025").unwrap(), (1_749_945_600, 2025, 6, 15));
    assert_eq!(parse_date("29-02-2024").unwrap(), (1_709_164_800, 2024, 2, 29));
    // `u32::from_str` accepts an optional leading plus sign in each field.
    assert_eq!(parse_date("+1-1-2030").unwrap(), (1_893_456_000, 2030, 1, 1));
}

#[test]
fn parse_rejects_wrong_field_count() {
    assert_eq!(parse_date("01012030").unwrap_err().kind(), ErrorKind::InvalidInput);
    assert_eq!(parse_date("01-01").unwrap_err().kind(), ErrorKind::InvalidInput);
    assert_eq!(parse_date("01-01-20-30").unwrap_err().kind(), ErrorKind::InvalidInput);
    assert_eq!(parse_date("").unwrap_err().kind(), ErrorKind::InvalidInput);
}

#[test]
fn parse_rejects_non_numeric_fields() {
    assert_eq!(parse_date("aa-01-2030").unwrap_err().kind(), ErrorKind::InvalidInput);
    assert_eq!(parse_date("01-bb-2030").unwrap_err().kind(), ErrorKind::InvalidInput);
    assert_eq!(parse_date("01-01-cc").unwrap_err().kind(), ErrorKind::InvalidInput);
    assert_eq!(parse_date("--").unwrap_err().kind(), ErrorKind::InvalidInput);
}

#[test]
fn parse_rejects_calendar_violations() {
    assert_eq!(parse_date("32-01-2030").unwrap_err().kind(), ErrorKind::InvalidInput);
    assert_eq!(parse_date("00-01-2030").unwrap_err().kind(), ErrorKind::InvalidInput);
    assert_eq!(parse_date("01-13-2030").unwrap_err().kind(), ErrorKind::InvalidInput);
    assert_eq!(parse_date("01-00-2030").unwrap_err().kind(), ErrorKind::InvalidInput);
    assert_eq!(parse_date("29-02-2023").unwrap_err().kind(), ErrorKind::InvalidInput);
    assert_eq!(parse_date("31-04-2030").unwrap_err().kind(), ErrorKind::InvalidInput);
}

#[test]
fn parse_rejects_years_below_the_floor() {
    assert_eq!(parse_date("01-01-2022").unwrap_err().kind(), ErrorKind::InvalidInput);
    assert_eq!(parse_date("01-01-1999").unwrap_err().kind(), ErrorKind::InvalidInput);
    assert!(parse_date("01-01-2023").is_ok());
}

#[test]
fn parse_rejects_oversized_numbers() {
    assert_eq!(parse_date("01-01-99999999999").unwrap_err().kind(), ErrorKind::InvalidInput);
}
