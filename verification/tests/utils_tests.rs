use warehouse::error::WarehouseError;
use warehouse::item::{Item, ItemQuality};
use warehouse::utils::{parse_date, parse_u32, validate_location_input};
use warehouse::warehouse::{ExpiryStatus, Warehouse};

#[test]
fn parse_u32_reads_decimal_digits() {
    assert_eq!(parse_u32("0"), Ok(0));
    assert_eq!(parse_u32("42"), Ok(42));
    assert_eq!(parse_u32("0042"), Ok(42));
    assert_eq!(parse_u32("4294967295"), Ok(u32::MAX));
}

#[test]
fn parse_u32_rejects_bad_input() {
    assert_eq!(parse_u32(""), Err(WarehouseError::InvalidInput));
    assert_eq!(parse_u32("12a"), Err(WarehouseError::InvalidInput));
    assert_eq!(parse_u32("-1"), Err(WarehouseError::InvalidInput));
    assert_eq!(parse_u32(" 7"), Err(WarehouseError::InvalidInput));
    assert_eq!(parse_u32("4294967296"), Err(WarehouseError::InvalidInput));
}

#[test]
fn validate_location_accepts_in_bounds_coordinates() {
    let dims = (10, 10, 10, 10);
    assert_eq!(validate_location_input("1", "2", "3", "4", dims), Ok((1, 2, 3, 4)));
    assert_eq!(validate_location_input("0", "0", "0", "9", dims), Ok((0, 0, 0, 9)));
}

#[test]
fn validate_location_rejects_bad_coordinates() {
    let dims = (10, 10, 10, 10);
    assert_eq!(
        validate_location_input("x", "2", "3", "4", dims),
        Err(WarehouseError::InvalidInput)
    );
    assert_eq!(
        validate_location_input("1", "2", "3", "10", dims),
        Err(WarehouseError::InvalidInput)
    );
    assert_eq!(
        validate_location_input("1", "2", "", "4", dims),
        Err(WarehouseError::InvalidInput)
    );
}

#[test]
fn parse_date_reads_day_month_year() {
    let d = parse_date("01-01-2024");
    assert!(d.is_some());
    // consecutive calendar days map to consecutive day numbers
    let next = parse_date("02-01-2024");
    assert_eq!(next.unwrap() - d.unwrap(), 1);
    // a leap day exists in 2024
    let feb28 = parse_date("28-02-2024").unwrap();
    let mar01 = parse_date("01-03-2024").unwrap();
    assert_eq!(mar01 - feb28, 2);
}

#[test]
fn parse_date_rejects_malformed_text() {
    assert_eq!(parse_date("2024-01-01"), None);
    assert_eq!(parse_date("31-02-2024"), None);
    assert_eq!(parse_date("not a date"), None);
    assert_eq!(parse_date(""), None);
}

#[test]
fn expiring_window_matches_parsed_dates() {
    let mut w = Warehouse::new((1, 1, 1, 2));
    let expiry = parse_date("12-06-2025").unwrap();
    let reference = parse_date("10-06-2025").unwrap();
    let f = Item::new_at(
        1,
        "milk".to_string(),
        1,
        ItemQuality::Fragile { max_level: None },
        Some(expiry),
        100,
    );
    w.add_item(f).unwrap();
    let report = w.find_expiring_items_by_date(reference);
    assert_eq!(report.len(), 1);
    assert_eq!(report[0].1, ExpiryStatus::ExpiresInDays(2));
}
