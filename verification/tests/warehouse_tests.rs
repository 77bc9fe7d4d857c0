use warehouse::error::WarehouseError;
use warehouse::item::{Item, ItemQuality};
use warehouse::location::Location;
use warehouse::warehouse::{ExpiryStatus, Warehouse};

fn loc(row: u32, shelf: u32, level: u32, zone: u32) -> Location {
    Location { row, shelf, level, zone }
}

fn normal_item(id: u32, name: &str, quantity: u32, created_at: i64) -> Item {
    Item::new_at(id, name.to_string(), quantity, ItemQuality::Normal, None, created_at)
}

#[test]
fn first_normal_placement_takes_lowest_cell() {
    let mut w = Warehouse::new((2, 2, 2, 2));
    let locs = w.add_item(normal_item(1, "A", 5, 100)).unwrap();
    assert_eq!(locs, vec![loc(0, 0, 0, 0)]);
}

#[test]
fn oversized_two_zones_avoids_occupied_lane() {
    let mut w = Warehouse::new((2, 2, 2, 2));
    w.add_item(normal_item(1, "A", 5, 100)).unwrap();
    let b = Item::new_at(
        2,
        "B".to_string(),
        1,
        ItemQuality::Oversized { required_zones: 2 },
        None,
        101,
    );
    let locs = w.add_item(b).unwrap();
    // the lane holding A has no free 2-run left; the next lane in
    // lexicographic order wins
    assert_eq!(locs, vec![loc(0, 0, 1, 0), loc(0, 0, 1, 1)]);
    assert_eq!(locs.len(), 2);
    assert!(locs[0].row == locs[1].row && locs[0].shelf == locs[1].shelf);
    assert_eq!(locs[0].level, locs[1].level);
    assert_eq!(locs[0].zone + 1, locs[1].zone);
}

#[test]
fn oversized_three_zones_exceeds_bound() {
    let mut w = Warehouse::new((2, 2, 2, 2));
    let c = Item::new_at(
        3,
        "C".to_string(),
        1,
        ItemQuality::Oversized { required_zones: 3 },
        None,
        102,
    );
    assert_eq!(w.add_item(c), Err(WarehouseError::InvalidConstraint));
}

#[test]
fn oversized_zero_zones_is_invalid() {
    let mut w = Warehouse::new((2, 2, 2, 2));
    let c = Item::new_at(
        3,
        "C".to_string(),
        1,
        ItemQuality::Oversized { required_zones: 0 },
        None,
        102,
    );
    assert_eq!(w.add_item(c), Err(WarehouseError::InvalidConstraint));
}

#[test]
fn remove_oversized_vacates_every_cell() {
    let mut w = Warehouse::new((2, 2, 2, 2));
    w.add_item(normal_item(1, "A", 5, 100)).unwrap();
    let b = Item::new_at(
        2,
        "B".to_string(),
        1,
        ItemQuality::Oversized { required_zones: 2 },
        None,
        101,
    );
    let locs = w.add_item(b).unwrap();
    let removed = w.remove_item(&locs[0]).unwrap();
    assert_eq!(removed.len(), 2);
    assert!(removed.iter().all(|i| i.id == 2));
    // both cells are free again: a fresh 2-run fits in the same lane once
    // usage is not the tie-break winner; A's record is untouched
    let (found, qty) = w.search_by_id(2);
    assert!(!found);
    assert_eq!(qty, 0);
    let (found_a, qty_a) = w.search_by_id(1);
    assert!(found_a);
    assert_eq!(qty_a, 5);
}

#[test]
fn remove_normal_takes_single_cell_only() {
    let mut w = Warehouse::new((1, 1, 1, 2));
    w.add_item(normal_item(1, "A", 5, 100)).unwrap();
    w.add_item(normal_item(1, "A", 7, 200)).unwrap();
    let removed = w.remove_item(&loc(0, 0, 0, 0)).unwrap();
    assert_eq!(removed.len(), 1);
    assert_eq!(removed[0].quantity, 5);
    let (found, qty) = w.search_by_id(1);
    assert!(found);
    assert_eq!(qty, 7);
}

#[test]
fn remove_empty_location_is_not_found() {
    let mut w = Warehouse::new((2, 2, 2, 2));
    assert_eq!(w.remove_item(&loc(0, 0, 0, 0)), Err(WarehouseError::NotFound));
}

#[test]
fn remove_out_of_bounds_is_not_found() {
    let mut w = Warehouse::new((2, 2, 2, 2));
    assert_eq!(w.remove_item(&loc(5, 0, 0, 0)), Err(WarehouseError::NotFound));
}

#[test]
fn placement_fails_when_grid_is_full() {
    let mut w = Warehouse::new((1, 1, 1, 2));
    w.add_item(normal_item(1, "A", 1, 100)).unwrap();
    w.add_item(normal_item(2, "B", 1, 101)).unwrap();
    assert_eq!(
        w.add_item(normal_item(3, "C", 1, 102)),
        Err(WarehouseError::NoCapacity)
    );
}

#[test]
fn placement_fails_on_zero_capacity_grid() {
    let mut w = Warehouse::new((0, 4, 4, 4));
    assert_eq!(
        w.add_item(normal_item(1, "A", 1, 100)),
        Err(WarehouseError::NoCapacity)
    );
}

#[test]
fn usage_balancing_prefers_never_used_cells() {
    let mut w = Warehouse::new((1, 1, 1, 2));
    let first = w.add_item(normal_item(1, "A", 1, 100)).unwrap();
    assert_eq!(first, vec![loc(0, 0, 0, 0)]);
    w.remove_item(&loc(0, 0, 0, 0)).unwrap();
    // zone 0 now carries usage 1, zone 1 usage 0: wear levelling picks zone 1
    let second = w.add_item(normal_item(2, "B", 1, 101)).unwrap();
    assert_eq!(second, vec![loc(0, 0, 0, 1)]);
}

#[test]
fn usage_counts_survive_removal() {
    let mut w = Warehouse::new((1, 1, 1, 2));
    for round in 0..2 {
        w.add_item(normal_item(1, "A", 1, round)).unwrap();
        let removed = w.remove_item(&loc(0, 0, 0, round as u32)).unwrap();
        assert_eq!(removed.len(), 1);
    }
    // both zones were used once; the tie falls back to lexicographic order
    let third = w.add_item(normal_item(2, "B", 1, 50)).unwrap();
    assert_eq!(third, vec![loc(0, 0, 0, 0)]);
}

#[test]
fn fragile_respects_max_level() {
    let mut w = Warehouse::new((1, 1, 3, 1));
    let f = Item::new_at(
        1,
        "F".to_string(),
        1,
        ItemQuality::Fragile { max_level: Some(0) },
        None,
        100,
    );
    let locs = w.add_item(f).unwrap();
    assert_eq!(locs, vec![loc(0, 0, 0, 0)]);
    let f2 = Item::new_at(
        2,
        "F2".to_string(),
        1,
        ItemQuality::Fragile { max_level: Some(0) },
        None,
        101,
    );
    // the only cell at level zero is taken
    assert_eq!(w.add_item(f2), Err(WarehouseError::NoCapacity));
}

#[test]
fn fragile_without_limit_uses_any_level() {
    let mut w = Warehouse::new((1, 1, 3, 1));
    w.add_item(normal_item(1, "A", 1, 100)).unwrap();
    let f = Item::new_at(
        2,
        "F".to_string(),
        1,
        ItemQuality::Fragile { max_level: None },
        None,
        101,
    );
    let locs = w.add_item(f).unwrap();
    assert_eq!(locs, vec![loc(0, 0, 1, 0)]);
}

#[test]
fn grouped_items_collapses_oversized_records() {
    let mut w = Warehouse::new((2, 2, 2, 2));
    let b = Item::new_at(
        2,
        "B".to_string(),
        4,
        ItemQuality::Oversized { required_zones: 2 },
        None,
        101,
    );
    w.add_item(b).unwrap();
    let grouped = w.grouped_items();
    assert_eq!(grouped.len(), 1);
    assert_eq!(grouped[0].0.id, 2);
    assert_eq!(grouped[0].0.quantity, 4);
    assert_eq!(grouped[0].1, vec![loc(0, 0, 0, 0), loc(0, 0, 0, 1)]);
}

#[test]
fn grouped_items_separates_distinct_timestamps() {
    let mut w = Warehouse::new((1, 1, 1, 3));
    w.add_item(normal_item(7, "same", 1, 100)).unwrap();
    w.add_item(normal_item(7, "same", 2, 200)).unwrap();
    let grouped = w.grouped_items();
    assert_eq!(grouped.len(), 2);
    assert_eq!(grouped[0].0.quantity, 1);
    assert_eq!(grouped[1].0.quantity, 2);
}

#[test]
fn search_by_id_sums_all_records() {
    let mut w = Warehouse::new((2, 2, 2, 2));
    w.add_item(normal_item(9, "X", 5, 100)).unwrap();
    w.add_item(normal_item(9, "X", 7, 200)).unwrap();
    w.add_item(normal_item(4, "Y", 100, 300)).unwrap();
    let (found, qty) = w.search_by_id(9);
    assert!(found);
    assert_eq!(qty, 12);
    let (missing, zero) = w.search_by_id(12345);
    assert!(!missing);
    assert_eq!(zero, 0);
}

#[test]
fn search_by_name_sums_all_records() {
    let mut w = Warehouse::new((2, 2, 2, 2));
    w.add_item(normal_item(1, "apple", 3, 100)).unwrap();
    w.add_item(normal_item(2, "apple", 4, 200)).unwrap();
    w.add_item(normal_item(3, "pear", 9, 300)).unwrap();
    let (found, qty) = w.search_by_name("apple");
    assert!(found);
    assert_eq!(qty, 7);
    let (missing, zero) = w.search_by_name("plum");
    assert!(!missing);
    assert_eq!(zero, 0);
}

#[test]
fn search_locations_by_id_lists_matching_records() {
    let mut w = Warehouse::new((2, 2, 2, 2));
    w.add_item(normal_item(5, "A", 1, 100)).unwrap();
    w.add_item(normal_item(6, "B", 1, 200)).unwrap();
    w.add_item(normal_item(5, "A", 2, 300)).unwrap();
    let hits = w.search_locations_by_id(5);
    assert_eq!(hits.len(), 2);
    assert!(hits.iter().all(|(item, _)| item.id == 5));
    assert_eq!(hits[0].1, vec![loc(0, 0, 0, 0)]);
    assert_eq!(hits[1].1, vec![loc(0, 0, 1, 0)]);
}

#[test]
fn expiring_report_matches_window() {
    let mut w = Warehouse::new((2, 2, 2, 2));
    let reference = 1000i64;
    let cases = [
        (1, Some(reference - 1)),
        (2, Some(reference)),
        (3, Some(reference + 2)),
        (4, Some(reference + 3)),
        (5, Some(reference + 4)),
        (6, None),
    ];
    for (id, expiry) in cases {
        let f = Item::new_at(
            id,
            format!("f{}", id),
            1,
            ItemQuality::Fragile { max_level: None },
            expiry,
            id as i64,
        );
        w.add_item(f).unwrap();
    }
    // a non-fragile item with an expiry day is not reported
    let n = Item::new_at(7, "n".to_string(), 1, ItemQuality::Normal, Some(reference), 7);
    w.add_item(n).unwrap();
    let report = w.find_expiring_items_by_date(reference);
    assert_eq!(report.len(), 4);
    assert_eq!(report[0].0.id, 1);
    assert_eq!(report[0].1, ExpiryStatus::Expired);
    assert_eq!(report[1].0.id, 2);
    assert_eq!(report[1].1, ExpiryStatus::ExpiresInDays(0));
    assert_eq!(report[2].0.id, 3);
    assert_eq!(report[2].1, ExpiryStatus::ExpiresInDays(2));
    assert_eq!(report[3].0.id, 4);
    assert_eq!(report[3].1, ExpiryStatus::ExpiresInDays(3));
}

#[test]
fn expiring_report_carries_locations() {
    let mut w = Warehouse::new((2, 2, 2, 2));
    let f = Item::new_at(
        1,
        "f".to_string(),
        1,
        ItemQuality::Fragile { max_level: None },
        Some(10),
        100,
    );
    w.add_item(f).unwrap();
    let report = w.find_expiring_items_by_date(8);
    assert_eq!(report.len(), 1);
    assert_eq!(report[0].1, ExpiryStatus::ExpiresInDays(2));
    assert_eq!(report[0].2, vec![loc(0, 0, 0, 0)]);
}

#[test]
fn item_new_records_fields() {
    let item = Item::new(
        42,
        "thing".to_string(),
        6,
        ItemQuality::Fragile { max_level: Some(1) },
        Some(99),
    );
    assert_eq!(item.id, 42);
    assert_eq!(item.name, "thing");
    assert_eq!(item.quantity, 6);
    assert_eq!(item.quality, ItemQuality::Fragile { max_level: Some(1) });
    assert_eq!(item.expiry_day, Some(99));
}

#[test]
fn full_scenario_on_a_two_by_two_grid() {
    let mut w = Warehouse::new((2, 2, 2, 2));
    // a normal item lands on the lowest-usage, lexicographically first cell
    let a = normal_item(1, "A", 5, 100);
    assert_eq!(w.add_item(a).unwrap(), vec![loc(0, 0, 0, 0)]);
    // an oversized item needing two contiguous zones finds a free lane
    let b = Item::new_at(
        2,
        "B".to_string(),
        1,
        ItemQuality::Oversized { required_zones: 2 },
        None,
        101,
    );
    let b_locs = w.add_item(b).unwrap();
    assert_eq!(b_locs.len(), 2);
    assert!(!b_locs.contains(&loc(0, 0, 0, 0)));
    assert_eq!(b_locs[0].zone, 0);
    assert_eq!(b_locs[1].zone, 1);
    // three contiguous zones cannot exist when the zone bound is two
    let c = Item::new_at(
        3,
        "C".to_string(),
        1,
        ItemQuality::Oversized { required_zones: 3 },
        None,
        102,
    );
    assert_eq!(w.add_item(c), Err(WarehouseError::InvalidConstraint));
    // removing either of B's cells vacates both
    let removed = w.remove_item(&b_locs[1]).unwrap();
    assert_eq!(removed.len(), 2);
    assert!(!w.search_by_id(2).0);
    // a fragile item expiring two days past the reference date is reported
    let f = Item::new_at(
        4,
        "F".to_string(),
        1,
        ItemQuality::Fragile { max_level: None },
        Some(502),
        103,
    );
    w.add_item(f).unwrap();
    let report = w.find_expiring_items_by_date(500);
    assert_eq!(report.len(), 1);
    assert_eq!(report[0].1, ExpiryStatus::ExpiresInDays(2));
}

#[test]
fn fragile_limit_above_grid_top_is_unconstrained() {
    let mut w = Warehouse::new((1, 1, 2, 1));
    w.add_item(normal_item(1, "A", 1, 100)).unwrap();
    let f = Item::new_at(
        2,
        "F".to_string(),
        1,
        ItemQuality::Fragile { max_level: Some(10) },
        None,
        101,
    );
    assert_eq!(w.add_item(f).unwrap(), vec![loc(0, 0, 1, 0)]);
}
