use warehouse::allocation_strategies::{
    allocate_with_strategy, round_robin_allocation, AllocationStrategy,
};
use warehouse::error::WarehouseError;
use warehouse::item::{Item, ItemQuality};
use warehouse::location::Location;
use warehouse::warehouse::Warehouse;

fn loc(row: u32, shelf: u32, level: u32, zone: u32) -> Location {
    Location { row, shelf, level, zone }
}

fn normal_item(id: u32, created_at: i64) -> Item {
    Item::new_at(id, format!("n{}", id), 1, ItemQuality::Normal, None, created_at)
}

#[test]
fn round_robin_starts_after_the_origin_cursor() {
    let mut w = Warehouse::new((2, 2, 2, 2));
    let locs = round_robin_allocation(&mut w, &normal_item(1, 100)).unwrap();
    // the scan starts at the successor of the default cursor (0,0,0,0)
    assert_eq!(locs, vec![loc(0, 0, 0, 1)]);
}

#[test]
fn round_robin_advances_cursor_between_calls() {
    let mut w = Warehouse::new((2, 2, 2, 2));
    let first = round_robin_allocation(&mut w, &normal_item(1, 100)).unwrap();
    let second = round_robin_allocation(&mut w, &normal_item(2, 101)).unwrap();
    let third = round_robin_allocation(&mut w, &normal_item(3, 102)).unwrap();
    assert_eq!(first, vec![loc(0, 0, 0, 1)]);
    assert_eq!(second, vec![loc(0, 0, 1, 0)]);
    assert_eq!(third, vec![loc(0, 0, 1, 1)]);
}

#[test]
fn round_robin_visits_every_free_cell_once_per_sweep() {
    let mut w = Warehouse::new((2, 2, 2, 2));
    let mut seen = Vec::new();
    for call in 0..16 {
        let locs = round_robin_allocation(&mut w, &normal_item(call, call as i64)).unwrap();
        assert_eq!(locs.len(), 1);
        assert!(
            !seen.contains(&locs[0]),
            "revisited a cell within one sweep"
        );
        seen.push(locs[0]);
    }
    // the seventeenth call wraps around and repeats the first pick
    let again = round_robin_allocation(&mut w, &normal_item(99, 99)).unwrap();
    assert_eq!(again[0], seen[0]);
}

#[test]
fn round_robin_skips_occupied_cells() {
    let mut w = Warehouse::new((1, 1, 1, 3));
    w.add_item(normal_item(1, 100)).unwrap();
    // zone 0 is occupied; the scan starts at zone 1
    let locs = round_robin_allocation(&mut w, &normal_item(2, 101)).unwrap();
    assert_eq!(locs, vec![loc(0, 0, 0, 1)]);
    let locs2 = round_robin_allocation(&mut w, &normal_item(3, 102)).unwrap();
    assert_eq!(locs2, vec![loc(0, 0, 0, 2)]);
}

#[test]
fn round_robin_respects_fragile_level() {
    let mut w = Warehouse::new((1, 1, 2, 2));
    let f = Item::new_at(
        1,
        "f".to_string(),
        1,
        ItemQuality::Fragile { max_level: Some(0) },
        None,
        100,
    );
    let locs = round_robin_allocation(&mut w, &f).unwrap();
    assert_eq!(locs, vec![loc(0, 0, 0, 1)]);
    // the next sweep passes both level-1 cells, which do not qualify, and
    // wraps back to the remaining level-0 cell
    let locs2 = round_robin_allocation(&mut w, &f).unwrap();
    assert_eq!(locs2, vec![loc(0, 0, 0, 0)]);
}

#[test]
fn round_robin_claims_contiguous_run() {
    let mut w = Warehouse::new((2, 2, 2, 2));
    let b = Item::new_at(
        2,
        "B".to_string(),
        1,
        ItemQuality::Oversized { required_zones: 2 },
        None,
        101,
    );
    let locs = round_robin_allocation(&mut w, &b).unwrap();
    // zone 1 cannot start a 2-run, so the first full lane ahead wins
    assert_eq!(locs, vec![loc(0, 0, 1, 0), loc(0, 0, 1, 1)]);
    // the cursor now sits on the last claimed cell
    let next = round_robin_allocation(&mut w, &normal_item(3, 102)).unwrap();
    assert_eq!(next, vec![loc(0, 1, 0, 0)]);
}

#[test]
fn round_robin_rejects_overlarge_run() {
    let mut w = Warehouse::new((2, 2, 2, 2));
    let b = Item::new_at(
        2,
        "B".to_string(),
        1,
        ItemQuality::Oversized { required_zones: 3 },
        None,
        101,
    );
    assert_eq!(
        round_robin_allocation(&mut w, &b),
        Err(WarehouseError::InvalidConstraint)
    );
}

#[test]
fn round_robin_reports_no_capacity_on_full_grid() {
    let mut w = Warehouse::new((1, 1, 1, 2));
    w.add_item(normal_item(1, 100)).unwrap();
    w.add_item(normal_item(2, 101)).unwrap();
    assert_eq!(
        round_robin_allocation(&mut w, &normal_item(3, 102)),
        Err(WarehouseError::NoCapacity)
    );
}

#[test]
fn strategy_selector_dispatches_both_policies() {
    let mut w = Warehouse::new((2, 2, 2, 2));
    let balanced = allocate_with_strategy(
        &mut w,
        &normal_item(1, 100),
        AllocationStrategy::UsageBalanced,
    )
    .unwrap();
    assert_eq!(balanced, vec![loc(0, 0, 0, 0)]);
    let robin = allocate_with_strategy(
        &mut w,
        &normal_item(2, 101),
        AllocationStrategy::RoundRobin,
    )
    .unwrap();
    assert_eq!(robin, vec![loc(0, 0, 0, 1)]);
}

#[test]
fn allocation_probes_leave_the_grid_empty() {
    let mut w = Warehouse::new((2, 2, 2, 2));
    round_robin_allocation(&mut w, &normal_item(1, 100)).unwrap();
    let spot = w.find_allocation_spot(&normal_item(2, 101)).unwrap();
    // neither policy wrote anything: the best-fit cell is still the origin
    assert_eq!(spot, vec![loc(0, 0, 0, 0)]);
    let (found, qty) = w.search_by_id(1);
    assert!(!found);
    assert_eq!(qty, 0);
}
