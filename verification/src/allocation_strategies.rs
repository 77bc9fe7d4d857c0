//! The alternative allocation policy: round-robin scanning from a cursor.
//! The usage-balanced best-fit policy is the canonical default and lives on
//! `Warehouse` itself; this module offers the cursor-driven alternative and
//! the strategy selector.

use vstd::prelude::*;
use crate::error::WarehouseError;
use crate::item::{Item, ItemQuality};
use crate::location::{
    cyc_dist, first_location, lemma_cyc_dist_injective, lemma_cyc_dist_range,
    lemma_cyc_dist_shift, lemma_cyc_dist_succ, lemma_loc_index_bounds, loc_in_bounds,
    total_capacity, Dimensions, Location,
};
use crate::location::next_location_wrapped;
use crate::warehouse::{fragile_level_ok, level_limit, run_seq, zone_offset, Warehouse};

verus! {

/// Which allocation policy to apply.
#[derive(Clone, Copy, PartialEq, Eq, Structural, Debug)]
pub enum AllocationStrategy {
    /// Usage-balanced best-fit: the canonical default.
    UsageBalanced,
    /// Cursor-driven round-robin: the named alternative.
    RoundRobin,
}

/// The cursor the round-robin scan starts from: the last allocated cell, or
/// the grid origin before any allocation.
pub open spec fn rr_start(w: Warehouse) -> Location {
    match w.last_allocation {
        Some(l) => l,
        None => Location { row: 0, shelf: 0, level: 0, zone: 0 },
    }
}

/// A position the round-robin scan may claim for the item: a free cell
/// within the level limit, or the first cell of a free run of the required
/// length.
pub open spec fn rr_qualifies(w: Warehouse, item: Item, loc: Location) -> bool {
    match item.quality {
        ItemQuality::Normal => w.qualifies_single(loc, level_limit(w.max_dimensions.2, None)),
        ItemQuality::Fragile { max_level } => w.qualifies_single(
            loc,
            level_limit(w.max_dimensions.2, max_level),
        ),
        ItemQuality::Oversized { required_zones: k } => w.run_free(loc, k),
    }
}

/// What one round-robin scan from cursor `c` claims: the qualifying
/// position the fewest cyclic successor steps ahead of `c`.
pub open spec fn is_rr_pick(w: Warehouse, item: Item, c: Location, r: Location) -> bool {
    &&& rr_qualifies(w, item, r)
    &&& forall|x: Location|
        #[trigger] rr_qualifies(w, item, x) && x != r ==> cyc_dist(c, r, w.max_dimensions)
            < cyc_dist(c, x, w.max_dimensions)
}

/// A qualifying position lies inside the grid.
proof fn lemma_rr_qualifies_in_bounds(w: Warehouse, item: Item, loc: Location)
    requires
        rr_qualifies(w, item, loc),
    ensures
        loc_in_bounds(loc, w.max_dimensions),
{
}

/// Round-robin allocation: starting from the cursor's successor, scans
/// forward (one full sweep at most, wrapping each axis) for the first
/// position satisfying the item's quality constraint and freedom, and
/// advances the cursor to the last location claimed. Never writes any item;
/// only the cursor moves.
pub fn round_robin_allocation(warehouse: &mut Warehouse, item: &Item) -> (r: Result<
    Vec<Location>,
    WarehouseError,
>)
    requires
        old(warehouse).wf(),
    ensures
        final(warehouse).wf(),
        final(warehouse).slots == old(warehouse).slots,
        final(warehouse).usage_count == old(warehouse).usage_count,
        final(warehouse).max_dimensions == old(warehouse).max_dimensions,
        match r {
            Ok(locs) => {
                &&& locs@.len() >= 1
                &&& is_rr_pick(*old(warehouse), *item, rr_start(*old(warehouse)), locs@[0])
                &&& match item.quality {
                    ItemQuality::Oversized { required_zones: k } => locs@.len() == k && locs@
                        == run_seq(locs@[0], k),
                    _ => locs@.len() == 1,
                }
                &&& final(warehouse).last_allocation == Some(locs@[locs@.len() - 1])
            },
            Err(e) => {
                &&& final(warehouse).last_allocation == old(warehouse).last_allocation
                &&& match item.quality {
                    ItemQuality::Oversized { required_zones: k } => {
                        if k == 0 || k > old(warehouse).max_dimensions.3 {
                            e == WarehouseError::InvalidConstraint
                        } else {
                            &&& e == WarehouseError::NoCapacity
                            &&& forall|x: Location| !rr_qualifies(*old(warehouse), *item, x)
                        }
                    },
                    _ => {
                        &&& e == WarehouseError::NoCapacity
                        &&& forall|x: Location| !rr_qualifies(*old(warehouse), *item, x)
                    },
                }
            },
        },
{
    let dims = warehouse.max_dimensions;
    let oversized_zones: Option<u32> = match item.quality {
        ItemQuality::Oversized { required_zones } => {
            if required_zones == 0 || required_zones > dims.3 {
                return Err(WarehouseError::InvalidConstraint);
            }
            Some(required_zones)
        },
        _ => None,
    };
    let limit: u32 = match item.quality {
        ItemQuality::Fragile { max_level } => crate::warehouse::level_limit_exec(
            dims.2,
            max_level,
        ),
        _ => crate::warehouse::level_limit_exec(dims.2, None),
    };
    let total = warehouse.slots.len();
    if total == 0 {
        proof {
            assert forall|x: Location| !rr_qualifies(*old(warehouse), *item, x) by {
                if loc_in_bounds(x, dims) {
                    lemma_loc_index_bounds(x, dims);
                }
            }
        }
        return Err(WarehouseError::NoCapacity);
    }
    let start = match warehouse.last_allocation {
        Some(l) => l,
        None => first_location(dims),
    };
    let mut cur = start;
    let mut n: usize = 0;
    proof {
        lemma_cyc_dist_range(start, cur, dims);
    }
    while n < total
        invariant
            warehouse.wf(),
            *warehouse == *old(warehouse),
            dims == warehouse.max_dimensions,
            total == total_capacity(dims),
            start == rr_start(*old(warehouse)),
            loc_in_bounds(start, dims),
            loc_in_bounds(cur, dims),
            0 <= n <= total,
            n == 0 ==> cur == start,
            n > 0 ==> cyc_dist(start, cur, dims) == n,
            forall|x: Location|
                #[trigger] rr_qualifies(*warehouse, *item, x) ==> cyc_dist(start, x, dims) > n,
            oversized_zones == match item.quality {
                ItemQuality::Oversized { required_zones } => Some(required_zones),
                _ => None,
            },
            oversized_zones matches Some(k) ==> 1 <= k <= dims.3,
            limit == match item.quality {
                ItemQuality::Fragile { max_level } => level_limit(dims.2, max_level),
                _ => level_limit(dims.2, None),
            },
        decreases total - n,
    {
        let next = next_location_wrapped(cur, dims);
        proof {
            if n == 0 {
                lemma_cyc_dist_range(start, cur, dims);
            }
            lemma_cyc_dist_succ(start, cur, next, dims);
            assert(cyc_dist(start, next, dims) == n + 1);
        }
        cur = next;
        n = n + 1;
        let q: bool = match oversized_zones {
            None => warehouse.slot_free(cur) && cur.level <= limit,
            Some(k) => {
                if cur.zone as u64 + k as u64 <= dims.3 as u64 {
                    warehouse.scan_run(cur, k).is_some()
                } else {
                    false
                }
            },
        };
        proof {
            assert(q == rr_qualifies(*warehouse, *item, cur));
        }
        if q {
            let mut v: Vec<Location> = Vec::new();
            match oversized_zones {
                None => {
                    v.push(cur);
                },
                Some(k) => {
                    let mut j: u32 = 0;
                    while j < k
                        invariant
                            loc_in_bounds(cur, dims),
                            cur.zone as int + k as int <= dims.3 as int,
                            0 <= j <= k,
                            v@.len() == j,
                            forall|i: int| 0 <= i < j ==> v@[i] == zone_offset(cur, i),
                        decreases k - j,
                    {
                        v.push(Location { zone: cur.zone + j, ..cur });
                        j = j + 1;
                    }
                    proof {
                        assert(v@ =~= run_seq(cur, k));
                        assert(zone_offset(cur, 0) == cur);
                    }
                },
            }
            proof {
                assert forall|x: Location|
                    #[trigger] rr_qualifies(*warehouse, *item, x) && x != cur implies cyc_dist(
                    start,
                    cur,
                    dims,
                ) < cyc_dist(start, x, dims) by {
                    lemma_rr_qualifies_in_bounds(*warehouse, *item, x);
                    if cyc_dist(start, x, dims) == cyc_dist(start, cur, dims) {
                        lemma_cyc_dist_injective(start, x, cur, dims);
                    }
                }
                assert(is_rr_pick(*warehouse, *item, start, cur));
                match item.quality {
                    ItemQuality::Oversized { required_zones: k } => {
                        assert(v@[v@.len() - 1] == zone_offset(cur, k - 1));
                        assert(loc_in_bounds(zone_offset(cur, k - 1), dims));
                    },
                    _ => {},
                }
            }
            let last = v[v.len() - 1];
            warehouse.last_allocation = Some(last);
            proof {
                assert forall|loc: Location| loc_in_bounds(loc, dims) implies fragile_level_ok(
                    #[trigger] warehouse.spec_slot(loc),
                    loc,
                ) by {
                    assert(warehouse.spec_slot(loc) == old(warehouse).spec_slot(loc));
                }
            }
            return Ok(v);
        }
        proof {
            assert forall|x: Location|
                #[trigger] rr_qualifies(*warehouse, *item, x) implies cyc_dist(start, x, dims)
                > n by {
                lemma_rr_qualifies_in_bounds(*warehouse, *item, x);
                if cyc_dist(start, x, dims) == n {
                    lemma_cyc_dist_injective(start, x, cur, dims);
                }
                lemma_cyc_dist_range(start, x, dims);
            }
        }
    }
    proof {
        assert forall|x: Location| !rr_qualifies(*old(warehouse), *item, x) by {
            if rr_qualifies(*old(warehouse), *item, x) {
                lemma_rr_qualifies_in_bounds(*old(warehouse), *item, x);
                lemma_cyc_dist_range(start, x, dims);
            }
        }
    }
    Err(WarehouseError::NoCapacity)
}

/// Allocates by the chosen strategy. The usage-balanced default reads the
/// grid without moving the cursor; round-robin moves the cursor and is
/// otherwise read-only. Neither writes any item.
pub fn allocate_with_strategy(
    warehouse: &mut Warehouse,
    item: &Item,
    strategy: AllocationStrategy,
) -> (r: Result<Vec<Location>, WarehouseError>)
    requires
        old(warehouse).wf(),
    ensures
        final(warehouse).wf(),
        final(warehouse).slots == old(warehouse).slots,
        final(warehouse).usage_count == old(warehouse).usage_count,
        final(warehouse).max_dimensions == old(warehouse).max_dimensions,
        match strategy {
            AllocationStrategy::UsageBalanced => *final(warehouse) == *old(warehouse) && old(
                warehouse,
            ).alloc_spec(*item, r),
            AllocationStrategy::RoundRobin => match r {
                Ok(locs) => {
                    &&& locs@.len() >= 1
                    &&& is_rr_pick(*old(warehouse), *item, rr_start(*old(warehouse)), locs@[0])
                    &&& final(warehouse).last_allocation == Some(locs@[locs@.len() - 1])
                },
                Err(_) => final(warehouse).last_allocation == old(warehouse).last_allocation,
            },
        },
{
    match strategy {
        AllocationStrategy::UsageBalanced => warehouse.find_allocation_spot(item),
        AllocationStrategy::RoundRobin => round_robin_allocation(warehouse, item),
    }
}


/// A sequence of round-robin picks on an otherwise-static grid: each pick
/// is made with the cursor left by the previous one.
pub open spec fn rr_chain(w: Warehouse, item: Item, c0: Location, rs: Seq<Location>) -> bool {
    forall|i: int|
        0 <= i < rs.len() ==> is_rr_pick(
            w,
            item,
            if i == 0 {
                c0
            } else {
                rs[i - 1]
            },
            #[trigger] rs[i],
        )
}

/// Along a stretch of picks that returns to neither the reference pick
/// `rs[i]` nor the bystander `x`, the cyclic distances to both shrink by
/// the same amount, so their difference is conserved.
proof fn lemma_rr_seg(
    w: Warehouse,
    item: Item,
    c0: Location,
    rs: Seq<Location>,
    i: int,
    k: int,
    x: Location,
)
    requires
        w.wf(),
        loc_in_bounds(c0, w.max_dimensions),
        rr_chain(w, item, c0, rs),
        0 <= i <= k < rs.len(),
        rr_qualifies(w, item, x),
        x != rs[i],
        forall|m: int| i < m <= k ==> rs[m] != rs[i] && #[trigger] rs[m] != x,
    ensures
        cyc_dist(rs[k], x, w.max_dimensions) - cyc_dist(rs[k], rs[i], w.max_dimensions)
            == cyc_dist(rs[i], x, w.max_dimensions) - total_capacity(w.max_dimensions),
    decreases k - i,
{
    let dims = w.max_dimensions;
    let t = rs[i];
    assert(is_rr_pick(w, item, if i == 0 { c0 } else { rs[i - 1] }, rs[i]));
    lemma_rr_qualifies_in_bounds(w, item, t);
    lemma_rr_qualifies_in_bounds(w, item, x);
    if k == i {
        lemma_cyc_dist_range(t, t, dims);
    } else {
        lemma_rr_seg(w, item, c0, rs, i, k - 1, x);
        let c = rs[k - 1];
        let p = rs[k];
        assert(is_rr_pick(w, item, c, p));
        lemma_rr_qualifies_in_bounds(w, item, c);
        lemma_rr_qualifies_in_bounds(w, item, p);
        // the pick is strictly nearer than both bystanders, so shifting the
        // vantage to it preserves the difference of their distances
        assert(p != t && p != x);
        assert(cyc_dist(c, p, dims) < cyc_dist(c, t, dims));
        assert(cyc_dist(c, p, dims) < cyc_dist(c, x, dims));
        lemma_cyc_dist_shift(c, p, t, dims);
        lemma_cyc_dist_shift(c, p, x, dims);
    }
}

/// Round-robin allocation, run repeatedly on an otherwise-static grid with
/// no removals, visits every qualifying location at most once before
/// repeating: a pick can recur at `rs[j]` only if every location the item
/// could claim was picked somewhere between the two occurrences.
pub proof fn lemma_round_robin_visits_once(
    w: Warehouse,
    item: Item,
    c0: Location,
    rs: Seq<Location>,
    i: int,
    j: int,
    x: Location,
)
    requires
        w.wf(),
        loc_in_bounds(c0, w.max_dimensions),
        rr_chain(w, item, c0, rs),
        0 <= i < j < rs.len(),
        rs[i] == rs[j],
        rr_qualifies(w, item, x),
    ensures
        exists|k: int| i <= k < j && rs[k] == x,
    decreases j - i,
{
    let dims = w.max_dimensions;
    if x == rs[i] {
        assert(i <= i < j && rs[i] == x);
    } else if exists|m: int| i < m < j && #[trigger] rs[m] == rs[i] {
        let m = choose|m: int| i < m < j && #[trigger] rs[m] == rs[i];
        lemma_round_robin_visits_once(w, item, c0, rs, m, j, x);
        let k = choose|k: int| m <= k < j && #[trigger] rs[k] == x;
        assert(i <= k < j && rs[k] == x);
    } else if !(exists|k: int| i <= k < j && #[trigger] rs[k] == x) {
        let t = rs[i];
        lemma_rr_seg(w, item, c0, rs, i, j - 1, x);
        assert(is_rr_pick(w, item, rs[j - 1], rs[j]));
        lemma_rr_qualifies_in_bounds(w, item, t);
        lemma_rr_qualifies_in_bounds(w, item, x);
        // the final pick returns to the reference, yet the bystander was
        // still strictly farther: its original distance would exceed a full
        // cycle
        assert(cyc_dist(rs[j - 1], rs[j], dims) < cyc_dist(rs[j - 1], x, dims));
        lemma_cyc_dist_range(t, x, dims);
        assert(false);
    }
}

} // verus!
