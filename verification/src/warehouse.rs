//! The grid state and the engines over it: usage-balanced allocation,
//! atomic placement, multi-cell removal, grouped queries, and the
//! expiration scanner.

use vstd::prelude::*;
use crate::error::WarehouseError;
use crate::item::{Item, ItemQuality};
use crate::location::{
    first_location, lex_before, loc_in_bounds, loc_index, loc_index_exec, next_location,
    total_capacity, Dimensions, Location,
};
use crate::location::{lemma_loc_index_bounds, lemma_loc_index_injective, lemma_loc_index_lex};

verus! {

broadcast use vstd::std_specs::vec::axiom_spec_len;

/// A stored cell respects the fragile level bound of its item, if any.
pub open spec fn fragile_level_ok(slot: Option<Item>, loc: Location) -> bool {
    match slot {
        Some(itm) => match itm.quality {
            ItemQuality::Fragile { max_level: Some(m) } => loc.level <= m,
            _ => true,
        },
        None => true,
    }
}

/// A usage count bumped by one placement; the count saturates rather than
/// wrap, since it is only a load-balancing signal.
pub open spec fn bump(u: u32) -> u32 {
    if u < u32::MAX {
        (u + 1) as u32
    } else {
        u
    }
}

/// The level bound that applies to a single-cell placement: an explicit
/// fragile bound, or the grid's own maximum level when none is given.
pub open spec fn level_limit(levels: u32, max_level: Option<u32>) -> u32 {
    match max_level {
        Some(m) => m,
        None => if levels == 0 {
            0u32
        } else {
            (levels - 1) as u32
        },
    }
}

/// Strict "better candidate" order: lower usage score first, then the
/// lexicographically earlier location.
pub open spec fn cand_before(u1: int, l1: Location, u2: int, l2: Location) -> bool {
    u1 < u2 || (u1 == u2 && lex_before(l1, l2))
}

/// The cell `j` zones to the right of `start` in the same
/// `(row, shelf, level)`.
pub open spec fn zone_offset(start: Location, j: int) -> Location {
    Location { zone: (start.zone + j) as u32, ..start }
}

/// The `k` cells of the contiguous run starting at `start`, in zone order.
pub open spec fn run_seq(start: Location, k: u32) -> Seq<Location> {
    Seq::new(k as nat, |j: int| zone_offset(start, j))
}

/// The warehouse: one optional item per grid cell, a cumulative usage count
/// per cell, the fixed grid bounds, and the round-robin cursor.
pub struct Warehouse {
    pub slots: Vec<Option<Item>>,
    pub usage_count: Vec<u32>,
    pub max_dimensions: Dimensions,
    pub last_allocation: Option<Location>,
}

impl Warehouse {
    /// The item stored at an in-bounds location, if any.
    pub open spec fn spec_slot(self, loc: Location) -> Option<Item> {
        self.slots@[loc_index(loc, self.max_dimensions)]
    }

    /// How many times an in-bounds location has ever been filled.
    pub open spec fn spec_usage(self, loc: Location) -> u32 {
        self.usage_count@[loc_index(loc, self.max_dimensions)]
    }

    /// The location is inside the grid and currently unoccupied.
    pub open spec fn is_free(self, loc: Location) -> bool {
        loc_in_bounds(loc, self.max_dimensions) && self.spec_slot(loc) is None
    }

    /// Well-formedness: storage sized to the grid, a valid cursor, and no
    /// fragile item stored above its level bound.
    pub open spec fn wf(self) -> bool {
        &&& self.slots@.len() == total_capacity(self.max_dimensions)
        &&& self.usage_count@.len() == self.slots@.len()
        &&& match self.last_allocation {
            Some(l) => loc_in_bounds(l, self.max_dimensions),
            None => true,
        }
        &&& forall|loc: Location|
            loc_in_bounds(loc, self.max_dimensions) ==> fragile_level_ok(
                #[trigger] self.spec_slot(loc),
                loc,
            )
    }

    /// A free single cell whose level is within the limit.
    pub open spec fn qualifies_single(self, loc: Location, limit: u32) -> bool {
        self.is_free(loc) && loc.level <= limit
    }

    /// The best single-cell candidate: it qualifies, and every other
    /// qualifying cell loses on (usage, lexicographic location).
    pub open spec fn is_best_single(self, loc: Location, limit: u32) -> bool {
        &&& self.qualifies_single(loc, limit)
        &&& forall|x: Location|
            #[trigger] self.qualifies_single(x, limit) && x != loc ==> cand_before(
                self.spec_usage(loc) as int,
                loc,
                self.spec_usage(x) as int,
                x,
            )
    }

    /// A run of `k` consecutive free zones starting at `start`, wholly
    /// inside one `(row, shelf, level)`.
    pub open spec fn run_free(self, start: Location, k: u32) -> bool {
        &&& loc_in_bounds(start, self.max_dimensions)
        &&& start.zone as int + k as int <= self.max_dimensions.3 as int
        &&& forall|j: int|
            0 <= j < k ==> self.spec_slot(#[trigger] zone_offset(start, j)) is None
    }

    /// Sum of the usage counts over the first `n` cells of the run at
    /// `start`.
    pub open spec fn run_usage(self, start: Location, n: int) -> int
        decreases n,
    {
        if n <= 0 {
            0
        } else {
            self.run_usage(start, n - 1) + self.spec_usage(zone_offset(start, n - 1)) as int
        }
    }

    /// The best run candidate: free, and every other free run of the same
    /// length loses on (usage sum, lexicographic first cell).
    pub open spec fn is_best_run(self, start: Location, k: u32) -> bool {
        &&& self.run_free(start, k)
        &&& forall|x: Location|
            #[trigger] self.run_free(x, k) && x != start ==> cand_before(
                self.run_usage(start, k as int),
                start,
                self.run_usage(x, k as int),
                x,
            )
    }

    /// What the usage-balanced allocation engine returns for a single-cell
    /// item under a level limit.
    pub open spec fn single_alloc_spec(
        self,
        limit: u32,
        r: Result<Vec<Location>, WarehouseError>,
    ) -> bool {
        match r {
            Ok(locs) => locs@.len() == 1 && self.is_best_single(locs@[0], limit),
            Err(e) => {
                &&& e == WarehouseError::NoCapacity
                &&& forall|x: Location| !self.qualifies_single(x, limit)
            },
        }
    }

    /// What the usage-balanced allocation engine returns for any item:
    /// the exact candidate choice per quality variant, or the exact error.
    pub open spec fn alloc_spec(
        self,
        item: Item,
        r: Result<Vec<Location>, WarehouseError>,
    ) -> bool {
        match item.quality {
            ItemQuality::Normal => self.single_alloc_spec(
                level_limit(self.max_dimensions.2, None),
                r,
            ),
            ItemQuality::Fragile { max_level } => self.single_alloc_spec(
                level_limit(self.max_dimensions.2, max_level),
                r,
            ),
            ItemQuality::Oversized { required_zones: k } => {
                if k == 0 || k > self.max_dimensions.3 {
                    r == Err::<Vec<Location>, WarehouseError>(WarehouseError::InvalidConstraint)
                } else {
                    match r {
                        Ok(locs) => {
                            &&& locs@.len() == k
                            &&& locs@ == run_seq(locs@[0], k)
                            &&& self.is_best_run(locs@[0], k)
                        },
                        Err(e) => {
                            &&& e == WarehouseError::NoCapacity
                            &&& forall|x: Location| !self.run_free(x, k)
                        },
                    }
                }
            },
        }
    }

    /// Creates an empty warehouse with the given fixed grid bounds.
    pub fn new(max_dimensions: Dimensions) -> (r: Warehouse)
        requires
            total_capacity(max_dimensions) <= usize::MAX as int,
        ensures
            r.wf(),
            r.max_dimensions == max_dimensions,
            r.last_allocation is None,
            forall|loc: Location|
                loc_in_bounds(loc, max_dimensions) ==> r.is_free(loc) && r.spec_usage(loc) == 0,
    {
        let total = grid_size(max_dimensions);
        let mut slots: Vec<Option<Item>> = Vec::new();
        let mut usage_count: Vec<u32> = Vec::new();
        let mut i: usize = 0;
        while i < total
            invariant
                slots@.len() == i,
                usage_count@.len() == i,
                i <= total,
                forall|j: int| 0 <= j < i ==> slots@[j] is None,
                forall|j: int| 0 <= j < i ==> usage_count@[j] == 0,
            decreases total - i,
        {
            slots.push(None);
            usage_count.push(0);
            i = i + 1;
        }
        let r = Warehouse { slots, usage_count, max_dimensions, last_allocation: None };
        proof {
            assert forall|loc: Location| loc_in_bounds(loc, max_dimensions) implies r.is_free(loc)
                && r.spec_usage(loc) == 0 by {
                lemma_loc_index_bounds(loc, max_dimensions);
            }
        }
        r
    }

    /// A well-formed warehouse's capacity fits in `usize`, since its cell
    /// storage has exactly that length.
    pub proof fn lemma_capacity_fits(&self)
        requires
            self.wf(),
        ensures
            total_capacity(self.max_dimensions) <= usize::MAX as int,
    {
        assert(vstd::std_specs::vec::spec_vec_len(&self.slots) == self.slots@.len());
    }

    /// Reads whether an in-bounds cell is unoccupied.
    pub(crate) fn slot_free(&self, loc: Location) -> (b: bool)
        requires
            self.wf(),
            loc_in_bounds(loc, self.max_dimensions),
        ensures
            b == (self.spec_slot(loc) is None),
    {
        proof {
            self.lemma_capacity_fits();
            lemma_loc_index_bounds(loc, self.max_dimensions);
        }
        let i = loc_index_exec(loc, self.max_dimensions);
        self.slots[i].is_none()
    }

    /// Reads the usage count of an in-bounds cell.
    fn usage_at(&self, loc: Location) -> (u: u32)
        requires
            self.wf(),
            loc_in_bounds(loc, self.max_dimensions),
        ensures
            u == self.spec_usage(loc),
    {
        proof {
            self.lemma_capacity_fits();
            lemma_loc_index_bounds(loc, self.max_dimensions);
        }
        let i = loc_index_exec(loc, self.max_dimensions);
        self.usage_count[i]
    }

    /// Writes an item into one in-bounds cell and bumps its usage count;
    /// every other cell is untouched.
    fn place_at(&mut self, loc: Location, item: Item)
        requires
            old(self).wf(),
            loc_in_bounds(loc, old(self).max_dimensions),
            fragile_level_ok(Some(item), loc),
        ensures
            final(self).wf(),
            final(self).max_dimensions == old(self).max_dimensions,
            final(self).last_allocation == old(self).last_allocation,
            final(self).spec_slot(loc) == Some(item),
            final(self).spec_usage(loc) == bump(old(self).spec_usage(loc)),
            forall|l: Location|
                loc_in_bounds(l, old(self).max_dimensions) && l != loc ==> final(self).spec_slot(l)
                    == old(self).spec_slot(l) && final(self).spec_usage(l) == old(self).spec_usage(
                    l,
                ),
    {
        proof {
            self.lemma_capacity_fits();
            lemma_loc_index_bounds(loc, self.max_dimensions);
        }
        let i = loc_index_exec(loc, self.max_dimensions);
        let c = self.usage_count[i];
        let nc = if c < u32::MAX {
            c + 1
        } else {
            c
        };
        self.slots[i] = Some(item);
        self.usage_count[i] = nc;
        proof {
            let dims = self.max_dimensions;
            assert forall|l: Location| loc_in_bounds(l, dims) && l != loc implies self.spec_slot(l)
                == old(self).spec_slot(l) && self.spec_usage(l) == old(self).spec_usage(l) by {
                lemma_loc_index_injective(l, loc, dims);
                lemma_loc_index_bounds(l, dims);
            }
            assert forall|l: Location| loc_in_bounds(l, dims) implies fragile_level_ok(
                #[trigger] self.spec_slot(l),
                l,
            ) by {
                if l != loc {
                    lemma_loc_index_injective(l, loc, dims);
                    lemma_loc_index_bounds(l, dims);
                }
            }
        }
    }

    /// Clears one occupied in-bounds cell and hands back its item; usage
    /// counts and every other cell are untouched.
    fn clear_at(&mut self, loc: Location) -> (r: Item)
        requires
            old(self).wf(),
            loc_in_bounds(loc, old(self).max_dimensions),
            old(self).spec_slot(loc) is Some,
        ensures
            final(self).wf(),
            final(self).max_dimensions == old(self).max_dimensions,
            final(self).last_allocation == old(self).last_allocation,
            final(self).usage_count == old(self).usage_count,
            final(self).spec_slot(loc) is None,
            Some(r) == old(self).spec_slot(loc),
            forall|l: Location|
                loc_in_bounds(l, old(self).max_dimensions) && l != loc ==> final(self).spec_slot(l)
                    == old(self).spec_slot(l),
    {
        proof {
            self.lemma_capacity_fits();
            lemma_loc_index_bounds(loc, self.max_dimensions);
        }
        let i = loc_index_exec(loc, self.max_dimensions);
        let r = match &self.slots[i] {
            Some(itm) => itm.clone(),
            None => Item {
                // never reached: the cell is known to be occupied
                id: 0,
                name: String::new(),
                quantity: 0,
                quality: ItemQuality::Normal,
                created_at: 0,
                expiry_day: None,
            },
        };
        self.slots[i] = None;
        proof {
            let dims = self.max_dimensions;
            assert forall|l: Location| loc_in_bounds(l, dims) && l != loc implies self.spec_slot(l)
                == old(self).spec_slot(l) by {
                lemma_loc_index_injective(l, loc, dims);
                lemma_loc_index_bounds(l, dims);
            }
            assert forall|l: Location| loc_in_bounds(l, dims) implies fragile_level_ok(
                #[trigger] self.spec_slot(l),
                l,
            ) by {
                if l != loc {
                    lemma_loc_index_injective(l, loc, dims);
                    lemma_loc_index_bounds(l, dims);
                }
            }
        }
        r
    }
}

/// Computes the number of cells of a grid whose capacity fits in `usize`.
fn grid_size(dims: Dimensions) -> (total: usize)
    requires
        total_capacity(dims) <= usize::MAX as int,
    ensures
        total as int == total_capacity(dims),
{
    if dims.0 == 0 || dims.1 == 0 || dims.2 == 0 || dims.3 == 0 {
        proof {
            let rr = dims.0 as int;
            let ss = dims.1 as int;
            let ll = dims.2 as int;
            let zz = dims.3 as int;
            assert(((rr * ss) * ll) * zz == 0) by (nonlinear_arith)
                requires rr == 0 || ss == 0 || ll == 0 || zz == 0;
        }
        return 0;
    }
    proof {
        let rr = dims.0 as int;
        let ss = dims.1 as int;
        let ll = dims.2 as int;
        let zz = dims.3 as int;
        assert(rr * ss <= (rr * ss) * ll && (rr * ss) * ll <= ((rr * ss) * ll) * zz
            && rr * ss >= 1 && (rr * ss) * ll >= 1) by (nonlinear_arith)
            requires rr >= 1, ss >= 1, ll >= 1, zz >= 1;
    }
    let a: usize = dims.0 as usize * dims.1 as usize;
    let b: usize = a * dims.2 as usize;
    b * dims.3 as usize
}

impl Warehouse {
    /// Scan coverage for the single-cell policy: among all cells with index
    /// below `bound`, `best` is the qualifying candidate winning on
    /// (usage, lexicographic location), or there is none.
    spec fn single_scan_inv(
        self,
        limit: u32,
        best: Option<(u32, Location)>,
        bound: int,
    ) -> bool {
        match best {
            None => forall|x: Location|
                loc_in_bounds(x, self.max_dimensions) && loc_index(x, self.max_dimensions) < bound
                    ==> !self.qualifies_single(x, limit),
            Some(p) => {
                &&& self.qualifies_single(p.1, limit)
                &&& p.0 == self.spec_usage(p.1)
                &&& loc_index(p.1, self.max_dimensions) < bound
                &&& forall|x: Location|
                    #[trigger] self.qualifies_single(x, limit) && loc_index(
                        x,
                        self.max_dimensions,
                    ) < bound && x != p.1 ==> cand_before(
                        p.0 as int,
                        p.1,
                        self.spec_usage(x) as int,
                        x,
                    )
            },
        }
    }

    /// Usage-balanced best-fit over single cells: picks the free cell within
    /// the level limit that minimises (usage count, lexicographic location).
    fn find_best_single(&self, limit: u32) -> (r: Result<Vec<Location>, WarehouseError>)
        requires
            self.wf(),
        ensures
            self.single_alloc_spec(limit, r),
    {
        let dims = self.max_dimensions;
        if self.slots.len() == 0 {
            proof {
                assert forall|x: Location| !self.qualifies_single(x, limit) by {
                    if loc_in_bounds(x, dims) {
                        lemma_loc_index_bounds(x, dims);
                    }
                }
            }
            return Err(WarehouseError::NoCapacity);
        }
        let mut cur = first_location(dims);
        let mut best: Option<(u32, Location)> = None;
        let mut more = true;
        while more
            invariant
                self.wf(),
                dims == self.max_dimensions,
                loc_in_bounds(cur, dims),
                more ==> self.single_scan_inv(limit, best, loc_index(cur, dims)),
                !more ==> self.single_scan_inv(limit, best, total_capacity(dims)),
            decreases total_capacity(dims) - loc_index(cur, dims), (if more { 1int } else { 0int }),
        {
            let ghost bound = loc_index(cur, dims) + 1;
            if self.slot_free(cur) && cur.level <= limit {
                match best {
                    None => {
                        best = Some((self.usage_at(cur), cur));
                    },
                    Some(p) => {
                        let u = self.usage_at(cur);
                        if u < p.0 {
                            best = Some((u, cur));
                        } else {
                            proof {
                                if loc_index(p.1, dims) < loc_index(cur, dims) {
                                    lemma_loc_index_lex(p.1, cur, dims);
                                }
                            }
                        }
                    },
                }
            }
            proof {
                assert forall|x: Location|
                    loc_in_bounds(x, dims) && loc_index(x, dims) < bound && x != cur
                        implies loc_index(x, dims) < loc_index(cur, dims) by {
                    lemma_loc_index_injective(x, cur, dims);
                }
                assert(self.single_scan_inv(limit, best, bound));
            }
            match next_location(cur, dims) {
                Some(n) => {
                    proof {
                        lemma_loc_index_bounds(n, dims);
                    }
                    cur = n;
                },
                None => {
                    more = false;
                },
            }
        }
        match best {
            None => {
                proof {
                    assert forall|x: Location| !self.qualifies_single(x, limit) by {
                        if loc_in_bounds(x, dims) {
                            lemma_loc_index_bounds(x, dims);
                        }
                    }
                }
                Err(WarehouseError::NoCapacity)
            },
            Some(p) => {
                proof {
                    assert forall|x: Location|
                        #[trigger] self.qualifies_single(x, limit) && x != p.1 implies cand_before(
                        p.0 as int,
                        p.1,
                        self.spec_usage(x) as int,
                        x,
                    ) by {
                        lemma_loc_index_bounds(x, dims);
                    }
                }
                let mut v: Vec<Location> = Vec::new();
                v.push(p.1);
                Ok(v)
            },
        }
    }

    /// Checks one candidate run: all `k` cells free, and their usage sum.
    pub(crate) fn scan_run(&self, start: Location, k: u32) -> (r: Option<u64>)
        requires
            self.wf(),
            loc_in_bounds(start, self.max_dimensions),
            start.zone as int + k as int <= self.max_dimensions.3 as int,
        ensures
            match r {
                Some(sum) => self.run_free(start, k) && sum as int == self.run_usage(
                    start,
                    k as int,
                ),
                None => !self.run_free(start, k),
            },
    {
        let mut j: u32 = 0;
        let mut sum: u64 = 0;
        while j < k
            invariant
                self.wf(),
                loc_in_bounds(start, self.max_dimensions),
                start.zone as int + k as int <= self.max_dimensions.3 as int,
                0 <= j <= k,
                forall|i: int| 0 <= i < j ==> self.spec_slot(#[trigger] zone_offset(start, i)) is None,
                sum as int == self.run_usage(start, j as int),
                sum <= (j as u64) * (u32::MAX as u64),
            decreases k - j,
        {
            let l = Location { zone: start.zone + j, ..start };
            proof {
                assert(l == zone_offset(start, j as int));
            }
            if !self.slot_free(l) {
                proof {
                    assert(self.spec_slot(zone_offset(start, j as int)) is Some);
                }
                return None;
            }
            let u = self.usage_at(l);
            proof {
                assert(sum + u <= (j as u64 + 1) * (u32::MAX as u64)) by (nonlinear_arith)
                    requires
                        sum <= (j as u64) * (u32::MAX as u64),
                        u <= u32::MAX as u64,
                ;
                assert((j as u64 + 1) * (u32::MAX as u64) <= (u32::MAX as u64) * (u32::MAX as u64))
                    by (nonlinear_arith)
                    requires j as u64 + 1 <= u32::MAX as u64,
                ;
            }
            sum = sum + u as u64;
            j = j + 1;
        }
        Some(sum)
    }

    /// Scan coverage for the run policy, as `single_scan_inv` for runs.
    spec fn run_scan_inv(
        self,
        k: u32,
        best: Option<(u64, Location)>,
        bound: int,
    ) -> bool {
        match best {
            None => forall|x: Location|
                loc_in_bounds(x, self.max_dimensions) && loc_index(x, self.max_dimensions) < bound
                    ==> !self.run_free(x, k),
            Some(p) => {
                &&& self.run_free(p.1, k)
                &&& p.0 as int == self.run_usage(p.1, k as int)
                &&& loc_index(p.1, self.max_dimensions) < bound
                &&& forall|x: Location|
                    #[trigger] self.run_free(x, k) && loc_index(x, self.max_dimensions) < bound
                        && x != p.1 ==> cand_before(
                        p.0 as int,
                        p.1,
                        self.run_usage(x, k as int),
                        x,
                    )
            },
        }
    }

    /// Usage-balanced best-fit over contiguous runs of `k` zones: picks the
    /// free run minimising (usage sum, lexicographic first cell).
    fn find_best_run(&self, k: u32) -> (r: Result<Vec<Location>, WarehouseError>)
        requires
            self.wf(),
            1 <= k <= self.max_dimensions.3,
        ensures
            match r {
                Ok(locs) => {
                    &&& locs@.len() == k
                    &&& locs@ == run_seq(locs@[0], k)
                    &&& self.is_best_run(locs@[0], k)
                },
                Err(e) => {
                    &&& e == WarehouseError::NoCapacity
                    &&& forall|x: Location| !self.run_free(x, k)
                },
            },
    {
        let dims = self.max_dimensions;
        if self.slots.len() == 0 {
            proof {
                assert forall|x: Location| !self.run_free(x, k) by {
                    if loc_in_bounds(x, dims) {
                        lemma_loc_index_bounds(x, dims);
                    }
                }
            }
            return Err(WarehouseError::NoCapacity);
        }
        let mut cur = first_location(dims);
        let mut best: Option<(u64, Location)> = None;
        let mut more = true;
        while more
            invariant
                self.wf(),
                dims == self.max_dimensions,
                loc_in_bounds(cur, dims),
                more ==> self.run_scan_inv(k, best, loc_index(cur, dims)),
                !more ==> self.run_scan_inv(k, best, total_capacity(dims)),
            decreases total_capacity(dims) - loc_index(cur, dims), (if more { 1int } else { 0int }),
        {
            let ghost bound = loc_index(cur, dims) + 1;
            if cur.zone as u64 + k as u64 <= dims.3 as u64 {
                match self.scan_run(cur, k) {
                    Some(sum) => {
                        match best {
                            None => {
                                best = Some((sum, cur));
                            },
                            Some(p) => {
                                if sum < p.0 {
                                    best = Some((sum, cur));
                                } else {
                                    proof {
                                        if loc_index(p.1, dims) < loc_index(cur, dims) {
                                            lemma_loc_index_lex(p.1, cur, dims);
                                        }
                                    }
                                }
                            },
                        }
                    },
                    None => {
                    },
                }
            }
            proof {
                assert forall|x: Location|
                    loc_in_bounds(x, dims) && loc_index(x, dims) < bound && x != cur
                        implies loc_index(x, dims) < loc_index(cur, dims) by {
                    lemma_loc_index_injective(x, cur, dims);
                }
                assert(self.run_scan_inv(k, best, bound));
            }
            match next_location(cur, dims) {
                Some(n) => {
                    proof {
                        lemma_loc_index_bounds(n, dims);
                    }
                    cur = n;
                },
                None => {
                    more = false;
                },
            }
        }
        match best {
            None => {
                proof {
                    assert forall|x: Location| !self.run_free(x, k) by {
                        if loc_in_bounds(x, dims) {
                            lemma_loc_index_bounds(x, dims);
                        }
                    }
                }
                Err(WarehouseError::NoCapacity)
            },
            Some(p) => {
                proof {
                    assert forall|x: Location| #[trigger] self.run_free(x, k) && x != p.1
                        implies cand_before(p.0 as int, p.1, self.run_usage(x, k as int), x) by {
                        lemma_loc_index_bounds(x, dims);
                    }
                }
                let start = p.1;
                let mut v: Vec<Location> = Vec::new();
                let mut j: u32 = 0;
                while j < k
                    invariant
                        loc_in_bounds(start, dims),
                        start.zone as int + k as int <= dims.3 as int,
                        0 <= j <= k,
                        v@.len() == j,
                        forall|i: int| 0 <= i < j ==> v@[i] == zone_offset(start, i),
                    decreases k - j,
                {
                    v.push(Location { zone: start.zone + j, ..start });
                    j = j + 1;
                }
                proof {
                    assert(v@ =~= run_seq(start, k));
                    assert(v@[0] == zone_offset(start, 0));
                    assert(zone_offset(start, 0) == start);
                }
                Ok(v)
            },
        }
    }

    /// The usage-balanced allocation engine: never mutates state, and
    /// returns the exact candidate set (or error) that `alloc_spec` fixes
    /// for the item's quality.
    pub fn find_allocation_spot(&self, item: &Item) -> (r: Result<Vec<Location>, WarehouseError>)
        requires
            self.wf(),
        ensures
            self.alloc_spec(*item, r),
    {
        match item.quality {
            ItemQuality::Normal => self.find_best_single(level_limit_exec(self.max_dimensions.2, None)),
            ItemQuality::Fragile { max_level } => self.find_best_single(
                level_limit_exec(self.max_dimensions.2, max_level),
            ),
            ItemQuality::Oversized { required_zones } => {
                if required_zones == 0 || required_zones > self.max_dimensions.3 {
                    Err(WarehouseError::InvalidConstraint)
                } else {
                    self.find_best_run(required_zones)
                }
            },
        }
    }
}

/// Computes the level limit a single-cell placement must respect.
pub(crate) fn level_limit_exec(levels: u32, max_level: Option<u32>) -> (r: u32)
    ensures
        r == level_limit(levels, max_level),
{
    match max_level {
        Some(m) => m,
        None => if levels == 0 {
            0
        } else {
            levels - 1
        },
    }
}


/// Membership in a prefix one longer: the old prefix, or its new last
/// element.
proof fn lemma_take_succ_contains<T>(s: Seq<T>, i: int, x: T)
    requires
        0 <= i < s.len(),
    ensures
        s.take(i + 1).contains(x) <==> (s.take(i).contains(x) || x == s[i]),
{
    if s.take(i + 1).contains(x) {
        let w = choose|w: int| 0 <= w < i + 1 && #[trigger] s.take(i + 1)[w] == x;
        if w < i {
            assert(s.take(i)[w] == x);
        }
    }
    if s.take(i).contains(x) {
        let w = choose|w: int| 0 <= w < i && #[trigger] s.take(i)[w] == x;
        assert(s.take(i + 1)[w] == x);
    }
    if x == s[i] {
        assert(s.take(i + 1)[i] == x);
    }
}

impl Warehouse {
    /// The items stored at the first `n` cells (in cell order) that belong
    /// to `target`'s logical record.
    pub open spec fn matching_items_upto(self, target: Item, n: int) -> Seq<Item>
        decreases n,
    {
        if n <= 0 {
            Seq::empty()
        } else {
            let prev = self.matching_items_upto(target, n - 1);
            match self.slots@[n - 1] {
                Some(itm) => if itm.key_matches(target) {
                    prev.push(itm)
                } else {
                    prev
                },
                None => prev,
            }
        }
    }

    /// The items of `target`'s logical record, in cell (lexicographic)
    /// order.
    pub open spec fn matching_items(self, target: Item) -> Seq<Item> {
        self.matching_items_upto(target, self.slots@.len() as int)
    }

    /// Places an item: asks the allocation engine for the exact candidate
    /// set, re-validates the quality constraint defensively, then commits
    /// all cells together, bumping each cell's usage count. On any error
    /// nothing is written.
    pub fn add_item(&mut self, item: Item) -> (r: Result<Vec<Location>, WarehouseError>)
        requires
            old(self).wf(),
        ensures
            final(self).wf(),
            final(self).max_dimensions == old(self).max_dimensions,
            final(self).last_allocation == old(self).last_allocation,
            old(self).alloc_spec(item, r),
            match r {
                Ok(locs) => {
                    &&& forall|j: int, l: int| 0 <= j < l < locs@.len() ==> locs@[j] != locs@[l]
                    &&& forall|j: int|
                        0 <= j < locs@.len() ==> old(self).is_free(#[trigger] locs@[j])
                    &&& forall|l: Location|
                        loc_in_bounds(l, old(self).max_dimensions) ==> {
                            &&& final(self).spec_slot(l) == (if locs@.contains(l) {
                                Some(item)
                            } else {
                                old(self).spec_slot(l)
                            })
                            &&& final(self).spec_usage(l) == (if locs@.contains(l) {
                                bump(old(self).spec_usage(l))
                            } else {
                                old(self).spec_usage(l)
                            })
                        }
                },
                Err(_) => *final(self) == *old(self),
            },
    {
        let locs = match self.find_allocation_spot(&item) {
            Ok(l) => l,
            Err(e) => {
                return Err(e);
            },
        };
        // Defensive re-validation: constraints must hold even if the engine
        // is swapped. Against the verified engine these checks cannot fire.
        match item.quality {
            ItemQuality::Fragile { max_level } => {
                if let Some(m) = max_level {
                    let mut i: usize = 0;
                    while i < locs.len()
                        invariant
                            locs@.len() == 1,
                            old(self).is_best_single(
                                locs@[0],
                                level_limit(old(self).max_dimensions.2, Some(m)),
                            ),
                        decreases locs@.len() - i,
                    {
                        if locs[i].level > m {
                            return Err(WarehouseError::ConstraintViolation);
                        }
                        i = i + 1;
                    }
                }
            },
            ItemQuality::Oversized { required_zones } => {
                if locs.len() != required_zones as usize {
                    return Err(WarehouseError::ConstraintViolation);
                }
            },
            ItemQuality::Normal => {},
        }
        proof {
            // The chosen cells are pairwise distinct, free, and acceptable
            // for a fragile item's level bound.
            match item.quality {
                ItemQuality::Oversized { required_zones } => {
                    let start = locs@[0];
                    assert forall|j: int, l: int| 0 <= j < l < locs@.len() implies locs@[j]
                        != locs@[l] by {
                        assert(locs@[j] == zone_offset(start, j));
                        assert(locs@[l] == zone_offset(start, l));
                        assert(locs@[j].zone != locs@[l].zone);
                    }
                    assert forall|j: int| 0 <= j < locs@.len() implies old(self).is_free(
                        #[trigger] locs@[j],
                    ) by {
                        assert(locs@[j] == zone_offset(start, j));
                        assert(old(self).spec_slot(zone_offset(start, j)) is None);
                        assert(loc_in_bounds(zone_offset(start, j), old(self).max_dimensions));
                    }
                },
                _ => {},
            }
        }
        let ghost dims = old(self).max_dimensions;
        let mut i: usize = 0;
        while i < locs.len()
            invariant
                self.wf(),
                self.max_dimensions == old(self).max_dimensions,
                self.last_allocation == old(self).last_allocation,
                0 <= i <= locs@.len(),
                dims == old(self).max_dimensions,
                forall|j: int, l: int| 0 <= j < l < locs@.len() ==> locs@[j] != locs@[l],
                forall|j: int| 0 <= j < locs@.len() ==> old(self).is_free(#[trigger] locs@[j]),
                forall|j: int|
                    0 <= j < locs@.len() ==> fragile_level_ok(Some(item), #[trigger] locs@[j]),
                forall|l: Location|
                    loc_in_bounds(l, dims) ==> {
                        &&& self.spec_slot(l) == (if locs@.take(i as int).contains(l) {
                            Some(item)
                        } else {
                            old(self).spec_slot(l)
                        })
                        &&& self.spec_usage(l) == (if locs@.take(i as int).contains(l) {
                            bump(old(self).spec_usage(l))
                        } else {
                            old(self).spec_usage(l)
                        })
                    },
            decreases locs@.len() - i,
        {
            let loc = locs[i];
            proof {
                assert(old(self).is_free(locs@[i as int]));
                assert(!locs@.take(i as int).contains(loc)) by {
                    if locs@.take(i as int).contains(loc) {
                        let w = choose|w: int| 0 <= w < i && #[trigger] locs@.take(i as int)[w] == loc;
                        assert(locs@[w] == locs@[i as int]);
                    }
                }
            }
            self.place_at(loc, item.clone());
            proof {
                assert forall|l: Location| loc_in_bounds(l, dims) implies {
                    &&& self.spec_slot(l) == (if locs@.take(i + 1).contains(l) {
                        Some(item)
                    } else {
                        old(self).spec_slot(l)
                    })
                    &&& self.spec_usage(l) == (if locs@.take(i + 1).contains(l) {
                        bump(old(self).spec_usage(l))
                    } else {
                        old(self).spec_usage(l)
                    })
                } by {
                    lemma_take_succ_contains(locs@, i as int, l);
                }
            }
            i = i + 1;
        }
        proof {
            assert(locs@.take(locs@.len() as int) =~= locs@);
        }
        Ok(locs)
    }

    /// Removes the occupant of one location. An `Oversized` occupant is a
    /// multi-cell unit: every cell of its logical record (same id, name and
    /// creation timestamp) is vacated and all copies are returned; any other
    /// occupant vacates only the given location. Usage counts are never
    /// decremented.
    pub fn remove_item(&mut self, location: &Location) -> (r: Result<Vec<Item>, WarehouseError>)
        requires
            old(self).wf(),
        ensures
            final(self).wf(),
            final(self).max_dimensions == old(self).max_dimensions,
            final(self).last_allocation == old(self).last_allocation,
            final(self).usage_count == old(self).usage_count,
            match r {
                Ok(items) => {
                    &&& loc_in_bounds(*location, old(self).max_dimensions)
                    &&& old(self).spec_slot(*location) is Some
                    &&& {
                        let target = old(self).spec_slot(*location)->0;
                        match target.quality {
                            ItemQuality::Oversized { .. } => {
                                &&& items@ == old(self).matching_items(target)
                                &&& forall|l: Location|
                                    loc_in_bounds(l, old(self).max_dimensions)
                                        ==> final(self).spec_slot(l) == (match old(
                                        self,
                                    ).spec_slot(l) {
                                        Some(i2) => if i2.key_matches(target) {
                                            None
                                        } else {
                                            Some(i2)
                                        },
                                        None => None::<Item>,
                                    })
                            },
                            _ => {
                                &&& items@ == seq![target]
                                &&& forall|l: Location|
                                    loc_in_bounds(l, old(self).max_dimensions)
                                        ==> final(self).spec_slot(l) == (if l == *location {
                                        None::<Item>
                                    } else {
                                        old(self).spec_slot(l)
                                    })
                            },
                        }
                    }
                },
                Err(e) => {
                    &&& e == WarehouseError::NotFound
                    &&& *final(self) == *old(self)
                    &&& !(loc_in_bounds(*location, old(self).max_dimensions) && old(
                        self,
                    ).spec_slot(*location) is Some)
                },
            },
    {
        let dims = self.max_dimensions;
        if !(location.row < dims.0 && location.shelf < dims.1 && location.level < dims.2
            && location.zone < dims.3) {
            return Err(WarehouseError::NotFound);
        }
        if self.slot_free(*location) {
            return Err(WarehouseError::NotFound);
        }
        let target = match self.read_slot(*location) {
            Some(itm) => itm,
            None => Item {
                // never reached: the cell is known to be occupied
                id: 0,
                name: String::new(),
                quantity: 0,
                quality: ItemQuality::Normal,
                created_at: 0,
                expiry_day: None,
            },
        };
        let is_oversized = match target.quality {
            ItemQuality::Oversized { .. } => true,
            _ => false,
        };
        if !is_oversized {
            let removed_item = self.clear_at(*location);
            let mut items: Vec<Item> = Vec::new();
            items.push(removed_item);
            proof {
                assert(items@ =~= seq![old(self).spec_slot(*location)->0]);
            }
            return Ok(items);
        }
        // Oversized: vacate every cell of the logical record, in cell order.
        let mut items: Vec<Item> = Vec::new();
        if self.slots.len() == 0 {
            // unreachable: the occupied target cell is in bounds
            proof {
                lemma_loc_index_bounds(*location, dims);
            }
            return Ok(items);
        }
        let mut cur = first_location(dims);
        let mut more = true;
        while more
            invariant
                self.wf(),
                old(self).wf(),
                dims == old(self).max_dimensions,
                self.max_dimensions == dims,
                self.last_allocation == old(self).last_allocation,
                self.usage_count == old(self).usage_count,
                loc_in_bounds(cur, dims),
                more ==> items@ == old(self).matching_items_upto(target, loc_index(cur, dims)),
                !more ==> items@ == old(self).matching_items(target),
                more ==> forall|l: Location|
                    loc_in_bounds(l, dims) && loc_index(l, dims) >= loc_index(cur, dims)
                        ==> self.spec_slot(l) == old(self).spec_slot(l),
                forall|l: Location|
                    loc_in_bounds(l, dims) && (more ==> loc_index(l, dims) < loc_index(cur, dims))
                        ==> self.spec_slot(l) == (match old(self).spec_slot(l) {
                        Some(i2) => if i2.key_matches(target) {
                            None
                        } else {
                            Some(i2)
                        },
                        None => None::<Item>,
                    }),
            decreases total_capacity(dims) - loc_index(cur, dims), (if more { 1int } else { 0int }),
        {
            let ghost p = loc_index(cur, dims);
            let matched = match self.read_slot_ref(cur) {
                Some(itm) => itm.id == target.id && itm.created_at == target.created_at
                    && itm.name == target.name,
                None => false,
            };
            if matched {
                let removed_item = self.clear_at(cur);
                items.push(removed_item);
            }
            proof {
                assert(items@ == old(self).matching_items_upto(target, p + 1));
                assert forall|l: Location|
                    loc_in_bounds(l, dims) && loc_index(l, dims) < p + 1 implies self.spec_slot(l)
                        == (match old(self).spec_slot(l) {
                        Some(i2) => if i2.key_matches(target) {
                            None
                        } else {
                            Some(i2)
                        },
                        None => None::<Item>,
                    }) by {
                    if l != cur {
                        lemma_loc_index_injective(l, cur, dims);
                    }
                }
                assert forall|l: Location|
                    loc_in_bounds(l, dims) && loc_index(l, dims) >= p + 1 implies self.spec_slot(l)
                        == old(self).spec_slot(l) by {
                    if l != cur {
                        lemma_loc_index_injective(l, cur, dims);
                    } else {
                        lemma_loc_index_bounds(l, dims);
                    }
                }
            }
            match next_location(cur, dims) {
                Some(n) => {
                    proof {
                        lemma_loc_index_bounds(n, dims);
                    }
                    cur = n;
                },
                None => {
                    proof {
                        assert(p + 1 == old(self).slots@.len());
                        assert(items@ == old(self).matching_items(target));
                        assert forall|l: Location| loc_in_bounds(l, dims) implies loc_index(
                            l,
                            dims,
                        ) < p + 1 by {
                            lemma_loc_index_bounds(l, dims);
                        }
                    }
                    more = false;
                },
            }
        }
        Ok(items)
    }

    /// Reads a copy of the item stored at an in-bounds cell, if any.
    fn read_slot(&self, loc: Location) -> (r: Option<Item>)
        requires
            self.wf(),
            loc_in_bounds(loc, self.max_dimensions),
        ensures
            r == self.spec_slot(loc),
    {
        proof {
            self.lemma_capacity_fits();
            lemma_loc_index_bounds(loc, self.max_dimensions);
        }
        let i = loc_index_exec(loc, self.max_dimensions);
        match &self.slots[i] {
            Some(itm) => Some(itm.clone()),
            None => None,
        }
    }

    /// Borrows the item stored at an in-bounds cell, if any.
    fn read_slot_ref(&self, loc: Location) -> (r: &Option<Item>)
        requires
            self.wf(),
            loc_in_bounds(loc, self.max_dimensions),
        ensures
            *r == self.spec_slot(loc),
    {
        proof {
            self.lemma_capacity_fits();
            lemma_loc_index_bounds(loc, self.max_dimensions);
        }
        let i = loc_index_exec(loc, self.max_dimensions);
        &self.slots[i]
    }
}


/// Membership in a sequence extended by one element.
proof fn lemma_push_contains<T>(s: Seq<T>, x: T, y: T)
    ensures
        s.push(x).contains(y) <==> (s.contains(y) || y == x),
{
    if s.push(x).contains(y) {
        let w = choose|w: int| 0 <= w < s.push(x).len() && #[trigger] s.push(x)[w] == y;
        if w < s.len() {
            assert(s[w] == y);
        }
    }
    if s.contains(y) {
        let w = choose|w: int| 0 <= w < s.len() && #[trigger] s[w] == y;
        assert(s.push(x)[w] == y);
    }
    if y == x {
        assert(s.push(x)[s.len() as int] == y);
    }
}

/// Some item of the sequence shares the grouping key.
pub open spec fn has_key(s: Seq<Item>, itm: Item) -> bool {
    exists|j: int| 0 <= j < s.len() && (#[trigger] s[j]).key_matches(itm)
}

/// Strictly ascending in the lexicographic location order; in particular,
/// free of duplicates.
pub open spec fn locs_sorted(s: Seq<Location>) -> bool {
    forall|i: int, j: int| 0 <= i < j < s.len() ==> lex_before(#[trigger] s[i], #[trigger] s[j])
}

/// Sum of the quantities of the items carrying the given id.
pub open spec fn sum_qty_by_id(s: Seq<Item>, id: u32) -> int
    decreases s.len(),
{
    if s.len() == 0 {
        0
    } else {
        sum_qty_by_id(s.drop_last(), id) + if s.last().id == id {
            s.last().quantity as int
        } else {
            0
        }
    }
}

/// Sum of the quantities of the items carrying the given name.
pub open spec fn sum_qty_by_name(s: Seq<Item>, name: Seq<char>) -> int
    decreases s.len(),
{
    if s.len() == 0 {
        0
    } else {
        sum_qty_by_name(s.drop_last(), name) + if s.last().name@ == name {
            s.last().quantity as int
        } else {
            0
        }
    }
}

/// The subsequence of items carrying the given id, in order.
pub open spec fn filtered_by_id(s: Seq<Item>, id: u32) -> Seq<Item>
    decreases s.len(),
{
    if s.len() == 0 {
        Seq::empty()
    } else {
        let p = filtered_by_id(s.drop_last(), id);
        if s.last().id == id {
            p.push(s.last())
        } else {
            p
        }
    }
}

impl Warehouse {
    /// The representative items of the logical records found among the
    /// first `n` cells, in first-occurrence (cell) order: one per distinct
    /// grouping key, each the record's item at its lexicographically first
    /// cell.
    pub open spec fn reps_upto(self, n: int) -> Seq<Item>
        decreases n,
    {
        if n <= 0 {
            Seq::empty()
        } else {
            let prev = self.reps_upto(n - 1);
            match self.slots@[n - 1] {
                Some(itm) => if has_key(prev, itm) {
                    prev
                } else {
                    prev.push(itm)
                },
                None => prev,
            }
        }
    }

    /// One representative item per logical record currently stored, in
    /// first-occurrence (cell) order.
    pub open spec fn reps(self) -> Seq<Item> {
        self.reps_upto(self.slots@.len() as int)
    }

    /// The cell holds an item of `rep`'s logical record.
    pub open spec fn loc_in_record(self, l: Location, rep: Item) -> bool {
        loc_in_bounds(l, self.max_dimensions) && match self.spec_slot(l) {
            Some(i2) => i2.key_matches(rep),
            None => false,
        }
    }

    /// Does any collected representative share the item's grouping key?
    fn contains_key_exec(reps: &Vec<Item>, itm: &Item) -> (b: bool)
        ensures
            b == has_key(reps@, *itm),
    {
        let mut j: usize = 0;
        while j < reps.len()
            invariant
                0 <= j <= reps@.len(),
                forall|i: int| 0 <= i < j ==> !(#[trigger] reps@[i]).key_matches(*itm),
            decreases reps@.len() - j,
        {
            let r = &reps[j];
            if r.id == itm.id && r.created_at == itm.created_at && r.name == itm.name {
                return true;
            }
            j = j + 1;
        }
        false
    }

    /// Collects, in lexicographic cell order, every location holding an
    /// item of `rep`'s logical record.
    fn locations_of_key(&self, rep: &Item) -> (locs: Vec<Location>)
        requires
            self.wf(),
        ensures
            locs_sorted(locs@),
            forall|l: Location| #[trigger] locs@.contains(l) <==> self.loc_in_record(l, *rep),
    {
        let dims = self.max_dimensions;
        let mut locs: Vec<Location> = Vec::new();
        if self.slots.len() == 0 {
            proof {
                assert forall|l: Location| !self.loc_in_record(l, *rep) by {
                    if loc_in_bounds(l, dims) {
                        lemma_loc_index_bounds(l, dims);
                    }
                }
            }
            return locs;
        }
        let mut cur = first_location(dims);
        let mut more = true;
        while more
            invariant
                self.wf(),
                dims == self.max_dimensions,
                loc_in_bounds(cur, dims),
                locs_sorted(locs@),
                forall|i: int|
                    0 <= i < locs@.len() ==> loc_in_bounds(#[trigger] locs@[i], dims)
                        && loc_index(locs@[i], dims) < loc_index(cur, dims) + (
                    if more {
                        0int
                    } else {
                        1int
                    }),
                forall|l: Location|
                    #[trigger] locs@.contains(l) <==> (self.loc_in_record(l, *rep) && (more
                        ==> loc_index(l, dims) < loc_index(cur, dims))),
            decreases total_capacity(dims) - loc_index(cur, dims), (if more { 1int } else { 0int }),
        {
            let ghost p = loc_index(cur, dims);
            let ghost locs_before = locs@;
            let matched = match self.read_slot_ref(cur) {
                Some(itm) => itm.id == rep.id && itm.created_at == rep.created_at && itm.name
                    == rep.name,
                None => false,
            };
            if matched {
                proof {
                    assert forall|i: int| 0 <= i < locs@.len() implies lex_before(
                        #[trigger] locs@[i],
                        cur,
                    ) by {
                        lemma_loc_index_lex(locs@[i], cur, dims);
                    }
                }
                locs.push(cur);
            }
            proof {
                assert forall|l: Location| #[trigger] locs@.contains(l) <==> (self.loc_in_record(
                    l,
                    *rep,
                ) && loc_index(l, dims) < p + 1) by {
                    lemma_push_contains(locs_before, cur, l);
                    if l != cur && loc_in_bounds(l, dims) {
                        lemma_loc_index_injective(l, cur, dims);
                    }
                }
            }
            match next_location(cur, dims) {
                Some(n) => {
                    proof {
                        lemma_loc_index_bounds(n, dims);
                    }
                    cur = n;
                },
                None => {
                    proof {
                        assert forall|l: Location| loc_in_bounds(l, dims) implies loc_index(
                            l,
                            dims,
                        ) < p + 1 by {
                            lemma_loc_index_bounds(l, dims);
                        }
                    }
                    more = false;
                },
            }
        }
        locs
    }

    /// Collapses the per-cell mapping into logical records: one entry per
    /// distinct (id, name, creation timestamp), carrying the record's item
    /// and its locations in ascending lexicographic order.
    pub fn grouped_items(&self) -> (r: Vec<(Item, Vec<Location>)>)
        requires
            self.wf(),
        ensures
            r@.len() == self.reps().len(),
            forall|j: int| 0 <= j < r@.len() ==> (#[trigger] r@[j]).0 == self.reps()[j],
            forall|j: int| 0 <= j < r@.len() ==> locs_sorted((#[trigger] r@[j]).1@),
            forall|j: int, l: Location|
                0 <= j < r@.len() ==> (#[trigger] r@[j].1@.contains(l) <==> self.loc_in_record(
                    l,
                    r@[j].0,
                )),
    {
        let dims = self.max_dimensions;
        let mut reps: Vec<Item> = Vec::new();
        if self.slots.len() > 0 {
            let mut cur = first_location(dims);
            let mut more = true;
            while more
                invariant
                    self.wf(),
                    dims == self.max_dimensions,
                    loc_in_bounds(cur, dims),
                    more ==> reps@ == self.reps_upto(loc_index(cur, dims)),
                    !more ==> reps@ == self.reps(),
                decreases total_capacity(dims) - loc_index(cur, dims), (if more {
                    1int
                } else {
                    0int
                }),
            {
                let ghost p = loc_index(cur, dims);
                match self.read_slot_ref(cur) {
                    Some(itm) => {
                        if !Self::contains_key_exec(&reps, itm) {
                            let copy = itm.clone();
                            reps.push(copy);
                        }
                    },
                    None => {},
                }
                proof {
                    assert(reps@ == self.reps_upto(p + 1));
                }
                match next_location(cur, dims) {
                    Some(n) => {
                        proof {
                            lemma_loc_index_bounds(n, dims);
                        }
                        cur = n;
                    },
                    None => {
                        proof {
                            assert(p + 1 == self.slots@.len());
                        }
                        more = false;
                    },
                }
            }
        }
        let mut r: Vec<(Item, Vec<Location>)> = Vec::new();
        let mut j: usize = 0;
        while j < reps.len()
            invariant
                self.wf(),
                dims == self.max_dimensions,
                reps@ == self.reps(),
                0 <= j <= reps@.len(),
                r@.len() == j,
                forall|i: int| 0 <= i < j ==> (#[trigger] r@[i]).0 == self.reps()[i],
                forall|i: int| 0 <= i < j ==> locs_sorted((#[trigger] r@[i]).1@),
                forall|i: int, l: Location|
                    0 <= i < j ==> (#[trigger] r@[i].1@.contains(l) <==> self.loc_in_record(
                        l,
                        r@[i].0,
                    )),
            decreases reps@.len() - j,
        {
            let rep = &reps[j];
            let locs = self.locations_of_key(rep);
            let entry_item = rep.clone();
            r.push((entry_item, locs));
            j = j + 1;
        }
        r
    }
}


/// The urgency of a stored fragile item relative to a reference day.
#[derive(Clone, Copy, PartialEq, Eq, Structural, Debug)]
pub enum ExpiryStatus {
    /// The expiry day lies strictly before the reference day.
    Expired,
    /// The expiry day falls within the inclusive three-day window; the
    /// payload is the number of days left, between zero and three.
    ExpiresInDays(i64),
}

/// What a single expiry day means on the reference day: expired, due within
/// three days, or outside the report.
pub open spec fn expiry_status(expiry: i64, reference: i64) -> Option<ExpiryStatus> {
    if expiry < reference {
        Some(ExpiryStatus::Expired)
    } else if expiry - reference <= 3 {
        Some(ExpiryStatus::ExpiresInDays((expiry - reference) as i64))
    } else {
        None
    }
}

/// The status an item contributes to the expiry report: only fragile items
/// carrying an expiry day are considered.
pub open spec fn item_expiry(itm: Item, reference: i64) -> Option<ExpiryStatus> {
    match itm.quality {
        ItemQuality::Fragile { .. } => match itm.expiry_day {
            Some(d) => expiry_status(d, reference),
            None => None,
        },
        _ => None,
    }
}

/// The reportable items of a sequence with their statuses, in order.
pub open spec fn expiring_of(s: Seq<Item>, reference: i64) -> Seq<(Item, ExpiryStatus)>
    decreases s.len(),
{
    if s.len() == 0 {
        Seq::empty()
    } else {
        let p = expiring_of(s.drop_last(), reference);
        match item_expiry(s.last(), reference) {
            Some(st) => p.push((s.last(), st)),
            None => p,
        }
    }
}

/// Computes the expiry status of one day value.
fn status_of(expiry: i64, reference: i64) -> (r: Option<ExpiryStatus>)
    ensures
        r == expiry_status(expiry, reference),
{
    if expiry < reference {
        Some(ExpiryStatus::Expired)
    } else {
        let cap: i64 = if reference > i64::MAX - 3 {
            i64::MAX
        } else {
            reference + 3
        };
        if expiry <= cap {
            Some(ExpiryStatus::ExpiresInDays(expiry - reference))
        } else {
            None
        }
    }
}

/// Copies a location list.
fn copy_locs(v: &Vec<Location>) -> (r: Vec<Location>)
    ensures
        r@ == v@,
{
    let mut r: Vec<Location> = Vec::new();
    let mut i: usize = 0;
    while i < v.len()
        invariant
            0 <= i <= v@.len(),
            r@ == v@.take(i as int),
        decreases v@.len() - i,
    {
        r.push(v[i]);
        proof {
            assert(v@.take(i + 1) =~= v@.take(i as int).push(v@[i as int]));
        }
        i = i + 1;
    }
    proof {
        assert(v@.take(v@.len() as int) =~= v@);
    }
    r
}

impl Warehouse {
    /// Sums the quantities of all logical records with the given id,
    /// saturating at `u32::MAX`; found means the total is positive.
    pub fn search_by_id(&self, id: u32) -> (r: (bool, u32))
        requires
            self.wf(),
        ensures
            r.1 as int == if sum_qty_by_id(self.reps(), id) <= u32::MAX as int {
                sum_qty_by_id(self.reps(), id)
            } else {
                u32::MAX as int
            },
            r.0 == (r.1 > 0),
    {
        let grouped = self.grouped_items();
        let mut total: u32 = 0;
        let mut j: usize = 0;
        while j < grouped.len()
            invariant
                0 <= j <= grouped@.len(),
                grouped@.len() == self.reps().len(),
                forall|i: int| 0 <= i < grouped@.len() ==> (#[trigger] grouped@[i]).0 == self.reps()[i],
                total as int == if sum_qty_by_id(self.reps().take(j as int), id) <= u32::MAX as int {
                    sum_qty_by_id(self.reps().take(j as int), id)
                } else {
                    u32::MAX as int
                },
            decreases grouped@.len() - j,
        {
            proof {
                assert(self.reps().take(j + 1).drop_last() =~= self.reps().take(j as int));
                assert(sum_qty_by_id(self.reps().take(j as int), id) >= 0) by {
                    lemma_sum_qty_by_id_nonneg(self.reps().take(j as int), id);
                }
            }
            let itm = &grouped[j].0;
            if itm.id == id {
                let q = itm.quantity;
                total = if total > u32::MAX - q {
                    u32::MAX
                } else {
                    total + q
                };
            }
            j = j + 1;
        }
        proof {
            assert(self.reps().take(self.reps().len() as int) =~= self.reps());
        }
        (total > 0, total)
    }

    /// Sums the quantities of all logical records with the given name,
    /// saturating at `u32::MAX`; found means the total is positive.
    pub fn search_by_name(&self, name: &str) -> (r: (bool, u32))
        requires
            self.wf(),
        ensures
            r.1 as int == if sum_qty_by_name(self.reps(), name@) <= u32::MAX as int {
                sum_qty_by_name(self.reps(), name@)
            } else {
                u32::MAX as int
            },
            r.0 == (r.1 > 0),
    {
        let owned = name.to_owned();
        let grouped = self.grouped_items();
        let mut total: u32 = 0;
        let mut j: usize = 0;
        while j < grouped.len()
            invariant
                owned@ == name@,
                0 <= j <= grouped@.len(),
                grouped@.len() == self.reps().len(),
                forall|i: int| 0 <= i < grouped@.len() ==> (#[trigger] grouped@[i]).0 == self.reps()[i],
                total as int == if sum_qty_by_name(self.reps().take(j as int), name@)
                    <= u32::MAX as int {
                    sum_qty_by_name(self.reps().take(j as int), name@)
                } else {
                    u32::MAX as int
                },
            decreases grouped@.len() - j,
        {
            proof {
                assert(self.reps().take(j + 1).drop_last() =~= self.reps().take(j as int));
                assert(sum_qty_by_name(self.reps().take(j as int), name@) >= 0) by {
                    lemma_sum_qty_by_name_nonneg(self.reps().take(j as int), name@);
                }
            }
            let itm = &grouped[j].0;
            if itm.name == owned {
                let q = itm.quantity;
                total = if total > u32::MAX - q {
                    u32::MAX
                } else {
                    total + q
                };
            }
            j = j + 1;
        }
        proof {
            assert(self.reps().take(self.reps().len() as int) =~= self.reps());
        }
        (total > 0, total)
    }

    /// Every logical record with the given id, each with its full location
    /// list in ascending lexicographic order.
    pub fn search_locations_by_id(&self, id: u32) -> (r: Vec<(Item, Vec<Location>)>)
        requires
            self.wf(),
        ensures
            r@.len() == filtered_by_id(self.reps(), id).len(),
            forall|j: int| 0 <= j < r@.len() ==> (#[trigger] r@[j]).0 == filtered_by_id(
                self.reps(),
                id,
            )[j],
            forall|j: int| 0 <= j < r@.len() ==> locs_sorted((#[trigger] r@[j]).1@),
            forall|j: int, l: Location|
                0 <= j < r@.len() ==> (#[trigger] r@[j].1@.contains(l) <==> self.loc_in_record(
                    l,
                    r@[j].0,
                )),
    {
        let grouped = self.grouped_items();
        let mut r: Vec<(Item, Vec<Location>)> = Vec::new();
        let mut j: usize = 0;
        while j < grouped.len()
            invariant
                self.wf(),
                0 <= j <= grouped@.len(),
                grouped@.len() == self.reps().len(),
                forall|i: int| 0 <= i < grouped@.len() ==> (#[trigger] grouped@[i]).0 == self.reps()[i],
                forall|i: int| 0 <= i < grouped@.len() ==> locs_sorted((#[trigger] grouped@[i]).1@),
                forall|i: int, l: Location|
                    0 <= i < grouped@.len() ==> (#[trigger] grouped@[i].1@.contains(l)
                        <==> self.loc_in_record(l, grouped@[i].0)),
                r@.len() == filtered_by_id(self.reps().take(j as int), id).len(),
                forall|i: int| 0 <= i < r@.len() ==> (#[trigger] r@[i]).0 == filtered_by_id(
                    self.reps().take(j as int),
                    id,
                )[i],
                forall|i: int| 0 <= i < r@.len() ==> locs_sorted((#[trigger] r@[i]).1@),
                forall|i: int, l: Location|
                    0 <= i < r@.len() ==> (#[trigger] r@[i].1@.contains(l) <==> self.loc_in_record(
                        l,
                        r@[i].0,
                    )),
            decreases grouped@.len() - j,
        {
            proof {
                assert(self.reps().take(j + 1).drop_last() =~= self.reps().take(j as int));
            }
            let itm = &grouped[j].0;
            if itm.id == id {
                let entry_item = itm.clone();
                let entry_locs = copy_locs(&grouped[j].1);
                r.push((entry_item, entry_locs));
            }
            j = j + 1;
        }
        proof {
            assert(self.reps().take(self.reps().len() as int) =~= self.reps());
        }
        r
    }

    /// Reports, over the logical records in grouped order, every fragile
    /// item whose expiry day is past or within three days of the reference
    /// day, with its status and locations.
    pub fn find_expiring_items_by_date(&self, reference_day: i64) -> (r: Vec<
        (Item, ExpiryStatus, Vec<Location>),
    >)
        requires
            self.wf(),
        ensures
            r@.len() == expiring_of(self.reps(), reference_day).len(),
            forall|j: int|
                0 <= j < r@.len() ==> ((#[trigger] r@[j]).0, r@[j].1) == expiring_of(
                    self.reps(),
                    reference_day,
                )[j],
            forall|j: int| 0 <= j < r@.len() ==> locs_sorted((#[trigger] r@[j]).2@),
            forall|j: int, l: Location|
                0 <= j < r@.len() ==> (#[trigger] r@[j].2@.contains(l) <==> self.loc_in_record(
                    l,
                    r@[j].0,
                )),
    {
        let grouped = self.grouped_items();
        let mut r: Vec<(Item, ExpiryStatus, Vec<Location>)> = Vec::new();
        let mut j: usize = 0;
        while j < grouped.len()
            invariant
                self.wf(),
                0 <= j <= grouped@.len(),
                grouped@.len() == self.reps().len(),
                forall|i: int| 0 <= i < grouped@.len() ==> (#[trigger] grouped@[i]).0 == self.reps()[i],
                forall|i: int| 0 <= i < grouped@.len() ==> locs_sorted((#[trigger] grouped@[i]).1@),
                forall|i: int, l: Location|
                    0 <= i < grouped@.len() ==> (#[trigger] grouped@[i].1@.contains(l)
                        <==> self.loc_in_record(l, grouped@[i].0)),
                r@.len() == expiring_of(self.reps().take(j as int), reference_day).len(),
                forall|i: int|
                    0 <= i < r@.len() ==> ((#[trigger] r@[i]).0, r@[i].1) == expiring_of(
                        self.reps().take(j as int),
                        reference_day,
                    )[i],
                forall|i: int| 0 <= i < r@.len() ==> locs_sorted((#[trigger] r@[i]).2@),
                forall|i: int, l: Location|
                    0 <= i < r@.len() ==> (#[trigger] r@[i].2@.contains(l) <==> self.loc_in_record(
                        l,
                        r@[i].0,
                    )),
            decreases grouped@.len() - j,
        {
            proof {
                assert(self.reps().take(j + 1).drop_last() =~= self.reps().take(j as int));
            }
            let itm = &grouped[j].0;
            let is_fragile = match itm.quality {
                ItemQuality::Fragile { .. } => true,
                _ => false,
            };
            if is_fragile {
                let status = match itm.expiry_day {
                    Some(d) => status_of(d, reference_day),
                    None => None,
                };
                match status {
                    Some(st) => {
                        let entry_item = itm.clone();
                        let entry_locs = copy_locs(&grouped[j].1);
                        r.push((entry_item, st, entry_locs));
                    },
                    None => {},
                }
            }
            j = j + 1;
        }
        proof {
            assert(self.reps().take(self.reps().len() as int) =~= self.reps());
        }
        r
    }
}

/// A sum of quantities is non-negative.
proof fn lemma_sum_qty_by_id_nonneg(s: Seq<Item>, id: u32)
    ensures
        sum_qty_by_id(s, id) >= 0,
    decreases s.len(),
{
    if s.len() > 0 {
        lemma_sum_qty_by_id_nonneg(s.drop_last(), id);
    }
}

/// A sum of quantities is non-negative.
proof fn lemma_sum_qty_by_name_nonneg(s: Seq<Item>, name: Seq<char>)
    ensures
        sum_qty_by_name(s, name) >= 0,
    decreases s.len(),
{
    if s.len() > 0 {
        lemma_sum_qty_by_name_nonneg(s.drop_last(), name);
    }
}


/// Logical records partition the occupied cells: a location belonging to
/// one record belongs to no record with a different grouping key. Together
/// with `add_item`'s guarantee that every placement writes only previously
/// free cells, the location sets of distinct records are always pairwise
/// disjoint.
pub proof fn lemma_records_disjoint(w: Warehouse, a: Item, b: Item, l: Location)
    requires
        !a.key_matches(b),
        w.loc_in_record(l, a),
    ensures
        !w.loc_in_record(l, b),
{
}

/// The representatives collected up to any cell carry pairwise distinct
/// grouping keys: a key is added only when no earlier representative
/// matches it.
proof fn lemma_reps_upto_distinct(w: Warehouse, n: int)
    ensures
        forall|i: int, j: int|
            0 <= i < j < w.reps_upto(n).len() ==> !(#[trigger] w.reps_upto(n)[i]).key_matches(
                #[trigger] w.reps_upto(n)[j],
            ),
    decreases n,
{
    if n > 0 {
        lemma_reps_upto_distinct(w, n - 1);
        let prev = w.reps_upto(n - 1);
        let cur = w.reps_upto(n);
        if cur.len() > prev.len() {
            let itm = cur.last();
            assert(!has_key(prev, itm));
            assert forall|i: int, j: int| 0 <= i < j < cur.len() implies !(
            #[trigger] cur[i]).key_matches(#[trigger] cur[j]) by {
                if j == cur.len() - 1 {
                    assert(cur[i] == prev[i]);
                    assert(!prev[i].key_matches(itm));
                } else {
                    assert(cur[i] == prev[i] && cur[j] == prev[j]);
                }
            }
        }
    }
}

/// The logical records reported by `grouped_items` carry pairwise distinct
/// grouping keys.
pub proof fn lemma_reps_distinct_keys(w: Warehouse, i: int, j: int)
    requires
        0 <= i < j < w.reps().len(),
    ensures
        !w.reps()[i].key_matches(w.reps()[j]),
{
    lemma_reps_upto_distinct(w, w.slots@.len() as int);
}

/// The location sets of two grouped records are disjoint: a location of one
/// record never belongs to another.
pub proof fn lemma_grouped_records_disjoint(w: Warehouse, i: int, j: int, l: Location)
    requires
        0 <= i < w.reps().len(),
        0 <= j < w.reps().len(),
        i != j,
        w.loc_in_record(l, w.reps()[i]),
    ensures
        !w.loc_in_record(l, w.reps()[j]),
{
    if i < j {
        lemma_reps_distinct_keys(w, i, j);
    } else {
        lemma_reps_distinct_keys(w, j, i);
    }
    lemma_records_disjoint(w, w.reps()[i], w.reps()[j], l);
}

/// The shape of an oversized placement: exactly `k` cells sharing
/// `(row, shelf, level)` whose zones increase by one from the first cell.
pub proof fn lemma_oversized_run_shape(start: Location, k: u32, j: int)
    requires
        0 <= j < k,
        start.zone + k <= u32::MAX + 1,
    ensures
        run_seq(start, k).len() == k,
        run_seq(start, k)[j].row == start.row,
        run_seq(start, k)[j].shelf == start.shelf,
        run_seq(start, k)[j].level == start.level,
        run_seq(start, k)[j].zone == start.zone + j,
{
}

/// A fragile item with a declared level bound never occupies a cell above
/// it: the bound is part of well-formedness, which every operation of the
/// warehouse preserves.
pub proof fn lemma_fragile_never_above_limit(w: Warehouse, l: Location, m: u32)
    requires
        w.wf(),
        loc_in_bounds(l, w.max_dimensions),
        w.spec_slot(l) matches Some(itm) && itm.quality == (ItemQuality::Fragile {
            max_level: Some(m),
        }),
    ensures
        l.level <= m,
{
}

} // verus!
