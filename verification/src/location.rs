//! The coordinate space of the grid: a `Location` names one cell, the grid
//! bounds are a `(rows, shelves, levels, zones)` tuple, and cells are laid
//! out in lexicographic order, which coincides with a mixed-radix index.

use vstd::prelude::*;

verus! {

/// One addressable cell of the four-dimensional grid.
///
/// Equality and ordering are lexicographic on `(row, shelf, level, zone)`;
/// that ordering is the deterministic tie-break used by allocation.
#[derive(Clone, Copy, PartialEq, Eq, Structural, Debug, Hash)]
pub struct Location {
    pub row: u32,
    pub shelf: u32,
    pub level: u32,
    pub zone: u32,
}

/// The grid bounds: `(rows, shelves, levels, zones)`; a coordinate is valid
/// when it is strictly below its bound.
pub type Dimensions = (u32, u32, u32, u32);

/// The location lies inside the grid bounds.
pub open spec fn loc_in_bounds(loc: Location, dims: Dimensions) -> bool {
    &&& loc.row < dims.0
    &&& loc.shelf < dims.1
    &&& loc.level < dims.2
    &&& loc.zone < dims.3
}

/// Number of cells in the grid.
pub open spec fn total_capacity(dims: Dimensions) -> int {
    (dims.0 as int) * (dims.1 as int) * (dims.2 as int) * (dims.3 as int)
}

/// Mixed-radix index of a cell: cells are numbered in lexicographic order of
/// `(row, shelf, level, zone)`.
pub open spec fn loc_index(loc: Location, dims: Dimensions) -> int {
    ((loc.row as int * dims.1 as int + loc.shelf as int) * dims.2 as int + loc.level as int)
        * dims.3 as int + loc.zone as int
}

/// Strict lexicographic order on locations.
pub open spec fn lex_before(a: Location, b: Location) -> bool {
    ||| a.row < b.row
    ||| (a.row == b.row && a.shelf < b.shelf)
    ||| (a.row == b.row && a.shelf == b.shelf && a.level < b.level)
    ||| (a.row == b.row && a.shelf == b.shelf && a.level == b.level && a.zone < b.zone)
}

/// One digit step of a mixed-radix comparison: appending a smaller-or-equal
/// digit pair keeps a strict prefix order strict.
proof fn lemma_digit_lt(hi_a: int, lo_a: int, hi_b: int, lo_b: int, base: int)
    requires
        base > 0,
        0 <= lo_a < base,
        0 <= lo_b < base,
        hi_a < hi_b || (hi_a == hi_b && lo_a < lo_b),
    ensures
        hi_a * base + lo_a < hi_b * base + lo_b,
{
    if hi_a < hi_b {
        assert(hi_a * base + base <= hi_b * base) by (nonlinear_arith)
            requires hi_a < hi_b, base > 0;
    }
}

/// A mixed-radix pair stays below the radix product.
proof fn lemma_digit_bound(hi: int, lo: int, hi_bound: int, base: int)
    requires
        base > 0,
        0 <= lo < base,
        0 <= hi < hi_bound,
    ensures
        0 <= hi * base + lo < hi_bound * base,
{
    assert(hi * base + base <= hi_bound * base) by (nonlinear_arith)
        requires hi < hi_bound, base > 0;
    assert(hi * base >= 0) by (nonlinear_arith)
        requires hi >= 0, base > 0;
}

/// The cell index of an in-bounds location lies in `[0, total_capacity)`.
pub proof fn lemma_loc_index_bounds(loc: Location, dims: Dimensions)
    requires
        loc_in_bounds(loc, dims),
    ensures
        0 <= loc_index(loc, dims) < total_capacity(dims),
{
    let r = loc.row as int;
    let s = loc.shelf as int;
    let l = loc.level as int;
    let z = loc.zone as int;
    let rr = dims.0 as int;
    let ss = dims.1 as int;
    let ll = dims.2 as int;
    let zz = dims.3 as int;
    lemma_digit_bound(r, s, rr, ss);
    lemma_digit_bound(r * ss + s, l, rr * ss, ll);
    lemma_digit_bound((r * ss + s) * ll + l, z, (rr * ss) * ll, zz);
    assert(((rr * ss) * ll) * zz == total_capacity(dims));
}

/// Lexicographic order on in-bounds locations coincides with index order.
pub proof fn lemma_loc_index_lex(a: Location, b: Location, dims: Dimensions)
    requires
        loc_in_bounds(a, dims),
        loc_in_bounds(b, dims),
    ensures
        lex_before(a, b) <==> loc_index(a, dims) < loc_index(b, dims),
{
    if lex_before(a, b) {
        lemma_lex_index_lt(a, b, dims);
    } else if lex_before(b, a) {
        lemma_lex_index_lt(b, a, dims);
    } else {
        assert(a == b);
    }
}

/// A lexicographically smaller in-bounds location has a smaller index.
proof fn lemma_lex_index_lt(a: Location, b: Location, dims: Dimensions)
    requires
        loc_in_bounds(a, dims),
        loc_in_bounds(b, dims),
        lex_before(a, b),
    ensures
        loc_index(a, dims) < loc_index(b, dims),
{
    let ss = dims.1 as int;
    let ll = dims.2 as int;
    let zz = dims.3 as int;
    let ba = a.row as int * ss + a.shelf as int;
    let bb = b.row as int * ss + b.shelf as int;
    let ca = ba * ll + a.level as int;
    let cb = bb * ll + b.level as int;
    if a.row != b.row || a.shelf != b.shelf {
        lemma_digit_lt(a.row as int, a.shelf as int, b.row as int, b.shelf as int, ss);
        lemma_digit_lt(ba, a.level as int, bb, b.level as int, ll);
        lemma_digit_lt(ca, a.zone as int, cb, b.zone as int, zz);
    } else if a.level != b.level {
        lemma_digit_lt(ba, a.level as int, bb, b.level as int, ll);
        lemma_digit_lt(ca, a.zone as int, cb, b.zone as int, zz);
    } else {
        lemma_digit_lt(ca, a.zone as int, cb, b.zone as int, zz);
    }
}

/// Distinct in-bounds locations have distinct cell indices.
pub proof fn lemma_loc_index_injective(a: Location, b: Location, dims: Dimensions)
    requires
        loc_in_bounds(a, dims),
        loc_in_bounds(b, dims),
        a != b,
    ensures
        loc_index(a, dims) != loc_index(b, dims),
{
    lemma_loc_index_lex(a, b, dims);
    lemma_loc_index_lex(b, a, dims);
}

/// Computes the cell index of an in-bounds location.
pub fn loc_index_exec(loc: Location, dims: Dimensions) -> (i: usize)
    requires
        loc_in_bounds(loc, dims),
        total_capacity(dims) <= usize::MAX as int,
    ensures
        i as int == loc_index(loc, dims),
{
    proof {
        lemma_loc_index_bounds(loc, dims);
        let r = loc.row as int;
        let s = loc.shelf as int;
        let l = loc.level as int;
        let z = loc.zone as int;
        let rr = dims.0 as int;
        let ss = dims.1 as int;
        let ll = dims.2 as int;
        let zz = dims.3 as int;
        lemma_digit_bound(r, s, rr, ss);
        lemma_digit_bound(r * ss + s, l, rr * ss, ll);
        // each partial value is at most the final index, hence fits in usize
        let c = (r * ss + s) * ll + l;
        assert(r * ss + s <= c) by (nonlinear_arith)
            requires r * ss + s >= 0, l >= 0, ll >= 1, c == (r * ss + s) * ll + l;
        assert(c <= c * zz + z) by (nonlinear_arith)
            requires c >= 0, z >= 0, zz >= 1;
    }
    let a: usize = loc.row as usize * dims.1 as usize + loc.shelf as usize;
    let b: usize = a * dims.2 as usize + loc.level as usize;
    b * dims.3 as usize + loc.zone as usize
}

/// The lexicographically first cell of a non-empty grid.
pub fn first_location(dims: Dimensions) -> (loc: Location)
    requires
        total_capacity(dims) > 0,
    ensures
        loc_in_bounds(loc, dims),
        loc_index(loc, dims) == 0,
        loc == (Location { row: 0, shelf: 0, level: 0, zone: 0 }),
{
    proof {
        let rr = dims.0 as int;
        let ss = dims.1 as int;
        let ll = dims.2 as int;
        let zz = dims.3 as int;
        assert(total_capacity(dims) == ((rr * ss) * ll) * zz);
        assert(rr > 0 && ss > 0 && ll > 0 && zz > 0) by (nonlinear_arith)
            requires ((rr * ss) * ll) * zz > 0, rr >= 0, ss >= 0, ll >= 0, zz >= 0;
        let zero = Location { row: 0, shelf: 0, level: 0, zone: 0 };
        assert(loc_index(zero, dims) == ((0 * ss + 0) * ll + 0) * zz + 0);
        assert(((0 * ss + 0) * ll + 0) * zz + 0 == 0) by (nonlinear_arith);
    }
    Location { row: 0, shelf: 0, level: 0, zone: 0 }
}

/// The lexicographic successor of a cell, or `None` past the last cell.
pub fn next_location(loc: Location, dims: Dimensions) -> (r: Option<Location>)
    requires
        loc_in_bounds(loc, dims),
    ensures
        match r {
            Some(n) => loc_in_bounds(n, dims)
                && loc_index(n, dims) == loc_index(loc, dims) + 1,
            None => loc_index(loc, dims) == total_capacity(dims) - 1,
        },
{
    let ghost rr = dims.0 as int;
    let ghost ss = dims.1 as int;
    let ghost ll = dims.2 as int;
    let ghost zz = dims.3 as int;
    let ghost r = loc.row as int;
    let ghost s = loc.shelf as int;
    let ghost l = loc.level as int;
    let ghost z = loc.zone as int;
    if loc.zone + 1 < dims.3 {
        Some(Location { zone: loc.zone + 1, ..loc })
    } else if loc.level + 1 < dims.2 {
        let n = Location { level: loc.level + 1, zone: 0, ..loc };
        proof {
            assert(((r * ss + s) * ll + (l + 1)) * zz
                == ((r * ss + s) * ll + l) * zz + zz) by (nonlinear_arith);
        }
        Some(n)
    } else if loc.shelf + 1 < dims.1 {
        let n = Location { shelf: loc.shelf + 1, level: 0, zone: 0, ..loc };
        proof {
            assert(((r * ss + (s + 1)) * ll) * zz
                == ((r * ss + s) * ll + ll) * zz) by (nonlinear_arith);
            assert(((r * ss + s) * ll + ll) * zz
                == ((r * ss + s) * ll + (ll - 1)) * zz + zz) by (nonlinear_arith);
        }
        Some(n)
    } else if loc.row + 1 < dims.0 {
        let n = Location { row: loc.row + 1, shelf: 0, level: 0, zone: 0 };
        proof {
            assert((((r + 1) * ss) * ll) * zz
                == ((r * ss + (ss - 1)) * ll + (ll - 1)) * zz + zz) by (nonlinear_arith);
        }
        Some(n)
    } else {
        proof {
            assert(((r * ss + s) * ll + l) * zz + z == ((rr * ss) * ll) * zz - 1)
                by (nonlinear_arith)
                requires r == rr - 1, s == ss - 1, l == ll - 1, z == zz - 1,
                    rr > 0, ss > 0, ll > 0, zz > 0;
            assert(((rr * ss) * ll) * zz == total_capacity(dims));
        }
        None
    }
}

/// The successor of a cell in cyclic order: past the last cell it wraps to
/// the first.
pub fn next_location_wrapped(loc: Location, dims: Dimensions) -> (n: Location)
    requires
        loc_in_bounds(loc, dims),
    ensures
        loc_in_bounds(n, dims),
        loc_index(n, dims) == if loc_index(loc, dims) + 1 == total_capacity(dims) {
            0int
        } else {
            loc_index(loc, dims) + 1
        },
{
    proof {
        lemma_loc_index_bounds(loc, dims);
    }
    match next_location(loc, dims) {
        Some(n) => {
            proof {
                lemma_loc_index_bounds(n, dims);
            }
            n
        },
        None => first_location(dims),
    }
}

/// Number of cyclic successor steps that lead from `from` to `to`; always in
/// `[1, total_capacity]`, and `total_capacity` when `from == to`.
pub open spec fn cyc_dist(from: Location, to: Location, dims: Dimensions) -> int {
    ((loc_index(to, dims) - loc_index(from, dims) - 1) % total_capacity(dims)) + 1
}

/// The remainder of a value already within one modulus of the range.
proof fn lemma_small_range_mod(u: int, t: int)
    requires
        t >= 1,
        -t <= u < t,
    ensures
        u % t == if u >= 0 {
            u
        } else {
            u + t
        },
{
    if u >= 0 {
        vstd::arithmetic::div_mod::lemma_small_mod(u as nat, t as nat);
    } else {
        vstd::arithmetic::div_mod::lemma_mod_add_multiples_vanish(u, t);
        vstd::arithmetic::div_mod::lemma_small_mod((u + t) as nat, t as nat);
        assert((t + u) % t == (u + t) % t);
    }
}

/// Closed form of the cyclic distance: the index difference, shifted by one
/// full cycle when the target does not lie strictly ahead.
pub proof fn lemma_cyc_dist_closed(a: Location, b: Location, dims: Dimensions)
    requires
        loc_in_bounds(a, dims),
        loc_in_bounds(b, dims),
    ensures
        cyc_dist(a, b, dims) == if loc_index(b, dims) > loc_index(a, dims) {
            loc_index(b, dims) - loc_index(a, dims)
        } else {
            loc_index(b, dims) - loc_index(a, dims) + total_capacity(dims)
        },
{
    lemma_loc_index_bounds(a, dims);
    lemma_loc_index_bounds(b, dims);
    let t = total_capacity(dims);
    let u = loc_index(b, dims) - loc_index(a, dims) - 1;
    lemma_small_range_mod(u, t);
}

/// The cyclic distance lies in `[1, total_capacity]`, reaching the top
/// exactly on the full cycle back to the same cell.
pub proof fn lemma_cyc_dist_range(a: Location, b: Location, dims: Dimensions)
    requires
        loc_in_bounds(a, dims),
        loc_in_bounds(b, dims),
    ensures
        1 <= cyc_dist(a, b, dims) <= total_capacity(dims),
        cyc_dist(a, b, dims) == total_capacity(dims) <==> a == b,
{
    lemma_cyc_dist_closed(a, b, dims);
    lemma_loc_index_bounds(a, dims);
    lemma_loc_index_bounds(b, dims);
    if loc_index(a, dims) == loc_index(b, dims) && a != b {
        lemma_loc_index_injective(a, b, dims);
    }
}

/// From one vantage cell, distinct targets have distinct cyclic distances.
pub proof fn lemma_cyc_dist_injective(a: Location, x: Location, y: Location, dims: Dimensions)
    requires
        loc_in_bounds(a, dims),
        loc_in_bounds(x, dims),
        loc_in_bounds(y, dims),
        cyc_dist(a, x, dims) == cyc_dist(a, y, dims),
    ensures
        x == y,
{
    lemma_cyc_dist_closed(a, x, dims);
    lemma_cyc_dist_closed(a, y, dims);
    lemma_loc_index_bounds(a, dims);
    lemma_loc_index_bounds(x, dims);
    lemma_loc_index_bounds(y, dims);
    if x != y {
        lemma_loc_index_injective(x, y, dims);
    }
}

/// Moving the vantage cell forward to `b` shortens the distance to any
/// target lying beyond `b` by exactly the distance to `b`.
pub proof fn lemma_cyc_dist_shift(a: Location, b: Location, y: Location, dims: Dimensions)
    requires
        loc_in_bounds(a, dims),
        loc_in_bounds(b, dims),
        loc_in_bounds(y, dims),
        cyc_dist(a, y, dims) > cyc_dist(a, b, dims),
    ensures
        cyc_dist(b, y, dims) == cyc_dist(a, y, dims) - cyc_dist(a, b, dims),
{
    lemma_cyc_dist_closed(a, b, dims);
    lemma_cyc_dist_closed(a, y, dims);
    lemma_cyc_dist_closed(b, y, dims);
    lemma_loc_index_bounds(a, dims);
    lemma_loc_index_bounds(b, dims);
    lemma_loc_index_bounds(y, dims);
}

/// One wrapped successor step increases the cyclic distance from any
/// vantage cell by one, or returns to one after a full cycle.
pub proof fn lemma_cyc_dist_succ(a: Location, b: Location, n: Location, dims: Dimensions)
    requires
        loc_in_bounds(a, dims),
        loc_in_bounds(b, dims),
        loc_in_bounds(n, dims),
        loc_index(n, dims) == if loc_index(b, dims) + 1 == total_capacity(dims) {
            0int
        } else {
            loc_index(b, dims) + 1
        },
    ensures
        cyc_dist(a, n, dims) == if cyc_dist(a, b, dims) == total_capacity(dims) {
            1int
        } else {
            cyc_dist(a, b, dims) + 1
        },
{
    lemma_cyc_dist_closed(a, b, dims);
    lemma_cyc_dist_closed(a, n, dims);
    lemma_loc_index_bounds(a, dims);
    lemma_loc_index_bounds(b, dims);
    lemma_loc_index_bounds(n, dims);
}

} // verus!
