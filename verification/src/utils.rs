//! Textual input helpers: day-month-year date parsing and bounds-checked
//! integer parsing of free-form coordinate text.

use vstd::prelude::*;
use crate::error::WarehouseError;
use crate::location::Dimensions;

verus! {

/// The calendar day number, if any, that a text in day-month-year format
/// denotes. The value depends on the characters alone.
pub uninterp spec fn date_days_of(s: Seq<char>) -> Option<i64>;

/// Relies on chrono's `NaiveDate::parse_from_str` with the `%d-%m-%Y`
/// format, and on `Datelike::num_days_from_ce` to turn the parsed date into
/// a day count (day 1 is January 1 of year 1 CE). Parsing a fixed numeric
/// format depends on the input characters alone.
#[verifier::external_body]
pub fn parse_date(date_str: &str) -> (r: Option<i64>)
    ensures
        r == date_days_of(date_str@),
{
    match chrono::NaiveDate::parse_from_str(date_str, "%d-%m-%Y") {
        Ok(d) => Some(chrono::Datelike::num_days_from_ce(&d) as i64),
        Err(_) => None,
    }
}

/// A decimal digit.
pub open spec fn is_digit(c: char) -> bool {
    '0' <= c && c <= '9'
}

/// All characters are decimal digits.
pub open spec fn all_digits(s: Seq<char>) -> bool {
    forall|i: int| 0 <= i < s.len() ==> is_digit(#[trigger] s[i])
}

/// The value of a digit string read in base ten.
pub open spec fn dec_value(s: Seq<char>) -> int
    decreases s.len(),
{
    if s.len() == 0 {
        0
    } else {
        dec_value(s.drop_last()) * 10 + (s.last() as int - '0' as int)
    }
}

/// What a coordinate or quantity text denotes: a non-empty digit string
/// whose value fits in `u32`, or nothing.
pub open spec fn spec_parse_u32(s: Seq<char>) -> Option<int> {
    if s.len() > 0 && all_digits(s) && dec_value(s) <= u32::MAX as int {
        Some(dec_value(s))
    } else {
        None
    }
}

/// A digit string's value is non-negative.
proof fn lemma_dec_value_nonneg(s: Seq<char>)
    requires
        all_digits(s),
    ensures
        dec_value(s) >= 0,
    decreases s.len(),
{
    if s.len() > 0 {
        assert(all_digits(s.drop_last()));
        lemma_dec_value_nonneg(s.drop_last());
        assert(dec_value(s.drop_last()) * 10 >= 0) by (nonlinear_arith)
            requires dec_value(s.drop_last()) >= 0;
    }
}

/// Extending a digit string never shrinks its value.
proof fn lemma_dec_value_prefix(s: Seq<char>, i: int)
    requires
        all_digits(s),
        0 <= i <= s.len(),
    ensures
        dec_value(s.take(i)) <= dec_value(s),
    decreases s.len() - i,
{
    if i < s.len() {
        lemma_dec_value_prefix(s, i + 1);
        let p = s.take(i + 1);
        assert(all_digits(p)) by {
            assert(forall|j: int| 0 <= j < p.len() ==> p[j] == s[j]);
        }
        assert(p.drop_last() =~= s.take(i));
        lemma_dec_value_nonneg(s.take(i));
        assert(dec_value(s.take(i)) * 10 >= dec_value(s.take(i))) by (nonlinear_arith)
            requires dec_value(s.take(i)) >= 0;
        assert(is_digit(s[i]));
    } else {
        assert(s.take(i) =~= s);
    }
}

/// Parses a non-empty decimal digit string into a `u32`; anything else, or
/// a value above `u32::MAX`, is `InvalidInput`.
pub fn parse_u32(s: &str) -> (r: Result<u32, WarehouseError>)
    ensures
        match spec_parse_u32(s@) {
            Some(v) => r matches Ok(x) && x as int == v,
            None => r == Err::<u32, WarehouseError>(WarehouseError::InvalidInput),
        },
{
    let n = s.unicode_len();
    if n == 0 {
        return Err(WarehouseError::InvalidInput);
    }
    let mut value: u64 = 0;
    let mut i: usize = 0;
    while i < n
        invariant
            0 <= i <= n,
            n == s@.len(),
            all_digits(s@.take(i as int)),
            value == dec_value(s@.take(i as int)),
            value <= u32::MAX as u64,
        decreases n - i,
    {
        let c = s.get_char(i);
        if c < '0' || c > '9' {
            assert(!is_digit(s@[i as int]));
            return Err(WarehouseError::InvalidInput);
        }
        let d: u64 = c as u64 - 48;
        let next: u64 = value * 10 + d;
        proof {
            assert(s@.take(i + 1).drop_last() =~= s@.take(i as int));
            assert(all_digits(s@.take(i + 1))) by {
                assert(forall|j: int| 0 <= j < i + 1 ==> s@.take(i + 1)[j] == s@[j]);
            }
        }
        if next > u32::MAX as u64 {
            proof {
                if all_digits(s@) && dec_value(s@) <= u32::MAX as int {
                    lemma_dec_value_prefix(s@, i + 1);
                }
            }
            return Err(WarehouseError::InvalidInput);
        }
        value = next;
        i = i + 1;
    }
    proof {
        assert(s@.take(n as int) =~= s@);
    }
    Ok(value as u32)
}

/// Parses four coordinate texts and checks them against the grid bounds.
/// Every coordinate must be a decimal number strictly below its bound;
/// otherwise the input is rejected as `InvalidInput`.
pub fn validate_location_input(
    row: &str,
    shelf: &str,
    level: &str,
    zone: &str,
    max_dimensions: Dimensions,
) -> (r: Result<(u32, u32, u32, u32), WarehouseError>)
    ensures
        match r {
            Ok(t) => {
                &&& spec_parse_u32(row@) == Some(t.0 as int)
                &&& spec_parse_u32(shelf@) == Some(t.1 as int)
                &&& spec_parse_u32(level@) == Some(t.2 as int)
                &&& spec_parse_u32(zone@) == Some(t.3 as int)
                &&& t.0 < max_dimensions.0
                &&& t.1 < max_dimensions.1
                &&& t.2 < max_dimensions.2
                &&& t.3 < max_dimensions.3
            },
            Err(e) => {
                &&& e == WarehouseError::InvalidInput
                &&& !(exists|a: int, b: int, c: int, d: int|
                    spec_parse_u32(row@) == Some(a) && a < max_dimensions.0
                        && spec_parse_u32(shelf@) == Some(b) && b < max_dimensions.1
                        && spec_parse_u32(level@) == Some(c) && c < max_dimensions.2
                        && spec_parse_u32(zone@) == Some(d) && d < max_dimensions.3)
            },
        },
{
    let row_num = match parse_u32(row) {
        Ok(v) => v,
        Err(e) => { return Err(e); },
    };
    let shelf_num = match parse_u32(shelf) {
        Ok(v) => v,
        Err(e) => { return Err(e); },
    };
    let level_num = match parse_u32(level) {
        Ok(v) => v,
        Err(e) => { return Err(e); },
    };
    let zone_num = match parse_u32(zone) {
        Ok(v) => v,
        Err(e) => { return Err(e); },
    };
    if row_num >= max_dimensions.0 || shelf_num >= max_dimensions.1
        || level_num >= max_dimensions.2 || zone_num >= max_dimensions.3 {
        return Err(WarehouseError::InvalidInput);
    }
    Ok((row_num, shelf_num, level_num, zone_num))
}

} // verus!
