//! The entity being placed: an item's identity, quantity, and the quality
//! variant that fixes which placement constraint applies to it.

use vstd::prelude::*;

verus! {

/// The quality variant of an item, a closed tagged union carrying the
/// per-variant placement parameters. The variant is fixed for the life of
/// an item.
#[derive(Clone, Copy, PartialEq, Eq, Debug)]
pub enum ItemQuality {
    /// Any free location qualifies.
    Normal,
    /// Only levels up to `max_level` qualify; an unset `max_level` means the
    /// grid's own maximum level, i.e. unconstrained.
    Fragile { max_level: Option<u32> },
    /// The item occupies exactly `required_zones` consecutive free zones
    /// within a single `(row, shelf, level)`.
    Oversized { required_zones: u32 },
}

/// One inventory item. `id` and `name` identify the logical item;
/// `created_at` disambiguates distinct placement events of items sharing
/// id and name. An expiry day, when present, counts days in a proleptic
/// calendar, so that consecutive days differ by one.
#[derive(Debug, PartialEq, Eq)]
pub struct Item {
    pub id: u32,
    pub name: String,
    pub quantity: u32,
    pub quality: ItemQuality,
    pub created_at: i64,
    pub expiry_day: Option<i64>,
}

impl Item {
    /// The grouping key of a logical record: items sharing id, name and
    /// creation timestamp belong to one record.
    pub open spec fn key_matches(self, other: Item) -> bool {
        &&& self.id == other.id
        &&& self.name@ == other.name@
        &&& self.created_at == other.created_at
    }

    /// Builds an item with an explicit creation timestamp, so that distinct
    /// placement events can always be told apart.
    pub fn new_at(
        id: u32,
        name: String,
        quantity: u32,
        quality: ItemQuality,
        expiry_day: Option<i64>,
        created_at: i64,
    ) -> (r: Item)
        ensures
            r == (Item { id, name, quantity, quality, expiry_day, created_at }),
    {
        Item { id, name, quantity, quality, created_at, expiry_day }
    }

    /// Builds an item stamped with the current wall-clock time. Two calls
    /// within the clock's resolution may receive the same timestamp.
    pub fn new(
        id: u32,
        name: String,
        quantity: u32,
        quality: ItemQuality,
        expiry_day: Option<i64>,
    ) -> (r: Item)
        ensures
            r.id == id,
            r.name@ == name@,
            r.quantity == quantity,
            r.quality == quality,
            r.expiry_day == expiry_day,
    {
        let created_at = now_timestamp();
        Item::new_at(id, name, quantity, quality, expiry_day, created_at)
    }
}

impl Clone for Item {
    fn clone(&self) -> (r: Item)
        ensures
            r == *self,
    {
        Item {
            id: self.id,
            name: self.name.clone(),
            quantity: self.quantity,
            quality: self.quality,
            created_at: self.created_at,
            expiry_day: self.expiry_day,
        }
    }
}

/// Relies on chrono's `Utc::now` and `DateTime::timestamp`: seconds since
/// the Unix epoch. The value depends on the wall clock, so nothing is
/// promised of it; `Utc::now` aborts on a system clock before the epoch.
#[verifier::external_body]
fn now_timestamp() -> i64 {
    chrono::Utc::now().timestamp()
}

} // verus!
