//! The entries of a store: a value, its expiry time and whether it holds
//! JSON.

use vstd::prelude::*;
use crate::codec::{WireValue, WireValueView};

verus! {

/// One stored value. `expires_at` is in nanoseconds on the store's clock.
pub struct StoredValue {
    pub value: WireValue,
    pub expires_at: Option<u128>,
    pub is_json: bool,
}

/// The mathematical model of a [`StoredValue`].
pub struct ItemView {
    pub value: WireValueView,
    pub expires_at: Option<int>,
    pub is_json: bool,
}

/// The model of an optional expiry time.
pub open spec fn expiry_view(e: Option<u128>) -> Option<int> {
    match e {
        Some(t) => Some(t as int),
        None => None,
    }
}

impl View for StoredValue {
    type V = ItemView;

    open spec fn view(&self) -> ItemView {
        ItemView {
            value: self.value@,
            expires_at: expiry_view(self.expires_at),
            is_json: self.is_json,
        }
    }
}

/// Whether an entry still lives at time `now`: it expires once the clock
/// reaches its expiry time.
pub open spec fn live(it: ItemView, now: int) -> bool {
    match it.expires_at {
        None => true,
        Some(e) => now < e,
    }
}

impl StoredValue {
    /// A copy of this entry.
    pub fn duplicate(&self) -> (r: StoredValue)
        ensures
            r@ == self@,
    {
        StoredValue {
            value: self.value.duplicate(),
            expires_at: self.expires_at,
            is_json: self.is_json,
        }
    }

    /// Whether this entry has expired at time `now`.
    pub fn expired(&self, now: u128) -> (r: bool)
        ensures
            r == !live(self@, now as int),
    {
        match self.expires_at {
            Some(e) => e <= now,
            None => false,
        }
    }
}

} // verus!
