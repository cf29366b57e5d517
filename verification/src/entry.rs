//! A snapshot of one stored key as the store reports it.

use vstd::prelude::*;

verus! {

/// One listing result from the store: the full key, the value in its wire
/// (codec) form, and the modification index that conditions later writes on
/// this key.
pub struct Entry {
    pub key: String,
    pub value: String,
    pub modify_index: u64,
}

impl Entry {
    /// Builds an entry from its parts.
    pub fn new(key: String, value: String, modify_index: u64) -> (e: Entry)
        ensures
            e.key == key,
            e.value == value,
            e.modify_index == modify_index,
    {
        Entry { key, value, modify_index }
    }
}

} // verus!
