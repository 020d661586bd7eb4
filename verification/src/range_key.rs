//! Ranges used as map keys, compared by containment.

use vstd::prelude::*;

verus! {

/// A range of positions `start ..= end` used as a key.
#[derive(Debug, Clone, Copy)]
pub struct RangeKey {
    pub start: i32,
    pub end: i32,
}

/// `value` lies within `key`.
pub open spec fn contains_range(key: RangeKey, value: RangeKey) -> bool {
    value.start >= key.start && value.end <= key.end
}

/// Two keys compare equal when the second lies within the first.
impl PartialEq for RangeKey {
    fn eq(&self, value: &Self) -> (r: bool) {
        value.start >= self.start && value.end <= self.end
    }
}

impl vstd::std_specs::cmp::PartialEqSpecImpl for RangeKey {
    open spec fn obeys_eq_spec() -> bool {
        true
    }

    open spec fn eq_spec(&self, value: &Self) -> bool {
        contains_range(*self, *value)
    }
}

impl Eq for RangeKey {}

} // verus!
