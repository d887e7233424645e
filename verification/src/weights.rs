//! Weights charged for the registry's calls.

use vstd::prelude::*;

verus! {

/// The unit in which the cost of a call is counted.
pub type Weight = u64;

/// The weights of the four calls. Every call is free of charge.
pub struct WeightInfo;

impl WeightInfo {
    /// The weight of a commit.
    pub fn commit() -> (w: Weight)
        ensures
            w == 0,
    {
        0
    }

    /// The weight of revealing a name whose encoding is `name_length` bytes long.
    pub fn reveal_name(name_length: usize) -> (w: Weight)
        ensures
            w == 0,
    {
        0
    }

    /// The weight of a renewal.
    pub fn renew() -> (w: Weight)
        ensures
            w == 0,
    {
        0
    }

    /// The weight of giving a name up.
    pub fn unregister() -> (w: Weight)
        ensures
            w == 0,
    {
        0
    }
}

} // verus!
