//! The group that holds the cluster's own metadata.

use vstd::prelude::*;

verus! {

/// The group of the cluster's own metadata.
pub const META_GROUP_ID: u64 = 0;

/// The group that holds the cluster's own metadata.
pub struct MetaGroup;

impl MetaGroup {
    /// The group's identifier.
    pub fn group_id() -> (r: u64)
        ensures
            r == META_GROUP_ID,
            r == 0,
    {
        META_GROUP_ID
    }
}

} // verus!
