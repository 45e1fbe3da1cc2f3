//! The consensus group of a volume.

use crate::types::RaftGroupId;
use vstd::prelude::*;

verus! {

/// The consensus group of a volume.
pub struct VolumeGroup {
    pub group_id: RaftGroupId,
    pub volume_name: String,
}

impl VolumeGroup {
    /// The group of the volume.
    pub fn new(group_id: RaftGroupId, volume_name: String) -> (r: Self)
        ensures
            r.group_id == group_id,
            r.volume_name == volume_name,
    {
        VolumeGroup { group_id, volume_name }
    }

    /// The group's identifier.
    pub fn group_id(&self) -> (r: RaftGroupId)
        ensures
            r == self.group_id,
    {
        self.group_id
    }

    /// The volume's name.
    pub fn volume_name(&self) -> (r: &str)
        ensures
            r@ == self.volume_name@,
    {
        self.volume_name.as_str()
    }
}

} // verus!
