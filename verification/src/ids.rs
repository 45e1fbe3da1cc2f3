//! Identifiers of the things that the system manages.

use crate::text::{uuid_text, uuid_to_text};
use vstd::prelude::*;

verus! {

/// The layout of a random identifier: the version digit is 4 and the two
/// variant bits are 10.
pub open spec fn is_version_4(value: u128) -> bool {
    &&& (value >> 76u128) & 0xf == 4
    &&& (value >> 62u128) & 0x3 == 2
}

/// A fresh random identifier, from `uuid::Uuid::new_v4`.  The contract claims
/// the version and variant bits and nothing of the rest, which is random.
#[verifier::external_body]
fn random_id() -> (value: u128)
    ensures
        is_version_4(value),
{
    uuid::Uuid::new_v4().as_u128()
}

/// Identifies a data node.
#[derive(Clone, Copy, Debug, PartialEq, Eq, Structural, PartialOrd, Ord, Hash)]
pub struct NodeId {
    pub value: u128,
}

impl NodeId {
    /// The identifier's text.
    pub open spec fn text(self) -> Seq<char> {
        uuid_text(self.value)
    }

    /// The identifier with the given value.
    pub fn new(value: u128) -> (r: Self)
        ensures
            r.value == value,
    {
        NodeId { value }
    }

    /// A fresh random identifier.
    pub fn generate() -> (r: Self)
        ensures
            is_version_4(r.value),
    {
        NodeId { value: random_id() }
    }

    /// The identifier as text.
    pub fn to_text(&self) -> (s: String)
        ensures
            s@ == self.text(),
    {
        uuid_to_text(self.value)
    }
}

/// Identifies a volume.
#[derive(Clone, Copy, Debug, PartialEq, Eq, Structural, PartialOrd, Ord, Hash)]
pub struct VolumeId {
    pub value: u128,
}

impl VolumeId {
    /// The identifier's text.
    pub open spec fn text(self) -> Seq<char> {
        uuid_text(self.value)
    }

    /// The identifier with the given value.
    pub fn new(value: u128) -> (r: Self)
        ensures
            r.value == value,
    {
        VolumeId { value }
    }

    /// A fresh random identifier.
    pub fn generate() -> (r: Self)
        ensures
            is_version_4(r.value),
    {
        VolumeId { value: random_id() }
    }

    /// The identifier as text.
    pub fn to_text(&self) -> (s: String)
        ensures
            s@ == self.text(),
    {
        uuid_to_text(self.value)
    }
}

/// Identifies an extent.
#[derive(Clone, Copy, Debug, PartialEq, Eq, Structural, PartialOrd, Ord, Hash)]
pub struct ExtentId {
    pub value: u128,
}

impl ExtentId {
    /// The identifier's text.
    pub open spec fn text(self) -> Seq<char> {
        uuid_text(self.value)
    }

    /// The identifier with the given value.
    pub fn new(value: u128) -> (r: Self)
        ensures
            r.value == value,
    {
        ExtentId { value }
    }

    /// A fresh random identifier.
    pub fn generate() -> (r: Self)
        ensures
            is_version_4(r.value),
    {
        ExtentId { value: random_id() }
    }

    /// The identifier as text.
    pub fn to_text(&self) -> (s: String)
        ensures
            s@ == self.text(),
    {
        uuid_to_text(self.value)
    }
}

/// Identifies a disk.
#[derive(Clone, Copy, Debug, PartialEq, Eq, Structural, PartialOrd, Ord, Hash)]
pub struct DiskId {
    pub value: u128,
}

impl DiskId {
    /// The identifier's text.
    pub open spec fn text(self) -> Seq<char> {
        uuid_text(self.value)
    }

    /// The identifier with the given value.
    pub fn new(value: u128) -> (r: Self)
        ensures
            r.value == value,
    {
        DiskId { value }
    }

    /// A fresh random identifier.
    pub fn generate() -> (r: Self)
        ensures
            is_version_4(r.value),
    {
        DiskId { value: random_id() }
    }

    /// The identifier as text.
    pub fn to_text(&self) -> (s: String)
        ensures
            s@ == self.text(),
    {
        uuid_to_text(self.value)
    }
}

/// Identifies a client operation, so that a retry of it can be recognised.
#[derive(Clone, Copy, Debug, PartialEq, Eq, Structural, PartialOrd, Ord, Hash)]
pub struct OperationId {
    pub value: u128,
}

impl OperationId {
    /// The identifier's text.
    pub open spec fn text(self) -> Seq<char> {
        uuid_text(self.value)
    }

    /// The identifier with the given value.
    pub fn new(value: u128) -> (r: Self)
        ensures
            r.value == value,
    {
        OperationId { value }
    }

    /// A fresh random identifier.
    pub fn generate() -> (r: Self)
        ensures
            is_version_4(r.value),
    {
        OperationId { value: random_id() }
    }

    /// The identifier as text.
    pub fn to_text(&self) -> (s: String)
        ensures
            s@ == self.text(),
    {
        uuid_to_text(self.value)
    }
}

/// Identifies a client session, the holder of leases.
#[derive(Clone, Copy, Debug, PartialEq, Eq, Structural, PartialOrd, Ord, Hash)]
pub struct SessionId {
    pub value: u128,
}

impl SessionId {
    /// The identifier's text.
    pub open spec fn text(self) -> Seq<char> {
        uuid_text(self.value)
    }

    /// The identifier with the given value.
    pub fn new(value: u128) -> (r: Self)
        ensures
            r.value == value,
    {
        SessionId { value }
    }

    /// A fresh random identifier.
    pub fn generate() -> (r: Self)
        ensures
            is_version_4(r.value),
    {
        SessionId { value: random_id() }
    }

    /// The identifier as text.
    pub fn to_text(&self) -> (s: String)
        ensures
            s@ == self.text(),
    {
        uuid_to_text(self.value)
    }
}

/// A placement epoch.
#[derive(Clone, Copy, Debug, PartialEq, Eq, Structural, PartialOrd, Ord, Hash)]
pub struct EpochId {
    pub value: u64,
}

impl EpochId {
    /// The epoch with the given number.
    pub fn new(value: u64) -> (r: Self)
        ensures
            r.value == value,
    {
        EpochId { value }
    }

    /// The epoch's number.
    pub fn as_u64(&self) -> (r: u64)
        ensures
            r == self.value,
    {
        self.value
    }
}

} // verus!
