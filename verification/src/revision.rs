//! Revision identifiers of the GDTF Share.
use vstd::prelude::*;

use crate::text::{decimal, decimal_string};
use vstd::std_specs::convert::FromSpecImpl;

verus! {

/// A unique identifier for a GDTF revision.
#[derive(Debug, Clone, Copy, PartialEq, Eq, Structural, PartialOrd, Ord, Hash)]
pub struct RevisionId(pub u32);

impl View for RevisionId {
    type V = u32;

    open spec fn view(&self) -> u32 {
        self.0
    }
}

impl RevisionId {
    /// Creates a new `RevisionId` from a `u32`.
    pub fn new(v: u32) -> (r: RevisionId)
        ensures
            r@ == v,
    {
        RevisionId(v)
    }

    /// Returns the `RevisionId` as a `u32`.
    pub fn as_u32(&self) -> (r: u32)
        ensures
            r == self@,
    {
        self.0
    }

    /// The decimal form of the id, as it is displayed.
    pub fn to_string(&self) -> (s: String)
        ensures
            s@ == decimal(self@ as nat),
    {
        decimal_string(self.0 as u64)
    }
}

impl From<u32> for RevisionId {
    fn from(value: u32) -> (r: RevisionId) {
        RevisionId(value)
    }
}

impl FromSpecImpl<u32> for RevisionId {
    open spec fn obeys_from_spec() -> bool {
        true
    }

    open spec fn from_spec(value: u32) -> RevisionId {
        RevisionId(value)
    }
}

impl From<RevisionId> for u32 {
    fn from(value: RevisionId) -> (r: u32) {
        value.0
    }
}

impl FromSpecImpl<RevisionId> for u32 {
    open spec fn obeys_from_spec() -> bool {
        true
    }

    open spec fn from_spec(value: RevisionId) -> u32 {
        value.0
    }
}

/// Converting a number to a revision id and back gives the number again, and converting a
/// revision id to its number and back gives the id again.
pub proof fn lemma_revision_id_round_trip(v: u32, id: RevisionId)
    ensures
        <u32 as vstd::std_specs::convert::FromSpec<RevisionId>>::from_spec(
            <RevisionId as vstd::std_specs::convert::FromSpec<u32>>::from_spec(v),
        ) == v,
        <RevisionId as vstd::std_specs::convert::FromSpec<u32>>::from_spec(
            <u32 as vstd::std_specs::convert::FromSpec<RevisionId>>::from_spec(id),
        ) == id,
        RevisionId(v)@ == v,
{
}

} // verus!
