//! Stable component identities and revisions.
use vstd::prelude::*;

verus! {

/// Stable identity of a retained component.
#[derive(Clone, Copy, Debug, PartialEq, Eq, Hash, Structural)]
pub struct ComponentId {
    pub value: u64,
}

impl ComponentId {
    /// The identity with the given raw value.
    pub fn from_raw(value: u64) -> (id: Self)
        ensures
            id.value == value,
    {
        ComponentId { value }
    }

    pub fn value(&self) -> (value: u64)
        ensures
            value == self.value,
    {
        self.value
    }
}

/// How many successful mutable accesses a component has seen (wrapping).
#[derive(Clone, Copy, Debug, PartialEq, Eq, Hash, Structural)]
pub struct ComponentRevision {
    pub value: u64,
}

impl ComponentRevision {
    /// The revision of a freshly registered component.
    pub fn initial() -> (revision: Self)
        ensures
            revision.value == 0,
    {
        ComponentRevision { value: 0 }
    }

    /// The next revision, wrapping at the end of the range.
    pub fn increment(&self) -> (next: Self)
        ensures
            next.value == if self.value == u64::MAX { 0 } else { self.value + 1 },
    {
        ComponentRevision { value: self.value.wrapping_add(1) }
    }

    pub fn value(&self) -> (value: u64)
        ensures
            value == self.value,
    {
        self.value
    }
}

impl Default for ComponentRevision {
    fn default() -> (revision: Self)
        ensures
            revision.value == 0,
    {
        ComponentRevision::initial()
    }
}

} // verus!
