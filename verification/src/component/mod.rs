//! Retained component identity, the semantic mount graph, mount
//! reconciliation, the tick scheduler for mounted components, and the
//! control facts a mounted native control exposes.
pub mod control;
pub mod graph;
pub mod ids;
pub mod registry;
pub mod mount;
pub mod tick;

use vstd::prelude::*;
use crate::component::control::ControlSnapshot;

verus! {

/// Native component capability and control-fact declaration contract.
pub trait Component: Send + 'static {
    /// Returns immutable facts for a concrete native control, when the
    /// component owns one. Ordinary components return `None`.
    fn control_snapshot(&self) -> (snapshot: Option<ControlSnapshot>)
        default_ensures
            snapshot is None,
    {
        None
    }
}

} // verus!
