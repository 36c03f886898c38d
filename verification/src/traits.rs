//! Capability interfaces shared by indicators and their inputs.

use vstd::prelude::*;

use crate::sample::Sample;

verus! {

/// A richer per-sample record that exposes its lowest value, so that it can
/// feed an indicator expecting a single scalar.
pub trait Low {
    /// The record's lowest value, as contracts see it.
    spec fn low_spec(&self) -> Sample;

    /// The record's lowest value.
    fn low(&self) -> (s: Sample)
        ensures
            s == self.low_spec(),
    ;
}

} // verus!
