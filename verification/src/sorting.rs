//! The catalogue of sort strategies the surrounding program can select; the
//! distributed bucketing sort is the one this library verifies, the others
//! are single-process baselines driven entirely by their callers.

use vstd::prelude::*;

verus! {

/// Which sorting strategy to run.
#[derive(Clone, Copy, Debug, PartialEq, Eq, Structural)]
pub enum SortImplementation {
    Glidesort,
    BuiltinSort,
    MpiBlockSort,
    MpiDistributedRadixSort,
    MpiRadixSingleThread,
}

} // verus!
