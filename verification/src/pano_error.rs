//! Errors of the panorama registration core.

use vstd::prelude::*;

verus! {

/// Why a panorama could not be registered.
#[derive(Debug)]
pub enum PanoError {
    /// Fewer than two frames ended up in the largest overlapping group (carries that group's size).
    TooFewMatched(usize),
    /// The caller's cancel probe fired.
    Cancelled,
    /// A frame source could not materialize a frame (decode failure, missing file, …).
    Load(String),
}

} // verus!
