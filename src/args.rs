//! The run's configuration.
use vstd::prelude::*;
use crate::dedup::ComparisonLength;

verus! {

/// Where the input files are, where the deduplicated copies go, and an
/// optional comparison length (by default, the length of the first line).
pub struct Args {
    pub input_dir: String,
    pub output_dir: String,
    pub length: Option<usize>,
}

impl Args {
    /// The comparison length that a run starts with.
    pub fn initial_length(&self) -> (r: ComparisonLength)
        ensures
            r == (match self.length {
                Some(l) => ComparisonLength::Fixed(l),
                None => ComparisonLength::Unresolved,
            }),
    {
        match self.length {
            Some(l) => ComparisonLength::Fixed(l),
            None => ComparisonLength::Unresolved,
        }
    }
}

} // verus!
