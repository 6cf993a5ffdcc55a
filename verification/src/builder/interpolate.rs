//! Output of interpolated probabilities.
use vstd::prelude::*;

verus! {

/// Writes interpolated probabilities and backoffs in log form.
pub struct OutputProbBackoff;

impl OutputProbBackoff {
    pub fn new(_order: usize) -> (r: Self) {
        OutputProbBackoff
    }
}

} // verus!
