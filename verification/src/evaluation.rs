use vstd::prelude::*;

use crate::individual::Individual;
use crate::statistics::Statistics;

verus! {

/// What one pass of the outer loop yields: either the statistics of a
/// completed generation transition, or a solution that ends the run.
pub enum Evaluation {
    Progress(Statistics),
    Solution(Individual),
}

} // verus!
