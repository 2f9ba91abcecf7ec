//! The searcher that fuses the rankings of the traditional, full-text and
//! semantic searches.
use vstd::prelude::*;

verus! {

/// Fuses several rankings of code chunks into one.
pub struct HybridSearcher;

} // verus!
