//! Kinds of name match that relevance scoring distinguishes.
use vstd::prelude::*;

verus! {

/// Scores how well a symbol matches a query term.
pub struct RelevanceScorer;

/// How a symbol name matched a query term.
#[derive(Debug, Clone, Copy, PartialEq, Eq, Structural)]
pub enum MatchType {
    Exact,
    NormalizedExact,
    Prefix,
    Contains,
    Normalized,
}

} // verus!
