//! Verified core of a codebase indexer: symbol models, reading symbols out of
//! syntax trees, keyword and file-path search, query classification, text
//! normalization, cache bookkeeping and symbol text rendering.
use vstd::prelude::*;

pub mod text;
pub mod str_map;
pub mod clock;
pub mod models;
pub mod persistence;
pub mod query_analyzer;
pub mod text_normalizer;
pub mod embedding;
pub mod vector_store;
pub mod source_symbols;
pub mod relevance_scorer;
pub mod hybrid_search;
pub mod anthropic;
pub mod keyword_search;
pub mod syntax_tree;
pub mod path_search;

verus! {

} // verus!
