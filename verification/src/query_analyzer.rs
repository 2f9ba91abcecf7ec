//! Classifies a search query so that the search can weigh its rankers.
use vstd::prelude::*;
use crate::text::{
    chars_of, contains_char, contains_run, count_words, ends_with_run, has_prefix, has_substring,
    has_suffix, spec_to_lowercase, starts_with_run, to_lowercase, word_count,
};

verus! {

/// Classifies queries.
pub struct QueryAnalyzer;

/// The kind of a search query.
#[derive(Debug, PartialEq, Eq, Structural)]
pub enum QueryType {
    ExactSymbol,
    FilePath,
    SemanticIntent,
    CodeContent,
    Mixed,
}

/// The query looks like a file path: it holds a path separator or ends with
/// a source-file extension.
pub open spec fn is_path_query(q: Seq<char>) -> bool {
    q.contains('/') || q.contains('\\') || has_suffix(q, ".rs"@) || has_suffix(q, ".ts"@)
        || has_suffix(q, ".js"@) || has_suffix(q, ".py"@) || has_suffix(q, ".java"@)
        || has_suffix(q, ".go"@) || has_suffix(q, ".json"@)
}

/// The lowercased query reads as a question about intent.
pub open spec fn is_intent_query(lower: Seq<char>) -> bool {
    has_prefix(lower, "how"@) || has_prefix(lower, "what"@) || has_prefix(lower, "why"@)
        || has_substring(lower, "how to"@) || has_prefix(lower, "where"@) || has_prefix(lower, "when"@)
}

/// The query holds a code keyword followed by a space.
pub open spec fn is_code_query(q: Seq<char>) -> bool {
    has_substring(q, "fn "@) || has_substring(q, "async "@) || has_substring(q, "class "@)
        || has_substring(q, "impl "@) || has_substring(q, "struct "@) || has_substring(q, "trait "@)
        || has_substring(q, "interface "@) || has_substring(q, "function "@)
}

/// The type of query `q`, whose lowercase form is `lower`; the first test
/// that holds decides.
pub open spec fn query_type_of(q: Seq<char>, lower: Seq<char>) -> QueryType {
    if is_path_query(q) {
        QueryType::FilePath
    } else if is_intent_query(lower) {
        QueryType::SemanticIntent
    } else if is_code_query(q) {
        QueryType::CodeContent
    } else if word_count(q) == 1 {
        QueryType::ExactSymbol
    } else {
        QueryType::Mixed
    }
}

fn ends_with_text(q: &Vec<char>, t: &str) -> (r: bool)
    ensures
        r == has_suffix(q@, t@),
{
    ends_with_run(q, &chars_of(t))
}

fn starts_with_text(q: &Vec<char>, t: &str) -> (r: bool)
    ensures
        r == has_prefix(q@, t@),
{
    starts_with_run(q, &chars_of(t))
}

fn contains_text(q: &Vec<char>, t: &str) -> (r: bool)
    ensures
        r == has_substring(q@, t@),
{
    contains_run(q, &chars_of(t))
}

impl QueryAnalyzer {
    /// Classifies `query` given its lowercase form `lower`.
    pub fn classify_query(query: &str, lower: &str) -> (r: QueryType)
        ensures
            r == query_type_of(query@, lower@),
    {
        let q = chars_of(query);
        let l = chars_of(lower);

        // File path patterns
        if contains_char(&q, '/') || contains_char(&q, '\\') || ends_with_text(&q, ".rs")
            || ends_with_text(&q, ".ts") || ends_with_text(&q, ".js") || ends_with_text(&q, ".py")
            || ends_with_text(&q, ".java") || ends_with_text(&q, ".go") || ends_with_text(&q, ".json")
        {
            return QueryType::FilePath;
        }

        // Semantic patterns
        if starts_with_text(&l, "how") || starts_with_text(&l, "what") || starts_with_text(&l, "why")
            || contains_text(&l, "how to") || starts_with_text(&l, "where") || starts_with_text(&l, "when")
        {
            return QueryType::SemanticIntent;
        }

        // Code patterns
        if contains_text(&q, "fn ") || contains_text(&q, "async ") || contains_text(&q, "class ")
            || contains_text(&q, "impl ") || contains_text(&q, "struct ") || contains_text(&q, "trait ")
            || contains_text(&q, "interface ") || contains_text(&q, "function ")
        {
            return QueryType::CodeContent;
        }

        // A single word is likely a symbol
        if count_words(&q) == 1 {
            return QueryType::ExactSymbol;
        }

        QueryType::Mixed
    }

    /// Classifies `query`.
    pub fn analyze_query(query: &str) -> (r: QueryType)
        ensures
            r == query_type_of(query@, spec_to_lowercase(query@)),
    {
        let lower = to_lowercase(query);
        Self::classify_query(query, lower.as_str())
    }
}

/// A query is a file path exactly when it holds a slash or a backslash or ends
/// with one of the extensions .rs, .ts, .js, .py, .java, .go or .json; that test
/// comes first, so such a query is a file path whatever else it holds.
pub proof fn lemma_file_path_queries(q: Seq<char>, lower: Seq<char>)
    ensures
        (query_type_of(q, lower) == QueryType::FilePath) <==> (q.contains('/') || q.contains('\\')
            || has_suffix(q, ".rs"@) || has_suffix(q, ".ts"@) || has_suffix(q, ".js"@) || has_suffix(q, ".py"@)
            || has_suffix(q, ".java"@) || has_suffix(q, ".go"@) || has_suffix(q, ".json"@)),
{
}

/// A query that is no file path and whose lowercase form begins with "how",
/// "what", "why", "where" or "when", or holds "how to", asks about intent.
pub proof fn lemma_intent_queries(q: Seq<char>, lower: Seq<char>)
    requires
        query_type_of(q, lower) != QueryType::FilePath,
        has_prefix(lower, "how"@) || has_prefix(lower, "what"@) || has_prefix(lower, "why"@)
            || has_substring(lower, "how to"@) || has_prefix(lower, "where"@) || has_prefix(lower, "when"@),
    ensures
        query_type_of(q, lower) == QueryType::SemanticIntent,
{
}

/// A query that is neither a file path nor a question, and holds one of the
/// code keywords fn, async, class, impl, struct, trait, interface or function
/// followed by a space, is code.
pub proof fn lemma_code_queries(q: Seq<char>, lower: Seq<char>)
    requires
        query_type_of(q, lower) != QueryType::FilePath,
        query_type_of(q, lower) != QueryType::SemanticIntent,
        has_substring(q, "fn "@) || has_substring(q, "async "@) || has_substring(q, "class "@)
            || has_substring(q, "impl "@) || has_substring(q, "struct "@) || has_substring(q, "trait "@)
            || has_substring(q, "interface "@) || has_substring(q, "function "@),
    ensures
        query_type_of(q, lower) == QueryType::CodeContent,
{
}

/// Any other query is a symbol name when it is one word, and mixed otherwise.
pub proof fn lemma_word_queries(q: Seq<char>, lower: Seq<char>)
    requires
        query_type_of(q, lower) != QueryType::FilePath,
        query_type_of(q, lower) != QueryType::SemanticIntent,
        query_type_of(q, lower) != QueryType::CodeContent,
    ensures
        query_type_of(q, lower) == if word_count(q) == 1 { QueryType::ExactSymbol } else { QueryType::Mixed },
{
}

} // verus!
