use prompto::clock::seconds_or_zero;
use prompto::keyword_search::{
    deduplicate_results, file_language, query_traditional, rank_results, tier_value, MatchTier, SymbolHit,
};
use prompto::models::{CodeSymbol, CodebaseIndex, IndexQuery, IndexedFile, SymbolKind};
use prompto::text_normalizer::TextNormalizer;

fn sym(name: &str, file: &str, line: usize) -> CodeSymbol {
    CodeSymbol {
        name: name.to_string(),
        kind: SymbolKind::Function,
        file_path: file.to_string(),
        start_line: line,
        end_line: line + 4,
        signature: None,
        doc_comment: None,
        parent: None,
    }
}

fn hit(name: &str, file: &str, line: usize, tier: MatchTier) -> SymbolHit {
    SymbolHit { symbol: sym(name, file, line), tier }
}

fn sample_index() -> CodebaseIndex {
    let mut index = CodebaseIndex::with_timestamp("/repo".to_string(), 1);
    index.add_file(IndexedFile {
        path: "a.rs".to_string(),
        language: "rust".to_string(),
        symbols: vec![sym("authenticate_user", "a.rs", 1), sym("UserSession", "a.rs", 10)],
        imports: Vec::new(),
        exports: Vec::new(),
        last_modified: 1,
    });
    index.add_file(IndexedFile {
        path: "b.ts".to_string(),
        language: "typescript".to_string(),
        symbols: vec![sym("login", "b.ts", 3), sym("validateUser", "b.ts", 20)],
        imports: Vec::new(),
        exports: Vec::new(),
        last_modified: 1,
    });
    index
}

fn query(keywords: &[&str], max_results: Option<usize>) -> IndexQuery {
    IndexQuery {
        keywords: keywords.iter().map(|k| k.to_string()).collect(),
        symbol_kinds: None,
        file_patterns: None,
        max_results,
    }
}

fn names(hits: &[SymbolHit]) -> Vec<(String, MatchTier)> {
    hits.iter().map(|h| (h.symbol.name.clone(), h.tier)).collect()
}

#[test]
fn tiers_order_exact_over_normalized_over_partial() {
    assert_eq!(tier_value(MatchTier::Exact), 3);
    assert_eq!(tier_value(MatchTier::Normalized), 2);
    assert_eq!(tier_value(MatchTier::Partial), 1);
}

#[test]
fn exact_name_beats_its_own_weaker_matches() {
    let index = sample_index();
    let normalizer = TextNormalizer::new();
    let r = query_traditional(&index, &normalizer, &query(&["login"], None));
    assert_eq!(names(&r), vec![("login".to_string(), MatchTier::Exact)]);
}

#[test]
fn shared_normalized_term_outranks_substring() {
    let index = sample_index();
    let normalizer = TextNormalizer::new();
    let r = query_traditional(&index, &normalizer, &query(&["user"], None));
    assert_eq!(
        names(&r),
        vec![
            ("authenticate_user".to_string(), MatchTier::Normalized),
            ("UserSession".to_string(), MatchTier::Normalized),
            ("validateUser".to_string(), MatchTier::Normalized),
        ]
    );
}

#[test]
fn substring_only_matches_are_partial() {
    let index = sample_index();
    let normalizer = TextNormalizer::new();
    let r = query_traditional(&index, &normalizer, &query(&["sess"], None));
    assert_eq!(names(&r), vec![("UserSession".to_string(), MatchTier::Partial)]);
}

#[test]
fn results_are_cut_to_the_query_limit() {
    let index = sample_index();
    let normalizer = TextNormalizer::new();
    let r = query_traditional(&index, &normalizer, &query(&["user", "login"], Some(2)));
    assert_eq!(
        names(&r),
        vec![
            ("login".to_string(), MatchTier::Exact),
            ("authenticate_user".to_string(), MatchTier::Normalized),
        ]
    );
    let none = query_traditional(&index, &normalizer, &query(&["user"], Some(0)));
    assert!(none.is_empty());
    let missing = query_traditional(&index, &normalizer, &query(&["zzz"], None));
    assert!(missing.is_empty());
}

#[test]
fn dedup_keeps_strongest_hit_per_location() {
    let hits = vec![
        hit("a", "x.rs", 1, MatchTier::Partial),
        hit("a", "x.rs", 1, MatchTier::Exact),
        hit("b", "x.rs", 9, MatchTier::Normalized),
        hit("a", "x.rs", 1, MatchTier::Normalized),
    ];
    let d = deduplicate_results(&hits);
    assert_eq!(
        names(&d),
        vec![("a".to_string(), MatchTier::Exact), ("b".to_string(), MatchTier::Normalized)]
    );
}

#[test]
fn dedup_moves_upgraded_hit_to_the_end() {
    let hits = vec![
        hit("a", "x.rs", 1, MatchTier::Partial),
        hit("b", "y.rs", 1, MatchTier::Normalized),
        hit("a", "x.rs", 1, MatchTier::Normalized),
    ];
    let d = deduplicate_results(&hits);
    assert_eq!(
        names(&d),
        vec![("b".to_string(), MatchTier::Normalized), ("a".to_string(), MatchTier::Normalized)]
    );
    // same name, other line: a different location
    let other = vec![hit("a", "x.rs", 1, MatchTier::Exact), hit("a", "x.rs", 2, MatchTier::Partial)];
    assert_eq!(deduplicate_results(&other).len(), 2);
}

#[test]
fn ranking_is_a_stable_sort_by_tier() {
    let hits = vec![
        hit("b", "f", 1, MatchTier::Partial),
        hit("a", "f", 2, MatchTier::Normalized),
        hit("c", "f", 3, MatchTier::Exact),
        hit("d", "f", 4, MatchTier::Normalized),
    ];
    let r = rank_results(&hits);
    assert_eq!(
        names(&r),
        vec![
            ("c".to_string(), MatchTier::Exact),
            ("a".to_string(), MatchTier::Normalized),
            ("d".to_string(), MatchTier::Normalized),
            ("b".to_string(), MatchTier::Partial),
        ]
    );
}

#[test]
fn chunk_language_comes_from_the_indexed_file() {
    let index = sample_index();
    assert_eq!(file_language(&index, "b.ts"), "typescript");
    assert_eq!(file_language(&index, "nowhere.rs"), "unknown");
}

#[test]
fn stemming_finds_other_word_forms() {
    let index = sample_index();
    let normalizer = TextNormalizer::new();
    let r = query_traditional(&index, &normalizer, &query(&["authentication"], None));
    assert_eq!(names(&r), vec![("authenticate_user".to_string(), MatchTier::Normalized)]);
}

#[test]
fn fresh_index_is_stamped_with_the_clock() {
    let index = CodebaseIndex::new("/repo".to_string());
    assert!(index.indexed_at > 1_600_000_000);
}

#[test]
fn clock_before_epoch_reads_as_zero() {
    assert_eq!(seconds_or_zero(Some(1_700_000_000)), 1_700_000_000);
    assert_eq!(seconds_or_zero(None), 0);
}
