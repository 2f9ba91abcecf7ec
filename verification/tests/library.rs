use std::collections::hash_map::DefaultHasher;
use std::hash::{Hash, Hasher};
use std::path::PathBuf;

use prompto::embedding::{kind_name_str, symbol_to_text};
use prompto::models::{CodeSymbol, CodebaseIndex, IndexedFile, SymbolKind};
use prompto::persistence::{CacheMetadata, PersistenceConfig};
use prompto::query_analyzer::{QueryAnalyzer, QueryType};
use prompto::source_symbols::{
    is_import_node, is_name_node, is_source_extension, kind_label_str, language_for_extension,
    signature_from_text, symbol_kind_for_node, vector_metadata_for,
};
use prompto::str_map::StrMap;
use prompto::text_normalizer::TextNormalizer;

fn symbol(name: &str, kind: SymbolKind, file: &str, line: usize) -> CodeSymbol {
    CodeSymbol {
        name: name.to_string(),
        kind,
        file_path: file.to_string(),
        start_line: line,
        end_line: line + 5,
        signature: None,
        doc_comment: None,
        parent: None,
    }
}

fn file(path: &str, language: &str, symbols: Vec<CodeSymbol>) -> IndexedFile {
    IndexedFile {
        path: path.to_string(),
        language: language.to_string(),
        symbols,
        imports: Vec::new(),
        exports: Vec::new(),
        last_modified: 7,
    }
}

fn timestamps(entries: &[(&str, u64)]) -> StrMap<u64> {
    let mut m = StrMap::new();
    for (k, v) in entries {
        m.insert(k.to_string(), *v);
    }
    m
}

#[test]
fn str_map_insert_get_remove() {
    let mut m: StrMap<u64> = StrMap::new();
    assert_eq!(m.len(), 0);
    m.insert("a".to_string(), 1);
    m.insert("b".to_string(), 2);
    m.insert("a".to_string(), 3);
    assert_eq!(m.len(), 2);
    assert_eq!(m.get("a"), Some(&3));
    assert_eq!(m.get("b"), Some(&2));
    assert_eq!(m.get("c"), None);
    assert!(m.contains_key("b"));
    assert_eq!(m.remove("b"), Some(2));
    assert_eq!(m.remove("b"), None);
    assert_eq!(m.len(), 1);
    assert_eq!(m.entries().len(), 1);
}

#[test]
fn codebase_index_starts_empty() {
    let index = CodebaseIndex::new("/repo".to_string());
    assert_eq!(index.root_path, "/repo");
    assert_eq!(index.total_files, 0);
    assert_eq!(index.files.len(), 0);
    assert_eq!(index.symbol_map.len(), 0);
    assert_eq!(index.language_stats.len(), 0);
    let stamped = CodebaseIndex::with_timestamp("/r".to_string(), 42);
    assert_eq!(stamped.indexed_at, 42);
}

#[test]
fn add_file_counts_languages_and_files_symbols_by_name() {
    let mut index = CodebaseIndex::with_timestamp("/repo".to_string(), 1);
    index.add_file(file(
        "a.rs",
        "rust",
        vec![symbol("parse", SymbolKind::Function, "a.rs", 1), symbol("Config", SymbolKind::Struct, "a.rs", 10)],
    ));
    index.add_file(file("b.rs", "rust", vec![symbol("parse", SymbolKind::Function, "b.rs", 3)]));
    index.add_file(file("c.py", "python", vec![]));

    assert_eq!(index.total_files, 3);
    assert_eq!(index.language_stats.get("rust"), Some(&2));
    assert_eq!(index.language_stats.get("python"), Some(&1));
    assert_eq!(index.files.len(), 3);
    assert_eq!(index.files.get("b.rs").unwrap().symbols.len(), 1);

    let parses = index.symbol_map.get("parse").unwrap();
    assert_eq!(parses.len(), 2);
    assert_eq!(parses[0].file_path, "a.rs");
    assert_eq!(parses[1].file_path, "b.rs");
    assert_eq!(index.symbol_map.get("Config").unwrap().len(), 1);
    assert!(index.symbol_map.get("missing").is_none());
}

#[test]
fn add_file_replaces_file_with_same_path() {
    let mut index = CodebaseIndex::with_timestamp("/repo".to_string(), 1);
    index.add_file(file("a.rs", "rust", vec![]));
    index.add_file(file("a.rs", "rust", vec![symbol("x", SymbolKind::Variable, "a.rs", 2)]));
    assert_eq!(index.files.len(), 1);
    assert_eq!(index.total_files, 2);
    assert_eq!(index.files.get("a.rs").unwrap().symbols.len(), 1);
}

#[test]
fn cache_valid_only_for_identical_timestamps() {
    let meta = CacheMetadata::with_timestamp(
        "/repo".to_string(),
        2,
        timestamps(&[("a.rs", 10), ("b.rs", 20)]),
        99,
    );
    assert_eq!(meta.cached_at, 99);
    assert!(meta.is_valid(&timestamps(&[("b.rs", 20), ("a.rs", 10)])));
    // modified
    assert!(!meta.is_valid(&timestamps(&[("a.rs", 11), ("b.rs", 20)])));
    // removed
    assert!(!meta.is_valid(&timestamps(&[("a.rs", 10)])));
    // added
    assert!(!meta.is_valid(&timestamps(&[("a.rs", 10), ("b.rs", 20), ("c.rs", 1)])));
    // renamed
    assert!(!meta.is_valid(&timestamps(&[("a.rs", 10), ("c.rs", 20)])));

    let fresh = CacheMetadata::new("/p".to_string(), 0, StrMap::new());
    assert!(fresh.is_valid(&StrMap::new()));
    assert_eq!(fresh.file_count, 0);
}

fn expected_hash_dir(path: &str) -> String {
    let mut hasher = DefaultHasher::new();
    path.hash(&mut hasher);
    format!("{:x}", hasher.finish())
}

#[test]
fn project_paths_live_under_hashed_directory() {
    let config = PersistenceConfig { cache_dir: "/cache/indexes".to_string() };
    let project = "/home/me/project";
    let dir = PathBuf::from("/cache/indexes").join(expected_hash_dir(project));
    assert_eq!(config.get_project_dir(project), dir.to_string_lossy());
    assert_eq!(config.get_main_index_path(project), dir.join("index.bin").to_string_lossy());
    assert_eq!(config.get_vector_index_path(project), dir.join("vectors.usearch").to_string_lossy());
    assert_eq!(
        config.get_vector_metadata_path(project),
        dir.join("vectors_metadata.bin").to_string_lossy()
    );
    assert_eq!(config.get_tantivy_dir(project), dir.join("tantivy").to_string_lossy());
    assert_eq!(config.get_cache_metadata_path(project), dir.join("metadata.json").to_string_lossy());
    assert_ne!(config.get_project_dir("/a"), config.get_project_dir("/b"));
}

#[test]
fn analyze_query_lowercases_and_counts_words() {
    assert_eq!(QueryAnalyzer::analyze_query("HOW does it work"), QueryType::SemanticIntent);
    assert_eq!(QueryAnalyzer::analyze_query("When"), QueryType::SemanticIntent);
    assert_eq!(QueryAnalyzer::analyze_query("  parse_config  "), QueryType::ExactSymbol);
    assert_eq!(QueryAnalyzer::analyze_query("parse\tconfig"), QueryType::Mixed);
    assert_eq!(QueryAnalyzer::analyze_query(""), QueryType::Mixed);
    assert_eq!(QueryAnalyzer::analyze_query("impl Display"), QueryType::CodeContent);
    assert_eq!(QueryAnalyzer::analyze_query("main.go"), QueryType::FilePath);
    assert_eq!(QueryAnalyzer::classify_query("Where", "where"), QueryType::SemanticIntent);
    assert_eq!(QueryAnalyzer::classify_query("Where", "Where"), QueryType::ExactSymbol);
}

#[test]
fn normalize_drops_stop_words_and_short_words() {
    let normalizer = TextNormalizer::new();
    assert_eq!(
        normalizer.normalize("The Parsing of configs, by tokens!"),
        vec!["pars".to_string(), "config".to_string(), "token".to_string()]
    );
    assert_eq!(normalizer.normalize("an ox"), Vec::<String>::new());
}

#[test]
fn normalize_symbol_splits_camel_and_snake_case() {
    let normalizer = TextNormalizer::new();
    assert_eq!(
        normalizer.normalize_symbol("HTTPServer_runningJobs"),
        vec!["httpserver".to_string(), "run".to_string(), "job".to_string()]
    );
    assert_eq!(normalizer.normalize_symbol("a_b"), Vec::<String>::new());
    assert_eq!(normalizer.normalize_symbol(""), Vec::<String>::new());
}

#[test]
fn symbol_text_omits_missing_parts() {
    let s = symbol("run", SymbolKind::Method, "x.rs", 1);
    assert_eq!(symbol_to_text(&s), "run Method");
    let mut t = symbol("Cfg", SymbolKind::Struct, "x.rs", 1);
    t.doc_comment = Some("Settings".to_string());
    assert_eq!(symbol_to_text(&t), "Cfg Struct Settings");
    assert_eq!(kind_name_str(SymbolKind::Export), "Export");
}

#[test]
fn languages_by_extension() {
    assert_eq!(language_for_extension("rs"), Some("rust".to_string()));
    assert_eq!(language_for_extension("jsx"), Some("javascript".to_string()));
    assert_eq!(language_for_extension("tsx"), Some("typescript".to_string()));
    assert_eq!(language_for_extension("py"), Some("python".to_string()));
    assert_eq!(language_for_extension("go"), None);
    assert!(is_source_extension("ts"));
    assert!(!is_source_extension("md"));
}

#[test]
fn syntax_node_kinds() {
    assert_eq!(symbol_kind_for_node("function_item"), Some(SymbolKind::Function));
    assert_eq!(symbol_kind_for_node("class_definition"), Some(SymbolKind::Class));
    assert_eq!(symbol_kind_for_node("impl_item"), Some(SymbolKind::Interface));
    assert_eq!(symbol_kind_for_node("method_definition"), Some(SymbolKind::Method));
    assert_eq!(symbol_kind_for_node("enum_item"), Some(SymbolKind::Enum));
    assert_eq!(symbol_kind_for_node("struct_item"), Some(SymbolKind::Struct));
    assert_eq!(symbol_kind_for_node("block"), None);
    assert!(is_name_node("identifier"));
    assert!(is_name_node("property_name"));
    assert!(!is_name_node("block"));
    assert!(is_import_node("use_declaration"));
    assert!(!is_import_node("export_statement"));
    assert_eq!(kind_label_str(SymbolKind::Interface), "interface");
}

#[test]
fn long_signatures_are_cut() {
    assert_eq!(signature_from_text("fn a() {}"), "fn a() {}");
    let long = "x".repeat(501);
    let cut = signature_from_text(&long);
    assert_eq!(cut, format!("{}...", "x".repeat(500)));
    let exact = "y".repeat(500);
    assert_eq!(signature_from_text(&exact), exact);
    // 300 two-byte characters: over the byte limit, under the character limit
    let wide = "é".repeat(300);
    assert_eq!(signature_from_text(&wide), format!("{}...", wide));
}

#[test]
fn vector_metadata_copies_symbol() {
    let mut s = symbol("login", SymbolKind::Function, "auth.rs", 4);
    s.signature = Some("fn login()".to_string());
    let m = vector_metadata_for(&s, "rust");
    assert_eq!(m.symbol_name, "login");
    assert_eq!(m.file_path, "auth.rs");
    assert_eq!(m.language, "rust");
    assert_eq!(m.start_line, 4);
    assert_eq!(m.end_line, 9);
    assert_eq!(m.signature, Some("fn login()".to_string()));
    assert_eq!(m.doc_comment, None);
}

#[test]
fn add_file_works_on_a_hand_built_index() {
    let mut files = StrMap::new();
    files.insert("elsewhere".to_string(), file("a.rs", "rust", vec![]));
    let mut symbol_map = StrMap::new();
    symbol_map.insert("f".to_string(), vec![symbol("g", SymbolKind::Function, "a.rs", 1)]);
    let mut index = CodebaseIndex {
        root_path: "/r".to_string(),
        files,
        symbol_map,
        language_stats: StrMap::new(),
        total_files: 0,
        indexed_at: 0,
    };
    index.add_file(file("b.rs", "rust", vec![symbol("f", SymbolKind::Function, "b.rs", 4)]));
    assert_eq!(index.total_files, 1);
    assert_eq!(index.files.len(), 2);
    assert_eq!(index.language_stats.get("rust"), Some(&1));
    let fs = index.symbol_map.get("f").unwrap();
    assert_eq!(fs.len(), 2);
    assert_eq!(fs[0].name, "g");
    assert_eq!(fs[1].file_path, "b.rs");
}

#[test]
fn language_counts_add_up_to_file_count() {
    let mut index = CodebaseIndex::with_timestamp("/r".to_string(), 0);
    index.add_file(file("a.rs", "rust", vec![symbol("x", SymbolKind::Function, "a.rs", 1)]));
    index.add_file(file("b.py", "python", vec![]));
    index.add_file(file("c.rs", "rust", vec![symbol("x", SymbolKind::Function, "c.rs", 2)]));
    let counted: usize = index.language_stats.entries().iter().map(|(_, c)| *c).sum();
    assert_eq!(counted, index.total_files);
    assert_eq!(index.files.len(), 3);
    let filed: usize = index.symbol_map.entries().iter().map(|(_, v)| v.len()).sum();
    let stored: usize = index.files.entries().iter().map(|(_, f)| f.symbols.len()).sum();
    assert_eq!(filed, stored);
    assert!(index.symbol_map.entries().iter().all(|(k, v)| !v.is_empty() && v.iter().all(|s| &s.name == k)));
}
