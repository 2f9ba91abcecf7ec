use prompto::models::{CodebaseIndex, IndexedFile, SymbolKind};
use prompto::path_search::{query_file_paths, split_path};
use prompto::syntax_tree::{
    create_symbol, extract_imports, extract_name_from_node, extract_symbols, index_source, parse_source, SyntaxNode,
};

fn node(kind: &str, depth: usize, row: usize, text: &str) -> SyntaxNode {
    SyntaxNode { kind: kind.to_string(), depth, start_row: row, end_row: row, text: text.to_string() }
}

#[test]
fn rust_source_yields_functions_structs_and_uses() {
    let src = "use std::fs;\n\nfn main() {\n    helper();\n}\n\nstruct Point { x: i32 }\n";
    let f = index_source("src/main.rs", "rust", src, 77).unwrap();
    assert_eq!(f.path, "src/main.rs");
    assert_eq!(f.language, "rust");
    assert_eq!(f.last_modified, 77);
    assert!(f.exports.is_empty());
    assert_eq!(f.imports, vec!["use std::fs;".to_string()]);
    assert_eq!(f.symbols.len(), 2);
    let main = &f.symbols[0];
    assert_eq!(main.name, "main");
    assert_eq!(main.kind, SymbolKind::Function);
    assert_eq!(main.file_path, "src/main.rs");
    assert_eq!((main.start_line, main.end_line), (3, 5));
    assert_eq!(main.signature.as_deref(), Some("fn main() {\n    helper();\n}"));
    assert!(main.doc_comment.is_none() && main.parent.is_none());
    let point = &f.symbols[1];
    assert_eq!(point.name, "Point");
    assert_eq!(point.kind, SymbolKind::Struct);
    assert_eq!((point.start_line, point.end_line), (7, 7));
}

#[test]
fn python_source_yields_definitions_and_imports() {
    let src = "import os\nfrom sys import path\n\nclass Greeter:\n    def hello(self):\n        pass\n";
    let f = index_source("greet.py", "python", src, 0).unwrap();
    assert_eq!(f.imports, vec!["import os".to_string(), "from sys import path".to_string()]);
    let names: Vec<(&str, SymbolKind)> = f.symbols.iter().map(|s| (s.name.as_str(), s.kind)).collect();
    assert_eq!(names, vec![("Greeter", SymbolKind::Class), ("hello", SymbolKind::Function)]);
}

#[test]
fn typescript_method_without_name_node_is_skipped() {
    let src = "class Button {\n  render() { return 1; }\n}\nfunction make() {}\n";
    let f = index_source("ui/button.tsx", "typescript", src, 0).unwrap();
    let names: Vec<(&str, SymbolKind)> = f.symbols.iter().map(|s| (s.name.as_str(), s.kind)).collect();
    // a method's name is a property_identifier, which is no name kind
    assert_eq!(names, vec![("Button", SymbolKind::Class), ("make", SymbolKind::Function)]);
}

#[test]
fn unknown_language_has_no_parser() {
    assert_eq!(index_source("main.go", "go", "package main", 0).unwrap_err(), "No parser for language: go");
    assert!(parse_source("go", "package main").is_none());
    assert!(matches!(parse_source("javascript", "let x = 1;"), Some(Some(_))));
}

#[test]
fn long_symbol_text_is_cut_to_signature_limit() {
    let body = "x".repeat(600);
    let src = format!("fn long() {{ {} }}\n", body);
    let f = index_source("a.rs", "rust", &src, 0).unwrap();
    let sig = f.symbols[0].signature.clone().unwrap();
    assert_eq!(sig.chars().count(), 503);
    assert!(sig.ends_with("..."));
    assert!(sig.starts_with("fn long() { xxx"));
}

#[test]
fn flat_tree_names_come_from_direct_children() {
    let nodes = vec![
        node("source_file", 0, 0, "..."),
        node("function_item", 1, 0, "fn a() {}"),
        node("block", 2, 0, "{}"),
        node("identifier", 3, 0, "inner"),
        node("struct_item", 1, 4, "struct S;"),
        node("type_identifier", 2, 4, "S"),
        node("use_declaration", 1, 6, "use x;"),
    ];
    // the identifier under the block is a grandchild, not a name child
    assert_eq!(extract_name_from_node(&nodes, 1), None);
    assert!(create_symbol(&nodes, 1, "f.rs", SymbolKind::Function).is_none());
    assert_eq!(extract_name_from_node(&nodes, 4), Some("S".to_string()));
    let syms = extract_symbols(&nodes, "f.rs", "rust");
    assert_eq!(syms.len(), 1);
    assert_eq!(syms[0].name, "S");
    assert_eq!(syms[0].start_line, 5);
    assert!(extract_symbols(&nodes, "f.rs", "cobol").is_empty());
    assert_eq!(extract_imports(&nodes), vec!["use x;".to_string()]);
}

fn paths_index(paths: &[&str]) -> CodebaseIndex {
    let mut index = CodebaseIndex::with_timestamp("/repo".to_string(), 0);
    for p in paths {
        index.add_file(IndexedFile {
            path: p.to_string(),
            language: "rust".to_string(),
            symbols: Vec::new(),
            imports: Vec::new(),
            exports: Vec::new(),
            last_modified: 0,
        });
    }
    index
}

#[test]
fn path_components_skip_empty_pieces_and_both_slashes() {
    assert_eq!(split_path("/src//a\\b.rs/"), vec!["src".to_string(), "a".to_string(), "b.rs".to_string()]);
    assert!(split_path("").is_empty());
}

#[test]
fn file_search_ranks_whole_components_then_prefixes() {
    let index = paths_index(&["src/lib.rs", "lib/util.rs", "app/mylib.rs", "docs/readme.md"]);
    assert_eq!(
        query_file_paths(&index, "LIB", 10),
        vec!["lib/util.rs".to_string(), "src/lib.rs".to_string(), "app/mylib.rs".to_string()]
    );
    assert_eq!(query_file_paths(&index, "lib", 2), vec!["lib/util.rs".to_string(), "src/lib.rs".to_string()]);
    assert!(query_file_paths(&index, "zzz", 10).is_empty());
}

#[test]
fn file_search_lists_a_path_once_per_matching_component() {
    let index = paths_index(&["lib/lib.rs"]);
    assert_eq!(query_file_paths(&index, "lib", 10), vec!["lib/lib.rs".to_string(), "lib/lib.rs".to_string()]);
}

#[test]
fn javascript_source_yields_functions_classes_and_imports() {
    let src = "import fs from 'fs';\nfunction hello() {}\nclass Widget {}\n";
    let f = index_source("web/app.js", "javascript", src, 3).unwrap();
    assert_eq!(f.imports, vec!["import fs from 'fs';".to_string()]);
    let names: Vec<(&str, SymbolKind, usize)> = f.symbols.iter().map(|s| (s.name.as_str(), s.kind, s.start_line)).collect();
    assert_eq!(names, vec![("hello", SymbolKind::Function, 2), ("Widget", SymbolKind::Class, 3)]);
}
