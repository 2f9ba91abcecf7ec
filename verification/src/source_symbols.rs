//! Decisions made while extracting symbols from source files: which files
//! are indexed in which language, which syntax nodes are symbols, and how a
//! symbol's text is recorded.
use vstd::prelude::*;
use vstd::string::StringExecFns;
use crate::models::{clone_opt_string, CodeSymbol, SymbolKind};
use crate::persistence::push_char;
use crate::text::{chars_of, contains_run, has_substring, same_text};
use crate::vector_store::VectorMetadata;

verus! {

/// The language of a file with extension `ext`, if it is indexed.
pub open spec fn language_of_extension(ext: Seq<char>) -> Option<Seq<char>> {
    if ext == "rs"@ {
        Some("rust"@)
    } else if ext == "js"@ || ext == "jsx"@ {
        Some("javascript"@)
    } else if ext == "ts"@ || ext == "tsx"@ {
        Some("typescript"@)
    } else if ext == "py"@ {
        Some("python"@)
    } else {
        None
    }
}

/// The language of a file with extension `ext`, if it is indexed.
pub fn language_for_extension(ext: &str) -> (r: Option<String>)
    ensures
        match r {
            Some(l) => language_of_extension(ext@) == Some(l@),
            None => language_of_extension(ext@) is None,
        },
{
    if same_text(ext, "rs") {
        Some(String::from_str("rust"))
    } else if same_text(ext, "js") || same_text(ext, "jsx") {
        Some(String::from_str("javascript"))
    } else if same_text(ext, "ts") || same_text(ext, "tsx") {
        Some(String::from_str("typescript"))
    } else if same_text(ext, "py") {
        Some(String::from_str("python"))
    } else {
        None
    }
}

/// Files with extension `ext` are source files whose timestamps the cache tracks.
pub fn is_source_extension(ext: &str) -> (r: bool)
    ensures
        r == language_of_extension(ext@) is Some,
{
    same_text(ext, "rs") || same_text(ext, "js") || same_text(ext, "jsx") || same_text(ext, "ts")
        || same_text(ext, "tsx") || same_text(ext, "py")
}

/// The syntax node kinds that hold symbols in each supported language.
pub open spec fn node_kinds_of_language(language: Seq<char>) -> Option<Seq<char>> {
    if language == "rust"@ {
        Some("function_item,struct_item,impl_item,enum_item,use_declaration"@)
    } else if language == "typescript"@ || language == "javascript"@ {
        Some("function_declaration,class_declaration,method_definition,import_statement,export_statement"@)
    } else if language == "python"@ {
        Some("function_definition,class_definition,import_statement,import_from_statement"@)
    } else {
        None
    }
}

/// The syntax node kinds that hold symbols in `language`, if it is supported.
pub fn language_node_kinds(language: &str) -> (r: Option<&'static str>)
    ensures
        match r {
            Some(k) => node_kinds_of_language(language@) == Some(k@),
            None => node_kinds_of_language(language@) is None,
        },
{
    if same_text(language, "rust") {
        Some("function_item,struct_item,impl_item,enum_item,use_declaration")
    } else if same_text(language, "typescript") || same_text(language, "javascript") {
        Some("function_declaration,class_declaration,method_definition,import_statement,export_statement")
    } else if same_text(language, "python") {
        Some("function_definition,class_definition,import_statement,import_from_statement")
    } else {
        None
    }
}

/// The kind of symbol a syntax node of kind `node_kind` declares, if any.
pub open spec fn symbol_kind_of_node(node_kind: Seq<char>) -> Option<SymbolKind> {
    if node_kind == "function_item"@ || node_kind == "function_declaration"@ || node_kind == "function_definition"@ {
        Some(SymbolKind::Function)
    } else if node_kind == "struct_item"@ {
        Some(SymbolKind::Struct)
    } else if node_kind == "class_declaration"@ || node_kind == "class_definition"@ {
        Some(SymbolKind::Class)
    } else if node_kind == "method_definition"@ {
        Some(SymbolKind::Method)
    } else if node_kind == "enum_item"@ {
        Some(SymbolKind::Enum)
    } else if node_kind == "impl_item"@ {
        Some(SymbolKind::Interface)
    } else {
        None
    }
}

/// The kind of symbol a syntax node of kind `node_kind` declares, if any.
pub fn symbol_kind_for_node(node_kind: &str) -> (r: Option<SymbolKind>)
    ensures
        r == symbol_kind_of_node(node_kind@),
{
    if same_text(node_kind, "function_item") || same_text(node_kind, "function_declaration")
        || same_text(node_kind, "function_definition")
    {
        Some(SymbolKind::Function)
    } else if same_text(node_kind, "struct_item") {
        Some(SymbolKind::Struct)
    } else if same_text(node_kind, "class_declaration") || same_text(node_kind, "class_definition") {
        Some(SymbolKind::Class)
    } else if same_text(node_kind, "method_definition") {
        Some(SymbolKind::Method)
    } else if same_text(node_kind, "enum_item") {
        Some(SymbolKind::Enum)
    } else if same_text(node_kind, "impl_item") {
        Some(SymbolKind::Interface)
    } else {
        None
    }
}

/// A child node of this kind carries the name of its parent symbol.
pub open spec fn is_name_kind(node_kind: Seq<char>) -> bool {
    node_kind == "identifier"@ || node_kind == "type_identifier"@ || has_substring(node_kind, "name"@)
}

/// A child node of this kind carries the name of its parent symbol.
pub fn is_name_node(node_kind: &str) -> (r: bool)
    ensures
        r == is_name_kind(node_kind@),
{
    same_text(node_kind, "identifier") || same_text(node_kind, "type_identifier")
        || contains_run(&chars_of(node_kind), &chars_of("name"))
}

/// A syntax node of this kind is an import.
pub open spec fn is_import_kind(node_kind: Seq<char>) -> bool {
    node_kind == "use_declaration"@ || node_kind == "import_statement"@ || node_kind == "import_from_statement"@
}

/// A syntax node of this kind is an import.
pub fn is_import_node(node_kind: &str) -> (r: bool)
    ensures
        r == is_import_kind(node_kind@),
{
    same_text(node_kind, "use_declaration") || same_text(node_kind, "import_statement")
        || same_text(node_kind, "import_from_statement")
}

/// Longest symbol text, in UTF-8 bytes, that is recorded whole.
pub const MAX_SIGNATURE_BYTES: usize = 500;

/// The first `n` characters of `t` (all of `t` when it is shorter).
pub open spec fn first_chars(t: Seq<char>, n: nat) -> Seq<char> {
    if t.len() <= n { t } else { t.take(n as int) }
}

/// The recorded signature of a symbol whose source text is `t`: the text
/// itself, or when longer than the limit in bytes its first 500 characters
/// followed by "...".
pub open spec fn signature_of(t: Seq<char>) -> Seq<char> {
    if vstd::utf8::encode_utf8(t).len() > MAX_SIGNATURE_BYTES {
        first_chars(t, 500) + "..."@
    } else {
        t
    }
}

/// The signature recorded for a symbol whose source text is `text`.
pub fn signature_from_text(text: &str) -> (r: String)
    ensures
        r@ == signature_of(text@),
{
    if text.as_bytes().len() > MAX_SIGNATURE_BYTES {
        let cs = chars_of(text);
        let n: usize = if cs.len() < 500 { cs.len() } else { 500 };
        let mut out = String::new();
        for i in 0..n
            invariant
                cs@ == text@,
                n <= cs@.len(),
                out@ == text@.take(i as int),
        {
            push_char(&mut out, cs[i]);
            assert(text@.take(i + 1) =~= text@.take(i as int).push(text@[i as int]));
        }
        assert(text@.take(n as int) =~= first_chars(text@, 500));
        out.append("...");
        out
    } else {
        String::from_str(text)
    }
}

/// The vector-store metadata of a symbol found in a file of `language`.
pub fn vector_metadata_for(symbol: &CodeSymbol, language: &str) -> (r: VectorMetadata)
    ensures
        r.symbol_name == symbol.name,
        r.file_path == symbol.file_path,
        r.language@ == language@,
        r.start_line == symbol.start_line,
        r.end_line == symbol.end_line,
        r.signature == symbol.signature,
        r.doc_comment == symbol.doc_comment,
{
    VectorMetadata {
        symbol_name: symbol.name.clone(),
        file_path: symbol.file_path.clone(),
        language: String::from_str(language),
        start_line: symbol.start_line,
        end_line: symbol.end_line,
        signature: clone_opt_string(&symbol.signature),
        doc_comment: clone_opt_string(&symbol.doc_comment),
    }
}

/// The lowercase label a symbol kind is stored under in the full-text index.
pub open spec fn kind_label(k: SymbolKind) -> Seq<char> {
    match k {
        SymbolKind::Function => "function"@,
        SymbolKind::Method => "method"@,
        SymbolKind::Class => "class"@,
        SymbolKind::Struct => "struct"@,
        SymbolKind::Interface => "interface"@,
        SymbolKind::Enum => "enum"@,
        SymbolKind::Constant => "constant"@,
        SymbolKind::Variable => "variable"@,
        SymbolKind::Import => "import"@,
        SymbolKind::Export => "export"@,
    }
}

/// The lowercase label a symbol kind is stored under in the full-text index.
pub fn kind_label_str(k: SymbolKind) -> (r: &'static str)
    ensures
        r@ == kind_label(k),
{
    match k {
        SymbolKind::Function => "function",
        SymbolKind::Method => "method",
        SymbolKind::Class => "class",
        SymbolKind::Struct => "struct",
        SymbolKind::Interface => "interface",
        SymbolKind::Enum => "enum",
        SymbolKind::Constant => "constant",
        SymbolKind::Variable => "variable",
        SymbolKind::Import => "import",
        SymbolKind::Export => "export",
    }
}

} // verus!
