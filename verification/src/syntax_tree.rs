//! Symbols and imports of a source file, read from its tree-sitter syntax tree.
//!
//! The tree comes as the list of its nodes in preorder, each with its depth
//! below the root; a node's children are the nodes that follow it one level
//! deeper, up to the next node at its own depth or above.
use vstd::prelude::*;
use vstd::string::StringExecFns;
use crate::models::{CodeSymbol, IndexedFile, SymbolKind};
use crate::source_symbols::{
    is_import_kind, is_import_node, is_name_kind, is_name_node, language_node_kinds, node_kinds_of_language,
    signature_from_text, signature_of, symbol_kind_for_node, symbol_kind_of_node,
};
use crate::text::same_text;
use crate::text_normalizer::texts;

verus! {

/// One node of a syntax tree.
#[derive(Debug)]
pub struct SyntaxNode {
    /// The grammar's name for the node.
    pub kind: String,
    /// Levels below the root (the root has depth 0).
    pub depth: usize,
    /// Zero-based row of the node's first character.
    pub start_row: usize,
    /// Zero-based row of the node's last character.
    pub end_row: usize,
    /// The source text the node spans.
    pub text: String,
}

/// What parsing `source` with tree-sitter's Rust grammar gives: `None` where
/// the parser returns no tree, else the tree's nodes in preorder.
pub uninterp spec fn spec_rust_syntax(source: Seq<char>) -> Option<Seq<SyntaxNode>>;

/// What parsing `source` with tree-sitter's JavaScript grammar gives.
pub uninterp spec fn spec_javascript_syntax(source: Seq<char>) -> Option<Seq<SyntaxNode>>;

/// What parsing `source` with tree-sitter's TSX grammar gives.
pub uninterp spec fn spec_typescript_syntax(source: Seq<char>) -> Option<Seq<SyntaxNode>>;

/// What parsing `source` with tree-sitter's Python grammar gives.
pub uninterp spec fn spec_python_syntax(source: Seq<char>) -> Option<Seq<SyntaxNode>>;

/// Parses `source` with `tree_sitter_rust::language()` and lists the tree's
/// nodes in preorder (`TreeCursor::goto_descendant` over `descendant_count`).
/// The contract only names the result.
#[verifier::external_body]
fn rust_syntax(source: &str) -> (r: Option<Vec<SyntaxNode>>)
    ensures
        match r {
            Some(v) => spec_rust_syntax(source@) == Some(v@),
            None => spec_rust_syntax(source@) is None,
        },
{
    let mut parser = tree_sitter::Parser::new();
    parser.set_language(&tree_sitter_rust::language()).ok()?;
    let tree = parser.parse(source, None)?;
    let root = tree.root_node();
    let mut cursor = root.walk();
    Some((0..root.descendant_count()).map(|i| {
        cursor.goto_descendant(i);
        let n = cursor.node();
        SyntaxNode { kind: n.kind().to_string(), depth: cursor.depth() as usize, start_row: n.start_position().row,
            end_row: n.end_position().row, text: source[n.byte_range()].to_string() }
    }).collect())
}

/// Parses `source` with `tree_sitter_javascript::language()`, as `rust_syntax`
/// does with the Rust grammar. The contract only names the result.
#[verifier::external_body]
fn javascript_syntax(source: &str) -> (r: Option<Vec<SyntaxNode>>)
    ensures
        match r {
            Some(v) => spec_javascript_syntax(source@) == Some(v@),
            None => spec_javascript_syntax(source@) is None,
        },
{
    let mut parser = tree_sitter::Parser::new();
    parser.set_language(&tree_sitter_javascript::language()).ok()?;
    let tree = parser.parse(source, None)?;
    let root = tree.root_node();
    let mut cursor = root.walk();
    Some((0..root.descendant_count()).map(|i| {
        cursor.goto_descendant(i);
        let n = cursor.node();
        SyntaxNode { kind: n.kind().to_string(), depth: cursor.depth() as usize, start_row: n.start_position().row,
            end_row: n.end_position().row, text: source[n.byte_range()].to_string() }
    }).collect())
}

/// Parses `source` with `tree_sitter_typescript::language_tsx()`, as
/// `rust_syntax` does with the Rust grammar. The contract only names the result.
#[verifier::external_body]
fn typescript_syntax(source: &str) -> (r: Option<Vec<SyntaxNode>>)
    ensures
        match r {
            Some(v) => spec_typescript_syntax(source@) == Some(v@),
            None => spec_typescript_syntax(source@) is None,
        },
{
    let mut parser = tree_sitter::Parser::new();
    parser.set_language(&tree_sitter_typescript::language_tsx()).ok()?;
    let tree = parser.parse(source, None)?;
    let root = tree.root_node();
    let mut cursor = root.walk();
    Some((0..root.descendant_count()).map(|i| {
        cursor.goto_descendant(i);
        let n = cursor.node();
        SyntaxNode { kind: n.kind().to_string(), depth: cursor.depth() as usize, start_row: n.start_position().row,
            end_row: n.end_position().row, text: source[n.byte_range()].to_string() }
    }).collect())
}

/// Parses `source` with `tree_sitter_python::language()`, as `rust_syntax`
/// does with the Rust grammar. The contract only names the result.
#[verifier::external_body]
fn python_syntax(source: &str) -> (r: Option<Vec<SyntaxNode>>)
    ensures
        match r {
            Some(v) => spec_python_syntax(source@) == Some(v@),
            None => spec_python_syntax(source@) is None,
        },
{
    let mut parser = tree_sitter::Parser::new();
    parser.set_language(&tree_sitter_python::language()).ok()?;
    let tree = parser.parse(source, None)?;
    let root = tree.root_node();
    let mut cursor = root.walk();
    Some((0..root.descendant_count()).map(|i| {
        cursor.goto_descendant(i);
        let n = cursor.node();
        SyntaxNode { kind: n.kind().to_string(), depth: cursor.depth() as usize, start_row: n.start_position().row,
            end_row: n.end_position().row, text: source[n.byte_range()].to_string() }
    }).collect())
}

/// The parse of `source` for `language`: `None` for a language without a
/// grammar, else what that grammar's parser gives.
pub open spec fn syntax_of(language: Seq<char>, source: Seq<char>) -> Option<Option<Seq<SyntaxNode>>> {
    if language == "rust"@ {
        Some(spec_rust_syntax(source))
    } else if language == "javascript"@ {
        Some(spec_javascript_syntax(source))
    } else if language == "typescript"@ {
        Some(spec_typescript_syntax(source))
    } else if language == "python"@ {
        Some(spec_python_syntax(source))
    } else {
        None
    }
}

/// Parses `source` with the grammar of `language`, as `syntax_of` states.
pub fn parse_source(language: &str, source: &str) -> (r: Option<Option<Vec<SyntaxNode>>>)
    ensures
        match r {
            None => syntax_of(language@, source@) is None,
            Some(None) => syntax_of(language@, source@) == Some(None::<Seq<SyntaxNode>>),
            Some(Some(v)) => syntax_of(language@, source@) == Some(Some(v@)),
        },
{
    proof {
        reveal_strlit("rust");
        reveal_strlit("javascript");
        reveal_strlit("typescript");
        reveal_strlit("python");
    }
    if same_text(language, "rust") {
        Some(rust_syntax(source))
    } else if same_text(language, "javascript") {
        Some(javascript_syntax(source))
    } else if same_text(language, "typescript") {
        Some(typescript_syntax(source))
    } else if same_text(language, "python") {
        Some(python_syntax(source))
    } else {
        None
    }
}

/// The one-based line of a zero-based row (the row itself at the top of `usize`).
pub open spec fn line_of_row(row: usize) -> usize {
    if row < usize::MAX {
        (row + 1) as usize
    } else {
        row
    }
}

/// The line of `row`, as `line_of_row` states.
fn line_of(row: usize) -> (r: usize)
    ensures
        r == line_of_row(row),
{
    if row < usize::MAX {
        row + 1
    } else {
        row
    }
}

/// The first node from position `j` on, among the children of a node at depth
/// `d` whose subtree runs on from `j`, whose kind names something.
pub open spec fn name_child_from(nodes: Seq<SyntaxNode>, d: usize, j: int) -> Option<int>
    decreases nodes.len() - j,
{
    if j < 0 || j >= nodes.len() || nodes[j].depth <= d {
        None
    } else if nodes[j].depth == d + 1 && is_name_kind(nodes[j].kind@) {
        Some(j)
    } else {
        name_child_from(nodes, d, j + 1)
    }
}

/// The position of the first child of node `i` whose kind names something.
pub open spec fn name_child_of(nodes: Seq<SyntaxNode>, i: int) -> Option<int> {
    name_child_from(nodes, nodes[i].depth, i + 1)
}

/// Node `i` declares a symbol: its kind is one of a symbol and it has a name child.
pub open spec fn is_symbol_node(nodes: Seq<SyntaxNode>, i: int) -> bool {
    symbol_kind_of_node(nodes[i].kind@) is Some && name_child_of(nodes, i) is Some
}

/// `s` is the symbol of kind `kind` that node `i` declares in the file at `path`:
/// named by the text of its name child, spanning its lines, with its text
/// (cut to the signature limit) as signature.
pub open spec fn symbol_from(s: CodeSymbol, nodes: Seq<SyntaxNode>, i: int, path: Seq<char>, kind: SymbolKind) -> bool {
    let node = nodes[i];
    &&& s.kind == kind
    &&& name_child_of(nodes, i) matches Some(j) && s.name@ == nodes[j].text@
    &&& s.file_path@ == path
    &&& s.start_line == line_of_row(node.start_row)
    &&& s.end_line == line_of_row(node.end_row)
    &&& s.signature matches Some(sig) && sig@ == signature_of(node.text@)
    &&& s.doc_comment is None
    &&& s.parent is None
}

/// The positions, below `n`, of the nodes that declare symbols, in preorder.
pub open spec fn symbol_positions(nodes: Seq<SyntaxNode>, n: int) -> Seq<int>
    decreases n,
{
    if n <= 0 {
        Seq::empty()
    } else {
        symbol_positions(nodes, n - 1) + if is_symbol_node(nodes, n - 1) {
            seq![n - 1]
        } else {
            Seq::empty()
        }
    }
}

/// `syms` are the symbols declared by the first `n` nodes, in preorder.
pub open spec fn declared_symbols(syms: Seq<CodeSymbol>, nodes: Seq<SyntaxNode>, n: int, path: Seq<char>) -> bool {
    let ps = symbol_positions(nodes, n);
    &&& syms.len() == ps.len()
    &&& forall|k: int| 0 <= k < syms.len() ==> symbol_from(#[trigger] syms[k], nodes, ps[k], path,
        symbol_kind_of_node(nodes[ps[k]].kind@)->Some_0)
}

/// The texts of the import nodes among the first `n` nodes, in preorder.
pub open spec fn import_texts(nodes: Seq<SyntaxNode>, n: int) -> Seq<Seq<char>>
    decreases n,
{
    if n <= 0 {
        Seq::empty()
    } else {
        import_texts(nodes, n - 1) + if is_import_kind(nodes[n - 1].kind@) {
            seq![nodes[n - 1].text@]
        } else {
            Seq::empty()
        }
    }
}

/// The position of the first child of node `i` whose kind names something.
fn name_child(nodes: &Vec<SyntaxNode>, i: usize) -> (r: Option<usize>)
    requires
        i < nodes@.len(),
    ensures
        match r {
            Some(j) => j < nodes@.len() && name_child_of(nodes@, i as int) == Some(j as int),
            None => name_child_of(nodes@, i as int) is None,
        },
{
    let d = nodes[i].depth;
    let len = nodes.len();
    let mut j = i + 1;
    while j < len
        invariant
            len == nodes@.len(),
            i < j <= nodes@.len(),
            d == nodes@[i as int].depth,
            name_child_of(nodes@, i as int) == name_child_from(nodes@, d, j as int),
        decreases nodes@.len() - j,
    {
        let nd = nodes[j].depth;
        if nd <= d {
            return None;
        }
        if nd == d + 1 && is_name_node(nodes[j].kind.as_str()) {
            return Some(j);
        }
        j = j + 1;
    }
    None
}

/// The name of node `i`: the text of its first child whose kind names something.
pub fn extract_name_from_node(nodes: &Vec<SyntaxNode>, i: usize) -> (r: Option<String>)
    requires
        i < nodes@.len(),
    ensures
        match r {
            Some(name) => name_child_of(nodes@, i as int) matches Some(j) && name@ == nodes@[j].text@,
            None => name_child_of(nodes@, i as int) is None,
        },
{
    match name_child(nodes, i) {
        Some(j) => Some(nodes[j].text.clone()),
        None => None,
    }
}

/// The symbol of kind `kind` that node `i` declares in the file at `path`,
/// or `None` where the node has no name child.
pub fn create_symbol(nodes: &Vec<SyntaxNode>, i: usize, path: &str, kind: SymbolKind) -> (r: Option<CodeSymbol>)
    requires
        i < nodes@.len(),
    ensures
        match r {
            Some(s) => symbol_from(s, nodes@, i as int, path@, kind),
            None => name_child_of(nodes@, i as int) is None,
        },
{
    let name = match extract_name_from_node(nodes, i) {
        Some(n) => n,
        None => return None,
    };
    let node = &nodes[i];
    Some(CodeSymbol {
        name,
        kind,
        file_path: path.to_string(),
        start_line: line_of(node.start_row),
        end_line: line_of(node.end_row),
        signature: Some(signature_from_text(node.text.as_str())),
        doc_comment: None,
        parent: None,
    })
}

/// The symbols that the nodes declare, in preorder; none for a language
/// without symbol node kinds.
pub fn extract_symbols(nodes: &Vec<SyntaxNode>, path: &str, language: &str) -> (r: Vec<CodeSymbol>)
    ensures
        node_kinds_of_language(language@) is None ==> r@.len() == 0,
        node_kinds_of_language(language@) is Some ==> declared_symbols(r@, nodes@, nodes@.len() as int, path@),
{
    let mut symbols: Vec<CodeSymbol> = Vec::new();
    if language_node_kinds(language).is_none() {
        return symbols;
    }
    let n = nodes.len();
    for i in 0..n
        invariant
            n == nodes@.len(),
            declared_symbols(symbols@, nodes@, i as int, path@),
    {
        let ghost before = symbols@;
        let ghost ps = symbol_positions(nodes@, i as int);
        assert(symbol_positions(nodes@, i + 1) == ps + if is_symbol_node(nodes@, i as int) {
            seq![i as int]
        } else {
            Seq::empty()
        });
        match symbol_kind_for_node(nodes[i].kind.as_str()) {
            Some(kind) => {
                match create_symbol(nodes, i, path, kind) {
                    Some(s) => {
                        symbols.push(s);
                        assert(symbol_positions(nodes@, i + 1) =~= ps.push(i as int));
                        assert forall|k: int| 0 <= k < symbols@.len() implies symbol_from(#[trigger] symbols@[k], nodes@,
                            symbol_positions(nodes@, i + 1)[k], path@,
                            symbol_kind_of_node(nodes@[symbol_positions(nodes@, i + 1)[k]].kind@)->Some_0) by {
                            if k < before.len() {
                                assert(symbols@[k] == before[k]);
                                assert(symbol_positions(nodes@, i + 1)[k] == ps[k]);
                            }
                        }
                    },
                    None => {
                        assert(symbol_positions(nodes@, i + 1) =~= ps);
                    },
                }
            },
            None => {
                assert(symbol_positions(nodes@, i + 1) =~= ps);
            },
        }
    }
    symbols
}

/// The texts of the import nodes, in preorder.
pub fn extract_imports(nodes: &Vec<SyntaxNode>) -> (r: Vec<String>)
    ensures
        texts(r@) == import_texts(nodes@, nodes@.len() as int),
{
    let mut imports: Vec<String> = Vec::new();
    let n = nodes.len();
    for i in 0..n
        invariant
            n == nodes@.len(),
            texts(imports@) == import_texts(nodes@, i as int),
    {
        let ghost before = imports@;
        if is_import_node(nodes[i].kind.as_str()) {
            imports.push(nodes[i].text.clone());
            assert(texts(imports@) =~= texts(before).push(nodes@[i as int].text@));
        }
        assert(texts(imports@) =~= import_texts(nodes@, i + 1));
    }
    imports
}

/// The indexed file at `path` in `language` whose parse gave `nodes`: its
/// symbols and imports, no exports, modified at `last_modified`.
pub fn indexed_file_from(path: &str, language: &str, nodes: &Vec<SyntaxNode>, last_modified: u64) -> (r: IndexedFile)
    ensures
        r.path@ == path@,
        r.language@ == language@,
        node_kinds_of_language(language@) is None ==> r.symbols@.len() == 0,
        node_kinds_of_language(language@) is Some ==> declared_symbols(r.symbols@, nodes@, nodes@.len() as int, path@),
        texts(r.imports@) == import_texts(nodes@, nodes@.len() as int),
        r.exports@.len() == 0,
        r.last_modified == last_modified,
{
    IndexedFile {
        path: path.to_string(),
        language: language.to_string(),
        symbols: extract_symbols(nodes, path, language),
        imports: extract_imports(nodes),
        exports: Vec::new(),
        last_modified,
    }
}

/// Indexes the source text of the file at `path` in `language`: parses it and
/// reads its symbols and imports. Fails for a language without a grammar and
/// where the parser gives no tree.
pub fn index_source(path: &str, language: &str, source: &str, last_modified: u64) -> (r: Result<IndexedFile, String>)
    ensures
        match r {
            Ok(f) => syntax_of(language@, source@) matches Some(Some(nodes)) && {
                &&& f.path@ == path@
                &&& f.language@ == language@
                &&& node_kinds_of_language(language@) is None ==> f.symbols@.len() == 0
                &&& node_kinds_of_language(language@) is Some ==> declared_symbols(f.symbols@, nodes, nodes.len() as int, path@)
                &&& texts(f.imports@) == import_texts(nodes, nodes.len() as int)
                &&& f.exports@.len() == 0
                &&& f.last_modified == last_modified
            },
            Err(e) => (syntax_of(language@, source@) is None && e@ == "No parser for language: "@ + language@)
                || (syntax_of(language@, source@) == Some(None::<Seq<SyntaxNode>>) && e@ == "Failed to parse "@ + path@),
        },
{
    match parse_source(language, source) {
        None => {
            let mut e = String::from_str("No parser for language: ");
            e.append(language);
            Err(e)
        },
        Some(None) => {
            let mut e = String::from_str("Failed to parse ");
            e.append(path);
            Err(e)
        },
        Some(Some(nodes)) => Ok(indexed_file_from(path, language, &nodes, last_modified)),
    }
}

/// Node `p` is a direct child of node `i`: it comes after `i`, one level deeper,
/// with only deeper nodes (descendants of `i`) between them.
pub open spec fn is_child(nodes: Seq<SyntaxNode>, i: int, p: int) -> bool {
    &&& 0 <= i < p < nodes.len()
    &&& nodes[p].depth == nodes[i].depth + 1
    &&& forall|q: int| i < q < p ==> nodes[q].depth > nodes[i].depth
}

/// The scan for a name child from `j` on finds the first direct child from
/// there whose kind names something, given that none before `j` does.
proof fn lemma_name_child_from(nodes: Seq<SyntaxNode>, i: int, j: int)
    requires
        0 <= i < j <= nodes.len(),
        forall|q: int| i < q < j ==> nodes[q].depth > nodes[i].depth,
        forall|q: int| i < q < j && #[trigger] nodes[q].depth == nodes[i].depth + 1 ==> !is_name_kind(nodes[q].kind@),
    ensures
        match name_child_from(nodes, nodes[i].depth, j) {
            Some(c) => is_child(nodes, i, c) && is_name_kind(nodes[c].kind@)
                && forall|p: int| i < p < c && #[trigger] is_child(nodes, i, p) ==> !is_name_kind(nodes[p].kind@),
            None => forall|p: int| #[trigger] is_child(nodes, i, p) ==> !is_name_kind(nodes[p].kind@),
        },
    decreases nodes.len() - j,
{
    let d = nodes[i].depth;
    if j >= nodes.len() {
        assert forall|p: int| #[trigger] is_child(nodes, i, p) implies !is_name_kind(nodes[p].kind@) by {
            assert(nodes[p].depth == d + 1);
        }
    } else if nodes[j].depth <= d {
        assert forall|p: int| #[trigger] is_child(nodes, i, p) implies !is_name_kind(nodes[p].kind@) by {
            if p > j {
                assert(nodes[j].depth > d);
            } else {
                assert(nodes[p].depth == d + 1);
            }
        }
    } else if nodes[j].depth == d + 1 && is_name_kind(nodes[j].kind@) {
        assert forall|p: int| i < p < j && #[trigger] is_child(nodes, i, p) implies !is_name_kind(nodes[p].kind@) by {
            assert(nodes[p].depth == d + 1);
        }
    } else {
        lemma_name_child_from(nodes, i, j + 1);
    }
}

/// The name child of a node is the first of its direct children whose kind
/// names something; a node without such a child has no name child.
pub proof fn lemma_name_child(nodes: Seq<SyntaxNode>, i: int)
    requires
        0 <= i < nodes.len(),
    ensures
        match name_child_of(nodes, i) {
            Some(c) => is_child(nodes, i, c) && is_name_kind(nodes[c].kind@)
                && forall|p: int| i < p < c && #[trigger] is_child(nodes, i, p) ==> !is_name_kind(nodes[p].kind@),
            None => forall|p: int| #[trigger] is_child(nodes, i, p) ==> !is_name_kind(nodes[p].kind@),
        },
{
    lemma_name_child_from(nodes, i, i + 1);
}

} // verus!
