//! The text of a symbol that its embedding is computed from.
use vstd::prelude::*;
use vstd::string::StringExecFns;
use crate::models::{CodeSymbol, SymbolKind};
use crate::text::{has_prefix, has_substring, has_suffix, occurs_at};

verus! {

/// The name of a symbol kind, as its `Debug` form writes it.
pub open spec fn kind_name(k: SymbolKind) -> Seq<char> {
    match k {
        SymbolKind::Function => "Function"@,
        SymbolKind::Method => "Method"@,
        SymbolKind::Class => "Class"@,
        SymbolKind::Struct => "Struct"@,
        SymbolKind::Interface => "Interface"@,
        SymbolKind::Enum => "Enum"@,
        SymbolKind::Constant => "Constant"@,
        SymbolKind::Variable => "Variable"@,
        SymbolKind::Import => "Import"@,
        SymbolKind::Export => "Export"@,
    }
}

/// The name of a symbol kind, as its `Debug` form writes it.
pub fn kind_name_str(k: SymbolKind) -> (r: &'static str)
    ensures
        r@ == kind_name(k),
{
    match k {
        SymbolKind::Function => "Function",
        SymbolKind::Method => "Method",
        SymbolKind::Class => "Class",
        SymbolKind::Struct => "Struct",
        SymbolKind::Interface => "Interface",
        SymbolKind::Enum => "Enum",
        SymbolKind::Constant => "Constant",
        SymbolKind::Variable => "Variable",
        SymbolKind::Import => "Import",
        SymbolKind::Export => "Export",
    }
}

/// The text of a symbol: its name, its kind, its signature and its doc
/// comment (those present), separated by single spaces.
pub open spec fn symbol_text(s: CodeSymbol) -> Seq<char> {
    let base = s.name@ + " "@ + kind_name(s.kind);
    let with_signature = match s.signature {
        Some(sig) => base + " "@ + sig@,
        None => base,
    };
    match s.doc_comment {
        Some(doc) => with_signature + " "@ + doc@,
        None => with_signature,
    }
}

/// Converts a symbol to the text its embedding is computed from.
pub fn symbol_to_text(symbol: &CodeSymbol) -> (r: String)
    ensures
        r@ == symbol_text(*symbol),
{
    let mut text = symbol.name.clone();
    text.append(" ");
    text.append(kind_name_str(symbol.kind));
    if let Some(sig) = &symbol.signature {
        text.append(" ");
        text.append(sig.as_str());
    }
    if let Some(doc) = &symbol.doc_comment {
        text.append(" ");
        text.append(doc.as_str());
    }
    text
}

/// The embedding text of a symbol begins with its name, a space and its kind;
/// a signature, when there is one, follows after a space, and a doc comment,
/// when there is one, closes the text after a space. So the text holds the
/// signature and the doc comment whenever the symbol has them.
pub proof fn lemma_symbol_text_parts(s: CodeSymbol)
    ensures
        has_prefix(symbol_text(s), s.name@ + " "@ + kind_name(s.kind)),
        s.signature matches Some(sig) ==> has_substring(symbol_text(s), sig@),
        s.doc_comment matches Some(doc) ==> has_suffix(symbol_text(s), " "@ + doc@),
        s.signature matches Some(sig) ==> symbol_text(s) == match s.doc_comment {
            Some(doc) => s.name@ + " "@ + kind_name(s.kind) + " "@ + sig@ + " "@ + doc@,
            None => s.name@ + " "@ + kind_name(s.kind) + " "@ + sig@,
        },
        s.signature is None ==> symbol_text(s) == match s.doc_comment {
            Some(doc) => s.name@ + " "@ + kind_name(s.kind) + " "@ + doc@,
            None => s.name@ + " "@ + kind_name(s.kind),
        },
{
    reveal_strlit(" ");
    let t = symbol_text(s);
    let base = s.name@ + " "@ + kind_name(s.kind);
    assert(t.subrange(0, base.len() as int) =~= base);
    if let Some(sig) = s.signature {
        let at = (base.len() + 1) as int;
        let w = base + " "@ + sig@;
        assert(w.subrange(at, at + sig@.len()) =~= sig@);
        assert(t.subrange(at, at + sig@.len()) =~= w.subrange(at, at + sig@.len()));
        assert(occurs_at(t, sig@, at));
    }
    if let Some(doc) = s.doc_comment {
        let d = " "@ + doc@;
        assert(t.subrange(t.len() - d.len(), t.len() as int) =~= d);
    }
}

} // verus!
