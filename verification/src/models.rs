//! The data model of an index: symbols, indexed files and the codebase index.
use vstd::prelude::*;
use crate::clock::unix_time_secs;
use crate::str_map::{StrMap, lemma_map_of_lookup};
use vstd::string::StringExecFns;

verus! {

/// The kind of a code symbol.
#[derive(Debug, Clone, Copy, PartialEq, Eq, Structural)]
pub enum SymbolKind {
    Function,
    Method,
    Class,
    Struct,
    Interface,
    Enum,
    Constant,
    Variable,
    Import,
    Export,
}

/// A code symbol (function, class, method, ...).
#[derive(Debug)]
pub struct CodeSymbol {
    pub name: String,
    pub kind: SymbolKind,
    pub file_path: String,
    pub start_line: usize,
    pub end_line: usize,
    pub signature: Option<String>,
    pub doc_comment: Option<String>,
    /// The enclosing symbol, for nested symbols.
    pub parent: Option<String>,
}

/// A copy of an optional string.
pub fn clone_opt_string(s: &Option<String>) -> (r: Option<String>)
    ensures
        r == *s,
{
    match s {
        Some(t) => Some(t.clone()),
        None => None,
    }
}

impl Clone for CodeSymbol {
    fn clone(&self) -> (r: Self)
        ensures
            r == *self,
    {
        CodeSymbol {
            name: self.name.clone(),
            kind: self.kind,
            file_path: self.file_path.clone(),
            start_line: self.start_line,
            end_line: self.end_line,
            signature: clone_opt_string(&self.signature),
            doc_comment: clone_opt_string(&self.doc_comment),
            parent: clone_opt_string(&self.parent),
        }
    }
}

/// A source file of the codebase with the symbols found in it.
#[derive(Debug, Clone)]
pub struct IndexedFile {
    pub path: String,
    pub language: String,
    pub symbols: Vec<CodeSymbol>,
    pub imports: Vec<String>,
    pub exports: Vec<String>,
    pub last_modified: u64,
}

/// The index of a whole codebase.
#[derive(Debug)]
pub struct CodebaseIndex {
    pub root_path: String,
    /// Indexed files by path.
    pub files: StrMap<IndexedFile>,
    /// Symbols by name, in the order they were added.
    pub symbol_map: StrMap<Vec<CodeSymbol>>,
    /// Number of files per language.
    pub language_stats: StrMap<usize>,
    pub total_files: usize,
    pub indexed_at: u64,
}

/// The symbol lists of a symbol map, as sequences.
pub open spec fn symbol_lists(m: Map<Seq<char>, Vec<CodeSymbol>>) -> Map<Seq<char>, Seq<CodeSymbol>> {
    m.map_values(|v: Vec<CodeSymbol>| v@)
}

/// The symbol lists after appending each of `syms`, in order, to the list of its name.
pub open spec fn symbols_added(m: Map<Seq<char>, Seq<CodeSymbol>>, syms: Seq<CodeSymbol>) -> Map<Seq<char>, Seq<CodeSymbol>>
    decreases syms.len(),
{
    if syms.len() == 0 {
        m
    } else {
        let prev = symbols_added(m, syms.drop_last());
        let s = syms.last();
        let existing = if prev.contains_key(s.name@) { prev[s.name@] } else { Seq::empty() };
        prev.insert(s.name@, existing.push(s))
    }
}

/// Adding symbols never loses a symbol already filed: every list present
/// before stays present and keeps its earlier entries, in order, at its start.
pub proof fn lemma_symbols_added_keeps_earlier(m: Map<Seq<char>, Seq<CodeSymbol>>, syms: Seq<CodeSymbol>, k: Seq<char>)
    requires
        m.contains_key(k),
    ensures
        symbols_added(m, syms).contains_key(k),
        m[k].len() <= symbols_added(m, syms)[k].len(),
        symbols_added(m, syms)[k].subrange(0, m[k].len() as int) == m[k],
    decreases syms.len(),
{
    if syms.len() > 0 {
        lemma_symbols_added_keeps_earlier(m, syms.drop_last(), k);
        let prev = symbols_added(m, syms.drop_last());
        if syms.last().name@ == k {
            assert(prev[k].push(syms.last()).subrange(0, m[k].len() as int) =~= prev[k].subrange(0, m[k].len() as int));
        }
    }
}

/// Adding symbols leaves the list of every name that none of them carries
/// exactly as it was (present or absent).
pub proof fn lemma_symbols_added_other_names(m: Map<Seq<char>, Seq<CodeSymbol>>, syms: Seq<CodeSymbol>, k: Seq<char>)
    requires
        forall|i: int| 0 <= i < syms.len() ==> (#[trigger] syms[i]).name@ != k,
    ensures
        symbols_added(m, syms).contains_key(k) == m.contains_key(k),
        m.contains_key(k) ==> symbols_added(m, syms)[k] == m[k],
    decreases syms.len(),
{
    if syms.len() > 0 {
        assert forall|i: int| 0 <= i < syms.drop_last().len() implies (#[trigger] syms.drop_last()[i]).name@ != k by {
            assert(syms.drop_last()[i] == syms[i]);
        }
        lemma_symbols_added_other_names(m, syms.drop_last(), k);
        assert(syms[syms.len() - 1].name@ != k);
    }
}

/// The number of files counted for `language`.
pub open spec fn language_count(stats: Map<Seq<char>, usize>, language: Seq<char>) -> nat {
    if stats.contains_key(language) { stats[language] as nat } else { 0 }
}

/// The sum of `w` over the values of a finite map.
pub open spec fn map_total<V>(m: Map<Seq<char>, V>, w: spec_fn(V) -> nat) -> nat
    decreases m.dom().len(),
    when m.dom().finite()
{
    if m.dom().len() == 0 {
        0
    } else {
        let k = m.dom().choose();
        w(m[k]) + map_total(m.remove(k), w)
    }
}

/// Taking one key out of a finite map takes its weight out of the total.
pub proof fn lemma_map_total_remove<V>(m: Map<Seq<char>, V>, w: spec_fn(V) -> nat, k: Seq<char>)
    requires
        m.dom().finite(),
        m.contains_key(k),
    ensures
        map_total(m, w) == w(m[k]) + map_total(m.remove(k), w),
    decreases m.dom().len(),
{
    let c = m.dom().choose();
    assert(m.dom().len() > 0);
    if c != k {
        let mc = m.remove(c);
        let mk = m.remove(k);
        lemma_map_total_remove(mc, w, k);
        lemma_map_total_remove(mk, w, c);
        assert(mc.remove(k) =~= mk.remove(c));
    } else {
        assert(m.remove(c) =~= m.remove(k));
    }
}

/// Setting a key of a finite map replaces its weight (none where it was absent) in the total.
pub proof fn lemma_map_total_insert<V>(m: Map<Seq<char>, V>, w: spec_fn(V) -> nat, k: Seq<char>, v: V)
    requires
        m.dom().finite(),
    ensures
        m.insert(k, v).dom().finite(),
        map_total(m.insert(k, v), w) + (if m.contains_key(k) { w(m[k]) } else { 0 }) == map_total(m, w) + w(v),
{
    let n = m.insert(k, v);
    lemma_map_total_remove(n, w, k);
    if m.contains_key(k) {
        lemma_map_total_remove(m, w, k);
        assert(n.remove(k) =~= m.remove(k));
    } else {
        assert(n.remove(k) =~= m);
    }
}

/// The number of files counted over all languages.
pub open spec fn counted_files(stats: Map<Seq<char>, usize>) -> nat {
    map_total(stats, |c: usize| c as nat)
}

/// The number of symbols filed over all names.
pub open spec fn filed_symbols(lists: Map<Seq<char>, Seq<CodeSymbol>>) -> nat {
    map_total(lists, |l: Seq<CodeSymbol>| l.len())
}

/// The number of symbols of the files stored in the index.
pub open spec fn stored_symbols(files: Map<Seq<char>, IndexedFile>) -> nat {
    map_total(files, |f: IndexedFile| f.symbols@.len())
}

/// The files stored after adding `fs` in order to an empty index.
pub open spec fn files_after(fs: Seq<IndexedFile>) -> Map<Seq<char>, IndexedFile>
    decreases fs.len(),
{
    if fs.len() == 0 {
        Map::empty()
    } else {
        files_after(fs.drop_last()).insert(fs.last().path@, fs.last())
    }
}

/// The language counts after adding `fs` in order to an empty index.
pub open spec fn stats_after(fs: Seq<IndexedFile>) -> Map<Seq<char>, usize>
    decreases fs.len(),
{
    if fs.len() == 0 {
        Map::empty()
    } else {
        let prev = stats_after(fs.drop_last());
        prev.insert(fs.last().language@, (language_count(prev, fs.last().language@) + 1) as usize)
    }
}

/// The symbol lists after adding `fs` in order to an empty index.
pub open spec fn symbols_after(fs: Seq<IndexedFile>) -> Map<Seq<char>, Seq<CodeSymbol>>
    decreases fs.len(),
{
    if fs.len() == 0 {
        Map::empty()
    } else {
        symbols_added(symbols_after(fs.drop_last()), fs.last().symbols@)
    }
}

/// The number of symbols of the files `fs`.
pub open spec fn symbols_of_files(fs: Seq<IndexedFile>) -> nat
    decreases fs.len(),
{
    if fs.len() == 0 {
        0
    } else {
        symbols_of_files(fs.drop_last()) + fs.last().symbols@.len()
    }
}

/// No two of the files share a path.
pub open spec fn paths_distinct(fs: Seq<IndexedFile>) -> bool {
    forall|i: int, j: int| 0 <= i < j < fs.len() ==> fs[i].path@ != fs[j].path@
}

/// Every symbol list is non-empty and holds only symbols of its own name.
pub open spec fn lists_by_name(m: Map<Seq<char>, Seq<CodeSymbol>>) -> bool {
    forall|k: Seq<char>| #[trigger] m.contains_key(k) ==> m[k].len() > 0 && forall|i: int| 0 <= i < m[k].len() ==> (#[trigger] m[k][i]).name@ == k
}

/// Filing symbols keeps the lists finite and by name, and adds one filed symbol per symbol.
proof fn lemma_symbols_added_totals(m: Map<Seq<char>, Seq<CodeSymbol>>, syms: Seq<CodeSymbol>)
    requires
        m.dom().finite(),
    ensures
        symbols_added(m, syms).dom().finite(),
        filed_symbols(symbols_added(m, syms)) == filed_symbols(m) + syms.len(),
        lists_by_name(m) ==> lists_by_name(symbols_added(m, syms)),
    decreases syms.len(),
{
    if syms.len() > 0 {
        let p = symbols_added(m, syms.drop_last());
        lemma_symbols_added_totals(m, syms.drop_last());
        let s = syms.last();
        let existing = if p.contains_key(s.name@) { p[s.name@] } else { Seq::empty() };
        lemma_map_total_insert(p, |l: Seq<CodeSymbol>| l.len(), s.name@, existing.push(s));
        if lists_by_name(m) {
            let q = p.insert(s.name@, existing.push(s));
            assert forall|k: Seq<char>| #[trigger] q.contains_key(k) implies q[k].len() > 0 && forall|i: int| 0 <= i < q[k].len() ==> (#[trigger] q[k][i]).name@ == k by {
                if k == s.name@ {
                    assert forall|i: int| 0 <= i < q[k].len() implies (#[trigger] q[k][i]).name@ == k by {
                        if i < existing.len() {
                            assert(q[k][i] == p[k][i]);
                        }
                    }
                }
            }
        }
    }
}

/// The files stored after adding `fs` are exactly those under the paths of `fs`,
/// each under its own path.
proof fn lemma_files_after(fs: Seq<IndexedFile>)
    ensures
        files_after(fs).dom().finite(),
        forall|k: Seq<char>| #[trigger] files_after(fs).contains_key(k) <==> exists|i: int| 0 <= i < fs.len() && fs[i].path@ == k,
        forall|k: Seq<char>| #[trigger] files_after(fs).contains_key(k) ==> files_after(fs)[k].path@ == k,
        paths_distinct(fs) ==> files_after(fs).len() == fs.len() && stored_symbols(files_after(fs)) == symbols_of_files(fs),
    decreases fs.len(),
{
    if fs.len() > 0 {
        let p = fs.drop_last();
        let f = fs.last();
        lemma_files_after(p);
        let prev = files_after(p);
        assert forall|k: Seq<char>| #[trigger] files_after(fs).contains_key(k) <==> exists|i: int| 0 <= i < fs.len() && fs[i].path@ == k by {
            if files_after(fs).contains_key(k) && k != f.path@ {
                let i = choose|i: int| 0 <= i < p.len() && p[i].path@ == k;
                assert(fs[i] == p[i]);
            }
            if k == f.path@ {
                assert(fs[fs.len() - 1].path@ == k);
            }
            if exists|i: int| 0 <= i < fs.len() && fs[i].path@ == k {
                let i = choose|i: int| 0 <= i < fs.len() && fs[i].path@ == k;
                if i < fs.len() - 1 {
                    assert(p[i] == fs[i]);
                }
            }
        }
        lemma_map_total_insert(prev, |x: IndexedFile| x.symbols@.len(), f.path@, f);
        if paths_distinct(fs) {
            assert(paths_distinct(p)) by {
                assert forall|i: int, j: int| 0 <= i < j < p.len() implies p[i].path@ != p[j].path@ by {
                    assert(p[i] == fs[i] && p[j] == fs[j]);
                }
            }
            if prev.contains_key(f.path@) {
                let i = choose|i: int| 0 <= i < p.len() && p[i].path@ == f.path@;
                assert(fs[i] == p[i]);
                assert(fs[i].path@ != fs[fs.len() - 1].path@);
            }
            assert(!prev.dom().contains(f.path@));
        }
    }
}

/// The language counts after adding `fs` count each file once, and none exceeds `fs.len()`.
proof fn lemma_stats_after(fs: Seq<IndexedFile>)
    requires
        fs.len() <= usize::MAX,
    ensures
        stats_after(fs).dom().finite(),
        counted_files(stats_after(fs)) == fs.len(),
        forall|k: Seq<char>| #[trigger] stats_after(fs).contains_key(k) ==> stats_after(fs)[k] <= fs.len(),
    decreases fs.len(),
{
    if fs.len() > 0 {
        let p = fs.drop_last();
        let l = fs.last().language@;
        lemma_stats_after(p);
        let prev = stats_after(p);
        let c = language_count(prev, l);
        assert(c <= p.len());
        lemma_map_total_insert(prev, |x: usize| x as nat, l, (c + 1) as usize);
    }
}

/// The symbol lists after adding `fs` are by name and hold every symbol of `fs` once.
proof fn lemma_symbols_after(fs: Seq<IndexedFile>)
    ensures
        symbols_after(fs).dom().finite(),
        lists_by_name(symbols_after(fs)),
        filed_symbols(symbols_after(fs)) == symbols_of_files(fs),
    decreases fs.len(),
{
    if fs.len() == 0 {
        assert(symbols_after(fs).dom() =~= Set::<Seq<char>>::empty());
    } else {
        lemma_symbols_after(fs.drop_last());
        lemma_symbols_added_totals(symbols_after(fs.drop_last()), fs.last().symbols@);
    }
}

impl CodebaseIndex {
    /// Consistency of the index: every file is stored under its own path,
    /// every symbol under its own name, and no language counts more files
    /// than the index holds.
    pub open spec fn wf(&self) -> bool {
        &&& forall|k: Seq<char>| #[trigger] self.files@.contains_key(k) ==> self.files@[k].path@ == k
        &&& forall|k: Seq<char>, i: int| #[trigger] self.symbol_map@.contains_key(k) && 0 <= i < self.symbol_map@[k]@.len()
            ==> (#[trigger] self.symbol_map@[k]@[i]).name@ == k
        &&& forall|k: Seq<char>| #[trigger] self.language_stats@.contains_key(k) ==> self.language_stats@[k] <= self.total_files
    }

    /// The index holds what an empty index holds after `add_file` of each of `fs`, in order.
    pub open spec fn built_from(&self, fs: Seq<IndexedFile>) -> bool {
        &&& self.files@ == files_after(fs)
        &&& self.language_stats@ == stats_after(fs)
        &&& symbol_lists(self.symbol_map@) == symbols_after(fs)
        &&& self.total_files == fs.len()
    }

    /// An empty index of `root_path`, stamped with `indexed_at`.
    pub fn with_timestamp(root_path: String, indexed_at: u64) -> (r: Self)
        ensures
            r.root_path == root_path,
            r.files@ == Map::<Seq<char>, IndexedFile>::empty(),
            r.symbol_map@ == Map::<Seq<char>, Vec<CodeSymbol>>::empty(),
            r.language_stats@ == Map::<Seq<char>, usize>::empty(),
            r.total_files == 0,
            r.indexed_at == indexed_at,
            r.wf(),
            r.built_from(Seq::empty()),
    {
        let r = CodebaseIndex {
            root_path,
            files: StrMap::new(),
            symbol_map: StrMap::new(),
            language_stats: StrMap::new(),
            total_files: 0,
            indexed_at,
        };
        assert(symbol_lists(r.symbol_map@) =~= symbols_after(Seq::empty()));
        r
    }

    /// An empty index of `root_path`, stamped with the current time.
    pub fn new(root_path: String) -> (r: Self)
        ensures
            r.root_path == root_path,
            r.files@ == Map::<Seq<char>, IndexedFile>::empty(),
            r.symbol_map@ == Map::<Seq<char>, Vec<CodeSymbol>>::empty(),
            r.language_stats@ == Map::<Seq<char>, usize>::empty(),
            r.total_files == 0,
            r.wf(),
            r.built_from(Seq::empty()),
    {
        let now = unix_time_secs();
        Self::with_timestamp(root_path, now)
    }

    /// Adds a file: counts it for its language, files each of its symbols
    /// under the symbol's name, and stores it under its path.
    pub fn add_file(&mut self, file: IndexedFile)
        requires
            old(self).total_files < usize::MAX,
            language_count(old(self).language_stats@, file.language@) < usize::MAX,
        ensures
            old(self).wf() ==> final(self).wf(),
            final(self).root_path == old(self).root_path,
            final(self).indexed_at == old(self).indexed_at,
            final(self).total_files == old(self).total_files + 1,
            final(self).language_stats@ == old(self).language_stats@.insert(
                file.language@,
                (language_count(old(self).language_stats@, file.language@) + 1) as usize,
            ),
            symbol_lists(final(self).symbol_map@) == symbols_added(symbol_lists(old(self).symbol_map@), file.symbols@),
            final(self).files@ == old(self).files@.insert(file.path@, file),
            forall|fs: Seq<IndexedFile>| #[trigger] old(self).built_from(fs) ==> final(self).built_from(fs.push(file)),
    {
        let ghost old_self = *self;
        // Count the file for its language.
        let count: usize = match self.language_stats.get(file.language.as_str()) {
            Some(c) => *c,
            None => 0,
        };
        self.language_stats.insert(file.language.clone(), count + 1);
        self.total_files = self.total_files + 1;
        proof {
            if old_self.wf() {
                assert forall|k: Seq<char>| #[trigger] self.language_stats@.contains_key(k) implies self.language_stats@[k] <= self.total_files by {
                    if k != file.language@ {
                        assert(old_self.language_stats@.contains_key(k));
                    }
                }
            }
        }

        // File each symbol under its name.
        let n = file.symbols.len();
        for i in 0..n
            invariant
                n == file.symbols@.len(),
                self.files@ == old_self.files@,
                self.language_stats@ == old_self.language_stats@.insert(
                    file.language@,
                    (language_count(old_self.language_stats@, file.language@) + 1) as usize,
                ),
                self.total_files == old_self.total_files + 1,
                self.root_path == old_self.root_path,
                self.indexed_at == old_self.indexed_at,
                old_self.wf() ==> forall|k: Seq<char>| #[trigger] self.language_stats@.contains_key(k) ==> self.language_stats@[k] <= self.total_files,
                symbol_lists(self.symbol_map@) == symbols_added(symbol_lists(old_self.symbol_map@), file.symbols@.take(i as int)),
                old_self.wf() ==> forall|k: Seq<char>, j: int| #[trigger] self.symbol_map@.contains_key(k) && 0 <= j < self.symbol_map@[k]@.len()
                    ==> (#[trigger] self.symbol_map@[k]@[j]).name@ == k,
        {
            let sym = &file.symbols[i];
            let ghost before = self.symbol_map@;
            let mut list: Vec<CodeSymbol> = match self.symbol_map.remove(sym.name.as_str()) {
                Some(v) => v,
                None => Vec::new(),
            };
            list.push(sym.clone());
            self.symbol_map.insert(sym.name.clone(), list);
            proof {
                let s = file.symbols@.take(i + 1);
                assert(s.drop_last() =~= file.symbols@.take(i as int));
                assert(s.last() == file.symbols@[i as int]);
                let prev = symbols_added(symbol_lists(old_self.symbol_map@), file.symbols@.take(i as int));
                assert(prev == symbol_lists(before));
                assert(symbol_lists(self.symbol_map@) =~= symbols_added(symbol_lists(old_self.symbol_map@), s));
                assert forall|k: Seq<char>, j: int| old_self.wf() && #[trigger] self.symbol_map@.contains_key(k) && 0 <= j < self.symbol_map@[k]@.len()
                    implies (#[trigger] self.symbol_map@[k]@[j]).name@ == k by {
                    if k != sym.name@ {
                        assert(before.contains_key(k));
                    } else if j < self.symbol_map@[k]@.len() - 1 {
                        assert(before.contains_key(k));
                        assert(self.symbol_map@[k]@[j] == before[k]@[j]);
                    }
                }
            }
        }
        proof {
            assert(file.symbols@.take(n as int) =~= file.symbols@);
        }

        // Store the file under its path.
        let path = file.path.clone();
        self.files.insert(path, file);
        proof {
            assert forall|k: Seq<char>| old_self.wf() && #[trigger] self.files@.contains_key(k) implies self.files@[k].path@ == k by {
                if k != file.path@ {
                    assert(old_self.files@.contains_key(k));
                }
            }
            assert forall|fs: Seq<IndexedFile>| #[trigger] old_self.built_from(fs) implies self.built_from(fs.push(file)) by {
                assert(fs.push(file).drop_last() =~= fs);
                assert(fs.push(file).last() == file);
            }
        }
    }
}

/// An index built by `new` (or `with_timestamp`) and `add_file` of `fs`, in
/// order: it is consistent; its language counts add up to its file count,
/// which is the number of files added; every symbol list is non-empty and
/// holds only symbols of its name; its lists hold every symbol added once;
/// and where the paths are distinct it stores one file per call, with as many
/// symbols as its lists hold.
pub proof fn lemma_built_index(index: &CodebaseIndex, fs: Seq<IndexedFile>)
    requires
        index.built_from(fs),
    ensures
        index.wf(),
        index.total_files == fs.len(),
        counted_files(index.language_stats@) == index.total_files,
        lists_by_name(symbol_lists(index.symbol_map@)),
        filed_symbols(symbol_lists(index.symbol_map@)) == symbols_of_files(fs),
        paths_distinct(fs) ==> index.files@.len() == fs.len()
            && stored_symbols(index.files@) == filed_symbols(symbol_lists(index.symbol_map@)),
{
    lemma_files_after(fs);
    lemma_stats_after(fs);
    lemma_symbols_after(fs);
    let m = index.symbol_map@;
    assert forall|k: Seq<char>, i: int| #[trigger] m.contains_key(k) && 0 <= i < m[k]@.len() implies (#[trigger] m[k]@[i]).name@ == k by {
        assert(symbol_lists(m).contains_key(k));
        assert(symbol_lists(m)[k] == m[k]@);
        assert(symbol_lists(m)[k][i] == m[k]@[i]);
    }
}

/// A copy of a list of symbols.
pub fn clone_symbols(v: &Vec<CodeSymbol>) -> (r: Vec<CodeSymbol>)
    ensures
        r@ == v@,
{
    let mut out: Vec<CodeSymbol> = Vec::new();
    let n = v.len();
    for i in 0..n
        invariant
            n == v@.len(),
            out@ == v@.take(i as int),
    {
        out.push(v[i].clone());
        assert(v@.take(i + 1) =~= v@.take(i as int).push(v@[i as int]));
    }
    assert(v@.take(n as int) =~= v@);
    out
}

/// The symbols of the file stored under `file_path`, or the error naming the
/// missing file.
pub fn file_symbols(index: &CodebaseIndex, file_path: &str) -> (r: Result<Vec<CodeSymbol>, String>)
    ensures
        match r {
            Ok(syms) => index.files@.contains_key(file_path@) && syms@ == index.files@[file_path@].symbols@,
            Err(e) => !index.files@.contains_key(file_path@) && e@ == "File not found: "@ + file_path@,
        },
{
    match index.files.get(file_path) {
        Some(f) => Ok(clone_symbols(&f.symbols)),
        None => {
            let mut e = String::from_str("File not found: ");
            e.append(file_path);
            Err(e)
        }
    }
}

/// The number of symbols in a list of file entries.
pub open spec fn symbol_count(e: Seq<(String, IndexedFile)>) -> nat
    decreases e.len(),
{
    if e.len() == 0 {
        0
    } else {
        symbol_count(e.drop_last()) + e.last().1.symbols@.len()
    }
}

/// The key texts of a list of entries.
pub open spec fn entry_keys<V>(e: Seq<(String, V)>) -> Seq<Seq<char>> {
    e.map_values(|x: (String, V)| x.0@)
}

/// The outcome of an indexing run.
#[derive(Debug)]
pub struct IndexResult {
    pub success: bool,
    pub total_files: usize,
    pub total_symbols: usize,
    pub languages: Vec<String>,
    pub duration_ms: u64,
    pub errors: Vec<String>,
}

impl IndexResult {
    /// The successful outcome of indexing (or loading) `index` in
    /// `duration_ms` milliseconds: its file count, its symbol count and its
    /// languages, each once.
    pub fn for_index(index: &CodebaseIndex, duration_ms: u64) -> (r: Self)
        requires
            symbol_count(index.files.entry_seq()) <= usize::MAX,
        ensures
            r.success,
            r.total_files == index.total_files,
            r.total_symbols == symbol_count(index.files.entry_seq()),
            entry_keys(index.language_stats.entry_seq()) == r.languages@.map_values(|s: String| s@),
            r.languages@.map_values(|s: String| s@).to_set() == index.language_stats@.dom(),
            r.languages@.map_values(|s: String| s@).no_duplicates(),
            r.duration_ms == duration_ms,
            r.errors@.len() == 0,
    {
        let files = index.files.entries();
        let n = files.len();
        let mut total: usize = 0;
        for i in 0..n
            invariant
                n == files@.len(),
                files@ == index.files.entry_seq(),
                symbol_count(files@) <= usize::MAX,
                total == symbol_count(files@.take(i as int)),
        {
            proof {
                assert(files@.take(i + 1).drop_last() =~= files@.take(i as int));
                lemma_symbol_count_prefix(files@, i + 1);
            }
            total = total + files[i].1.symbols.len();
        }
        proof {
            assert(files@.take(n as int) =~= files@);
        }

        let stats = index.language_stats.entries();
        let m = stats.len();
        let mut languages: Vec<String> = Vec::new();
        for i in 0..m
            invariant
                m == stats@.len(),
                languages@.map_values(|s: String| s@) == entry_keys(stats@.take(i as int)),
        {
            let ghost before = languages@;
            languages.push(stats[i].0.clone());
            proof {
                assert(languages@.map_values(|s: String| s@) =~= before.map_values(|s: String| s@).push(stats@[i as int].0@));
                assert(entry_keys(stats@.take(i + 1)) =~= entry_keys(stats@.take(i as int)).push(stats@[i as int].0@));
            }
        }
        proof {
            assert(stats@.take(m as int) =~= stats@);
            let keys = languages@.map_values(|s: String| s@);
            assert(keys.to_set() =~= index.language_stats@.dom()) by {
                assert forall|k: Seq<char>| keys.to_set().contains(k) <==> index.language_stats@.dom().contains(k) by {
                    lemma_map_of_lookup(stats@, k);
                    if keys.to_set().contains(k) {
                        let j = choose|j: int| 0 <= j < keys.len() && keys[j] == k;
                        assert(stats@[j].0@ == k);
                    }
                    if index.language_stats@.dom().contains(k) {
                        let j = choose|j: int| 0 <= j < stats@.len() && stats@[j].0@ == k;
                        assert(keys[j] == k);
                    }
                }
            }
            assert(keys.no_duplicates()) by {
                assert forall|a: int, b: int| 0 <= a < keys.len() && 0 <= b < keys.len() && a != b implies keys[a] != keys[b] by {
                    if a < b {
                        assert(keys[a] == stats@[a].0@ && keys[b] == stats@[b].0@);
                    } else {
                        assert(keys[a] == stats@[a].0@ && keys[b] == stats@[b].0@);
                    }
                }
            }
        }
        IndexResult {
            success: true,
            total_files: index.total_files,
            total_symbols: total,
            languages,
            duration_ms,
            errors: Vec::new(),
        }
    }
}

/// The symbol count of a prefix is at most that of the whole list.
pub proof fn lemma_symbol_count_prefix(e: Seq<(String, IndexedFile)>, i: int)
    requires
        0 <= i <= e.len(),
    ensures
        symbol_count(e.take(i)) <= symbol_count(e),
    decreases e.len(),
{
    if i < e.len() {
        assert(e.drop_last().take(i) =~= e.take(i));
        lemma_symbol_count_prefix(e.drop_last(), i);
    } else {
        assert(e.take(i) =~= e);
    }
}

/// A query on the index.
#[derive(Debug)]
pub struct IndexQuery {
    pub keywords: Vec<String>,
    pub symbol_kinds: Option<Vec<SymbolKind>>,
    pub file_patterns: Option<Vec<String>>,
    pub max_results: Option<usize>,
}

} // verus!
