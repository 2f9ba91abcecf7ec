//! Keyword search over the symbol map: exact, normalized and partial name
//! matches, deduplicated by location and ranked by match quality.
use vstd::prelude::*;
use crate::models::{CodeSymbol, CodebaseIndex, IndexQuery};
use crate::text::{chars_of, contains_run, has_substring, same_text, spec_to_lowercase, to_lowercase};
use crate::text_normalizer::{name_tokens, spec_unicode_words, symbol_terms, text_terms, texts, TextNormalizer};

verus! {

/// How a symbol matched a keyword, from weakest to strongest.
#[derive(Debug, Clone, Copy, PartialEq, Eq, Structural)]
pub enum MatchTier {
    /// The lowercased name contains the lowercased keyword.
    Partial,
    /// The name shares a normalized search term with the keyword.
    Normalized,
    /// The name is the keyword.
    Exact,
}

/// The strength of a tier: 3 for exact, 2 for normalized, 1 for partial.
pub open spec fn tier_rank(t: MatchTier) -> nat {
    match t {
        MatchTier::Partial => 1,
        MatchTier::Normalized => 2,
        MatchTier::Exact => 3,
    }
}

/// The strength of a tier, as `tier_rank` states it.
pub fn tier_value(t: MatchTier) -> (r: u8)
    ensures
        r == tier_rank(t),
{
    match t {
        MatchTier::Partial => 1,
        MatchTier::Normalized => 2,
        MatchTier::Exact => 3,
    }
}

/// A symbol found by a search, with how it matched.
#[derive(Debug)]
pub struct SymbolHit {
    pub symbol: CodeSymbol,
    pub tier: MatchTier,
}

impl Clone for SymbolHit {
    fn clone(&self) -> (r: Self)
        ensures
            r == *self,
    {
        SymbolHit { symbol: self.symbol.clone(), tier: self.tier }
    }
}

/// Each symbol of `syms`, tagged with tier `t`.
pub open spec fn tagged(syms: Seq<CodeSymbol>, t: MatchTier) -> Seq<SymbolHit> {
    syms.map_values(|s: CodeSymbol| SymbolHit { symbol: s, tier: t })
}

/// The symbols named exactly `k`.
pub open spec fn exact_hits(m: Map<Seq<char>, Vec<CodeSymbol>>, k: Seq<char>) -> Seq<SymbolHit> {
    if m.contains_key(k) {
        tagged(m[k]@, MatchTier::Exact)
    } else {
        Seq::empty()
    }
}

/// The search terms of a symbol name.
pub open spec fn name_terms(name: Seq<char>) -> Seq<Seq<char>> {
    symbol_terms(name_tokens(name))
}

/// The symbols, in entry order, whose name has the search term `t`.
pub open spec fn term_hits(e: Seq<(String, Vec<CodeSymbol>)>, t: Seq<char>) -> Seq<SymbolHit>
    decreases e.len(),
{
    if e.len() == 0 {
        Seq::empty()
    } else {
        let last = e.last();
        term_hits(e.drop_last(), t) + if name_terms(last.0@).contains(t) {
            tagged(last.1@, MatchTier::Normalized)
        } else {
            Seq::empty()
        }
    }
}

/// The symbols sharing each of `terms` in turn.
pub open spec fn normalized_hits(e: Seq<(String, Vec<CodeSymbol>)>, terms: Seq<Seq<char>>) -> Seq<SymbolHit>
    decreases terms.len(),
{
    if terms.len() == 0 {
        Seq::empty()
    } else {
        normalized_hits(e, terms.drop_last()) + term_hits(e, terms.last())
    }
}

/// A name partly matches `k`: its lowercase form contains that of `k`, and it is not `k`.
pub open spec fn partial_match(name: Seq<char>, k: Seq<char>) -> bool {
    has_substring(spec_to_lowercase(name), spec_to_lowercase(k)) && name != k
}

/// The symbols, in entry order, whose name partly matches `k`.
pub open spec fn partial_hits(e: Seq<(String, Vec<CodeSymbol>)>, k: Seq<char>) -> Seq<SymbolHit>
    decreases e.len(),
{
    if e.len() == 0 {
        Seq::empty()
    } else {
        let last = e.last();
        partial_hits(e.drop_last(), k) + if partial_match(last.0@, k) {
            tagged(last.1@, MatchTier::Partial)
        } else {
            Seq::empty()
        }
    }
}

/// All matches of one keyword: exact, then normalized, then partial.
pub open spec fn keyword_hits(m: Map<Seq<char>, Vec<CodeSymbol>>, e: Seq<(String, Vec<CodeSymbol>)>, k: Seq<char>) -> Seq<SymbolHit> {
    exact_hits(m, k) + normalized_hits(e, text_terms(spec_unicode_words(k))) + partial_hits(e, k)
}

/// All matches of the keywords, keyword by keyword.
pub open spec fn all_hits(m: Map<Seq<char>, Vec<CodeSymbol>>, e: Seq<(String, Vec<CodeSymbol>)>, ks: Seq<Seq<char>>) -> Seq<SymbolHit>
    decreases ks.len(),
{
    if ks.len() == 0 {
        Seq::empty()
    } else {
        all_hits(m, e, ks.drop_last()) + keyword_hits(m, e, ks.last())
    }
}

/// Appends each symbol of `syms`, tagged with `t`.
fn push_tagged(out: &mut Vec<SymbolHit>, syms: &Vec<CodeSymbol>, t: MatchTier)
    ensures
        final(out)@ == old(out)@ + tagged(syms@, t),
{
    let n = syms.len();
    for i in 0..n
        invariant
            n == syms@.len(),
            out@ == old(out)@ + tagged(syms@.take(i as int), t),
    {
        let ghost before = out@;
        out.push(SymbolHit { symbol: syms[i].clone(), tier: t });
        proof {
            assert(tagged(syms@.take(i + 1), t) =~= tagged(syms@.take(i as int), t).push(SymbolHit { symbol: syms@[i as int], tier: t }));
        }
    }
    proof {
        assert(syms@.take(n as int) =~= syms@);
    }
}

/// Whether `t` is one of the strings of `v`.
fn has_text(v: &Vec<String>, t: &str) -> (r: bool)
    ensures
        r == texts(v@).contains(t@),
{
    let n = v.len();
    for i in 0..n
        invariant
            n == v@.len(),
            forall|j: int| 0 <= j < i ==> v@[j]@ != t@,
    {
        if same_text(v[i].as_str(), t) {
            assert(texts(v@)[i as int] == t@);
            return true;
        }
    }
    proof {
        if texts(v@).contains(t@) {
            let j = choose|j: int| 0 <= j < texts(v@).len() && texts(v@)[j] == t@;
            assert(v@[j]@ == t@);
        }
    }
    false
}

/// The search terms of each entry's name, in entry order.
fn entry_terms(normalizer: &TextNormalizer, e: &Vec<(String, Vec<CodeSymbol>)>) -> (r: Vec<Vec<String>>)
    ensures
        r@.len() == e@.len(),
        forall|i: int| 0 <= i < e@.len() ==> texts(#[trigger] r@[i]@) == name_terms(e@[i].0@),
{
    let n = e.len();
    let mut r: Vec<Vec<String>> = Vec::new();
    for i in 0..n
        invariant
            n == e@.len(),
            r@.len() == i,
            forall|j: int| 0 <= j < i ==> texts(#[trigger] r@[j]@) == name_terms(e@[j].0@),
    {
        let terms = normalizer.normalize_symbol(e[i].0.as_str());
        r.push(terms);
    }
    r
}

/// Appends the symbols whose name has the search term `t`.
fn push_term_hits(out: &mut Vec<SymbolHit>, e: &Vec<(String, Vec<CodeSymbol>)>, terms: &Vec<Vec<String>>, t: &str)
    requires
        terms@.len() == e@.len(),
        forall|i: int| 0 <= i < e@.len() ==> texts(#[trigger] terms@[i]@) == name_terms(e@[i].0@),
    ensures
        final(out)@ == old(out)@ + term_hits(e@, t@),
{
    let n = e.len();
    for i in 0..n
        invariant
            n == e@.len(),
            terms@.len() == e@.len(),
            forall|i: int| 0 <= i < e@.len() ==> texts(#[trigger] terms@[i]@) == name_terms(e@[i].0@),
            out@ == old(out)@ + term_hits(e@.take(i as int), t@),
    {
        let ghost before = out@;
        proof {
            assert(e@.take(i + 1).drop_last() =~= e@.take(i as int));
            assert(e@.take(i + 1).last() == e@[i as int]);
            assert(texts(terms@[i as int]@) == name_terms(e@[i as int].0@));
        }
        if has_text(&terms[i], t) {
            push_tagged(out, &e[i].1, MatchTier::Normalized);
            assert(out@ =~= old(out)@ + term_hits(e@.take(i + 1), t@));
        } else {
            assert(out@ =~= old(out)@ + term_hits(e@.take(i + 1), t@));
        }
    }
    proof {
        assert(e@.take(n as int) =~= e@);
    }
}

/// Appends the symbols whose name partly matches `k`.
fn push_partial_hits(out: &mut Vec<SymbolHit>, e: &Vec<(String, Vec<CodeSymbol>)>, k: &str)
    ensures
        final(out)@ == old(out)@ + partial_hits(e@, k@),
{
    let k_lower = to_lowercase(k);
    let k_chars = chars_of(k_lower.as_str());
    let n = e.len();
    for i in 0..n
        invariant
            n == e@.len(),
            k_chars@ == spec_to_lowercase(k@),
            out@ == old(out)@ + partial_hits(e@.take(i as int), k@),
    {
        proof {
            assert(e@.take(i + 1).drop_last() =~= e@.take(i as int));
            assert(e@.take(i + 1).last() == e@[i as int]);
        }
        let name = e[i].0.as_str();
        let name_lower = to_lowercase(name);
        let name_chars = chars_of(name_lower.as_str());
        if contains_run(&name_chars, &k_chars) && !same_text(name, k) {
            push_tagged(out, &e[i].1, MatchTier::Partial);
            assert(out@ =~= old(out)@ + partial_hits(e@.take(i + 1), k@));
        } else {
            assert(out@ =~= old(out)@ + partial_hits(e@.take(i + 1), k@));
        }
    }
    proof {
        assert(e@.take(n as int) =~= e@);
    }
}

/// Appends every match of one keyword: exact, normalized, then partial.
fn push_keyword_hits(
    out: &mut Vec<SymbolHit>,
    index: &CodebaseIndex,
    normalizer: &TextNormalizer,
    terms: &Vec<Vec<String>>,
    k: &str,
)
    requires
        terms@.len() == index.symbol_map.entry_seq().len(),
        forall|i: int| 0 <= i < terms@.len() ==> texts(#[trigger] terms@[i]@) == name_terms(index.symbol_map.entry_seq()[i].0@),
    ensures
        final(out)@ == old(out)@ + keyword_hits(index.symbol_map@, index.symbol_map.entry_seq(), k@),
{
    let e = index.symbol_map.entries();
    let ghost start = out@;
    match index.symbol_map.get(k) {
        Some(syms) => push_tagged(out, syms, MatchTier::Exact),
        None => {},
    }
    let ghost after_exact = out@;
    assert(after_exact == start + exact_hits(index.symbol_map@, k@));
    let kterms = normalizer.normalize(k);
    let nt = kterms.len();
    for j in 0..nt
        invariant
            nt == kterms@.len(),
            e@ == index.symbol_map.entry_seq(),
            terms@.len() == e@.len(),
            forall|i: int| 0 <= i < e@.len() ==> texts(#[trigger] terms@[i]@) == name_terms(e@[i].0@),
            out@ == after_exact + normalized_hits(e@, texts(kterms@).take(j as int)),
    {
        let ghost before = out@;
        push_term_hits(out, e, terms, kterms[j].as_str());
        proof {
            let ts = texts(kterms@).take(j + 1);
            assert(ts.drop_last() =~= texts(kterms@).take(j as int));
            assert(ts.last() == kterms@[j as int]@);
            assert(out@ =~= after_exact + normalized_hits(e@, ts));
        }
    }
    proof {
        assert(texts(kterms@).take(nt as int) =~= texts(kterms@));
    }
    push_partial_hits(out, e, k);
    assert(out@ =~= start + keyword_hits(index.symbol_map@, e@, k@));
}

/// Every match of every keyword, keyword by keyword; each keyword's exact
/// matches come first, then its normalized matches, then its partial matches.
pub fn collect_hits(index: &CodebaseIndex, normalizer: &TextNormalizer, keywords: &Vec<String>) -> (r: Vec<SymbolHit>)
    ensures
        r@ == all_hits(index.symbol_map@, index.symbol_map.entry_seq(), texts(keywords@)),
{
    let e = index.symbol_map.entries();
    let terms = entry_terms(normalizer, e);
    let mut out: Vec<SymbolHit> = Vec::new();
    let n = keywords.len();
    for i in 0..n
        invariant
            n == keywords@.len(),
            e@ == index.symbol_map.entry_seq(),
            terms@.len() == e@.len(),
            forall|i: int| 0 <= i < e@.len() ==> texts(#[trigger] terms@[i]@) == name_terms(e@[i].0@),
            out@ == all_hits(index.symbol_map@, e@, texts(keywords@).take(i as int)),
    {
        push_keyword_hits(&mut out, index, normalizer, &terms, keywords[i].as_str());
        proof {
            let ks = texts(keywords@).take(i + 1);
            assert(ks.drop_last() =~= texts(keywords@).take(i as int));
            assert(ks.last() == keywords@[i as int]@);
        }
    }
    proof {
        assert(texts(keywords@).take(n as int) =~= texts(keywords@));
    }
    out
}

/// Where a hit lies: its file and line range.
pub open spec fn hit_key(h: SymbolHit) -> (Seq<char>, usize, usize) {
    (h.symbol.file_path@, h.symbol.start_line, h.symbol.end_line)
}

/// The strongest tier among the hits of `s` at `key`; 0 where there is none.
pub open spec fn best_tier(s: Seq<SymbolHit>, key: (Seq<char>, usize, usize)) -> nat
    decreases s.len(),
{
    if s.len() == 0 {
        0
    } else {
        let b = best_tier(s.drop_last(), key);
        if hit_key(s.last()) == key && tier_rank(s.last().tier) > b {
            tier_rank(s.last().tier)
        } else {
            b
        }
    }
}

/// The hits of `d` that do not lie at `key`, in order.
pub open spec fn without_key(d: Seq<SymbolHit>, key: (Seq<char>, usize, usize)) -> Seq<SymbolHit>
    decreases d.len(),
{
    if d.len() == 0 {
        Seq::empty()
    } else {
        let r = without_key(d.drop_last(), key);
        if hit_key(d.last()) == key {
            r
        } else {
            r.push(d.last())
        }
    }
}

/// One hit per location: going through `s` in order, a hit that beats every
/// earlier hit at its location replaces the one kept there and moves to the end;
/// any other hit is dropped.
pub open spec fn deduplicated(s: Seq<SymbolHit>) -> Seq<SymbolHit>
    decreases s.len(),
{
    if s.len() == 0 {
        Seq::empty()
    } else {
        let d = deduplicated(s.drop_last());
        let h = s.last();
        if tier_rank(h.tier) > best_tier(s.drop_last(), hit_key(h)) {
            without_key(d, hit_key(h)).push(h)
        } else {
            d
        }
    }
}

/// Whether two hits lie at the same place.
fn same_location(a: &SymbolHit, b: &SymbolHit) -> (r: bool)
    ensures
        r == (hit_key(*a) == hit_key(*b)),
{
    same_text(a.symbol.file_path.as_str(), b.symbol.file_path.as_str())
        && a.symbol.start_line == b.symbol.start_line
        && a.symbol.end_line == b.symbol.end_line
}

/// The strongest tier among the first `n` hits at the location of `h`.
fn best_tier_before(s: &Vec<SymbolHit>, n: usize, h: &SymbolHit) -> (r: u8)
    requires
        n <= s@.len(),
    ensures
        r == best_tier(s@.take(n as int), hit_key(*h)),
{
    let mut b: u8 = 0;
    for j in 0..n
        invariant
            n <= s@.len(),
            b == best_tier(s@.take(j as int), hit_key(*h)),
            b <= 3,
    {
        proof {
            assert(s@.take(j + 1).drop_last() =~= s@.take(j as int));
            assert(s@.take(j + 1).last() == s@[j as int]);
        }
        let t = tier_value(s[j].tier);
        if same_location(&s[j], h) && t > b {
            b = t;
        }
    }
    b
}

/// The hits of `d` that do not lie where `h` does.
fn drop_location(d: &Vec<SymbolHit>, h: &SymbolHit) -> (r: Vec<SymbolHit>)
    ensures
        r@ == without_key(d@, hit_key(*h)),
{
    let mut kept: Vec<SymbolHit> = Vec::new();
    let n = d.len();
    for j in 0..n
        invariant
            n == d@.len(),
            kept@ == without_key(d@.take(j as int), hit_key(*h)),
    {
        proof {
            assert(d@.take(j + 1).drop_last() =~= d@.take(j as int));
            assert(d@.take(j + 1).last() == d@[j as int]);
        }
        if !same_location(&d[j], h) {
            kept.push(d[j].clone());
        }
    }
    proof {
        assert(d@.take(n as int) =~= d@);
    }
    kept
}

/// Keeps one hit per location, the first of its strongest tier, as `deduplicated` states.
pub fn deduplicate_results(hits: &Vec<SymbolHit>) -> (r: Vec<SymbolHit>)
    ensures
        r@ == deduplicated(hits@),
{
    let mut out: Vec<SymbolHit> = Vec::new();
    let n = hits.len();
    for i in 0..n
        invariant
            n == hits@.len(),
            out@ == deduplicated(hits@.take(i as int)),
    {
        proof {
            assert(hits@.take(i + 1).drop_last() =~= hits@.take(i as int));
            assert(hits@.take(i + 1).last() == hits@[i as int]);
        }
        let best = best_tier_before(hits, i, &hits[i]);
        if tier_value(hits[i].tier) > best {
            let mut kept = drop_location(&out, &hits[i]);
            kept.push(hits[i].clone());
            out = kept;
        }
    }
    proof {
        assert(hits@.take(n as int) =~= hits@);
    }
    out
}

/// The hits of `s` of tier `t`, in order.
pub open spec fn with_tier(s: Seq<SymbolHit>, t: MatchTier) -> Seq<SymbolHit>
    decreases s.len(),
{
    if s.len() == 0 {
        Seq::empty()
    } else {
        let r = with_tier(s.drop_last(), t);
        if s.last().tier == t {
            r.push(s.last())
        } else {
            r
        }
    }
}

/// `s` ordered from the strongest tier to the weakest, keeping the order of
/// hits of one tier (a stable sort by tier).
pub open spec fn ranked(s: Seq<SymbolHit>) -> Seq<SymbolHit> {
    with_tier(s, MatchTier::Exact) + with_tier(s, MatchTier::Normalized) + with_tier(s, MatchTier::Partial)
}

/// Appends the hits of `hits` of tier `t`.
fn push_with_tier(out: &mut Vec<SymbolHit>, hits: &Vec<SymbolHit>, t: MatchTier)
    ensures
        final(out)@ == old(out)@ + with_tier(hits@, t),
{
    let n = hits.len();
    for j in 0..n
        invariant
            n == hits@.len(),
            out@ == old(out)@ + with_tier(hits@.take(j as int), t),
    {
        proof {
            assert(hits@.take(j + 1).drop_last() =~= hits@.take(j as int));
            assert(hits@.take(j + 1).last() == hits@[j as int]);
        }
        if hits[j].tier == t {
            out.push(hits[j].clone());
        }
        assert(out@ =~= old(out)@ + with_tier(hits@.take(j + 1), t));
    }
    proof {
        assert(hits@.take(n as int) =~= hits@);
    }
}

/// Sorts hits from the strongest tier to the weakest, stably.
pub fn rank_results(hits: &Vec<SymbolHit>) -> (r: Vec<SymbolHit>)
    ensures
        r@ == ranked(hits@),
{
    let mut out: Vec<SymbolHit> = Vec::new();
    push_with_tier(&mut out, hits, MatchTier::Exact);
    push_with_tier(&mut out, hits, MatchTier::Normalized);
    push_with_tier(&mut out, hits, MatchTier::Partial);
    assert(out@ =~= ranked(hits@));
    out
}

/// The most results a query returns: its own limit, or 50.
pub open spec fn result_limit(max_results: Option<usize>) -> nat {
    match max_results {
        Some(n) => n as nat,
        None => 50,
    }
}

/// The first `n` hits of `s`, or all of them where there are fewer.
pub open spec fn first_hits(s: Seq<SymbolHit>, n: nat) -> Seq<SymbolHit> {
    if n < s.len() {
        s.take(n as int)
    } else {
        s
    }
}

/// What a keyword query finds: every match of its keywords, one per location
/// (the strongest), ranked by tier, cut to the query's limit.
pub open spec fn keyword_results(index: &CodebaseIndex, keywords: Seq<Seq<char>>, max_results: Option<usize>) -> Seq<SymbolHit> {
    first_hits(
        ranked(deduplicated(all_hits(index.symbol_map@, index.symbol_map.entry_seq(), keywords))),
        result_limit(max_results),
    )
}

/// Keyword search: exact names, names sharing a normalized term and names
/// containing a keyword, deduplicated by location, strongest first, at most
/// `max_results` of them (50 when the query sets none).
pub fn query_traditional(index: &CodebaseIndex, normalizer: &TextNormalizer, query: &IndexQuery) -> (r: Vec<SymbolHit>)
    ensures
        r@ == keyword_results(index, texts(query.keywords@), query.max_results),
{
    let max_results: usize = match query.max_results {
        Some(n) => n,
        None => 50,
    };
    let hits = collect_hits(index, normalizer, &query.keywords);
    let deduped = deduplicate_results(&hits);
    let mut results = rank_results(&deduped);
    results.truncate(max_results);
    results
}

/// The language of the indexed file at `path`, or "unknown" where none is indexed.
pub fn file_language(index: &CodebaseIndex, path: &str) -> (r: String)
    ensures
        index.files@.contains_key(path@) ==> r@ == index.files@[path@].language@,
        !index.files@.contains_key(path@) ==> r@ == "unknown"@,
{
    match index.files.get(path) {
        Some(f) => f.language.clone(),
        None => "unknown".to_string(),
    }
}

/// No two hits of `d` lie at the same place.
pub open spec fn locations_distinct(d: Seq<SymbolHit>) -> bool {
    forall|i: int, j: int| 0 <= i < j < d.len() ==> hit_key(#[trigger] d[i]) != hit_key(#[trigger] d[j])
}

/// Some hit of `d` lies at `key`.
pub open spec fn has_location(d: Seq<SymbolHit>, key: (Seq<char>, usize, usize)) -> bool {
    exists|i: int| 0 <= i < d.len() && hit_key(#[trigger] d[i]) == key
}

/// What `without_key` keeps: exactly the hits of `d` away from `key`; and it
/// keeps locations distinct.
proof fn lemma_without_key(d: Seq<SymbolHit>, key: (Seq<char>, usize, usize))
    ensures
        forall|x: SymbolHit| #[trigger] without_key(d, key).contains(x) <==> (d.contains(x) && hit_key(x) != key),
        locations_distinct(d) ==> locations_distinct(without_key(d, key)),
    decreases d.len(),
{
    if d.len() > 0 {
        let p = d.drop_last();
        lemma_without_key(p, key);
        let r = without_key(p, key);
        assert forall|x: SymbolHit| d.contains(x) <==> (p.contains(x) || x == d.last()) by {
            if d.contains(x) {
                let i = choose|i: int| 0 <= i < d.len() && d[i] == x;
                if i < d.len() - 1 {
                    assert(p[i] == x);
                }
            }
            if p.contains(x) {
                let i = choose|i: int| 0 <= i < p.len() && p[i] == x;
                assert(d[i] == x);
            }
            if x == d.last() {
                assert(d[d.len() - 1] == x);
            }
        }
        assert(without_key(d, key) == if hit_key(d.last()) == key { r } else { r.push(d.last()) });
        if hit_key(d.last()) != key {
            assert forall|x: SymbolHit| r.push(d.last()).contains(x) <==> (r.contains(x) || x == d.last()) by {
                if r.push(d.last()).contains(x) {
                    let i = choose|i: int| 0 <= i < r.len() + 1 && r.push(d.last())[i] == x;
                    if i < r.len() {
                        assert(r[i] == x);
                    }
                }
                if r.contains(x) {
                    let i = choose|i: int| 0 <= i < r.len() && r[i] == x;
                    assert(r.push(d.last())[i] == x);
                }
                if x == d.last() {
                    assert(r.push(d.last())[r.len() as int] == x);
                }
            }
            if locations_distinct(d) {
                assert(locations_distinct(p)) by {
                    assert forall|i: int, j: int| 0 <= i < j < p.len() implies hit_key(#[trigger] p[i]) != hit_key(#[trigger] p[j]) by {
                        assert(p[i] == d[i] && p[j] == d[j]);
                    }
                }
                let q = r.push(d.last());
                assert forall|i: int, j: int| 0 <= i < j < q.len() implies hit_key(#[trigger] q[i]) != hit_key(#[trigger] q[j]) by {
                    if j == q.len() - 1 {
                        assert(r.contains(q[i]));
                        assert(p.contains(q[i]));
                        let k = choose|k: int| 0 <= k < p.len() && p[k] == q[i];
                        assert(d[k] == p[k]);
                        assert(hit_key(d[k]) != hit_key(d[d.len() - 1]));
                    } else {
                        assert(q[i] == r[i] && q[j] == r[j]);
                    }
                }
            }
        } else {
            if locations_distinct(d) {
                assert forall|i: int, j: int| 0 <= i < j < p.len() implies hit_key(#[trigger] p[i]) != hit_key(#[trigger] p[j]) by {
                    assert(p[i] == d[i] && p[j] == d[j]);
                }
            }
        }
        assert forall|x: SymbolHit| #[trigger] without_key(d, key).contains(x) <==> (d.contains(x) && hit_key(x) != key) by {
            assert(r.contains(x) <==> (p.contains(x) && hit_key(x) != key));
            assert(d.contains(x) <==> (p.contains(x) || x == d.last()));
        }
    }
}

/// A location's best tier is left as it was by a hit elsewhere or of a weaker tier.
proof fn lemma_best_tier_push(s: Seq<SymbolHit>, h: SymbolHit, key: (Seq<char>, usize, usize))
    ensures
        best_tier(s.push(h), key) == if hit_key(h) == key && tier_rank(h.tier) > best_tier(s, key) {
            tier_rank(h.tier)
        } else {
            best_tier(s, key)
        },
{
    assert(s.push(h).drop_last() =~= s);
}

/// Deduplication keeps one hit per location, each a hit of the input with the
/// strongest tier found at its location, and drops no location.
pub proof fn lemma_deduplicated(s: Seq<SymbolHit>)
    ensures
        locations_distinct(deduplicated(s)),
        forall|i: int| 0 <= i < deduplicated(s).len() ==> s.contains(#[trigger] deduplicated(s)[i]),
        forall|i: int| 0 <= i < deduplicated(s).len()
            ==> tier_rank((#[trigger] deduplicated(s)[i]).tier) == best_tier(s, hit_key(deduplicated(s)[i])),
        forall|j: int| 0 <= j < s.len() ==> has_location(deduplicated(s), hit_key(#[trigger] s[j])),
    decreases s.len(),
{
    if s.len() > 0 {
        let p = s.drop_last();
        let h = s.last();
        let k = hit_key(h);
        let d = deduplicated(p);
        lemma_deduplicated(p);
        assert(s =~= p.push(h));
        assert forall|key: (Seq<char>, usize, usize)| #[trigger] best_tier(s, key) == if k == key && tier_rank(h.tier) > best_tier(p, key) {
            tier_rank(h.tier)
        } else {
            best_tier(p, key)
        } by {
            lemma_best_tier_push(p, h, key);
        }
        assert forall|x: SymbolHit| p.contains(x) implies s.contains(x) by {
            let i = choose|i: int| 0 <= i < p.len() && p[i] == x;
            assert(s[i] == x);
        }
        assert(s[s.len() - 1] == h);
        if tier_rank(h.tier) > best_tier(p, k) {
            lemma_without_key(d, k);
            let w = without_key(d, k);
            let q = w.push(h);
            assert(deduplicated(s) == q);
            assert forall|i: int| 0 <= i < q.len() implies s.contains(#[trigger] q[i])
                && tier_rank(q[i].tier) == best_tier(s, hit_key(q[i])) by {
                if i < w.len() {
                    assert(q[i] == w[i]);
                    assert(w.contains(w[i]));
                    assert(d.contains(w[i]));
                    let m = choose|m: int| 0 <= m < d.len() && d[m] == w[i];
                    assert(tier_rank(d[m].tier) == best_tier(p, hit_key(d[m])));
                }
            }
            assert forall|i: int, j: int| 0 <= i < j < q.len() implies hit_key(#[trigger] q[i]) != hit_key(#[trigger] q[j]) by {
                if j == q.len() - 1 {
                    assert(w.contains(q[i]));
                } else {
                    assert(q[i] == w[i] && q[j] == w[j]);
                }
            }
            assert forall|j: int| 0 <= j < s.len() implies has_location(q, hit_key(#[trigger] s[j])) by {
                if hit_key(s[j]) == k {
                    assert(hit_key(q[q.len() - 1]) == k);
                } else {
                    assert(p[j] == s[j]);
                    assert(has_location(d, hit_key(s[j])));
                    let m = choose|m: int| 0 <= m < d.len() && hit_key(d[m]) == hit_key(s[j]);
                    assert(d.contains(d[m]));
                    assert(w.contains(d[m]));
                    let t = choose|t: int| 0 <= t < w.len() && w[t] == d[m];
                    assert(q[t] == w[t]);
                }
            }
        } else {
            assert(deduplicated(s) == d);
            assert forall|j: int| 0 <= j < s.len() implies has_location(d, hit_key(#[trigger] s[j])) by {
                if j < s.len() - 1 {
                    assert(p[j] == s[j]);
                } else {
                    lemma_best_tier_positive(p, k);
                    let m = choose|m: int| 0 <= m < p.len() && hit_key(p[m]) == k;
                    assert(has_location(d, hit_key(p[m])));
                }
            }
        }
    }
}

/// A location with a positive best tier holds a hit.
proof fn lemma_best_tier_positive(s: Seq<SymbolHit>, key: (Seq<char>, usize, usize))
    requires
        best_tier(s, key) > 0,
    ensures
        exists|m: int| 0 <= m < s.len() && hit_key(s[m]) == key,
    decreases s.len(),
{
    let p = s.drop_last();
    if hit_key(s.last()) == key && tier_rank(s.last().tier) > best_tier(p, key) {
        assert(hit_key(s[s.len() - 1]) == key);
    } else {
        lemma_best_tier_positive(p, key);
        let m = choose|m: int| 0 <= m < p.len() && hit_key(p[m]) == key;
        assert(s[m] == p[m]);
    }
}

/// Every hit that `with_tier` keeps has that tier.
proof fn lemma_with_tier_tier(s: Seq<SymbolHit>, t: MatchTier)
    ensures
        forall|i: int| 0 <= i < with_tier(s, t).len() ==> (#[trigger] with_tier(s, t)[i]).tier == t,
    decreases s.len(),
{
    if s.len() > 0 {
        lemma_with_tier_tier(s.drop_last(), t);
    }
}

/// The three tiers together hold every hit once.
proof fn lemma_with_tier_partition(s: Seq<SymbolHit>)
    ensures
        with_tier(s, MatchTier::Exact).to_multiset().add(with_tier(s, MatchTier::Normalized).to_multiset()).add(
            with_tier(s, MatchTier::Partial).to_multiset(),
        ) =~= s.to_multiset(),
    decreases s.len(),
{
    broadcast use vstd::multiset::group_multiset_axioms, vstd::seq_lib::to_multiset_build;

    if s.len() == 0 {
        assert forall|t: MatchTier| #[trigger] with_tier(s, t).to_multiset() =~= vstd::multiset::Multiset::empty() by {
            vstd::seq_lib::to_multiset_len(with_tier(s, t));
            vstd::multiset::lemma_multiset_empty_len(with_tier(s, t).to_multiset());
        }
        vstd::seq_lib::to_multiset_len(s);
        vstd::multiset::lemma_multiset_empty_len(s.to_multiset());
    } else {
        let p = s.drop_last();
        let h = s.last();
        lemma_with_tier_partition(p);
        assert(s =~= p.push(h));
        assert(s.to_multiset() =~= p.to_multiset().insert(h));
        let e0 = with_tier(p, MatchTier::Exact);
        let n0 = with_tier(p, MatchTier::Normalized);
        let p0 = with_tier(p, MatchTier::Partial);
        if h.tier == MatchTier::Exact {
            assert(with_tier(s, MatchTier::Exact).to_multiset() =~= e0.to_multiset().insert(h));
        } else if h.tier == MatchTier::Normalized {
            assert(with_tier(s, MatchTier::Normalized).to_multiset() =~= n0.to_multiset().insert(h));
        } else {
            assert(with_tier(s, MatchTier::Partial).to_multiset() =~= p0.to_multiset().insert(h));
        }
    }
}

/// Ranking reorders the hits, keeping each once, strongest tier first.
pub proof fn lemma_ranked(s: Seq<SymbolHit>)
    ensures
        ranked(s).to_multiset() =~= s.to_multiset(),
        ranked(s).len() == s.len(),
        forall|i: int, j: int| 0 <= i < j < ranked(s).len()
            ==> tier_rank((#[trigger] ranked(s)[i]).tier) >= tier_rank((#[trigger] ranked(s)[j]).tier),
{
    broadcast use vstd::seq_lib::lemma_multiset_commutative, vstd::seq_lib::to_multiset_len;

    let e = with_tier(s, MatchTier::Exact);
    let n = with_tier(s, MatchTier::Normalized);
    let p = with_tier(s, MatchTier::Partial);
    lemma_with_tier_partition(s);
    assert((e + n + p).to_multiset() =~= (e + n).to_multiset().add(p.to_multiset()));
    assert((e + n).to_multiset() =~= e.to_multiset().add(n.to_multiset()));
    vstd::seq_lib::to_multiset_len(ranked(s));
    vstd::seq_lib::to_multiset_len(s);
    lemma_with_tier_tier(s, MatchTier::Exact);
    lemma_with_tier_tier(s, MatchTier::Normalized);
    lemma_with_tier_tier(s, MatchTier::Partial);
    let r = ranked(s);
    assert forall|i: int, j: int| 0 <= i < j < r.len() implies tier_rank((#[trigger] r[i]).tier) >= tier_rank((#[trigger] r[j]).tier) by {
        if i < e.len() {
            assert(r[i] == e[i]);
        } else if i < e.len() + n.len() {
            assert(r[i] == n[i - e.len()]);
            assert(r[j] == if j < e.len() + n.len() { n[j - e.len()] } else { p[j - e.len() - n.len()] });
        } else {
            assert(r[i] == p[i - e.len() - n.len()]);
            assert(r[j] == p[j - e.len() - n.len()]);
        }
    }
}

/// What `with_tier` keeps: exactly the hits of `s` of tier `t`; and it keeps
/// locations distinct.
proof fn lemma_with_tier_members(s: Seq<SymbolHit>, t: MatchTier)
    ensures
        forall|x: SymbolHit| #[trigger] with_tier(s, t).contains(x) <==> (s.contains(x) && x.tier == t),
        locations_distinct(s) ==> locations_distinct(with_tier(s, t)),
    decreases s.len(),
{
    if s.len() > 0 {
        let p = s.drop_last();
        let h = s.last();
        lemma_with_tier_members(p, t);
        let r = with_tier(p, t);
        assert forall|x: SymbolHit| s.contains(x) <==> (p.contains(x) || x == h) by {
            if s.contains(x) {
                let i = choose|i: int| 0 <= i < s.len() && s[i] == x;
                if i < s.len() - 1 {
                    assert(p[i] == x);
                }
            }
            if p.contains(x) {
                let i = choose|i: int| 0 <= i < p.len() && p[i] == x;
                assert(s[i] == x);
            }
            if x == h {
                assert(s[s.len() - 1] == x);
            }
        }
        if locations_distinct(s) {
            assert forall|i: int, j: int| 0 <= i < j < p.len() implies hit_key(#[trigger] p[i]) != hit_key(#[trigger] p[j]) by {
                assert(p[i] == s[i] && p[j] == s[j]);
            }
        }
        if h.tier == t {
            let q = r.push(h);
            assert forall|x: SymbolHit| q.contains(x) <==> (r.contains(x) || x == h) by {
                if q.contains(x) {
                    let i = choose|i: int| 0 <= i < q.len() && q[i] == x;
                    if i < r.len() {
                        assert(r[i] == x);
                    }
                }
                if r.contains(x) {
                    let i = choose|i: int| 0 <= i < r.len() && r[i] == x;
                    assert(q[i] == x);
                }
                if x == h {
                    assert(q[r.len() as int] == x);
                }
            }
            if locations_distinct(s) {
                assert forall|i: int, j: int| 0 <= i < j < q.len() implies hit_key(#[trigger] q[i]) != hit_key(#[trigger] q[j]) by {
                    if j == q.len() - 1 {
                        assert(r.contains(q[i]));
                        let k = choose|k: int| 0 <= k < p.len() && p[k] == q[i];
                        assert(s[k] == p[k]);
                        assert(hit_key(s[k]) != hit_key(s[s.len() - 1]));
                    } else {
                        assert(q[i] == r[i] && q[j] == r[j]);
                    }
                }
            }
        }
        assert forall|x: SymbolHit| #[trigger] with_tier(s, t).contains(x) <==> (s.contains(x) && x.tier == t) by {
            assert(r.contains(x) <==> (p.contains(x) && x.tier == t));
        }
    }
}

/// Two hits of a sequence with distinct locations that lie at one place are the same hit.
proof fn lemma_same_location_same_hit(s: Seq<SymbolHit>, x: SymbolHit, y: SymbolHit)
    requires
        locations_distinct(s),
        s.contains(x),
        s.contains(y),
        hit_key(x) == hit_key(y),
    ensures
        x == y,
{
    let i = choose|i: int| 0 <= i < s.len() && s[i] == x;
    let j = choose|j: int| 0 <= j < s.len() && s[j] == y;
    if i < j {
        assert(hit_key(s[i]) != hit_key(s[j]));
    } else if j < i {
        assert(hit_key(s[j]) != hit_key(s[i]));
    }
}

/// Ranking keeps locations distinct and holds exactly the hits it was given.
proof fn lemma_ranked_members(d: Seq<SymbolHit>)
    ensures
        forall|x: SymbolHit| #[trigger] ranked(d).contains(x) <==> d.contains(x),
        locations_distinct(d) ==> locations_distinct(ranked(d)),
{
    let e = with_tier(d, MatchTier::Exact);
    let n = with_tier(d, MatchTier::Normalized);
    let p = with_tier(d, MatchTier::Partial);
    let r = ranked(d);
    lemma_with_tier_members(d, MatchTier::Exact);
    lemma_with_tier_members(d, MatchTier::Normalized);
    lemma_with_tier_members(d, MatchTier::Partial);
    lemma_with_tier_tier(d, MatchTier::Exact);
    lemma_with_tier_tier(d, MatchTier::Normalized);
    lemma_with_tier_tier(d, MatchTier::Partial);
    assert forall|i: int| 0 <= i < r.len() implies d.contains(#[trigger] r[i]) by {
        if i < e.len() {
            assert(r[i] == e[i] && e.contains(e[i]));
        } else if i < e.len() + n.len() {
            assert(r[i] == n[i - e.len()] && n.contains(n[i - e.len()]));
        } else {
            assert(r[i] == p[i - e.len() - n.len()] && p.contains(p[i - e.len() - n.len()]));
        }
    }
    assert forall|x: SymbolHit| #[trigger] r.contains(x) <==> d.contains(x) by {
        if r.contains(x) {
            let i = choose|i: int| 0 <= i < r.len() && r[i] == x;
        }
        if d.contains(x) {
            if x.tier == MatchTier::Exact {
                assert(e.contains(x));
                let i = choose|i: int| 0 <= i < e.len() && e[i] == x;
                assert(r[i] == x);
            } else if x.tier == MatchTier::Normalized {
                assert(n.contains(x));
                let i = choose|i: int| 0 <= i < n.len() && n[i] == x;
                assert(r[e.len() + i] == x);
            } else {
                assert(p.contains(x));
                let i = choose|i: int| 0 <= i < p.len() && p[i] == x;
                assert(r[e.len() + n.len() + i] == x);
            }
        }
    }
    if locations_distinct(d) {
        assert forall|i: int, j: int| 0 <= i < j < r.len() implies hit_key(#[trigger] r[i]) != hit_key(#[trigger] r[j]) by {
            if hit_key(r[i]) == hit_key(r[j]) {
                lemma_same_location_same_hit(d, r[i], r[j]);
                if j < e.len() {
                    assert(r[i] == e[i] && r[j] == e[j]);
                } else if i >= e.len() && j < e.len() + n.len() {
                    assert(r[i] == n[i - e.len()] && r[j] == n[j - e.len()]);
                } else if i >= e.len() + n.len() {
                    assert(r[i] == p[i - e.len() - n.len()] && r[j] == p[j - e.len() - n.len()]);
                } else if i < e.len() && j < e.len() + n.len() {
                    assert(r[i] == e[i] && r[j] == n[j - e.len()]);
                } else if i < e.len() {
                    assert(r[i] == e[i] && r[j] == p[j - e.len() - n.len()]);
                } else {
                    assert(r[i] == n[i - e.len()] && r[j] == p[j - e.len() - n.len()]);
                }
            }
        }
    }
}

/// The matches that a keyword query ranks.
pub open spec fn query_hits(index: &CodebaseIndex, keywords: Seq<Seq<char>>) -> Seq<SymbolHit> {
    all_hits(index.symbol_map@, index.symbol_map.entry_seq(), keywords)
}

/// A keyword query returns at most its limit of results, never two at one
/// location, strongest tier first; each is a match of the query with the
/// strongest tier found at its location; and it falls short of its limit only
/// when every matched location is among the results.
pub proof fn lemma_keyword_results(index: &CodebaseIndex, keywords: Seq<Seq<char>>, max_results: Option<usize>)
    ensures
        keyword_results(index, keywords, max_results).len() <= result_limit(max_results),
        locations_distinct(keyword_results(index, keywords, max_results)),
        forall|i: int, j: int| 0 <= i < j < keyword_results(index, keywords, max_results).len()
            ==> tier_rank((#[trigger] keyword_results(index, keywords, max_results)[i]).tier)
                >= tier_rank((#[trigger] keyword_results(index, keywords, max_results)[j]).tier),
        forall|i: int| 0 <= i < keyword_results(index, keywords, max_results).len() ==> {
            let x = #[trigger] keyword_results(index, keywords, max_results)[i];
            query_hits(index, keywords).contains(x) && tier_rank(x.tier) == best_tier(query_hits(index, keywords), hit_key(x))
        },
        keyword_results(index, keywords, max_results).len() < result_limit(max_results) ==>
            forall|j: int| 0 <= j < query_hits(index, keywords).len()
                ==> has_location(keyword_results(index, keywords, max_results), hit_key(#[trigger] query_hits(index, keywords)[j])),
{
    let s = query_hits(index, keywords);
    let d = deduplicated(s);
    let k = ranked(d);
    let r = keyword_results(index, keywords, max_results);
    lemma_deduplicated(s);
    lemma_ranked(d);
    lemma_ranked_members(d);
    assert forall|i: int| 0 <= i < r.len() implies r[i] == k[i] by {}
    assert forall|i: int| 0 <= i < r.len() implies {
        let x = #[trigger] r[i];
        s.contains(x) && tier_rank(x.tier) == best_tier(s, hit_key(x))
    } by {
        assert(k.contains(k[i]));
        assert(d.contains(k[i]));
        let m = choose|m: int| 0 <= m < d.len() && d[m] == k[i];
    }
    assert forall|a: int, b: int| 0 <= a < b < r.len() implies hit_key(#[trigger] r[a]) != hit_key(#[trigger] r[b]) by {
        assert(r[a] == k[a] && r[b] == k[b]);
    }
    assert forall|a: int, b: int| 0 <= a < b < r.len() implies tier_rank((#[trigger] r[a]).tier) >= tier_rank((#[trigger] r[b]).tier) by {
        assert(r[a] == k[a] && r[b] == k[b]);
    }
    if r.len() < result_limit(max_results) {
        assert(r == k);
        assert forall|j: int| 0 <= j < s.len() implies has_location(r, hit_key(#[trigger] s[j])) by {
            assert(has_location(d, hit_key(s[j])));
            let m = choose|m: int| 0 <= m < d.len() && hit_key(d[m]) == hit_key(s[j]);
            assert(d.contains(d[m]));
            assert(k.contains(d[m]));
            let t = choose|t: int| 0 <= t < k.len() && k[t] == d[m];
        }
    }
}

/// A hit of a concatenation is a hit of one of its parts.
proof fn lemma_concat_contains(a: Seq<SymbolHit>, b: Seq<SymbolHit>)
    ensures
        forall|x: SymbolHit| #[trigger] (a + b).contains(x) <==> (a.contains(x) || b.contains(x)),
{
    assert forall|x: SymbolHit| #[trigger] (a + b).contains(x) <==> (a.contains(x) || b.contains(x)) by {
        if (a + b).contains(x) {
            let i = choose|i: int| 0 <= i < (a + b).len() && (a + b)[i] == x;
            if i >= a.len() {
                assert(b[i - a.len()] == x);
            }
        }
        if a.contains(x) {
            let i = choose|i: int| 0 <= i < a.len() && a[i] == x;
            assert((a + b)[i] == x);
        }
        if b.contains(x) {
            let i = choose|i: int| 0 <= i < b.len() && b[i] == x;
            assert((a + b)[a.len() + i] == x);
        }
    }
}

/// The hits of `tagged(syms, t)` are the symbols of `syms`, each with tier `t`.
proof fn lemma_tagged_contains(syms: Seq<CodeSymbol>, t: MatchTier)
    ensures
        forall|x: SymbolHit| #[trigger] tagged(syms, t).contains(x) <==> (x.tier == t && syms.contains(x.symbol)),
{
    assert forall|x: SymbolHit| #[trigger] tagged(syms, t).contains(x) <==> (x.tier == t && syms.contains(x.symbol)) by {
        if tagged(syms, t).contains(x) {
            let i = choose|i: int| 0 <= i < tagged(syms, t).len() && tagged(syms, t)[i] == x;
            assert(syms[i] == x.symbol);
        }
        if x.tier == t && syms.contains(x.symbol) {
            let i = choose|i: int| 0 <= i < syms.len() && syms[i] == x.symbol;
            assert(tagged(syms, t)[i] == x);
        }
    }
}

/// The partial matches of a keyword are exactly the symbols filed under a name
/// other than the keyword whose lowercase form contains the keyword's lowercase
/// form, each tagged partial: matching ignores case on both sides.
pub proof fn lemma_partial_hits(e: Seq<(String, Vec<CodeSymbol>)>, k: Seq<char>)
    ensures
        forall|x: SymbolHit| #[trigger] partial_hits(e, k).contains(x) <==> (x.tier == MatchTier::Partial && exists|i: int|
            0 <= i < e.len() && (#[trigger] e[i]).1@.contains(x.symbol) && e[i].0@ != k
                && has_substring(spec_to_lowercase(e[i].0@), spec_to_lowercase(k))),
    decreases e.len(),
{
    if e.len() > 0 {
        let p = e.drop_last();
        let last = e.last();
        lemma_partial_hits(p, k);
        let tail = if partial_match(last.0@, k) { tagged(last.1@, MatchTier::Partial) } else { Seq::empty() };
        lemma_concat_contains(partial_hits(p, k), tail);
        lemma_tagged_contains(last.1@, MatchTier::Partial);
        assert forall|x: SymbolHit| #[trigger] partial_hits(e, k).contains(x) <==> (x.tier == MatchTier::Partial && exists|i: int|
            0 <= i < e.len() && (#[trigger] e[i]).1@.contains(x.symbol) && e[i].0@ != k
                && has_substring(spec_to_lowercase(e[i].0@), spec_to_lowercase(k))) by {
            if partial_hits(e, k).contains(x) {
                if partial_hits(p, k).contains(x) {
                    let i = choose|i: int| 0 <= i < p.len() && (#[trigger] p[i]).1@.contains(x.symbol) && p[i].0@ != k
                        && has_substring(spec_to_lowercase(p[i].0@), spec_to_lowercase(k));
                    assert(e[i] == p[i]);
                } else {
                    assert(tail.contains(x));
                    assert(e[e.len() - 1] == last);
                }
            }
            if x.tier == MatchTier::Partial && exists|i: int|
                0 <= i < e.len() && (#[trigger] e[i]).1@.contains(x.symbol) && e[i].0@ != k
                    && has_substring(spec_to_lowercase(e[i].0@), spec_to_lowercase(k)) {
                let i = choose|i: int| 0 <= i < e.len() && (#[trigger] e[i]).1@.contains(x.symbol) && e[i].0@ != k
                    && has_substring(spec_to_lowercase(e[i].0@), spec_to_lowercase(k));
                if i < e.len() - 1 {
                    assert(p[i] == e[i]);
                } else {
                    assert(tail.contains(x));
                }
            }
        }
    }
}

/// The matches of a query hold every match of each of its keywords.
proof fn lemma_all_hits_keyword(m: Map<Seq<char>, Vec<CodeSymbol>>, e: Seq<(String, Vec<CodeSymbol>)>, ks: Seq<Seq<char>>, q: int)
    requires
        0 <= q < ks.len(),
    ensures
        forall|x: SymbolHit| #[trigger] keyword_hits(m, e, ks[q]).contains(x) ==> all_hits(m, e, ks).contains(x),
    decreases ks.len(),
{
    let p = ks.drop_last();
    lemma_concat_contains(all_hits(m, e, p), keyword_hits(m, e, ks.last()));
    if q < ks.len() - 1 {
        lemma_all_hits_keyword(m, e, p, q);
        assert(p[q] == ks[q]);
    }
}

/// A symbol filed under a name other than a keyword of the query, whose
/// lowercase form contains the keyword's lowercase form, is a partial match of
/// the query; and its location is among the results whenever they fall short
/// of the query's limit.
pub proof fn lemma_partial_match_found(index: &CodebaseIndex, keywords: Seq<Seq<char>>, max_results: Option<usize>, q: int, i: int, j: int)
    requires
        0 <= q < keywords.len(),
        0 <= i < index.symbol_map.entry_seq().len(),
        0 <= j < index.symbol_map.entry_seq()[i].1@.len(),
        index.symbol_map.entry_seq()[i].0@ != keywords[q],
        has_substring(spec_to_lowercase(index.symbol_map.entry_seq()[i].0@), spec_to_lowercase(keywords[q])),
    ensures
        query_hits(index, keywords).contains(SymbolHit { symbol: index.symbol_map.entry_seq()[i].1@[j], tier: MatchTier::Partial }),
        keyword_results(index, keywords, max_results).len() < result_limit(max_results) ==> has_location(
            keyword_results(index, keywords, max_results),
            hit_key(SymbolHit { symbol: index.symbol_map.entry_seq()[i].1@[j], tier: MatchTier::Partial }),
        ),
{
    let m = index.symbol_map@;
    let e = index.symbol_map.entry_seq();
    let k = keywords[q];
    let x = SymbolHit { symbol: e[i].1@[j], tier: MatchTier::Partial };
    lemma_partial_hits(e, k);
    assert(e[i].1@.contains(x.symbol));
    assert(partial_hits(e, k).contains(x));
    let a = exact_hits(m, k) + normalized_hits(e, text_terms(spec_unicode_words(k)));
    lemma_concat_contains(a, partial_hits(e, k));
    assert(keyword_hits(m, e, k) == a + partial_hits(e, k));
    assert((a + partial_hits(e, k)).contains(x));
    assert(keyword_hits(m, e, keywords[q]).contains(x));
    lemma_all_hits_keyword(m, e, keywords, q);
    assert(all_hits(m, e, keywords).contains(x));
    let s = query_hits(index, keywords);
    assert(s.contains(x));
    let t = choose|t: int| 0 <= t < s.len() && s[t] == x;
    lemma_keyword_results(index, keywords, max_results);
}

/// The best tier at a location is at least that of any hit there, and at most exact.
proof fn lemma_best_tier_bounds(s: Seq<SymbolHit>, x: SymbolHit)
    ensures
        best_tier(s, hit_key(x)) <= 3,
        s.contains(x) ==> tier_rank(x.tier) <= best_tier(s, hit_key(x)),
    decreases s.len(),
{
    if s.len() > 0 {
        let p = s.drop_last();
        lemma_best_tier_bounds(p, x);
        if s.contains(x) && s.last() != x {
            let i = choose|i: int| 0 <= i < s.len() && s[i] == x;
            assert(i < s.len() - 1);
            assert(p[i] == x);
        }
    }
}

/// A symbol filed under a keyword of the query is an exact match of the query;
/// whenever the results fall short of the limit its location is among them,
/// and the result there is an exact match.
pub proof fn lemma_exact_match_found(index: &CodebaseIndex, keywords: Seq<Seq<char>>, max_results: Option<usize>, q: int, j: int)
    requires
        0 <= q < keywords.len(),
        index.symbol_map@.contains_key(keywords[q]),
        0 <= j < index.symbol_map@[keywords[q]]@.len(),
    ensures
        query_hits(index, keywords).contains(SymbolHit { symbol: index.symbol_map@[keywords[q]]@[j], tier: MatchTier::Exact }),
        keyword_results(index, keywords, max_results).len() < result_limit(max_results) ==> exists|r: int|
            0 <= r < keyword_results(index, keywords, max_results).len()
                && hit_key(#[trigger] keyword_results(index, keywords, max_results)[r])
                    == hit_key(SymbolHit { symbol: index.symbol_map@[keywords[q]]@[j], tier: MatchTier::Exact })
                && keyword_results(index, keywords, max_results)[r].tier == MatchTier::Exact,
{
    let m = index.symbol_map@;
    let e = index.symbol_map.entry_seq();
    let k = keywords[q];
    let x = SymbolHit { symbol: m[k]@[j], tier: MatchTier::Exact };
    lemma_tagged_contains(m[k]@, MatchTier::Exact);
    assert(m[k]@.contains(x.symbol));
    assert(exact_hits(m, k).contains(x));
    let rest = normalized_hits(e, text_terms(spec_unicode_words(k)));
    lemma_concat_contains(exact_hits(m, k), rest);
    lemma_concat_contains(exact_hits(m, k) + rest, partial_hits(e, k));
    assert((exact_hits(m, k) + rest).contains(x));
    assert(keyword_hits(m, e, keywords[q]).contains(x));
    lemma_all_hits_keyword(m, e, keywords, q);
    let s = query_hits(index, keywords);
    assert(s.contains(x));
    let t = choose|t: int| 0 <= t < s.len() && s[t] == x;
    lemma_keyword_results(index, keywords, max_results);
    lemma_best_tier_bounds(s, x);
    let res = keyword_results(index, keywords, max_results);
    if res.len() < result_limit(max_results) {
        assert(has_location(res, hit_key(s[t])));
        let r = choose|r: int| 0 <= r < res.len() && hit_key(res[r]) == hit_key(s[t]);
        assert(tier_rank(res[r].tier) == best_tier(s, hit_key(res[r])));
    }
}

} // verus!
