//! Finding indexed files by a component of their path.
use vstd::prelude::*;
use crate::models::{CodebaseIndex, IndexedFile};
use crate::persistence::push_char;
use crate::text::{chars_of, contains_run, has_prefix, has_substring, occurs_at, same_text, spec_to_lowercase, starts_with_run, to_lowercase};
use crate::text_normalizer::texts;

verus! {

/// A path separator, either slash.
pub open spec fn is_separator(c: char) -> bool {
    c == '/' || c == '\\'
}

/// Scanning a path: its finished non-empty components and the one in progress.
pub open spec fn component_scan(s: Seq<char>) -> (Seq<Seq<char>>, Seq<char>)
    decreases s.len(),
{
    if s.len() == 0 {
        (Seq::empty(), Seq::empty())
    } else {
        let (done, cur) = component_scan(s.drop_last());
        if is_separator(s.last()) {
            (if cur.len() > 0 { done.push(cur) } else { done }, Seq::empty())
        } else {
            (done, cur.push(s.last()))
        }
    }
}

/// The non-empty pieces of a path between separators.
pub open spec fn path_components(s: Seq<char>) -> Seq<Seq<char>> {
    let (done, cur) = component_scan(s);
    if cur.len() > 0 {
        done.push(cur)
    } else {
        done
    }
}

/// The non-empty components of `path`, split at `/` and `\`.
pub fn split_path(path: &str) -> (r: Vec<String>)
    ensures
        texts(r@) == path_components(path@),
{
    let cs = chars_of(path);
    let n = cs.len();
    let mut done: Vec<String> = Vec::new();
    let mut current = String::new();
    let mut has_current = false;
    for i in 0..n
        invariant
            n == cs@.len(),
            cs@ == path@,
            has_current == (current@.len() > 0),
            component_scan(path@.take(i as int)) == (texts(done@), current@),
    {
        let ch = cs[i];
        let ghost t = path@.take(i + 1);
        let ghost before = done@;
        proof {
            assert(t.drop_last() =~= path@.take(i as int));
            assert(t.last() == ch);
        }
        if ch == '/' || ch == '\\' {
            if has_current {
                let ghost finished = current@;
                done.push(current);
                assert(texts(done@) =~= texts(before).push(finished));
            }
            current = String::new();
            has_current = false;
        } else {
            push_char(&mut current, ch);
            has_current = true;
        }
        assert(component_scan(t) == (texts(done@), current@));
    }
    proof {
        assert(path@.take(n as int) =~= path@);
    }
    let ghost before = done@;
    let ghost last = current@;
    if has_current {
        done.push(current);
        assert(texts(done@) =~= texts(before).push(last));
    }
    done
}

/// How well a lowercase component matches the lowercase query: 3 when it is
/// the query, 2 when it begins with it, 1 when it contains it elsewhere, 0 otherwise.
pub open spec fn component_rank(c: Seq<char>, q: Seq<char>) -> u8 {
    if c == q {
        3
    } else if has_prefix(c, q) {
        2
    } else if has_substring(c, q) {
        1
    } else {
        0
    }
}

/// The match of component `c` against `q`, as `component_rank` states it.
fn rank_component(c: &str, q: &str) -> (r: u8)
    ensures
        r == component_rank(c@, q@),
{
    if same_text(c, q) {
        return 3;
    }
    let cs = chars_of(c);
    let qs = chars_of(q);
    if starts_with_run(&cs, &qs) {
        2
    } else if contains_run(&cs, &qs) {
        1
    } else {
        0
    }
}

/// `path` once for each of `comps` that, lowercased, matches `q`, with its rank.
pub open spec fn component_matches(path: Seq<char>, comps: Seq<Seq<char>>, q: Seq<char>) -> Seq<(Seq<char>, u8)>
    decreases comps.len(),
{
    if comps.len() == 0 {
        Seq::empty()
    } else {
        let k = component_rank(spec_to_lowercase(comps.last()), q);
        component_matches(path, comps.drop_last(), q) + if k > 0 {
            seq![(path, k)]
        } else {
            Seq::empty()
        }
    }
}

/// The matches of the lowercase query `q` in the paths of the file entries, in order.
pub open spec fn path_matches(e: Seq<(String, IndexedFile)>, q: Seq<char>) -> Seq<(Seq<char>, u8)>
    decreases e.len(),
{
    if e.len() == 0 {
        Seq::empty()
    } else {
        path_matches(e.drop_last(), q) + component_matches(e.last().0@, path_components(e.last().0@), q)
    }
}

/// The matches of rank `k`, in order.
pub open spec fn with_rank(m: Seq<(Seq<char>, u8)>, k: u8) -> Seq<(Seq<char>, u8)>
    decreases m.len(),
{
    if m.len() == 0 {
        Seq::empty()
    } else {
        let r = with_rank(m.drop_last(), k);
        if m.last().1 == k {
            r.push(m.last())
        } else {
            r
        }
    }
}

/// The matches from the best rank to the worst, keeping the order within a rank.
pub open spec fn rank_sorted(m: Seq<(Seq<char>, u8)>) -> Seq<(Seq<char>, u8)> {
    with_rank(m, 3) + with_rank(m, 2) + with_rank(m, 1)
}

/// The paths that a file search for `query` returns: one per matching path
/// component, best match first, at most `max_results` of them.
pub open spec fn file_path_results(index: &CodebaseIndex, query: Seq<char>, max_results: usize) -> Seq<Seq<char>> {
    let sorted = rank_sorted(path_matches(index.files.entry_seq(), spec_to_lowercase(query)));
    let kept = if max_results < sorted.len() { sorted.take(max_results as int) } else { sorted };
    kept.map_values(|m: (Seq<char>, u8)| m.0)
}

/// The text and rank of each match.
pub open spec fn match_view(v: Seq<(String, u8)>) -> Seq<(Seq<char>, u8)> {
    v.map_values(|m: (String, u8)| (m.0@, m.1))
}

/// Appends `path` once for each component of it that matches `q`.
fn push_component_matches(out: &mut Vec<(String, u8)>, path: &str, q: &str)
    ensures
        match_view(final(out)@) == match_view(old(out)@) + component_matches(path@, path_components(path@), q@),
{
    let comps = split_path(path);
    let n = comps.len();
    for i in 0..n
        invariant
            n == comps@.len(),
            texts(comps@) == path_components(path@),
            match_view(out@) == match_view(old(out)@) + component_matches(path@, texts(comps@).take(i as int), q@),
    {
        let ghost before = out@;
        let ghost cs = texts(comps@).take(i + 1);
        proof {
            assert(cs.drop_last() =~= texts(comps@).take(i as int));
            assert(cs.last() == comps@[i as int]@);
        }
        let lower = to_lowercase(comps[i].as_str());
        let k = rank_component(lower.as_str(), q);
        if k > 0 {
            out.push((path.to_string(), k));
            assert(match_view(out@) =~= match_view(before).push((path@, k)));
        }
        assert(match_view(out@) =~= match_view(old(out)@) + component_matches(path@, cs, q@));
    }
    proof {
        assert(texts(comps@).take(n as int) =~= texts(comps@));
    }
}

/// Appends the matches of rank `k`.
fn push_with_rank(out: &mut Vec<(String, u8)>, m: &Vec<(String, u8)>, k: u8)
    ensures
        match_view(final(out)@) == match_view(old(out)@) + with_rank(match_view(m@), k),
{
    let n = m.len();
    for j in 0..n
        invariant
            n == m@.len(),
            match_view(out@) == match_view(old(out)@) + with_rank(match_view(m@).take(j as int), k),
    {
        let ghost before = out@;
        proof {
            assert(match_view(m@).take(j + 1).drop_last() =~= match_view(m@).take(j as int));
            assert(match_view(m@).take(j + 1).last() == (m@[j as int].0@, m@[j as int].1));
        }
        if m[j].1 == k {
            out.push((m[j].0.clone(), k));
            assert(match_view(out@) =~= match_view(before).push((m@[j as int].0@, k)));
        }
        assert(match_view(out@) =~= match_view(old(out)@) + with_rank(match_view(m@).take(j + 1), k));
    }
    proof {
        assert(match_view(m@).take(n as int) =~= match_view(m@));
    }
}

/// Paths of indexed files with a component that contains the query, ignoring
/// case: whole-component matches first, then prefixes, then the rest; a path
/// appears once per matching component; at most `max_results` paths.
pub fn query_file_paths(index: &CodebaseIndex, query: &str, max_results: usize) -> (r: Vec<String>)
    ensures
        texts(r@) == file_path_results(index, query@, max_results),
{
    let q = to_lowercase(query);
    let e = index.files.entries();
    let mut matches: Vec<(String, u8)> = Vec::new();
    let n = e.len();
    for i in 0..n
        invariant
            n == e@.len(),
            e@ == index.files.entry_seq(),
            q@ == spec_to_lowercase(query@),
            match_view(matches@) == path_matches(e@.take(i as int), q@),
    {
        proof {
            assert(e@.take(i + 1).drop_last() =~= e@.take(i as int));
            assert(e@.take(i + 1).last() == e@[i as int]);
        }
        push_component_matches(&mut matches, e[i].0.as_str(), q.as_str());
    }
    proof {
        assert(e@.take(n as int) =~= e@);
    }
    let mut sorted: Vec<(String, u8)> = Vec::new();
    push_with_rank(&mut sorted, &matches, 3);
    push_with_rank(&mut sorted, &matches, 2);
    push_with_rank(&mut sorted, &matches, 1);
    assert(match_view(sorted@) =~= rank_sorted(match_view(matches@)));
    sorted.truncate(max_results);
    let ghost kept = match_view(sorted@);
    let mut paths: Vec<String> = Vec::new();
    let m = sorted.len();
    for j in 0..m
        invariant
            m == sorted@.len(),
            kept == match_view(sorted@),
            texts(paths@) == kept.take(j as int).map_values(|x: (Seq<char>, u8)| x.0),
    {
        let ghost before = paths@;
        let p = sorted[j].0.clone();
        assert(kept[j as int].0 == p@);
        paths.push(p);
        assert(texts(paths@) =~= texts(before).push(p@));
        assert(texts(paths@) =~= kept.take(j + 1).map_values(|x: (Seq<char>, u8)| x.0));
    }
    proof {
        assert(kept.take(m as int) =~= kept);
        let full = rank_sorted(path_matches(index.files.entry_seq(), spec_to_lowercase(query@)));
        if max_results < full.len() {
            assert(kept =~= full.take(max_results as int));
        } else {
            assert(kept =~= full);
        }
    }
    paths
}

/// Every match of a component holds the path it came from, with a rank from 1 to 3.
proof fn lemma_component_matches(path: Seq<char>, comps: Seq<Seq<char>>, q: Seq<char>)
    ensures
        forall|i: int| 0 <= i < component_matches(path, comps, q).len() ==> {
            let m = #[trigger] component_matches(path, comps, q)[i];
            m.0 == path && 1 <= m.1 <= 3
        },
    decreases comps.len(),
{
    if comps.len() > 0 {
        let p = comps.drop_last();
        lemma_component_matches(path, p, q);
        let prev = component_matches(path, p, q);
        let k = component_rank(spec_to_lowercase(comps.last()), q);
        assert forall|i: int| 0 <= i < component_matches(path, comps, q).len() implies {
            let m = #[trigger] component_matches(path, comps, q)[i];
            m.0 == path && 1 <= m.1 <= 3
        } by {
            if i < prev.len() {
                assert(component_matches(path, comps, q)[i] == prev[i]);
            } else {
                assert(component_matches(path, comps, q)[i] == (path, k));
            }
        }
    }
}

/// Every match holds the path of one of the entries, with a rank from 1 to 3.
proof fn lemma_path_matches(e: Seq<(String, IndexedFile)>, q: Seq<char>)
    ensures
        forall|i: int| 0 <= i < path_matches(e, q).len() ==> {
            let m = #[trigger] path_matches(e, q)[i];
            (exists|j: int| 0 <= j < e.len() && e[j].0@ == m.0) && 1 <= m.1 <= 3
        },
    decreases e.len(),
{
    if e.len() > 0 {
        let p = e.drop_last();
        lemma_path_matches(p, q);
        lemma_component_matches(e.last().0@, path_components(e.last().0@), q);
        let pm = path_matches(p, q);
        let cm = component_matches(e.last().0@, path_components(e.last().0@), q);
        assert forall|i: int| 0 <= i < path_matches(e, q).len() implies {
            let m = #[trigger] path_matches(e, q)[i];
            (exists|j: int| 0 <= j < e.len() && e[j].0@ == m.0) && 1 <= m.1 <= 3
        } by {
            if i < pm.len() {
                assert(path_matches(e, q)[i] == pm[i]);
                let j = choose|j: int| 0 <= j < p.len() && p[j].0@ == pm[i].0;
                assert(e[j] == p[j]);
            } else {
                assert(path_matches(e, q)[i] == cm[i - pm.len()]);
                assert(e[e.len() - 1].0@ == e.last().0@);
            }
        }
    }
}

/// Every match of rank `k` is a match of `m`.
proof fn lemma_with_rank(m: Seq<(Seq<char>, u8)>, k: u8)
    ensures
        forall|i: int| 0 <= i < with_rank(m, k).len() ==> m.contains(#[trigger] with_rank(m, k)[i]),
    decreases m.len(),
{
    if m.len() > 0 {
        let p = m.drop_last();
        lemma_with_rank(p, k);
        assert forall|i: int| 0 <= i < with_rank(m, k).len() implies m.contains(#[trigger] with_rank(m, k)[i]) by {
            let r = with_rank(p, k);
            if i < r.len() {
                assert(with_rank(m, k)[i] == r[i]);
                assert(p.contains(r[i]));
                let j = choose|j: int| 0 <= j < p.len() && p[j] == r[i];
                assert(m[j] == p[j]);
            } else {
                assert(m[m.len() - 1] == m.last());
            }
        }
    }
}

/// With every rank from 1 to 3, the three ranks together hold every match.
proof fn lemma_rank_partition_len(m: Seq<(Seq<char>, u8)>)
    requires
        forall|i: int| 0 <= i < m.len() ==> 1 <= (#[trigger] m[i]).1 <= 3,
    ensures
        with_rank(m, 3).len() + with_rank(m, 2).len() + with_rank(m, 1).len() == m.len(),
    decreases m.len(),
{
    if m.len() > 0 {
        let p = m.drop_last();
        assert forall|i: int| 0 <= i < p.len() implies 1 <= (#[trigger] p[i]).1 <= 3 by {
            assert(p[i] == m[i]);
        }
        lemma_rank_partition_len(p);
        assert(1 <= m[m.len() - 1].1 <= 3);
    }
}

/// A file search returns as many paths as there are matching path components,
/// up to `max_results`, and each is the path of an indexed file.
pub proof fn lemma_file_path_results(index: &CodebaseIndex, query: Seq<char>, max_results: usize)
    ensures
        file_path_results(index, query, max_results).len() == if max_results
            < path_matches(index.files.entry_seq(), spec_to_lowercase(query)).len() {
            max_results as nat
        } else {
            path_matches(index.files.entry_seq(), spec_to_lowercase(query)).len()
        },
        forall|i: int| 0 <= i < file_path_results(index, query, max_results).len() ==> exists|j: int|
            0 <= j < index.files.entry_seq().len() && index.files.entry_seq()[j].0@
                == #[trigger] file_path_results(index, query, max_results)[i],
{
    let e = index.files.entry_seq();
    let q = spec_to_lowercase(query);
    let m = path_matches(e, q);
    let sorted = rank_sorted(m);
    lemma_path_matches(e, q);
    lemma_rank_partition_len(m);
    lemma_with_rank(m, 3);
    lemma_with_rank(m, 2);
    lemma_with_rank(m, 1);
    let kept = if max_results < sorted.len() { sorted.take(max_results as int) } else { sorted };
    let r = file_path_results(index, query, max_results);
    assert forall|i: int| 0 <= i < r.len() implies exists|j: int| 0 <= j < e.len() && e[j].0@ == #[trigger] r[i] by {
        assert(r[i] == kept[i].0);
        assert(kept[i] == sorted[i]);
        let a = with_rank(m, 3);
        let b = with_rank(m, 2);
        let c = with_rank(m, 1);
        if i < a.len() {
            assert(sorted[i] == a[i]);
            assert(m.contains(a[i]));
        } else if i < a.len() + b.len() {
            assert(sorted[i] == b[i - a.len()]);
            assert(m.contains(b[i - a.len()]));
        } else {
            assert(sorted[i] == c[i - a.len() - b.len()]);
            assert(m.contains(c[i - a.len() - b.len()]));
        }
        let t = choose|t: int| 0 <= t < m.len() && m[t] == sorted[i];
        assert((exists|j: int| 0 <= j < e.len() && e[j].0@ == m[t].0));
    }
}

/// How a component whose lowercase form is `lc` matches the lowercase query
/// `q`, given that it contains it: 3 when it is the query, 2 when it begins
/// with it, 1 otherwise.
pub open spec fn rank_of_containing(lc: Seq<char>, q: Seq<char>) -> u8 {
    if lc == q {
        3
    } else if has_prefix(lc, q) {
        2
    } else {
        1
    }
}

/// A component that is the query, or begins with it, contains it.
proof fn lemma_prefix_is_substring(c: Seq<char>, q: Seq<char>)
    ensures
        (c == q || has_prefix(c, q)) ==> has_substring(c, q),
{
    if c == q || has_prefix(c, q) {
        assert(c.subrange(0, q.len() as int) =~= q);
        assert(occurs_at(c, q, 0));
    }
}

/// A match of a concatenation is a match of one of its parts.
proof fn lemma_concat_matches(a: Seq<(Seq<char>, u8)>, b: Seq<(Seq<char>, u8)>)
    ensures
        forall|x: (Seq<char>, u8)| #[trigger] (a + b).contains(x) <==> (a.contains(x) || b.contains(x)),
{
    assert forall|x: (Seq<char>, u8)| #[trigger] (a + b).contains(x) <==> (a.contains(x) || b.contains(x)) by {
        if (a + b).contains(x) {
            let i = choose|i: int| 0 <= i < (a + b).len() && (a + b)[i] == x;
            if i >= a.len() {
                assert(b[i - a.len()] == x);
            }
        }
        if a.contains(x) {
            let i = choose|i: int| 0 <= i < a.len() && a[i] == x;
            assert((a + b)[i] == x);
        }
        if b.contains(x) {
            let i = choose|i: int| 0 <= i < b.len() && b[i] == x;
            assert((a + b)[a.len() + i] == x);
        }
    }
}

/// The matches of a path's components, ignoring case: the path is listed
/// once for each component whose lowercase form contains the lowercase query
/// `q`, with the rank that component earns, and for no other component; so
/// components that differ only in letter case give the same matches.
pub proof fn lemma_component_matches_ignore_case(path: Seq<char>, comps: Seq<Seq<char>>, other: Seq<Seq<char>>, q: Seq<char>)
    requires
        other.len() == comps.len(),
        forall|c: int| 0 <= c < comps.len() ==> spec_to_lowercase(#[trigger] other[c]) == spec_to_lowercase(comps[c]),
    ensures
        component_matches(path, comps, q) == component_matches(path, other, q),
        forall|c: int| 0 <= c < comps.len() && has_substring(spec_to_lowercase(#[trigger] comps[c]), q)
            ==> component_matches(path, comps, q).contains((path, rank_of_containing(spec_to_lowercase(comps[c]), q))),
        forall|x: (Seq<char>, u8)| #[trigger] component_matches(path, comps, q).contains(x) ==> x.0 == path
            && exists|c: int| 0 <= c < comps.len() && has_substring(spec_to_lowercase(#[trigger] comps[c]), q)
                && x.1 == rank_of_containing(spec_to_lowercase(comps[c]), q),
    decreases comps.len(),
{
    if comps.len() > 0 {
        let p = comps.drop_last();
        let po = other.drop_last();
        assert forall|c: int| 0 <= c < p.len() implies spec_to_lowercase(#[trigger] po[c]) == spec_to_lowercase(p[c]) by {
            assert(po[c] == other[c] && p[c] == comps[c]);
        }
        lemma_component_matches_ignore_case(path, p, po, q);
        let lc = spec_to_lowercase(comps.last());
        assert(spec_to_lowercase(other.last()) == lc) by {
            assert(other[other.len() - 1] == other.last());
        }
        let prev = component_matches(path, p, q);
        let k = component_rank(lc, q);
        let tail = if k > 0 { seq![(path, k)] } else { Seq::<(Seq<char>, u8)>::empty() };
        lemma_concat_matches(prev, tail);
        lemma_prefix_is_substring(lc, q);
        assert(component_matches(path, comps, q) == prev + tail);
        assert forall|c: int| 0 <= c < comps.len() && has_substring(spec_to_lowercase(#[trigger] comps[c]), q)
            implies component_matches(path, comps, q).contains((path, rank_of_containing(spec_to_lowercase(comps[c]), q))) by {
            if c < p.len() {
                assert(p[c] == comps[c]);
            } else {
                assert(comps[c] == comps.last());
                assert(tail[0] == (path, k));
                assert(tail.contains((path, k)));
            }
        }
        assert forall|x: (Seq<char>, u8)| #[trigger] component_matches(path, comps, q).contains(x) implies x.0 == path
            && exists|c: int| 0 <= c < comps.len() && has_substring(spec_to_lowercase(#[trigger] comps[c]), q)
                && x.1 == rank_of_containing(spec_to_lowercase(comps[c]), q) by {
            if prev.contains(x) {
                let c = choose|c: int| 0 <= c < p.len() && has_substring(spec_to_lowercase(#[trigger] p[c]), q)
                    && x.1 == rank_of_containing(spec_to_lowercase(p[c]), q);
                assert(comps[c] == p[c]);
            } else {
                assert(tail.contains(x));
                let t = choose|t: int| 0 <= t < tail.len() && tail[t] == x;
                assert(comps[comps.len() - 1] == comps.last());
            }
        }
    }
}

/// A match is kept among the matches of its rank.
proof fn lemma_with_rank_keeps(m: Seq<(Seq<char>, u8)>, x: (Seq<char>, u8))
    requires
        m.contains(x),
    ensures
        with_rank(m, x.1).contains(x),
    decreases m.len(),
{
    let p = m.drop_last();
    if m.last() == x {
        let r = with_rank(p, x.1);
        assert(r.push(x)[r.len() as int] == x);
    } else {
        let i = choose|i: int| 0 <= i < m.len() && m[i] == x;
        assert(p[i] == x);
        lemma_with_rank_keeps(p, x);
        let r = with_rank(p, x.1);
        let t = choose|t: int| 0 <= t < r.len() && r[t] == x;
        if m.last().1 == x.1 {
            assert(r.push(m.last())[t] == x);
        }
    }
}

/// An indexed file with a path component whose lowercase form contains the
/// lowercase query is found by the file search whenever the results fall short
/// of the limit.
pub proof fn lemma_file_path_found(index: &CodebaseIndex, query: Seq<char>, max_results: usize, i: int, c: int)
    requires
        0 <= i < index.files.entry_seq().len(),
        0 <= c < path_components(index.files.entry_seq()[i].0@).len(),
        has_substring(spec_to_lowercase(path_components(index.files.entry_seq()[i].0@)[c]), spec_to_lowercase(query)),
    ensures
        file_path_results(index, query, max_results).len() < max_results
            ==> file_path_results(index, query, max_results).contains(index.files.entry_seq()[i].0@),
{
    let e = index.files.entry_seq();
    let q = spec_to_lowercase(query);
    let path = e[i].0@;
    let comps = path_components(path);
    lemma_component_matches_ignore_case(path, comps, comps, q);
    let x = (path, rank_of_containing(spec_to_lowercase(comps[c]), q));
    assert(component_matches(path, comps, q).contains(x));
    lemma_path_matches_holds(e, q, i, x);
    let m = path_matches(e, q);
    lemma_with_rank_keeps(m, x);
    let sorted = rank_sorted(m);
    let a = with_rank(m, 3);
    let b = with_rank(m, 2);
    let d = with_rank(m, 1);
    let t = choose|t: int| 0 <= t < with_rank(m, x.1).len() && with_rank(m, x.1)[t] == x;
    let at: int = if x.1 == 3 { t } else if x.1 == 2 { a.len() + t } else { a.len() + b.len() + t };
    assert(sorted[at] == x);
    let r = file_path_results(index, query, max_results);
    if r.len() < max_results {
        lemma_file_path_results(index, query, max_results);
        lemma_path_matches(e, q);
        lemma_rank_partition_len(m);
        assert(r.len() == sorted.len());
        assert(r[at] == path);
    }
}

/// The matches of the entries hold the matches of each entry's path.
proof fn lemma_path_matches_holds(e: Seq<(String, IndexedFile)>, q: Seq<char>, i: int, x: (Seq<char>, u8))
    requires
        0 <= i < e.len(),
        component_matches(e[i].0@, path_components(e[i].0@), q).contains(x),
    ensures
        path_matches(e, q).contains(x),
    decreases e.len(),
{
    let p = e.drop_last();
    lemma_concat_matches(path_matches(p, q), component_matches(e.last().0@, path_components(e.last().0@), q));
    if i < e.len() - 1 {
        assert(p[i] == e[i]);
        lemma_path_matches_holds(p, q, i, x);
    } else {
        assert(e[i] == e.last());
    }
}

} // verus!
