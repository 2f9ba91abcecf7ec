//! Normalization of text and symbol names into stemmed search terms.
use vstd::prelude::*;
use vstd::string::StringExecFns;
use vstd::utf8::encode_utf8;
use rust_stemmers::{Algorithm, Stemmer};
use unicode_segmentation::UnicodeSegmentation;
use crate::persistence::push_char;
use crate::text::{chars_of, spec_to_lowercase, to_lowercase};

verus! {

/// The text of each string in a sequence.
pub open spec fn texts(v: Seq<String>) -> Seq<Seq<char>> {
    v.map_values(|s: String| s@)
}

/// What `UnicodeSegmentation::unicode_words` yields for `text`: its UAX#29
/// words that hold an alphanumeric character, in order.
pub uninterp spec fn spec_unicode_words(text: Seq<char>) -> Seq<Seq<char>>;

/// Splits `text` into words with `unicode_segmentation`'s `unicode_words`.
/// The contract only names the result.
#[verifier::external_body]
fn unicode_words_of(text: &str) -> (r: Vec<String>)
    ensures
        texts(r@) == spec_unicode_words(text@),
{
    text.unicode_words().map(|w| w.to_string()).collect()
}

/// What the English Snowball stemmer of `rust_stemmers` gives for `word`.
pub uninterp spec fn spec_english_stem(word: Seq<char>) -> Seq<char>;

/// Stems `word` with `rust_stemmers::Stemmer::create(Algorithm::English)`.
/// The contract only names the result.
#[verifier::external_body]
fn english_stem(word: &str) -> (r: String)
    ensures
        r@ == spec_english_stem(word@),
{
    Stemmer::create(Algorithm::English).stem(word).into_owned()
}

/// Whether `char::is_uppercase` holds of `c` (the Unicode `Uppercase` property).
pub uninterp spec fn spec_is_uppercase(c: char) -> bool;

/// Tests `c` with `char::is_uppercase`. The contract only names the result.
#[verifier::external_body]
fn char_is_uppercase(c: char) -> (r: bool)
    ensures
        r == spec_is_uppercase(c),
{
    c.is_uppercase()
}

/// Words dropped from free text.
pub open spec fn stop_words() -> Seq<Seq<char>> {
    seq!["the"@, "a"@, "an"@, "and"@, "or"@, "but"@, "in"@, "on"@, "at"@, "to"@, "for"@, "of"@, "with"@, "by"@, "from"@, "as"@, "is"@, "was"@, "get"@, "set"@, "new"@, "old"@, "tmp"@, "temp"@, "var"@, "fn"@, "func"@]
}

/// The length of `w` in UTF-8 bytes, as `str::len` counts it.
pub open spec fn byte_len(w: Seq<char>) -> nat {
    encode_utf8(w).len()
}

/// The search terms of a list of words: each lowercased, kept when it is no
/// stop word and longer than two bytes, then stemmed.
pub open spec fn text_terms(words: Seq<Seq<char>>) -> Seq<Seq<char>>
    decreases words.len(),
{
    if words.len() == 0 {
        Seq::empty()
    } else {
        let rest = text_terms(words.drop_last());
        let w = spec_to_lowercase(words.last());
        if !stop_words().contains(w) && byte_len(w) > 2 {
            rest.push(spec_english_stem(w))
        } else {
            rest
        }
    }
}

/// The search terms of a list of name tokens: each lowercased, kept when
/// longer than one byte, then stemmed.
pub open spec fn symbol_terms(tokens: Seq<Seq<char>>) -> Seq<Seq<char>>
    decreases tokens.len(),
{
    if tokens.len() == 0 {
        Seq::empty()
    } else {
        let rest = symbol_terms(tokens.drop_last());
        let t = spec_to_lowercase(tokens.last());
        if byte_len(t) > 1 {
            rest.push(spec_english_stem(t))
        } else {
            rest
        }
    }
}

/// Normalization yields at most one term per word, and every term is the
/// stem of a lowercased word that is no stop word.
pub proof fn lemma_text_terms_from_words(words: Seq<Seq<char>>)
    ensures
        text_terms(words).len() <= words.len(),
        forall|i: int| 0 <= i < text_terms(words).len() ==> exists|j: int| 0 <= j < words.len()
            && !stop_words().contains(spec_to_lowercase(#[trigger] words[j]))
            && #[trigger] text_terms(words)[i] == spec_english_stem(spec_to_lowercase(words[j])),
    decreases words.len(),
{
    if words.len() > 0 {
        let p = words.drop_last();
        lemma_text_terms_from_words(p);
        assert forall|i: int| 0 <= i < text_terms(words).len() implies exists|j: int| 0 <= j < words.len()
            && !stop_words().contains(spec_to_lowercase(#[trigger] words[j]))
            && #[trigger] text_terms(words)[i] == spec_english_stem(spec_to_lowercase(words[j])) by {
            if i < text_terms(p).len() {
                let j = choose|j: int| 0 <= j < p.len()
                    && !stop_words().contains(spec_to_lowercase(#[trigger] p[j]))
                    && text_terms(p)[i] == spec_english_stem(spec_to_lowercase(p[j]));
                assert(text_terms(words)[i] == text_terms(p)[i]);
                assert(words[j] == p[j]);
            } else {
                assert(words[words.len() - 1] == words.last());
            }
        }
    }
}

/// Scanning `s` for `sep`: the finished pieces and the piece in progress.
pub open spec fn split_scan(s: Seq<char>, sep: char) -> (Seq<Seq<char>>, Seq<char>)
    decreases s.len(),
{
    if s.len() == 0 {
        (Seq::empty(), Seq::empty())
    } else {
        let (done, cur) = split_scan(s.drop_last(), sep);
        if s.last() == sep {
            (done.push(cur), Seq::empty())
        } else {
            (done, cur.push(s.last()))
        }
    }
}

/// The pieces of `s` between occurrences of `sep`, empty ones included, as
/// `str::split` yields them.
pub open spec fn split_on(s: Seq<char>, sep: char) -> Seq<Seq<char>> {
    split_scan(s, sep).0.push(split_scan(s, sep).1)
}

/// Scanning `s` for camel-case boundaries: the finished parts, the part in
/// progress, and whether the last character was uppercase.
pub open spec fn camel_scan(s: Seq<char>) -> (Seq<Seq<char>>, Seq<char>, bool)
    decreases s.len(),
{
    if s.len() == 0 {
        (Seq::empty(), Seq::empty(), false)
    } else {
        let (done, cur, last_upper) = camel_scan(s.drop_last());
        let c = s.last();
        if spec_is_uppercase(c) {
            if cur.len() > 0 && !last_upper {
                (done.push(cur), seq![c], true)
            } else {
                (done, cur.push(c), true)
            }
        } else {
            (done, cur.push(c), false)
        }
    }
}

/// The parts of `s`: a new part starts at each uppercase character that
/// follows a non-uppercase one; no part is empty.
pub open spec fn camel_parts(s: Seq<char>) -> Seq<Seq<char>> {
    let (done, cur, _) = camel_scan(s);
    if cur.len() > 0 { done.push(cur) } else { done }
}

/// The camel-case parts of each of `pieces`, in order.
pub open spec fn camel_parts_all(pieces: Seq<Seq<char>>) -> Seq<Seq<char>>
    decreases pieces.len(),
{
    if pieces.len() == 0 {
        Seq::empty()
    } else {
        camel_parts_all(pieces.drop_last()) + camel_parts(pieces.last())
    }
}

/// The tokens of a symbol name: split at underscores, then at camel case.
pub open spec fn name_tokens(name: Seq<char>) -> Seq<Seq<char>> {
    camel_parts_all(split_on(name, '_'))
}

/// Turns text and symbol names into stemmed search terms.
pub struct TextNormalizer {
    stop_words: Vec<String>,
}

impl TextNormalizer {
    #[verifier::type_invariant]
    closed spec fn inv(self) -> bool {
        self.stop_word_list() == stop_words()
    }

    /// The words this normalizer drops from free text, in order.
    pub closed spec fn stop_word_list(self) -> Seq<Seq<char>> {
        texts(self.stop_words@)
    }

    /// A normalizer with the English stemmer and the built-in stop words.
    pub fn new() -> (r: Self)
        ensures
            r.stop_word_list() == stop_words(),
    {
        TextNormalizer { stop_words: Self::create_stop_words() }
    }

    fn create_stop_words() -> (r: Vec<String>)
        ensures
            texts(r@) == stop_words(),
    {
        let mut words: Vec<String> = Vec::new();
        words.push(String::from_str("the"));
        words.push(String::from_str("a"));
        words.push(String::from_str("an"));
        words.push(String::from_str("and"));
        words.push(String::from_str("or"));
        words.push(String::from_str("but"));
        words.push(String::from_str("in"));
        words.push(String::from_str("on"));
        words.push(String::from_str("at"));
        words.push(String::from_str("to"));
        words.push(String::from_str("for"));
        words.push(String::from_str("of"));
        words.push(String::from_str("with"));
        words.push(String::from_str("by"));
        words.push(String::from_str("from"));
        words.push(String::from_str("as"));
        words.push(String::from_str("is"));
        words.push(String::from_str("was"));
        words.push(String::from_str("get"));
        words.push(String::from_str("set"));
        words.push(String::from_str("new"));
        words.push(String::from_str("old"));
        words.push(String::from_str("tmp"));
        words.push(String::from_str("temp"));
        words.push(String::from_str("var"));
        words.push(String::from_str("fn"));
        words.push(String::from_str("func"));
        assert(texts(words@) =~= stop_words());
        words
    }

    fn is_stop_word(&self, w: &String) -> (r: bool)
        ensures
            r == stop_words().contains(w@),
    {
        proof {
            use_type_invariant(self);
        }
        let n = self.stop_words.len();
        for i in 0..n
            invariant
                n == self.stop_words@.len(),
                texts(self.stop_words@) == stop_words(),
                forall|j: int| 0 <= j < i ==> stop_words()[j] != w@,
        {
            if self.stop_words[i] == *w {
                assert(stop_words()[i as int] == w@);
                return true;
            }
        }
        false
    }

    /// Search terms of free text: its Unicode words, lowercased, without stop
    /// words and words of at most two bytes, stemmed.
    pub fn normalize(&self, text: &str) -> (r: Vec<String>)
        ensures
            texts(r@) == text_terms(spec_unicode_words(text@)),
    {
        let words = unicode_words_of(text);
        let n = words.len();
        let mut out: Vec<String> = Vec::new();
        for i in 0..n
            invariant
                n == words@.len(),
                texts(out@) == text_terms(texts(words@).take(i as int)),
        {
            let w = to_lowercase(words[i].as_str());
            let ghost ws = texts(words@).take(i + 1);
            let ghost before = out@;
            proof {
                assert(ws.drop_last() =~= texts(words@).take(i as int));
                assert(ws.last() == words@[i as int]@);
            }
            if !self.is_stop_word(&w) && w.as_str().as_bytes().len() > 2 {
                let term = english_stem(w.as_str());
                out.push(term);
                proof {
                    assert(texts(out@) =~= texts(before).push(term@));
                }
            }
            assert(texts(out@) =~= text_terms(ws));
        }
        proof {
            assert(texts(words@).take(n as int) =~= texts(words@));
        }
        out
    }

    /// Search terms of a symbol name: split at underscores and camel case,
    /// lowercased, without tokens of one byte, stemmed.
    pub fn normalize_symbol(&self, name: &str) -> (r: Vec<String>)
        ensures
            texts(r@) == symbol_terms(name_tokens(name@)),
    {
        let parts = split_underscores(name);
        let np = parts.len();
        let mut tokens: Vec<String> = Vec::new();
        for i in 0..np
            invariant
                np == parts@.len(),
                texts(tokens@) == camel_parts_all(texts(parts@).take(i as int)),
        {
            let mut more = self.split_camel_case(parts[i].as_str());
            let ghost ps = texts(parts@).take(i + 1);
            let ghost before = tokens@;
            let ghost added = more@;
            tokens.append(&mut more);
            proof {
                assert(ps.drop_last() =~= texts(parts@).take(i as int));
                assert(texts(tokens@) =~= texts(before) + texts(added));
            }
        }
        proof {
            assert(texts(parts@).take(np as int) =~= texts(parts@));
        }

        let n = tokens.len();
        let mut out: Vec<String> = Vec::new();
        for i in 0..n
            invariant
                n == tokens@.len(),
                texts(out@) == symbol_terms(texts(tokens@).take(i as int)),
        {
            let t = to_lowercase(tokens[i].as_str());
            let ghost ts = texts(tokens@).take(i + 1);
            let ghost before = out@;
            proof {
                assert(ts.drop_last() =~= texts(tokens@).take(i as int));
                assert(ts.last() == tokens@[i as int]@);
            }
            if t.as_str().as_bytes().len() > 1 {
                let term = english_stem(t.as_str());
                out.push(term);
                proof {
                    assert(texts(out@) =~= texts(before).push(term@));
                }
            }
            assert(texts(out@) =~= symbol_terms(ts));
        }
        proof {
            assert(texts(tokens@).take(n as int) =~= texts(tokens@));
        }
        out
    }

    /// Splits at each uppercase character that follows a non-uppercase one.
    fn split_camel_case(&self, s: &str) -> (r: Vec<String>)
        ensures
            texts(r@) == camel_parts(s@),
    {
        let cs = chars_of(s);
        let n = cs.len();
        let mut result: Vec<String> = Vec::new();
        let mut current = String::new();
        let mut last_was_upper = false;
        let mut has_current = false;
        for i in 0..n
            invariant
                n == cs@.len(),
                cs@ == s@,
                has_current == (current@.len() > 0),
                camel_scan(s@.take(i as int)) == (texts(result@), current@, last_was_upper),
        {
            let ch = cs[i];
            let ghost t = s@.take(i + 1);
            proof {
                assert(t.drop_last() =~= s@.take(i as int));
                assert(t.last() == ch);
            }
            let ghost before = result@;
            if char_is_uppercase(ch) {
                if has_current && !last_was_upper {
                    let ghost finished = current@;
                    result.push(current);
                    current = String::new();
                    proof {
                        assert(texts(result@) =~= texts(before).push(finished));
                    }
                }
                push_char(&mut current, ch);
                last_was_upper = true;
            } else {
                push_char(&mut current, ch);
                last_was_upper = false;
            }
            has_current = true;
            assert(camel_scan(t) == (texts(result@), current@, last_was_upper));
        }
        proof {
            assert(s@.take(n as int) =~= s@);
        }
        let ghost before = result@;
        let ghost last = current@;
        if has_current {
            result.push(current);
            proof {
                assert(texts(result@) =~= texts(before).push(last));
            }
        }
        result
    }
}

/// The pieces of `s` between underscores.
fn split_underscores(s: &str) -> (r: Vec<String>)
    ensures
        texts(r@) == split_on(s@, '_'),
{
    let cs = chars_of(s);
    let n = cs.len();
    let mut done: Vec<String> = Vec::new();
    let mut current = String::new();
    for i in 0..n
        invariant
            n == cs@.len(),
            cs@ == s@,
            split_scan(s@.take(i as int), '_') == (texts(done@), current@),
    {
        let ch = cs[i];
        let ghost t = s@.take(i + 1);
        proof {
            assert(t.drop_last() =~= s@.take(i as int));
            assert(t.last() == ch);
        }
        if ch == '_' {
            done.push(current);
            current = String::new();
        } else {
            push_char(&mut current, ch);
        }
        assert(split_scan(t, '_') == (texts(done@), current@));
    }
    proof {
        assert(s@.take(n as int) =~= s@);
    }
    done.push(current);
    done
}

} // verus!
