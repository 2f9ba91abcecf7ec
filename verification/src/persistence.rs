//! Where the index files of a project are kept, and when a cached index is still valid.
use vstd::prelude::*;
use std::hash::{Hash, Hasher};
use crate::clock::unix_time_secs;
use crate::str_map::{StrMap, map_of, lemma_map_of_lookup};

verus! {

/// The lowercase hexadecimal digit for `d` (taken as 15 when above).
pub open spec fn hex_digit(d: int) -> char {
    if d == 0 {
        '0'
    } else if d == 1 {
        '1'
    } else if d == 2 {
        '2'
    } else if d == 3 {
        '3'
    } else if d == 4 {
        '4'
    } else if d == 5 {
        '5'
    } else if d == 6 {
        '6'
    } else if d == 7 {
        '7'
    } else if d == 8 {
        '8'
    } else if d == 9 {
        '9'
    } else if d == 10 {
        'a'
    } else if d == 11 {
        'b'
    } else if d == 12 {
        'c'
    } else if d == 13 {
        'd'
    } else if d == 14 {
        'e'
    } else {
        'f'
    }
}

/// Lowercase hexadecimal rendering of `v`, without leading zeros.
pub open spec fn hex_lower(v: nat) -> Seq<char>
    decreases v,
{
    if v < 16 {
        seq![hex_digit(v as int)]
    } else {
        hex_lower(v / 16).push(hex_digit((v % 16) as int))
    }
}

/// The hexadecimal rendering is never empty.
pub proof fn lemma_hex_lower_nonempty(v: nat)
    ensures
        hex_lower(v).len() >= 1,
        v >= 16 ==> hex_lower(v).len() >= 2,
    decreases v,
{
    if v >= 16 {
        lemma_hex_lower_nonempty(v / 16);
    }
}

/// Distinct numbers have distinct hexadecimal renderings, so projects whose
/// paths hash differently get different directories.
pub proof fn lemma_hex_lower_injective(a: nat, b: nat)
    requires
        a != b,
    ensures
        hex_lower(a) != hex_lower(b),
    decreases a + b,
{
    lemma_hex_lower_nonempty(a);
    lemma_hex_lower_nonempty(b);
    if a < 16 && b < 16 {
        assert(hex_lower(a)[0] != hex_lower(b)[0]);
    } else if a < 16 || b < 16 {
        assert(hex_lower(a).len() != hex_lower(b).len());
    } else if a % 16 != b % 16 {
        let la = hex_lower(a);
        let lb = hex_lower(b);
        assert(la.last() == hex_digit((a % 16) as int));
        assert(lb.last() == hex_digit((b % 16) as int));
        assert(la.last() != lb.last());
    } else {
        assert(a / 16 != b / 16);
        lemma_hex_lower_injective(a / 16, b / 16);
        let la = hex_lower(a);
        let lb = hex_lower(b);
        assert(la.drop_last() =~= hex_lower(a / 16));
        assert(lb.drop_last() =~= hex_lower(b / 16));
    }
}

fn hex_digit_char(d: u64) -> (c: char)
    requires
        d < 16,
    ensures
        c == hex_digit(d as int),
{
    if d == 0 {
        '0'
    } else if d == 1 {
        '1'
    } else if d == 2 {
        '2'
    } else if d == 3 {
        '3'
    } else if d == 4 {
        '4'
    } else if d == 5 {
        '5'
    } else if d == 6 {
        '6'
    } else if d == 7 {
        '7'
    } else if d == 8 {
        '8'
    } else if d == 9 {
        '9'
    } else if d == 10 {
        'a'
    } else if d == 11 {
        'b'
    } else if d == 12 {
        'c'
    } else if d == 13 {
        'd'
    } else if d == 14 {
        'e'
    } else {
        'f'
    }
}

/// Appends one character to a string (`String::push`).
#[verifier::external_body]
pub(crate) fn push_char(s: &mut String, c: char)
    ensures
        final(s)@ == old(s)@.push(c),
{
    s.push(c);
}

/// Appends the lowercase hexadecimal rendering of `v` to `out`.
fn push_hex(v: u64, out: &mut String)
    ensures
        final(out)@ == old(out)@ + hex_lower(v as nat),
    decreases v,
{
    if v >= 16 {
        push_hex(v / 16, out);
    }
    push_char(out, hex_digit_char(v % 16));
    proof {
        if v >= 16 {
            assert(hex_lower(v as nat) == hex_lower((v / 16) as nat).push(hex_digit((v % 16) as int)));
        }
    }
}

/// The hash that `Hash::hash` of a `str` feeds into a fresh
/// `std::collections::hash_map::DefaultHasher` yields.
pub uninterp spec fn spec_text_hash(text: Seq<char>) -> u64;

/// Hashes `text` with `std::collections::hash_map::DefaultHasher` (created by
/// `new`, fed by `str`'s `Hash`, read by `finish`). The contract only names the
/// result; `DefaultHasher::new` is unseeded, so equal text gives equal hashes.
#[verifier::external_body]
fn hash_text(text: &str) -> (h: u64)
    ensures
        h == spec_text_hash(text@),
{
    let mut hasher = std::collections::hash_map::DefaultHasher::new();
    text.hash(&mut hasher);
    hasher.finish()
}

/// What `std::path::Path::join` gives for `base` joined with `part`.
pub uninterp spec fn spec_path_join(base: Seq<char>, part: Seq<char>) -> Seq<char>;

/// Joins two paths with `std::path::Path::join` and returns the result as a
/// string. The contract only names the result. Both inputs are UTF-8, so the
/// joined path is too and the conversion loses nothing.
#[verifier::external_body]
fn join_path(base: &str, part: &str) -> (r: String)
    ensures
        r@ == spec_path_join(base@, part@),
{
    std::path::Path::new(base).join(part).to_string_lossy().into_owned()
}

/// The directory name of a project: its path's hash in lowercase hex.
pub open spec fn project_key(project_path: Seq<char>) -> Seq<char> {
    hex_lower(spec_text_hash(project_path) as nat)
}

/// The directory that holds the index files of a project.
pub open spec fn project_dir(cache_dir: Seq<char>, project_path: Seq<char>) -> Seq<char> {
    spec_path_join(cache_dir, project_key(project_path))
}

/// Where the index files of projects are stored.
pub struct PersistenceConfig {
    pub cache_dir: String,
}

impl PersistenceConfig {
    /// The directory for a specific project's index.
    pub fn get_project_dir(&self, project_path: &str) -> (r: String)
        ensures
            r@ == project_dir(self.cache_dir@, project_path@),
    {
        let hash = Self::hash_path(project_path);
        join_path(self.cache_dir.as_str(), hash.as_str())
    }

    /// The directory name for a project path: its hash in lowercase hex.
    fn hash_path(path: &str) -> (r: String)
        ensures
            r@ == project_key(path@),
    {
        let h = hash_text(path);
        let mut out = String::new();
        push_hex(h, &mut out);
        out
    }

    /// Path of the main index file.
    pub fn get_main_index_path(&self, project_path: &str) -> (r: String)
        ensures
            r@ == spec_path_join(project_dir(self.cache_dir@, project_path@), "index.bin"@),
    {
        let dir = self.get_project_dir(project_path);
        join_path(dir.as_str(), "index.bin")
    }

    /// Path of the vector index file.
    pub fn get_vector_index_path(&self, project_path: &str) -> (r: String)
        ensures
            r@ == spec_path_join(project_dir(self.cache_dir@, project_path@), "vectors.usearch"@),
    {
        let dir = self.get_project_dir(project_path);
        join_path(dir.as_str(), "vectors.usearch")
    }

    /// Path of the vector metadata file.
    pub fn get_vector_metadata_path(&self, project_path: &str) -> (r: String)
        ensures
            r@ == spec_path_join(project_dir(self.cache_dir@, project_path@), "vectors_metadata.bin"@),
    {
        let dir = self.get_project_dir(project_path);
        join_path(dir.as_str(), "vectors_metadata.bin")
    }

    /// Path of the full-text index directory.
    pub fn get_tantivy_dir(&self, project_path: &str) -> (r: String)
        ensures
            r@ == spec_path_join(project_dir(self.cache_dir@, project_path@), "tantivy"@),
    {
        let dir = self.get_project_dir(project_path);
        join_path(dir.as_str(), "tantivy")
    }

    /// Path of the cache metadata file.
    pub fn get_cache_metadata_path(&self, project_path: &str) -> (r: String)
        ensures
            r@ == spec_path_join(project_dir(self.cache_dir@, project_path@), "metadata.json"@),
    {
        let dir = self.get_project_dir(project_path);
        join_path(dir.as_str(), "metadata.json")
    }
}

/// What is recorded about a cached index.
#[derive(Debug)]
pub struct CacheMetadata {
    pub project_path: String,
    pub cached_at: u64,
    pub file_count: usize,
    /// Modification time of each indexed source file, by path.
    pub file_timestamps: StrMap<u64>,
}

impl CacheMetadata {
    /// Metadata stamped with `cached_at`.
    pub fn with_timestamp(project_path: String, file_count: usize, file_timestamps: StrMap<u64>, cached_at: u64) -> (r: Self)
        ensures
            r.project_path == project_path,
            r.cached_at == cached_at,
            r.file_count == file_count,
            r.file_timestamps@ == file_timestamps@,
    {
        CacheMetadata { project_path, cached_at, file_count, file_timestamps }
    }

    /// Metadata stamped with the current time.
    pub fn new(project_path: String, file_count: usize, file_timestamps: StrMap<u64>) -> (r: Self)
        ensures
            r.project_path == project_path,
            r.file_count == file_count,
            r.file_timestamps@ == file_timestamps@,
    {
        let now = unix_time_secs();
        Self::with_timestamp(project_path, file_count, file_timestamps, now)
    }

    /// The cache is still valid exactly when the current files and their
    /// modification times are those recorded.
    pub fn is_valid(&self, current_timestamps: &StrMap<u64>) -> (r: bool)
        ensures
            r == (self.file_timestamps@ == current_timestamps@),
    {
        // The file count must match.
        if self.file_timestamps.len() != current_timestamps.len() {
            return false;
        }

        // No file may have been modified or removed.
        let cached = self.file_timestamps.entries();
        let n = cached.len();
        for i in 0..n
            invariant
                n == cached@.len(),
                map_of(cached@) == self.file_timestamps@,
                keys_distinct_of(cached@),
                forall|j: int| 0 <= j < i ==> current_timestamps@.contains_key(#[trigger] cached@[j].0@)
                    && current_timestamps@[cached@[j].0@] == cached@[j].1,
        {
            match current_timestamps.get(cached[i].0.as_str()) {
                Some(t) => {
                    if *t != cached[i].1 {
                        proof {
                            lemma_map_of_lookup(cached@, cached@[i as int].0@);
                        }
                        return false;
                    }
                }
                None => {
                    proof {
                        lemma_map_of_lookup(cached@, cached@[i as int].0@);
                    }
                    return false;
                }
            }
        }

        // No file may have been added.
        let current = current_timestamps.entries();
        let m = current.len();
        for i in 0..m
            invariant
                m == current@.len(),
                map_of(current@) == current_timestamps@,
                keys_distinct_of(current@),
                forall|j: int| 0 <= j < i ==> self.file_timestamps@.contains_key(#[trigger] current@[j].0@),
        {
            if !self.file_timestamps.contains_key(current[i].0.as_str()) {
                proof {
                    assert(self.file_timestamps@ != current_timestamps@) by {
                        lemma_map_of_lookup(current@, current@[i as int].0@);
                    }
                }
                return false;
            }
        }
        proof {
            assert(self.file_timestamps@ =~= current_timestamps@) by {
                assert forall|k: Seq<char>| #[trigger] self.file_timestamps@.contains_key(k) implies current_timestamps@.contains_key(k)
                    && current_timestamps@[k] == self.file_timestamps@[k] by {
                    lemma_map_of_lookup(cached@, k);
                    let j = choose|j: int| 0 <= j < cached@.len() && cached@[j].0@ == k;
                }
                assert forall|k: Seq<char>| #[trigger] current_timestamps@.contains_key(k) implies self.file_timestamps@.contains_key(k) by {
                    lemma_map_of_lookup(current@, k);
                    let j = choose|j: int| 0 <= j < current@.len() && current@[j].0@ == k;
                }
            }
        }
        true
    }
}

/// The keys of an entry list are distinct.
pub open spec fn keys_distinct_of(e: Seq<(String, u64)>) -> bool {
    crate::str_map::keys_distinct(e)
}

/// Information about a cached project.
#[derive(Debug)]
pub struct CacheInfo {
    pub project_path: String,
    pub cached_at: u64,
    pub file_count: usize,
    pub size_bytes: u64,
}

} // verus!
