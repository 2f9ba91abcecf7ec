//! A finite map keyed by strings, stored as a list of entries with distinct keys.
use vstd::prelude::*;
use crate::text::same_text;

verus! {

/// No two entries carry the same key text.
pub open spec fn keys_distinct<V>(e: Seq<(String, V)>) -> bool {
    forall|i: int, j: int| 0 <= i < j < e.len() ==> e[i].0@ != e[j].0@
}

/// The map that a list of entries denotes: later entries take precedence.
pub open spec fn map_of<V>(e: Seq<(String, V)>) -> Map<Seq<char>, V>
    decreases e.len(),
{
    if e.len() == 0 {
        Map::empty()
    } else {
        map_of(e.drop_last()).insert(e.last().0@, e.last().1)
    }
}

/// With distinct keys, a key is present exactly when some entry carries it,
/// and the value stored for it is that entry's value.
pub proof fn lemma_map_of_lookup<V>(e: Seq<(String, V)>, k: Seq<char>)
    requires
        keys_distinct(e),
    ensures
        map_of(e).contains_key(k) <==> exists|i: int| 0 <= i < e.len() && e[i].0@ == k,
        forall|i: int| 0 <= i < e.len() && e[i].0@ == k ==> map_of(e)[k] == e[i].1,
    decreases e.len(),
{
    if e.len() > 0 {
        let p = e.drop_last();
        assert(keys_distinct(p));
        lemma_map_of_lookup(p, k);
        if map_of(e).contains_key(k) {
            if k == e.last().0@ {
                assert(e[e.len() - 1].0@ == k);
            } else {
                let i = choose|i: int| 0 <= i < p.len() && p[i].0@ == k;
                assert(e[i].0@ == k);
            }
        }
        assert forall|i: int| 0 <= i < e.len() && e[i].0@ == k implies map_of(e)[k] == e[i].1 by {
            if i < e.len() - 1 {
                assert(p[i].0@ == k);
            }
        }
        if exists|i: int| 0 <= i < e.len() && e[i].0@ == k {
            let i = choose|i: int| 0 <= i < e.len() && e[i].0@ == k;
            if i < e.len() - 1 {
                assert(p[i].0@ == k);
            }
        }
    }
}

/// With distinct keys, the map has one key per entry.
pub proof fn lemma_map_of_len<V>(e: Seq<(String, V)>)
    requires
        keys_distinct(e),
    ensures
        map_of(e).dom().finite(),
        map_of(e).len() == e.len(),
    decreases e.len(),
{
    if e.len() > 0 {
        let p = e.drop_last();
        assert(keys_distinct(p));
        lemma_map_of_len(p);
        lemma_map_of_lookup(p, e.last().0@);
        if map_of(p).contains_key(e.last().0@) {
            let i = choose|i: int| 0 <= i < p.len() && p[i].0@ == e.last().0@;
            assert(e[i].0@ == e[e.len() - 1].0@);
        }
    }
}

/// Two entry lists with distinct keys denote the same map when they hold
/// the same keys and the same value for each key.
proof fn lemma_map_of_ext<V>(e: Seq<(String, V)>, f: Seq<(String, V)>, m: Map<Seq<char>, V>)
    requires
        keys_distinct(e),
        forall|k: Seq<char>| #![trigger m.contains_key(k)]
            m.contains_key(k) <==> exists|i: int| 0 <= i < e.len() && e[i].0@ == k,
        forall|i: int| 0 <= i < e.len() ==> m.contains_key(#[trigger] e[i].0@) && m[e[i].0@] == e[i].1,
        f == e,
    ensures
        map_of(e) == m,
{
    assert forall|k: Seq<char>| #[trigger] map_of(e).contains_key(k) == m.contains_key(k) by {
        lemma_map_of_lookup(e, k);
    }
    assert forall|k: Seq<char>| map_of(e).contains_key(k) implies #[trigger] map_of(e)[k] == m[k] by {
        lemma_map_of_lookup(e, k);
        let i = choose|i: int| 0 <= i < e.len() && e[i].0@ == k;
    }
    assert(map_of(e) =~= m);
}

/// A finite map from key text to values.
#[derive(Debug)]
pub struct StrMap<V> {
    entries: Vec<(String, V)>,
}

impl<V> View for StrMap<V> {
    type V = Map<Seq<char>, V>;

    closed spec fn view(&self) -> Map<Seq<char>, V> {
        map_of(self.entries@)
    }
}

impl<V> StrMap<V> {
    #[verifier::type_invariant]
    closed spec fn inv(self) -> bool {
        keys_distinct(self.entries@)
    }

    /// An empty map.
    pub fn new() -> (m: Self)
        ensures
            m@ == Map::<Seq<char>, V>::empty(),
    {
        StrMap { entries: Vec::new() }
    }

    /// The number of keys.
    pub fn len(&self) -> (n: usize)
        ensures
            self@.dom().finite(),
            n == self@.len(),
    {
        proof {
            use_type_invariant(self);
            lemma_map_of_len(self.entries@);
        }
        self.entries.len()
    }

    /// Position of the entry for `k`, if any.
    fn position(&self, k: &str) -> (r: Option<usize>)
        ensures
            match r {
                Some(i) => i < self.entries@.len() && self.entries@[i as int].0@ == k@,
                None => forall|i: int| 0 <= i < self.entries@.len() ==> self.entries@[i].0@ != k@,
            },
    {
        let n = self.entries.len();
        for i in 0..n
            invariant
                n == self.entries@.len(),
                forall|j: int| 0 <= j < i ==> self.entries@[j].0@ != k@,
        {
            if same_text(self.entries[i].0.as_str(), k) {
                return Some(i);
            }
        }
        None
    }

    /// The key is present.
    pub fn contains_key(&self, k: &str) -> (b: bool)
        ensures
            b == self@.contains_key(k@),
    {
        proof {
            use_type_invariant(self);
            lemma_map_of_lookup(self.entries@, k@);
        }
        match self.position(k) {
            Some(_) => true,
            None => false,
        }
    }

    /// The value stored for `k`, if any.
    pub fn get(&self, k: &str) -> (r: Option<&V>)
        ensures
            match r {
                Some(v) => self@.contains_key(k@) && self@[k@] == *v,
                None => !self@.contains_key(k@),
            },
    {
        proof {
            use_type_invariant(self);
            lemma_map_of_lookup(self.entries@, k@);
        }
        match self.position(k) {
            Some(i) => Some(&self.entries[i].1),
            None => None,
        }
    }

    /// Takes the entry for `k` out of the map.
    pub fn remove(&mut self, k: &str) -> (r: Option<V>)
        ensures
            final(self)@ == old(self)@.remove(k@),
            match r {
                Some(v) => old(self)@.contains_key(k@) && old(self)@[k@] == v,
                None => !old(self)@.contains_key(k@),
            },
    {
        proof {
            use_type_invariant(&*self);
            lemma_map_of_lookup(self.entries@, k@);
        }
        match self.position(k) {
            Some(i) => {
                let ghost e = self.entries@;
                let ghost m = map_of(e).remove(k@);
                let mut taken: Vec<(String, V)> = Vec::new();
                std::mem::swap(&mut taken, &mut self.entries);
                let (_, v) = taken.remove(i);
                proof {
                    let f = taken@;
                    assert(f =~= e.subrange(0, i as int) + e.subrange(i + 1, e.len() as int));
                    assert forall|a: int, b: int| 0 <= a < b < f.len() implies f[a].0@ != f[b].0@ by {
                        let a2 = if a < i { a } else { a + 1 };
                        let b2 = if b < i { b } else { b + 1 };
                        assert(f[a] == e[a2] && f[b] == e[b2]);
                    }
                    assert forall|kk: Seq<char>| #![trigger m.contains_key(kk)]
                        m.contains_key(kk) <==> exists|j: int| 0 <= j < f.len() && f[j].0@ == kk by {
                        lemma_map_of_lookup(e, kk);
                        if m.contains_key(kk) {
                            let j = choose|j: int| 0 <= j < e.len() && e[j].0@ == kk;
                            let j2 = if j < i { j } else { j - 1 };
                            assert(f[j2] == e[j]);
                        }
                        if exists|j: int| 0 <= j < f.len() && f[j].0@ == kk {
                            let j = choose|j: int| 0 <= j < f.len() && f[j].0@ == kk;
                            let j2 = if j < i { j } else { j + 1 };
                            assert(f[j] == e[j2]);
                        }
                    }
                    assert forall|j: int| 0 <= j < f.len() implies m.contains_key(#[trigger] f[j].0@) && m[f[j].0@] == f[j].1 by {
                        let j2 = if j < i { j } else { j + 1 };
                        assert(f[j] == e[j2]);
                        lemma_map_of_lookup(e, f[j].0@);
                    }
                    lemma_map_of_ext(f, f, m);
                }
                self.entries = taken;
                Some(v)
            }
            None => {
                proof {
                    assert(map_of(self.entries@).remove(k@) =~= map_of(self.entries@));
                }
                None
            }
        }
    }

    /// Stores `v` under `k`, replacing any earlier value.
    pub fn insert(&mut self, k: String, v: V)
        ensures
            final(self)@ == old(self)@.insert(k@, v),
    {
        let _ = self.remove(k.as_str());
        let ghost e = self.entries@;
        proof {
            use_type_invariant(&*self);
            lemma_map_of_lookup(e, k@);
        }
        let mut taken: Vec<(String, V)> = Vec::new();
        std::mem::swap(&mut taken, &mut self.entries);
        taken.push((k, v));
        proof {
            let f = taken@;
            assert(f.drop_last() =~= e);
            assert forall|a: int, b: int| 0 <= a < b < f.len() implies f[a].0@ != f[b].0@ by {
                if b == f.len() - 1 {
                    assert(f[a] == e[a]);
                } else {
                    assert(f[a] == e[a] && f[b] == e[b]);
                }
            }
        }
        self.entries = taken;
    }

    /// The entries in their stored order.
    pub closed spec fn entry_seq(&self) -> Seq<(String, V)> {
        self.entries@
    }

    /// The entries, each key once.
    pub fn entries(&self) -> (r: &Vec<(String, V)>)
        ensures
            r@ == self.entry_seq(),
            keys_distinct(r@),
            map_of(r@) == self@,
    {
        proof {
            use_type_invariant(self);
        }
        &self.entries
    }
}

} // verus!
