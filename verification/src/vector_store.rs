//! Metadata kept beside each vector of the semantic index.
use vstd::prelude::*;

verus! {

/// Metadata associated with each vector in the store.
#[derive(Debug, Clone)]
pub struct VectorMetadata {
    pub symbol_name: String,
    pub file_path: String,
    pub language: String,
    pub start_line: usize,
    pub end_line: usize,
    pub signature: Option<String>,
    pub doc_comment: Option<String>,
}

/// The positions, in order, of the keys that name a stored vector: those
/// below `stored`.
pub open spec fn known_positions(keys: Seq<u64>, stored: nat) -> Seq<usize>
    decreases keys.len(),
{
    if keys.len() == 0 {
        Seq::empty()
    } else {
        let rest = known_positions(keys.drop_last(), stored);
        if keys.last() < stored {
            rest.push((keys.len() - 1) as usize)
        } else {
            rest
        }
    }
}

/// Which of the keys a nearest-neighbour search returned name one of the
/// `stored` vectors; the others are skipped.
pub fn known_key_positions(keys: &Vec<u64>, stored: usize) -> (r: Vec<usize>)
    ensures
        r@ == known_positions(keys@, stored as nat),
{
    let n = keys.len();
    let mut out: Vec<usize> = Vec::new();
    for i in 0..n
        invariant
            n == keys@.len(),
            out@ == known_positions(keys@.take(i as int), stored as nat),
    {
        proof {
            assert(keys@.take(i + 1).drop_last() =~= keys@.take(i as int));
        }
        if keys[i] < stored as u64 {
            out.push(i);
        }
    }
    proof {
        assert(keys@.take(n as int) =~= keys@);
    }
    out
}

} // verus!
