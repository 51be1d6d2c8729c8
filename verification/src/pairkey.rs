//! Canonicalization of a (sender, receiver) pair into an unordered key.
//!
//! A pair of addresses is keyed by `(min, max)` under lexicographic ordering,
//! so that either direction of correspondence maps to the same key.

use vstd::prelude::*;

verus! {

use crate::strcmp::{lex_le, lemma_lex_le_antisymmetric, lemma_lex_le_total, str_le};

/// The canonical unordered key of two addresses: the smaller first.
pub open spec fn pair_key(a: Seq<char>, b: Seq<char>) -> (Seq<char>, Seq<char>) {
    if lex_le(a, b) {
        (a, b)
    } else {
        (b, a)
    }
}

/// The key does not depend on the order of the two addresses.
pub proof fn lemma_pair_key_symmetric(a: Seq<char>, b: Seq<char>)
    ensures
        pair_key(a, b) == pair_key(b, a),
{
    lemma_lex_le_total(a, b);
    if lex_le(a, b) && lex_le(b, a) {
        lemma_lex_le_antisymmetric(a, b);
    }
}

/// The first component of the key is at most the second.
pub proof fn lemma_pair_key_ordered(a: Seq<char>, b: Seq<char>)
    ensures
        lex_le(pair_key(a, b).0, pair_key(a, b).1),
{
    lemma_lex_le_total(a, b);
}

/// An unordered pair of addresses in canonical form: `lo` at most `hi`.
pub struct PairKey {
    pub lo: String,
    pub hi: String,
}

impl PairKey {
    /// The canonical form invariant.
    pub open spec fn wf(&self) -> bool {
        lex_le(self.lo@, self.hi@)
    }

    /// Builds the canonical key of two addresses, in either order.
    pub fn new(a: String, b: String) -> (r: PairKey)
        ensures
            r.wf(),
            (r.lo@, r.hi@) == pair_key(a@, b@),
    {
        proof {
            lemma_pair_key_ordered(a@, b@);
        }
        if str_le(a.as_str(), b.as_str()) {
            PairKey { lo: a, hi: b }
        } else {
            PairKey { lo: b, hi: a }
        }
    }
}

} // verus!
