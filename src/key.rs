use std::hash::Hash;
use vstd::prelude::*;
use vstd::std_specs::hash::obeys_key_model;

verus! {

broadcast use vstd::std_specs::hash::group_hash_axioms;

/// A key type whose `Eq` and `Hash` agree with its value, so that a
/// `HashMap` keyed by it behaves as a mathematical map, and whose copies are
/// equal to the original.
pub trait HashKey: Copy + Eq + Hash {
    /// The key type obeys the hash-table key model of vstd.
    proof fn lemma_key_model()
        ensures
            obeys_key_model::<Self>(),
    ;
}

impl HashKey for u8 {
    proof fn lemma_key_model() {
    }
}

impl HashKey for u16 {
    proof fn lemma_key_model() {
    }
}

impl HashKey for u32 {
    proof fn lemma_key_model() {
    }
}

impl HashKey for u64 {
    proof fn lemma_key_model() {
    }
}

impl HashKey for u128 {
    proof fn lemma_key_model() {
    }
}

impl HashKey for usize {
    proof fn lemma_key_model() {
    }
}

impl HashKey for i8 {
    proof fn lemma_key_model() {
    }
}

impl HashKey for i16 {
    proof fn lemma_key_model() {
    }
}

impl HashKey for i32 {
    proof fn lemma_key_model() {
    }
}

impl HashKey for i64 {
    proof fn lemma_key_model() {
    }
}

impl HashKey for i128 {
    proof fn lemma_key_model() {
    }
}

impl HashKey for isize {
    proof fn lemma_key_model() {
    }
}

impl HashKey for bool {
    proof fn lemma_key_model() {
    }
}

} // verus!
