//! [`IdKey`]: the identifier a caller gives a stored vector, and the hash
//! that files it in the live-id table.

use std::collections::hash_map::DefaultHasher;
use std::hash::Hasher;
use vstd::prelude::*;
use vstd::std_specs::hash::DefaultHasherAdditionalSpecFns;

verus! {

/// The identifier of a stored vector: a 64-bit integer or a byte key.
#[derive(Debug, Clone)]
pub enum IdKey {
    /// A 64-bit integer id.
    U64(u64),
    /// A byte key.
    Bytes(Vec<u8>),
}

/// Whether `a` and `b` name the same vector: same variant, same integer or
/// same bytes.
pub open spec fn key_eq(a: IdKey, b: IdKey) -> bool {
    match (a, b) {
        (IdKey::U64(x), IdKey::U64(y)) => x == y,
        (IdKey::Bytes(x), IdKey::Bytes(y)) => x@ == y@,
        _ => false,
    }
}

/// The bucket an id is filed under: an integer id is its own bucket; a byte
/// key is filed under the `DefaultHasher` digest of its bytes.
pub open spec fn key_hash(k: IdKey) -> u64 {
    match k {
        IdKey::U64(x) => x,
        IdKey::Bytes(b) => DefaultHasher::spec_finish(seq![b@]),
    }
}

/// Equal ids are filed under the same bucket.
pub proof fn lemma_key_eq_hash(a: IdKey, b: IdKey)
    requires
        key_eq(a, b),
    ensures
        key_hash(a) == key_hash(b),
{
    match (a, b) {
        (IdKey::Bytes(x), IdKey::Bytes(y)) => {
            assert(seq![x@] =~= seq![y@]);
        },
        _ => {},
    }
}

/// Naming the same vector is symmetric.
pub proof fn key_eq_sym(a: IdKey, b: IdKey)
    ensures
        key_eq(a, b) == key_eq(b, a),
{
}

impl IdKey {
    /// Whether `self` and `other` name the same vector.
    pub fn same(&self, other: &IdKey) -> (r: bool)
        ensures
            r == key_eq(*self, *other),
    {
        match (self, other) {
            (IdKey::U64(x), IdKey::U64(y)) => *x == *y,
            (IdKey::Bytes(x), IdKey::Bytes(y)) => {
                if x.len() != y.len() {
                    return false;
                }
                let mut i: usize = 0;
                while i < x.len()
                    invariant
                        x@.len() == y@.len(),
                        key_eq(*self, *other) == (x@ == y@),
                        0 <= i <= x@.len(),
                        forall|j: int| 0 <= j < i ==> x@[j] == y@[j],
                    decreases x@.len() - i,
                {
                    if x[i] != y[i] {
                        assert(x@[i as int] != y@[i as int]);
                        return false;
                    }
                    i = i + 1;
                }
                assert(x@ =~= y@);
                true
            },
            _ => false,
        }
    }

    /// The bucket this id is filed under.
    pub fn bucket(&self) -> (r: u64)
        ensures
            r == key_hash(*self),
    {
        match self {
            IdKey::U64(x) => *x,
            IdKey::Bytes(b) => {
                let mut h = DefaultHasher::new();
                h.write(b.as_slice());
                h.finish()
            },
        }
    }
}

} // verus!
