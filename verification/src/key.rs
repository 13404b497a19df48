//! The key contract: a deterministic hash and an equality test,
//! supplied by each key type.

use vstd::prelude::*;

verus! {

/// A key the map can hash and compare.
///
/// The container requires only a deterministic hash function and an equality
/// test; no particular algorithm is prescribed. A key type supplies both
/// through this trait: `hash_spec` is the hash as a mathematical function,
/// `key_hash` computes it, and `key_eq` decides mathematical equality.
pub trait MapKey: Sized {
    /// The key's hash, as a mathematical function of the key alone.
    spec fn hash_spec(&self) -> usize;

    /// Computes the hash; agrees with `hash_spec`.
    fn key_hash(&self) -> (h: usize)
        ensures
            h == self.hash_spec(),
    ;

    /// Decides whether two keys are equal.
    fn key_eq(&self, other: &Self) -> (r: bool)
        ensures
            r == (*self == *other),
    ;
}

impl MapKey for u8 {
    open spec fn hash_spec(&self) -> usize {
        *self as usize
    }

    fn key_hash(&self) -> usize {
        *self as usize
    }

    fn key_eq(&self, other: &Self) -> bool {
        *self == *other
    }
}

impl MapKey for u16 {
    open spec fn hash_spec(&self) -> usize {
        *self as usize
    }

    fn key_hash(&self) -> usize {
        *self as usize
    }

    fn key_eq(&self, other: &Self) -> bool {
        *self == *other
    }
}

impl MapKey for u32 {
    open spec fn hash_spec(&self) -> usize {
        *self as usize
    }

    fn key_hash(&self) -> usize {
        *self as usize
    }

    fn key_eq(&self, other: &Self) -> bool {
        *self == *other
    }
}

impl MapKey for u64 {
    open spec fn hash_spec(&self) -> usize {
        *self as usize
    }

    fn key_hash(&self) -> usize {
        *self as usize
    }

    fn key_eq(&self, other: &Self) -> bool {
        *self == *other
    }
}

impl MapKey for usize {
    open spec fn hash_spec(&self) -> usize {
        *self
    }

    fn key_hash(&self) -> usize {
        *self
    }

    fn key_eq(&self, other: &Self) -> bool {
        *self == *other
    }
}

impl MapKey for i8 {
    open spec fn hash_spec(&self) -> usize {
        *self as usize
    }

    fn key_hash(&self) -> usize {
        *self as usize
    }

    fn key_eq(&self, other: &Self) -> bool {
        *self == *other
    }
}

impl MapKey for i16 {
    open spec fn hash_spec(&self) -> usize {
        *self as usize
    }

    fn key_hash(&self) -> usize {
        *self as usize
    }

    fn key_eq(&self, other: &Self) -> bool {
        *self == *other
    }
}

impl MapKey for i32 {
    open spec fn hash_spec(&self) -> usize {
        *self as usize
    }

    fn key_hash(&self) -> usize {
        *self as usize
    }

    fn key_eq(&self, other: &Self) -> bool {
        *self == *other
    }
}

impl MapKey for i64 {
    open spec fn hash_spec(&self) -> usize {
        *self as usize
    }

    fn key_hash(&self) -> usize {
        *self as usize
    }

    fn key_eq(&self, other: &Self) -> bool {
        *self == *other
    }
}

impl MapKey for isize {
    open spec fn hash_spec(&self) -> usize {
        *self as usize
    }

    fn key_hash(&self) -> usize {
        *self as usize
    }

    fn key_eq(&self, other: &Self) -> bool {
        *self == *other
    }
}

impl MapKey for bool {
    open spec fn hash_spec(&self) -> usize {
        if *self {
            1
        } else {
            0
        }
    }

    fn key_hash(&self) -> usize {
        if *self {
            1
        } else {
            0
        }
    }

    fn key_eq(&self, other: &Self) -> bool {
        *self == *other
    }
}

impl MapKey for char {
    open spec fn hash_spec(&self) -> usize {
        *self as usize
    }

    fn key_hash(&self) -> usize {
        *self as usize
    }

    fn key_eq(&self, other: &Self) -> bool {
        *self == *other
    }
}

impl MapKey for () {
    open spec fn hash_spec(&self) -> usize {
        0
    }

    fn key_hash(&self) -> usize {
        0
    }

    fn key_eq(&self, other: &Self) -> bool {
        true
    }
}

} // verus!
