//! An insertion-ordered associative container.
//!
//! `OmniMap` keeps key-value pairs in the order in which the keys were first
//! inserted, offers positional access to entries in that order, and resolves
//! keyed lookups through an open-addressed index with linear probing and
//! tombstone-aware probe chains.
//!
//! The container is layered: a dense entry vector ([`AllocVec`]) holds the
//! entries in insertion order, and an index table of [`Slot`]s, kept at the
//! same capacity, maps hashes to positions in that vector. A `deleted`
//! counter tracks tombstones so that the load ratio accounts for them.

mod index;
mod key;
mod map;
mod vec;

pub use index::Slot;
pub use key::MapKey;
pub use map::Entry;
pub use map::OmniMap;
pub use map::OmniMapIntoIter;
pub use vec::AllocVec;
