//! An append-only, content-addressed Merkle accumulator whose storage is split
//! into fixed-capacity shards ("sub trees") that are lazily created and linked
//! into one growing logical tree.
//!
//! The crate holds the verified core: the shard-internal Merkle tree, the
//! arithmetic that addresses shards within the global numbering forest, the
//! persisted accumulator state, the byte codecs for both, and the insertion
//! algorithm that walks a shard path and recomputes the root incrementally.

pub mod error;
pub mod events;
pub mod hashing;
pub mod hexbytes;
pub mod info;
pub mod instruction;
pub mod path;
pub mod processor;
pub mod sub_tree;
pub mod tree;
pub mod wire;
