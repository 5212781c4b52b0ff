//! Node identity and routing core of a Kademlia-style distributed hash table.
//!
//! Identifiers are 256-bit keys compared by XOR distance. Known peers are kept
//! in recency-ordered buckets, one per position of the highest bit in which a
//! peer's identifier differs from the local one, and the routing table answers
//! "which peers are closest to this key" over all of them.

use vstd::prelude::*;

pub mod digest;
pub mod error;
pub mod kbucket;
pub mod key;
pub mod metric;
pub mod node;
pub mod routing_table;
pub mod selection;

verus! {

/// Length of an identifier in bytes: the output size of SHA-256.
pub const KEY_LEN: usize = 32;

/// Number of bits in an identifier, which is also the number of bucket indices.
pub const KEY_BITS: usize = 256;

/// Default number of contacts that one bucket holds.
pub const K: usize = 20;

} // verus!
