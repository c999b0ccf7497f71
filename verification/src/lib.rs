//! Packed addresses of a hierarchical hexagonal grid, and a fixed-depth
//! seven-way tree that stores one value per addressed cell.
//!
//! [`index`] holds the address codec: a 64-bit value with a cell flag, a
//! resolution, a base cell and fifteen three-bit digits, with the operations
//! that read, compose, truncate and compare such values. Whether an address
//! names a cell of the grid is asked of the `h3o` crate; random digits come
//! from the `rand` crate.
//!
//! [`tree`] holds the tree: complete, seven children per inner node, keyed
//! by the digits of an address.
//!
//! Every function carries its contract, and these laws are proved of them:
//!
//! - packing digits and taking them apart are inverse to each other:
//!   [`index::lemma_digits_round_trip`], [`index::lemma_digits_unpacked`];
//! - truncating twice is truncating once: [`index::lemma_truncate_idempotent`];
//! - a truncated address contains the address it was made from:
//!   [`index::lemma_truncated_contains_self`];
//! - in a complete tree a leaf is reached after exactly as many steps as the
//!   tree is deep: [`tree::lemma_complete_descend`];
//! - a fresh tree reads as its default everywhere, and a write changes what
//!   one path reads and nothing else: [`tree::lemma_get_of_fresh`],
//!   [`tree::lemma_get_after_set`];
//! - a key that reaches past the depth, or holds a seven, names no leaf:
//!   [`tree::lemma_key_out_of_range`].

pub mod index;
pub mod tree;
