//! A content-addressed blob store with verified Merkle-tree streaming and
//! garbage collection.
//!
//! Blobs are keyed by a 32-byte BLAKE3 hash and stored together with an
//! outboard: the internal nodes of the BLAKE3 Merkle tree, which let a
//! consumer verify any chunk of the blob against the root hash. The store
//! holds complete blobs, partial blobs under construction, named tags and
//! reference-counted temporary pins, and runs a mark/sweep garbage collector
//! over the roots they define.

pub mod batch;
pub mod error;
pub mod events;
pub mod gc;
pub mod hash;
pub mod hashseq;
pub mod laws;
pub mod store;
pub mod tags;
pub mod tree;
pub mod validate;
pub mod wire;
pub mod writer;
