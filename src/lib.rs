//! Append-only blob store authenticated by a Merkle tree.
//!
//! A store keeps payloads in insertion order together with a binary tree of
//! their hashes. Each push returns an inclusion proof, from which a client
//! holding only the previous root can check the server's previous state and
//! derive the new root by itself.
pub mod digest;
pub mod merkle;
pub mod tree;
pub mod protocol;
