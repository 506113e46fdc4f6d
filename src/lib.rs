//! A small proof-of-work chain: blocks, their canonical digests, the
//! difficulty predicate, and the pieces of a parallel nonce search.
pub mod text;
pub mod block;
pub mod queue;
pub mod miner;
