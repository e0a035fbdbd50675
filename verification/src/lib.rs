//! A signed, append-only log substrate: codecs, a Merkle tree, byte stores,
//! typed logs, a causal linearizer, an ordered index and room replication.
pub mod autobase;
pub mod bytemap;
pub mod bytes;
pub mod codec;
pub mod hyperbee;
pub mod hypercore;
pub mod identity;
pub mod merkle;
pub mod roomnet;
pub mod storage;
pub mod table;
