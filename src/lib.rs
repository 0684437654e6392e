//! A small content-addressed object store: object framing, compression and
//! hashing, a tree-object codec, a tree builder over an in-memory directory
//! snapshot, and a commit encoder.

pub mod error;
pub mod oid;
pub mod codec;
pub mod store;
pub mod tree;
pub mod order;
pub mod builder;
pub mod commit;
