//! Storage and metadata engine of a small distributed file store: an erasure
//! codec, a per-node shard store, a metadata catalog and the bookkeeping of
//! replication peers.

pub mod codec;
pub mod config;
pub mod fuse;
pub mod keyed;
pub mod metadata;
pub mod names;
pub mod replication;
pub mod storage;
