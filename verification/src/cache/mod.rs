//! Pools of KV blocks.

pub mod block_table;
pub mod hash_cache;
pub mod recency;

pub use self::hash_cache::HashCache;
