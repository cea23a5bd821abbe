//! A simulated inference engine's KV cache manager and request scheduler.

pub mod cache;
pub mod common;
pub mod kv_manager;
pub mod scheduler;
