//! Top-K frequency pipeline over opaque byte-string keys.
//!
//! A large corpus of lines is hash-partitioned into shards, each shard's
//! lines are counted exactly, a bounded selector keeps the K items with the
//! largest counts, and a reducer recombines the per-shard results into one
//! global top-K ranking.

pub mod codec;
pub mod config;
pub mod counting;
pub mod hashing;
pub mod item;
pub mod partition;
pub mod reducer;
pub mod selector;
