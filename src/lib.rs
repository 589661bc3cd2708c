//! A time-indexed entity/component store with a coherent query cache.
//!
//! The store keeps rows of component cells under hierarchical entity paths,
//! indexed per timeline, and answers latest-at and range queries. The query
//! cache memoizes decoded results and is invalidated by the diffs that every
//! store mutation produces. Statistics are maintained incrementally and a
//! capacity-driven garbage collector evicts the oldest data first.

pub mod callstack;
pub mod cell;
pub mod codec;
pub mod component;
pub mod index;
pub mod row_id;
pub mod store;
pub mod text_log;
pub mod cache;
pub mod cache_stats;
pub mod context;
pub mod filter;

pub use callstack::summarize_callstack;
