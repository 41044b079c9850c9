//! Sequential cores of a small family of concurrent building blocks: a LIFO
//! stack with an elimination layer, a sorted set, a single-flight cache and
//! the bookkeeping of a worker pool.

pub mod cache;
pub mod elim_stack;
pub mod list_set;
pub mod thread_pool;
pub mod treiber_stack;
