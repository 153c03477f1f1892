//! A fixed-capacity key/value cache with approximate least-recently-used
//! eviction.
//!
//! Entries live in a dense store; a ring of slot identifiers orders them from
//! stale to fresh, and a circular `top` pointer marks the next position to be
//! filled or evicted. A read promotes the entry it touches toward `top` by a
//! bounded chain of ring swaps whose reach adapts to how far promotions have
//! recently had to travel.
//!
//! The cache is single-owner: both reading and writing take `&mut self`, and
//! callers that share a cache serialise access themselves.

pub mod cache;
pub mod error;
pub mod index;
pub mod key;
pub mod laws;
pub mod lru;
pub mod model;
pub mod ring;
pub mod tuning;

pub use cache::SwapCache;
pub use error::ConfigError;
pub use key::CacheKey;
pub use lru::Lru;
pub use model::CacheState;
pub use tuning::{Tuning, DEFAULT_MOVE, PROMOTION_STEPS};
