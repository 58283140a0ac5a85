//! Core of a generic rate-limit decision service: descriptor-to-limit
//! resolution over a compiled configuration, fixed-window counting against a
//! pluggable counter store, an over-limit near-cache, and response assembly.

pub mod cache;
pub mod config;
pub mod error;
pub mod keys;
pub mod limiter;
pub mod redis;
pub mod service;
pub mod store;
pub mod utils;

pub use cache::RateLimitCache;
pub use config::{RateLimitConfig, RateLimitDescriptor};
pub use error::RateLimitError;
pub use service::RateLimitService;
pub use utils::{TimeSource, Unit};
