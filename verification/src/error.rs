//! Errors that can occur in the rate limit service.

use vstd::prelude::*;

verus! {

/// Errors that can occur in the rate limit service. Each kind carries a
/// human-readable message.
#[derive(Debug, Clone)]
pub enum RateLimitError {
    /// Malformed or duplicate configuration.
    Config(String),
    /// Request validation failed.
    Service(String),
    /// Near-cache internals failed; should be unreachable.
    Cache(String),
    /// A request descriptor was invalid.
    InvalidDescriptor(String),
    /// The request named a domain with no installed configuration.
    DomainNotFound(String),
    /// The counter store failed: transport, timeout, or type mismatch.
    Store(String),
}

impl RateLimitError {
    /// The message carried by this error.
    pub fn message(&self) -> (r: &str)
        ensures
            r@ == (match *self {
                RateLimitError::Config(ref m) => m@,
                RateLimitError::Service(ref m) => m@,
                RateLimitError::Cache(ref m) => m@,
                RateLimitError::InvalidDescriptor(ref m) => m@,
                RateLimitError::DomainNotFound(ref m) => m@,
                RateLimitError::Store(ref m) => m@,
            }),
    {
        match self {
            RateLimitError::Config(m) => m.as_str(),
            RateLimitError::Service(m) => m.as_str(),
            RateLimitError::Cache(m) => m.as_str(),
            RateLimitError::InvalidDescriptor(m) => m.as_str(),
            RateLimitError::DomainNotFound(m) => m.as_str(),
            RateLimitError::Store(m) => m.as_str(),
        }
    }
}

} // verus!
