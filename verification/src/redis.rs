//! Client pool for the shared counter store: one primary client and an
//! optional per-second client, so that noisy per-second traffic can be
//! isolated from longer windows.

use vstd::prelude::*;
use crate::error::RateLimitError;
use crate::store::CounterStore;

verus! {

/// Connection settings for a remote counter store.
#[derive(Debug, Clone)]
pub struct RedisConfig {
    pub url: String,
    pub pool_size: Option<usize>,
    pub connection_timeout_secs: u64,
    pub command_timeout_secs: u64,
    pub enable_pipelining: bool,
}

impl Default for RedisConfig {
    /// A local store, pool of ten, five-second connection timeout,
    /// one-second command timeout, pipelining on.
    fn default() -> (r: Self)
        ensures
            r.url@ == "redis://localhost:6379"@,
            r.pool_size == Some(10usize),
            r.connection_timeout_secs == 5,
            r.command_timeout_secs == 1,
            r.enable_pipelining,
    {
        RedisConfig {
            url: "redis://localhost:6379".to_owned(),
            pool_size: Some(10),
            connection_timeout_secs: 5,
            command_timeout_secs: 1,
            enable_pipelining: true,
        }
    }
}

/// A pool of counter store clients: a primary client and, optionally, a
/// separate client reserved for per-second windows.
#[derive(Debug)]
pub struct RedisClientPool<C> {
    primary_client: C,
    per_second_client: Option<C>,
}

impl<C> RedisClientPool<C> {
    /// The primary client.
    pub closed spec fn spec_primary(self) -> C {
        self.primary_client
    }

    /// The per-second client, when one is configured.
    pub closed spec fn spec_per_second(self) -> Option<C> {
        self.per_second_client
    }

    /// A pool with a primary client only.
    pub fn new_single(primary_client: C) -> (r: Self)
        ensures
            r.spec_primary() == primary_client,
            r.spec_per_second() is None,
    {
        RedisClientPool { primary_client, per_second_client: None }
    }

    /// A pool with a separate per-second client.
    pub fn new_dual(primary_client: C, per_second_client: C) -> (r: Self)
        ensures
            r.spec_primary() == primary_client,
            r.spec_per_second() == Some(per_second_client),
    {
        RedisClientPool { primary_client, per_second_client: Some(per_second_client) }
    }

    /// Whether a per-second operation is routed to the per-second client.
    pub open spec fn routes_per_second(self, is_per_second: bool) -> bool {
        is_per_second && self.spec_per_second() is Some
    }

    /// Get the client for an operation: the per-second client for
    /// per-second operations when one is present, else the primary.
    pub fn get_client(&self, is_per_second: bool) -> (r: &C)
        ensures
            self.routes_per_second(is_per_second) ==> Some(*r) == self.spec_per_second(),
            !self.routes_per_second(is_per_second) ==> *r == self.spec_primary(),
    {
        if is_per_second && self.per_second_client.is_some() {
            match &self.per_second_client {
                Some(c) => c,
                None => &self.primary_client,
            }
        } else {
            &self.primary_client
        }
    }
}

impl<C: CounterStore> RedisClientPool<C> {
    /// Execute one pipelined batch on the client that `is_per_second`
    /// routes to.
    pub fn execute(&mut self, is_per_second: bool, operations: Vec<(String, u64, u64)>) -> (r:
        Result<Vec<u64>, RateLimitError>)
        ensures
            (r matches Ok(counts) ==> counts@.len() == operations@.len()),
            operations@.len() == 0 ==> r is Ok,
            (r matches Err(e) ==> e matches RateLimitError::Store(_)),
    {
        if is_per_second {
            match &mut self.per_second_client {
                Some(c) => {
                    return c.pipeline_increment_and_expire(operations);
                },
                None => {},
            }
        }
        self.primary_client.pipeline_increment_and_expire(operations)
    }

    /// Probe every configured client; healthy only when all are.
    pub fn health_check(&mut self) -> (r: Result<(), RateLimitError>) {
        match self.primary_client.health_check() {
            Ok(()) => {},
            Err(e) => {
                return Err(e);
            },
        }
        match &mut self.per_second_client {
            Some(c) => c.health_check(),
            None => Ok(()),
        }
    }
}

} // verus!
