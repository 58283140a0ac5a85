use rust_ratelimit::cache::{
    RateLimitDescriptor, RateLimitRequest, RedisRateLimitCache, ResponseCode,
};
use rust_ratelimit::config::{
    CompiledRateLimitConfig, RateLimit, RateLimitConfig, RateLimitUnit,
};
use rust_ratelimit::error::RateLimitError;
use rust_ratelimit::limiter::RateLimiter;
use rust_ratelimit::redis::RedisClientPool;
use rust_ratelimit::store::MemoryCounterStore;
use rust_ratelimit::utils::TimeSource;

fn create_test_limiter() -> RateLimiter<RedisRateLimitCache<MemoryCounterStore>> {
    let redis_pool = RedisClientPool::new_single(MemoryCounterStore::new());
    let cache = RedisRateLimitCache::new(redis_pool, 1000, "test".to_string());
    RateLimiter::new(cache)
}

fn request(domain: &str, entries: Vec<(&str, &str)>, hits: u32) -> RateLimitRequest {
    RateLimitRequest {
        domain: domain.to_string(),
        descriptors: vec![RateLimitDescriptor {
            entries: entries
                .into_iter()
                .map(|(k, v)| (k.to_string(), v.to_string()))
                .collect(),
        }],
        hits_addend: hits,
    }
}

#[test]
fn test_limiter_creation() {
    let _limiter = create_test_limiter();
}

#[test]
fn limiter_test_config_management() {
    let mut limiter = create_test_limiter();

    let config = RateLimitConfig {
        domain: "test".to_string(),
        descriptors: vec![rust_ratelimit::config::RateLimitDescriptor {
            key: "key1".to_string(),
            value: Some("value1".to_string()),
            rate_limit: Some(RateLimit {
                requests_per_unit: 100,
                unit: RateLimitUnit::Second,
                unlimited: None,
                name: None,
            }),
            shadow_mode: None,
            descriptors: None,
        }],
    };

    let compiled_config = CompiledRateLimitConfig::compile(config).unwrap();
    limiter.add_config(compiled_config);

    assert!(limiter.get_config("test").is_some());
    assert!(limiter.get_config("nonexistent").is_none());
}

#[test]
fn test_empty_domain_request() {
    let mut limiter = create_test_limiter();

    let req = request("", vec![("key1", "value1")], 1);
    let result = limiter.should_rate_limit(&req);
    assert!(result.is_err());

    if let Err(RateLimitError::Service(msg)) = result {
        assert!(msg.contains("domain must not be empty"));
    } else {
        panic!("Expected service error for empty domain");
    }
}

#[test]
fn test_empty_descriptors_request() {
    let mut limiter = create_test_limiter();

    let req = RateLimitRequest {
        domain: "test".to_string(),
        descriptors: vec![],
        hits_addend: 1,
    };
    let result = limiter.should_rate_limit(&req);
    assert!(result.is_err());

    if let Err(RateLimitError::Service(msg)) = result {
        assert!(msg.contains("descriptor list must not be empty"));
    } else {
        panic!("Expected service error for empty descriptors");
    }
}

#[test]
fn test_domain_not_found() {
    let mut limiter = create_test_limiter();
    let req = request("unknown", vec![("key1", "value1")], 1);
    match limiter.should_rate_limit(&req) {
        Err(RateLimitError::DomainNotFound(d)) => assert_eq!(d, "unknown"),
        _ => panic!("Expected a domain-not-found error"),
    }
}

#[test]
fn test_remove_config() {
    let mut limiter = create_test_limiter();
    let config = RateLimitConfig {
        domain: "gone".to_string(),
        descriptors: vec![rust_ratelimit::config::RateLimitDescriptor {
            key: "k".to_string(),
            value: None,
            rate_limit: Some(RateLimit {
                requests_per_unit: 1,
                unit: RateLimitUnit::Second,
                unlimited: None,
                name: None,
            }),
            shadow_mode: None,
            descriptors: None,
        }],
    };
    limiter.add_config(CompiledRateLimitConfig::compile(config).unwrap());
    assert!(limiter.get_config("gone").is_some());
    let removed = limiter.remove_config("gone");
    assert!(removed.is_some());
    assert_eq!(removed.unwrap().domain(), "gone");
    assert!(limiter.get_config("gone").is_none());
    assert!(limiter.remove_config("gone").is_none());
}

#[test]
fn test_unresolved_descriptor_allowed_through() {
    // a descriptor that no configured path matches gets Okay with no limit
    let mut limiter = create_test_limiter();
    let config = RateLimitConfig {
        domain: "d".to_string(),
        descriptors: vec![rust_ratelimit::config::RateLimitDescriptor {
            key: "known".to_string(),
            value: None,
            rate_limit: Some(RateLimit {
                requests_per_unit: 1,
                unit: RateLimitUnit::Second,
                unlimited: None,
                name: None,
            }),
            shadow_mode: None,
            descriptors: None,
        }],
    };
    limiter.add_config(CompiledRateLimitConfig::compile(config).unwrap());
    let req = request("d", vec![("other", "x")], 1);
    let resp = limiter.should_rate_limit(&req).unwrap();
    assert_eq!(resp.overall_code, ResponseCode::Okay);
    assert_eq!(resp.statuses.len(), 1);
    assert_eq!(resp.statuses[0].code, ResponseCode::Okay);
    assert!(resp.statuses[0].current_limit.is_none());
    assert_eq!(resp.statuses[0].limit_remaining, 0);
    assert_eq!(resp.statuses[0].duration_until_reset_secs, 0);
}

#[test]
fn test_limiter_with_fixed_time() {
    // S1-style at the limiter level: a limit of 3 per second, four requests
    let pool = RedisClientPool::new_single(MemoryCounterStore::new());
    let cache =
        RedisRateLimitCache::new_with_time_source(pool, 1000, String::new(), TimeSource::fixed(50));
    let mut limiter = RateLimiter::new(cache);
    let config = RateLimitConfig {
        domain: "db".to_string(),
        descriptors: vec![rust_ratelimit::config::RateLimitDescriptor {
            key: "users".to_string(),
            value: Some("alice".to_string()),
            rate_limit: Some(RateLimit {
                requests_per_unit: 3,
                unit: RateLimitUnit::Second,
                unlimited: None,
                name: None,
            }),
            shadow_mode: None,
            descriptors: None,
        }],
    };
    limiter.add_config(CompiledRateLimitConfig::compile(config).unwrap());

    let req = request("db", vec![("users", "alice")], 1);
    let expected = [
        (ResponseCode::Okay, 2u32),
        (ResponseCode::Okay, 1),
        (ResponseCode::Okay, 0),
        (ResponseCode::OverLimit, 0),
    ];
    for (code, remaining) in expected {
        let resp = limiter.should_rate_limit(&req).unwrap();
        assert_eq!(resp.overall_code, code);
        assert_eq!(resp.statuses[0].code, code);
        assert_eq!(resp.statuses[0].limit_remaining, remaining);
        let l = resp.statuses[0].current_limit.unwrap();
        assert_eq!(l.requests_per_unit, 3);
        assert_eq!(resp.statuses[0].duration_until_reset_secs, 1);
    }
}
