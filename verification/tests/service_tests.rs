use rust_ratelimit::cache::RedisRateLimitCache;
use rust_ratelimit::config::{
    CompiledRateLimitConfig, RateLimit, RateLimitConfig, RateLimitDescriptor as ConfigDescriptor,
    RateLimitUnit,
};
use rust_ratelimit::limiter::RateLimiter;
use rust_ratelimit::redis::RedisClientPool;
use rust_ratelimit::service::{
    GrpcRateLimitDescriptor, GrpcRateLimitDescriptorEntry, GrpcRateLimitRequest, RateLimitService,
};
use rust_ratelimit::store::MemoryCounterStore;
use rust_ratelimit::utils::TimeSource;

fn create_test_service() -> RateLimitService<RedisRateLimitCache<MemoryCounterStore>> {
    let redis_pool = RedisClientPool::new_single(MemoryCounterStore::new());
    let cache = RedisRateLimitCache::new(redis_pool, 1000, "test".to_string());
    let limiter = RateLimiter::new(cache);
    RateLimitService::new(limiter)
}

fn one_entry_request(domain: &str, key: &str, value: &str, hits: u32) -> GrpcRateLimitRequest {
    GrpcRateLimitRequest {
        domain: domain.to_string(),
        descriptors: vec![GrpcRateLimitDescriptor {
            entries: vec![GrpcRateLimitDescriptorEntry {
                key: key.to_string(),
                value: value.to_string(),
            }],
        }],
        hits_addend: hits,
    }
}

#[test]
fn test_service_creation() {
    let _service = create_test_service();
}

#[test]
fn service_test_config_management() {
    let mut service = create_test_service();

    let config = RateLimitConfig {
        domain: "test".to_string(),
        descriptors: vec![ConfigDescriptor {
            key: "key1".to_string(),
            value: Some("value1".to_string()),
            rate_limit: Some(RateLimit {
                requests_per_unit: 100,
                unit: RateLimitUnit::Second,
                unlimited: None,
                name: None,
            }),
            shadow_mode: None,
            descriptors: None,
        }],
    };

    let compiled_config = CompiledRateLimitConfig::compile(config).unwrap();
    service.add_config(compiled_config).unwrap();
}

#[test]
fn test_should_rate_limit_empty_domain() {
    let mut service = create_test_service();

    let request = one_entry_request("", "key1", "value1", 1);
    let result = service.should_rate_limit_direct(request);
    assert!(result.is_err());

    match result.unwrap_err() {
        rust_ratelimit::error::RateLimitError::Service(msg) => {
            assert!(msg.contains("domain must not be empty"));
        }
        _ => panic!("Expected service error"),
    }
}

#[test]
fn test_wire_response_codes() {
    // the wire response numbers the codes: within limit one, over limit two
    let redis_pool = RedisClientPool::new_single(MemoryCounterStore::new());
    let cache = RedisRateLimitCache::new_with_time_source(
        redis_pool,
        1000,
        String::new(),
        TimeSource::fixed(30),
    );
    let mut service = RateLimitService::new(RateLimiter::new(cache));
    let config = RateLimitConfig {
        domain: "wire".to_string(),
        descriptors: vec![ConfigDescriptor {
            key: "k".to_string(),
            value: None,
            rate_limit: Some(RateLimit {
                requests_per_unit: 1,
                unit: RateLimitUnit::Minute,
                unlimited: None,
                name: None,
            }),
            shadow_mode: None,
            descriptors: None,
        }],
    };
    service.add_config(CompiledRateLimitConfig::compile(config).unwrap()).unwrap();

    let first = service
        .should_rate_limit_direct(one_entry_request("wire", "k", "", 1))
        .unwrap();
    assert_eq!(first.overall_code, 1);
    assert_eq!(first.statuses.len(), 1);
    assert_eq!(first.statuses[0].code, 1);
    let l = first.statuses[0].current_limit.unwrap();
    assert_eq!(l.requests_per_unit, 1);
    assert_eq!(l.unit, 2); // minute
    assert_eq!(first.statuses[0].limit_remaining, 0);
    assert_eq!(first.statuses[0].duration_until_reset_secs, 30);

    let second = service
        .should_rate_limit_direct(one_entry_request("wire", "k", "", 1))
        .unwrap();
    assert_eq!(second.overall_code, 2);
    assert_eq!(second.statuses[0].code, 2);
    assert_eq!(second.statuses[0].limit_remaining, 0);
}

#[test]
fn test_service_domain_not_found() {
    let mut service = create_test_service();
    let result = service.should_rate_limit_direct(one_entry_request("nobody", "k", "v", 1));
    match result {
        Err(rust_ratelimit::error::RateLimitError::DomainNotFound(d)) => {
            assert_eq!(d, "nobody");
        }
        _ => panic!("expected a domain-not-found error"),
    }
}

#[test]
fn test_service_remove_config() {
    let mut service = create_test_service();
    let config = RateLimitConfig {
        domain: "temp".to_string(),
        descriptors: vec![ConfigDescriptor {
            key: "k".to_string(),
            value: None,
            rate_limit: Some(RateLimit {
                requests_per_unit: 1,
                unit: RateLimitUnit::Second,
                unlimited: None,
                name: None,
            }),
            shadow_mode: None,
            descriptors: None,
        }],
    };
    service.add_config(CompiledRateLimitConfig::compile(config).unwrap()).unwrap();
    assert!(service
        .should_rate_limit_direct(one_entry_request("temp", "k", "", 1))
        .is_ok());
    service.remove_config("temp").unwrap();
    assert!(matches!(
        service.should_rate_limit_direct(one_entry_request("temp", "k", "", 1)),
        Err(rust_ratelimit::error::RateLimitError::DomainNotFound(_))
    ));
}
