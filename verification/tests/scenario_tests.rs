use rust_ratelimit::cache::{
    RateLimitCache, RateLimitDescriptor, RateLimitRequest, RedisRateLimitCache, ResponseCode,
};
use rust_ratelimit::config::{
    CompiledRateLimitConfig, RateLimit, RateLimitConfig, RateLimitDescriptor as ConfigDescriptor,
    RateLimitUnit,
};
use rust_ratelimit::redis::RedisClientPool;
use rust_ratelimit::store::MemoryCounterStore;
use rust_ratelimit::utils::{generate_cache_key, TimeSource, Unit};

fn single_limit_config(
    domain: &str,
    key: &str,
    value: Option<&str>,
    requests_per_unit: u32,
    unit: RateLimitUnit,
    unlimited: Option<bool>,
    shadow: Option<bool>,
) -> CompiledRateLimitConfig {
    let config = RateLimitConfig {
        domain: domain.to_string(),
        descriptors: vec![ConfigDescriptor {
            key: key.to_string(),
            value: value.map(|v| v.to_string()),
            rate_limit: Some(RateLimit {
                requests_per_unit,
                unit,
                unlimited,
                name: None,
            }),
            shadow_mode: shadow,
            descriptors: None,
        }],
    };
    CompiledRateLimitConfig::compile(config).unwrap()
}

fn one_desc_request(domain: &str, key: &str, value: &str, hits: u32) -> RateLimitRequest {
    RateLimitRequest {
        domain: domain.to_string(),
        descriptors: vec![RateLimitDescriptor {
            entries: vec![(key.to_string(), value.to_string())],
        }],
        hits_addend: hits,
    }
}

#[test]
fn test_shadow_mode_decisions() {
    // S3: limit 1 per second in shadow mode; two requests both report Okay,
    // the second with no remaining budget, and the store counted both hits.
    let pool = RedisClientPool::new_single(MemoryCounterStore::new());
    let mut cache =
        RedisRateLimitCache::new_with_time_source(pool, 1000, String::new(), TimeSource::fixed(7));
    let compiled = single_limit_config(
        "test",
        "user",
        Some("bob"),
        1,
        RateLimitUnit::Second,
        None,
        Some(true),
    );
    let req = one_desc_request("test", "user", "bob", 1);
    let limit = compiled.find_limit(&[("user", "bob")]).unwrap();
    let limits = vec![Some(limit)];

    let first = cache.do_limit(&req, &limits).unwrap();
    assert_eq!(first[0].code, ResponseCode::Okay);
    assert_eq!(first[0].limit_remaining, 0);

    let second = cache.do_limit(&req, &limits).unwrap();
    assert_eq!(second[0].code, ResponseCode::Okay);
    assert_eq!(second[0].limit_remaining, 0);

    // the store counted both hits
    let key = generate_cache_key(
        "test",
        &vec![("user", "bob")],
        Unit::Second,
        &TimeSource::fixed(7),
    );
    assert_eq!(cache.pool().get_client(true).count_for(&key), 2);

    // a third request still reports Okay: the near-cache never holds
    // shadow-mode keys, and shadow mode never reports over limit
    let third = cache.do_limit(&req, &limits).unwrap();
    assert_eq!(third[0].code, ResponseCode::Okay);
    assert_eq!(cache.pool().get_client(true).count_for(&key), 3);
}

#[test]
fn test_unlimited_many_requests() {
    // S4: an unlimited limit answers Okay with the full budget, and the
    // store is never consulted.
    let pool = RedisClientPool::new_single(MemoryCounterStore::new());
    let mut cache =
        RedisRateLimitCache::new_with_time_source(pool, 1000, String::new(), TimeSource::fixed(3));
    let compiled = single_limit_config(
        "internal",
        "service",
        Some("health"),
        0,
        RateLimitUnit::Second,
        Some(true),
        None,
    );
    let req = one_desc_request("internal", "service", "health", 1);
    let limit = compiled.find_limit(&[("service", "health")]).unwrap();
    let limits = vec![Some(limit)];
    for _ in 0..1000 {
        let statuses = cache.do_limit(&req, &limits).unwrap();
        assert_eq!(statuses[0].code, ResponseCode::Okay);
        assert_eq!(statuses[0].limit_remaining, u32::MAX);
    }
    let key = generate_cache_key(
        "internal",
        &vec![("service", "health")],
        Unit::Second,
        &TimeSource::fixed(3),
    );
    assert_eq!(cache.pool().get_client(true).count_for(&key), 0);
}

#[test]
fn test_dual_store_routing() {
    // S5: with a per-second store configured, the second-unit increment
    // goes to it and the minute-unit increment goes to the primary.
    let pool = RedisClientPool::new_dual(MemoryCounterStore::new(), MemoryCounterStore::new());
    let mut cache =
        RedisRateLimitCache::new_with_time_source(pool, 1000, String::new(), TimeSource::fixed(90));
    let config = RateLimitConfig {
        domain: "dual".to_string(),
        descriptors: vec![
            ConfigDescriptor {
                key: "fast".to_string(),
                value: None,
                rate_limit: Some(RateLimit {
                    requests_per_unit: 10,
                    unit: RateLimitUnit::Second,
                    unlimited: None,
                    name: None,
                }),
                shadow_mode: None,
                descriptors: None,
            },
            ConfigDescriptor {
                key: "slow".to_string(),
                value: None,
                rate_limit: Some(RateLimit {
                    requests_per_unit: 10,
                    unit: RateLimitUnit::Minute,
                    unlimited: None,
                    name: None,
                }),
                shadow_mode: None,
                descriptors: None,
            },
        ],
    };
    let compiled = CompiledRateLimitConfig::compile(config).unwrap();
    let fast = compiled.find_limit(&[("fast", "")]).unwrap();
    let slow = compiled.find_limit(&[("slow", "")]).unwrap();
    let req = RateLimitRequest {
        domain: "dual".to_string(),
        descriptors: vec![
            RateLimitDescriptor { entries: vec![("fast".to_string(), String::new())] },
            RateLimitDescriptor { entries: vec![("slow".to_string(), String::new())] },
        ],
        hits_addend: 1,
    };
    let limits = vec![Some(fast), Some(slow)];
    let statuses = cache.do_limit(&req, &limits).unwrap();
    assert_eq!(statuses.len(), 2);
    assert_eq!(statuses[0].limit_remaining, 9);
    assert_eq!(statuses[1].limit_remaining, 9);

    let t = TimeSource::fixed(90);
    let fast_key = generate_cache_key("dual", &vec![("fast", "")], Unit::Second, &t);
    let slow_key = generate_cache_key("dual", &vec![("slow", "")], Unit::Minute, &t);
    // the per-second store saw exactly the per-second increment
    assert_eq!(cache.pool().get_client(true).count_for(&fast_key), 1);
    assert_eq!(cache.pool().get_client(true).count_for(&slow_key), 0);
    // the primary store saw exactly the minute increment
    assert_eq!(cache.pool().get_client(false).count_for(&slow_key), 1);
    assert_eq!(cache.pool().get_client(false).count_for(&fast_key), 0);
}

#[test]
fn test_window_rotation() {
    // S6: limit 2 per second; a burst of three, then the clock advances one
    // second and a fresh window gives the same pattern again.
    let pool = RedisClientPool::new_single(MemoryCounterStore::new());
    let mut cache =
        RedisRateLimitCache::new_with_time_source(pool, 1000, String::new(), TimeSource::fixed(40));
    let compiled = single_limit_config(
        "test",
        "api",
        Some("endpoint"),
        2,
        RateLimitUnit::Second,
        None,
        None,
    );
    let req = one_desc_request("test", "api", "endpoint", 1);
    let limit = compiled.find_limit(&[("api", "endpoint")]).unwrap();
    let limits = vec![Some(limit)];

    let burst = [ResponseCode::Okay, ResponseCode::Okay, ResponseCode::OverLimit];
    for code in burst {
        let statuses = cache.do_limit(&req, &limits).unwrap();
        assert_eq!(statuses[0].code, code);
    }
    cache.set_time_source(TimeSource::fixed(41));
    let expected = [
        (ResponseCode::Okay, 1u32),
        (ResponseCode::Okay, 0),
        (ResponseCode::OverLimit, 0),
    ];
    for (code, remaining) in expected {
        let statuses = cache.do_limit(&req, &limits).unwrap();
        assert_eq!(statuses[0].code, code);
        assert_eq!(statuses[0].limit_remaining, remaining);
    }
}

#[test]
fn test_rotation_first_request_fresh_budget() {
    // advancing the clock by one full window makes the first request count
    // one, with the full budget minus one remaining
    let pool = RedisClientPool::new_single(MemoryCounterStore::new());
    let mut cache = RedisRateLimitCache::new_with_time_source(
        pool,
        1000,
        String::new(),
        TimeSource::fixed(60),
    );
    let compiled =
        single_limit_config("w", "k", None, 5, RateLimitUnit::Minute, None, None);
    let req = one_desc_request("w", "k", "", 1);
    let limit = compiled.find_limit(&[("k", "")]).unwrap();
    let limits = vec![Some(limit)];
    for _ in 0..5 {
        cache.do_limit(&req, &limits).unwrap();
    }
    let over = cache.do_limit(&req, &limits).unwrap();
    assert_eq!(over[0].code, ResponseCode::OverLimit);

    cache.set_time_source(TimeSource::fixed(120));
    let fresh = cache.do_limit(&req, &limits).unwrap();
    assert_eq!(fresh[0].code, ResponseCode::Okay);
    assert_eq!(fresh[0].limit_remaining, 4);
}

#[test]
fn test_hits_addend_zero_and_one_equivalent() {
    // a hits addend of zero behaves exactly like a hits addend of one
    let mut caches = vec![];
    for _ in 0..2 {
        let pool = RedisClientPool::new_single(MemoryCounterStore::new());
        caches.push(RedisRateLimitCache::new_with_time_source(
            pool,
            1000,
            String::new(),
            TimeSource::fixed(11),
        ));
    }
    let compiled =
        single_limit_config("h", "k", None, 2, RateLimitUnit::Second, None, None);
    let limit = compiled.find_limit(&[("k", "")]).unwrap();
    let limits = vec![Some(limit)];
    let key = generate_cache_key("h", &vec![("k", "")], Unit::Second, &TimeSource::fixed(11));
    for round in 0..3 {
        let req0 = one_desc_request("h", "k", "", 0);
        let s0 = caches[0].do_limit(&req0, &limits).unwrap();
        let req1 = one_desc_request("h", "k", "", 1);
        let s1 = caches[1].do_limit(&req1, &limits).unwrap();
        assert_eq!(s0[0].code, s1[0].code, "round {}", round);
        assert_eq!(s0[0].limit_remaining, s1[0].limit_remaining, "round {}", round);
        assert_eq!(
            s0[0].duration_until_reset_secs,
            s1[0].duration_until_reset_secs,
            "round {}",
            round
        );
    }
    assert_eq!(caches[0].pool().get_client(true).count_for(&key), 3);
    assert_eq!(caches[1].pool().get_client(true).count_for(&key), 3);
}

#[test]
fn test_near_cache_short_circuits_store() {
    // once a key is over limit, later requests in the window answer from
    // the near-cache and no further increments reach the store
    let pool = RedisClientPool::new_single(MemoryCounterStore::new());
    let mut cache =
        RedisRateLimitCache::new_with_time_source(pool, 1000, String::new(), TimeSource::fixed(5));
    let compiled =
        single_limit_config("nc", "k", None, 1, RateLimitUnit::Second, None, None);
    let req = one_desc_request("nc", "k", "", 1);
    let limit = compiled.find_limit(&[("k", "")]).unwrap();
    let limits = vec![Some(limit)];
    let key = generate_cache_key("nc", &vec![("k", "")], Unit::Second, &TimeSource::fixed(5));

    assert_eq!(cache.do_limit(&req, &limits).unwrap()[0].code, ResponseCode::Okay);
    assert_eq!(cache.do_limit(&req, &limits).unwrap()[0].code, ResponseCode::OverLimit);
    let counted = cache.pool().get_client(true).count_for(&key);
    assert_eq!(counted, 2);
    // the second request inserted the key into the near-cache; this one is
    // answered without a store round trip
    let third = cache.do_limit(&req, &limits).unwrap();
    assert_eq!(third[0].code, ResponseCode::OverLimit);
    assert_eq!(third[0].limit_remaining, 0);
    assert_eq!(cache.pool().get_client(true).count_for(&key), 2);
}

#[test]
fn test_requests_per_unit_one_boundary() {
    // requests_per_unit = 1: the second request is over limit
    let pool = RedisClientPool::new_single(MemoryCounterStore::new());
    let mut cache =
        RedisRateLimitCache::new_with_time_source(pool, 1000, String::new(), TimeSource::fixed(9));
    let compiled =
        single_limit_config("b", "k", None, 1, RateLimitUnit::Second, None, None);
    let req = one_desc_request("b", "k", "", 1);
    let limit = compiled.find_limit(&[("k", "")]).unwrap();
    let limits = vec![Some(limit)];
    assert_eq!(cache.do_limit(&req, &limits).unwrap()[0].code, ResponseCode::Okay);
    assert_eq!(cache.do_limit(&req, &limits).unwrap()[0].code, ResponseCode::OverLimit);
}

#[test]
fn test_over_consumption_is_not_rolled_back() {
    // hits are consumed even when the decision is over limit: a request of
    // five hits against a remaining budget of one records all five
    let pool = RedisClientPool::new_single(MemoryCounterStore::new());
    let mut cache =
        RedisRateLimitCache::new_with_time_source(pool, 1000, String::new(), TimeSource::fixed(2));
    let compiled =
        single_limit_config("oc", "k", None, 4, RateLimitUnit::Second, None, None);
    let limit = compiled.find_limit(&[("k", "")]).unwrap();
    let limits = vec![Some(limit)];
    let key = generate_cache_key("oc", &vec![("k", "")], Unit::Second, &TimeSource::fixed(2));

    let warm = one_desc_request("oc", "k", "", 3);
    assert_eq!(cache.do_limit(&warm, &limits).unwrap()[0].code, ResponseCode::Okay);
    let burst = one_desc_request("oc", "k", "", 5);
    let statuses = cache.do_limit(&burst, &limits).unwrap();
    assert_eq!(statuses[0].code, ResponseCode::OverLimit);
    assert_eq!(statuses[0].limit_remaining, 0);
    assert_eq!(cache.pool().get_client(true).count_for(&key), 8);
}

#[test]
fn cache_test_cache_key_generation() {
    let redis_pool = RedisClientPool::new_single(MemoryCounterStore::new());
    let cache = RedisRateLimitCache::new(redis_pool, 1000, "test".to_string());

    let request = RateLimitRequest {
        domain: "test_domain".to_string(),
        descriptors: vec![RateLimitDescriptor {
            entries: vec![("key1".to_string(), "value1".to_string())],
        }],
        hits_addend: 1,
    };

    let limit = rust_ratelimit::config::CompiledRateLimit {
        requests_per_unit: 100,
        unit: Unit::Second,
        unlimited: false,
        shadow_mode: false,
        name: None,
    };
    let limits = vec![Some(&limit)];
    let cache_keys = cache.generate_cache_keys(&request, &limits);
    assert_eq!(cache_keys.len(), 1);
    assert!(cache_keys[0].is_some());
    let cache_key = cache_keys[0].as_ref().unwrap();
    assert!(cache_key.key.contains("test:test_domain:key1_value1:"));
    assert!(cache_key.per_second);
}
