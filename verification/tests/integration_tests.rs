use rust_ratelimit::config::{
    CompiledRateLimitConfig, RateLimit, RateLimitConfig, RateLimitDescriptor as ConfigDescriptor,
    RateLimitUnit,
};
use rust_ratelimit::utils::{generate_cache_key, get_hits_addend, TimeSource, Unit};

#[test]
fn test_basic_rate_limiting() {
    let config = RateLimitConfig {
        domain: "test_domain".to_string(),
        descriptors: vec![
            ConfigDescriptor {
                key: "database".to_string(),
                value: Some("users".to_string()),
                rate_limit: Some(RateLimit {
                    requests_per_unit: 5,
                    unit: RateLimitUnit::Second,
                    unlimited: None,
                    name: None,
                }),
                shadow_mode: None,
                descriptors: None,
            },
            ConfigDescriptor {
                key: "api".to_string(),
                value: Some("read".to_string()),
                rate_limit: Some(RateLimit {
                    requests_per_unit: 100,
                    unit: RateLimitUnit::Minute,
                    unlimited: None,
                    name: None,
                }),
                shadow_mode: None,
                descriptors: None,
            },
        ],
    };

    let compiled_config = CompiledRateLimitConfig::compile(config).unwrap();
    assert_eq!(compiled_config.domain(), "test_domain");

    let limit = compiled_config.find_limit(&[("database", "users")]);
    assert!(limit.is_some());
    assert_eq!(limit.unwrap().requests_per_unit, 5);

    let limit = compiled_config.find_limit(&[("api", "read")]);
    assert!(limit.is_some());
    assert_eq!(limit.unwrap().requests_per_unit, 100);

    let limit = compiled_config.find_limit(&[("nonexistent", "key")]);
    assert!(limit.is_none());
}

#[test]
fn test_nested_descriptors() {
    let config = RateLimitConfig {
        domain: "messaging".to_string(),
        descriptors: vec![
            ConfigDescriptor {
                key: "message_type".to_string(),
                value: Some("marketing".to_string()),
                rate_limit: None,
                shadow_mode: None,
                descriptors: Some(vec![ConfigDescriptor {
                    key: "to_number".to_string(),
                    value: None, // Match any value
                    rate_limit: Some(RateLimit {
                        requests_per_unit: 5,
                        unit: RateLimitUnit::Day,
                        unlimited: None,
                        name: None,
                    }),
                    shadow_mode: None,
                    descriptors: None,
                }]),
            },
            ConfigDescriptor {
                key: "to_number".to_string(),
                value: None,
                rate_limit: Some(RateLimit {
                    requests_per_unit: 100,
                    unit: RateLimitUnit::Day,
                    unlimited: None,
                    name: None,
                }),
                shadow_mode: None,
                descriptors: None,
            },
        ],
    };

    let compiled_config = CompiledRateLimitConfig::compile(config).unwrap();

    // The flat descriptor lookup matches the bare "to_number" wildcard path
    let limit = compiled_config.find_limit(&[("to_number", "")]);
    assert!(limit.is_some());
    assert_eq!(limit.unwrap().requests_per_unit, 100);

    // The nested lookup matches the "message_type_marketing:to_number" path
    let limit = compiled_config.find_limit(&[("message_type", "marketing"), ("to_number", "")]);
    assert!(limit.is_some());
    assert_eq!(limit.unwrap().requests_per_unit, 5);
}

#[test]
fn test_shadow_mode() {
    let config = RateLimitConfig {
        domain: "test".to_string(),
        descriptors: vec![ConfigDescriptor {
            key: "user".to_string(),
            value: Some("test_user".to_string()),
            rate_limit: Some(RateLimit {
                requests_per_unit: 1,
                unit: RateLimitUnit::Second,
                unlimited: None,
                name: None,
            }),
            shadow_mode: Some(true),
            descriptors: None,
        }],
    };

    let compiled_config = CompiledRateLimitConfig::compile(config).unwrap();
    let limit = compiled_config.find_limit(&[("user", "test_user")]);

    assert!(limit.is_some());
    assert!(limit.unwrap().shadow_mode);
}

#[test]
fn test_unlimited_rate_limit() {
    let config = RateLimitConfig {
        domain: "internal".to_string(),
        descriptors: vec![ConfigDescriptor {
            key: "service".to_string(),
            value: Some("health_check".to_string()),
            rate_limit: Some(RateLimit {
                requests_per_unit: 0, // Not used for unlimited
                unit: RateLimitUnit::Second,
                unlimited: Some(true),
                name: None,
            }),
            shadow_mode: None,
            descriptors: None,
        }],
    };

    let compiled_config = CompiledRateLimitConfig::compile(config).unwrap();
    let limit = compiled_config.find_limit(&[("service", "health_check")]);

    assert!(limit.is_some());
    assert!(limit.unwrap().unlimited);
}

#[test]
fn integration_tests_test_cache_key_generation() {
    let time_source = TimeSource::new();
    let descriptors = vec![("database", "users"), ("action", "read")];

    let key = generate_cache_key("test_domain", &descriptors, Unit::Second, &time_source);

    assert!(key.starts_with("test_domain:database_users:action_read:"));
    assert!(key.len() > "test_domain:database_users:action_read:".len());
}

#[test]
fn test_time_windows() {
    let time_source = TimeSource::new();
    let descriptors = vec![("test", "key")];

    let second_key = generate_cache_key("domain", &descriptors, Unit::Second, &time_source);
    let minute_key = generate_cache_key("domain", &descriptors, Unit::Minute, &time_source);
    let hour_key = generate_cache_key("domain", &descriptors, Unit::Hour, &time_source);
    let day_key = generate_cache_key("domain", &descriptors, Unit::Day, &time_source);

    // Keys differ because the units put now into different windows
    assert_ne!(second_key, minute_key);
    assert_ne!(minute_key, hour_key);
    assert_ne!(hour_key, day_key);

    // Generated at the same time with the same unit, keys are equal; retry
    // in case the clock ticks over a second boundary between two readings
    let mut first = generate_cache_key("domain", &descriptors, Unit::Second, &time_source);
    let mut second = generate_cache_key("domain", &descriptors, Unit::Second, &time_source);
    for _ in 0..3 {
        if first == second {
            break;
        }
        first = generate_cache_key("domain", &descriptors, Unit::Second, &time_source);
        second = generate_cache_key("domain", &descriptors, Unit::Second, &time_source);
    }
    assert_eq!(first, second);
}

#[test]
fn integration_tests_test_hits_addend() {
    assert_eq!(get_hits_addend(0), 1);
    assert_eq!(get_hits_addend(1), 1);
    assert_eq!(get_hits_addend(5), 5);
    assert_eq!(get_hits_addend(100), 100);
}
