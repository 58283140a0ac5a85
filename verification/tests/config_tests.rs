use rust_ratelimit::config::{
    CompiledRateLimitConfig, RateLimit, RateLimitConfig, RateLimitDescriptor, RateLimitUnit,
};
use rust_ratelimit::error::RateLimitError;

fn leaf(
    key: &str,
    value: Option<&str>,
    limit: Option<(u32, RateLimitUnit)>,
    shadow: Option<bool>,
) -> RateLimitDescriptor {
    RateLimitDescriptor {
        key: key.to_string(),
        value: value.map(|v| v.to_string()),
        rate_limit: limit.map(|(requests_per_unit, unit)| RateLimit {
            requests_per_unit,
            unit,
            unlimited: None,
            name: None,
        }),
        shadow_mode: shadow,
        descriptors: None,
    }
}

#[test]
fn test_compile_config() {
    let config = RateLimitConfig {
        domain: "test".to_string(),
        descriptors: vec![RateLimitDescriptor {
            key: "database".to_string(),
            value: Some("users".to_string()),
            rate_limit: Some(RateLimit {
                requests_per_unit: 100,
                unit: RateLimitUnit::Second,
                unlimited: None,
                name: None,
            }),
            shadow_mode: None,
            descriptors: None,
        }],
    };

    let compiled = CompiledRateLimitConfig::compile(config).unwrap();
    let limit = compiled.find_limit(&[("database", "users")]);
    assert!(limit.is_some());
    assert_eq!(limit.unwrap().requests_per_unit, 100);
}

#[test]
fn test_compile_duplicate_path_fails() {
    let config = RateLimitConfig {
        domain: "dup".to_string(),
        descriptors: vec![
            leaf("api", Some("read"), Some((5, RateLimitUnit::Second)), None),
            leaf("api", Some("read"), Some((9, RateLimitUnit::Minute)), None),
        ],
    };
    match CompiledRateLimitConfig::compile(config) {
        Err(RateLimitError::Config(msg)) => {
            assert!(msg.contains("duplicate"));
        }
        _ => panic!("expected a configuration error for a duplicate path"),
    }
}

#[test]
fn test_compile_structural_nodes_contribute_no_entries() {
    // a nested node without a leaf limit anywhere is allowed
    let config = RateLimitConfig {
        domain: "empty".to_string(),
        descriptors: vec![RateLimitDescriptor {
            key: "outer".to_string(),
            value: None,
            rate_limit: None,
            shadow_mode: None,
            descriptors: Some(vec![leaf("inner", None, None, None)]),
        }],
    };
    let compiled = CompiledRateLimitConfig::compile(config).unwrap();
    assert_eq!(compiled.domain(), "empty");
    assert!(compiled.find_limit(&[("outer", ""), ("inner", "")]).is_none());
}

#[test]
fn test_declared_paths_resolve_to_declared_limits() {
    // consulting the compiled config for every declared path yields the
    // declared limit
    let config = RateLimitConfig {
        domain: "multi".to_string(),
        descriptors: vec![
            leaf("a", Some("1"), Some((10, RateLimitUnit::Second)), None),
            leaf("b", None, Some((20, RateLimitUnit::Minute)), None),
            RateLimitDescriptor {
                key: "c".to_string(),
                value: Some("x".to_string()),
                rate_limit: Some(RateLimit {
                    requests_per_unit: 30,
                    unit: RateLimitUnit::Hour,
                    unlimited: None,
                    name: None,
                }),
                shadow_mode: None,
                descriptors: Some(vec![leaf("d", None, Some((40, RateLimitUnit::Day)), None)]),
            },
        ],
    };
    let compiled = CompiledRateLimitConfig::compile(config).unwrap();
    assert_eq!(compiled.find_limit(&[("a", "1")]).unwrap().requests_per_unit, 10);
    assert_eq!(compiled.find_limit(&[("b", "")]).unwrap().requests_per_unit, 20);
    assert_eq!(compiled.find_limit(&[("c", "x")]).unwrap().requests_per_unit, 30);
    assert_eq!(
        compiled.find_limit(&[("c", "x"), ("d", "anything")]).unwrap().requests_per_unit,
        40
    );
}

#[test]
fn test_exact_value_beats_wildcard() {
    let config = RateLimitConfig {
        domain: "w".to_string(),
        descriptors: vec![
            leaf("key", Some("x"), Some((1, RateLimitUnit::Second)), None),
            leaf("key", None, Some((2, RateLimitUnit::Second)), None),
        ],
    };
    let compiled = CompiledRateLimitConfig::compile(config).unwrap();
    // a request with value "x" matches the exact entry
    assert_eq!(compiled.find_limit(&[("key", "x")]).unwrap().requests_per_unit, 1);
    // the wildcard is stored under the bare key; a request with an empty
    // value probes exactly that path
    assert_eq!(compiled.find_limit(&[("key", "")]).unwrap().requests_per_unit, 2);
}

#[test]
fn test_unit_round_trip() {
    for unit in [
        rust_ratelimit::utils::Unit::Second,
        rust_ratelimit::utils::Unit::Minute,
        rust_ratelimit::utils::Unit::Hour,
        rust_ratelimit::utils::Unit::Day,
    ] {
        assert_eq!(RateLimitUnit::from_unit(unit).to_unit(), unit);
    }
}

#[test]
fn test_wildcard_matches_any_value() {
    // nested most-specific-wins: the wildcard matches any request value
    let config = RateLimitConfig {
        domain: "messaging".to_string(),
        descriptors: vec![
            RateLimitDescriptor {
                key: "message_type".to_string(),
                value: Some("marketing".to_string()),
                rate_limit: None,
                shadow_mode: None,
                descriptors: Some(vec![leaf(
                    "to_number",
                    None,
                    Some((5, RateLimitUnit::Day)),
                    None,
                )]),
            },
            leaf("to_number", None, Some((100, RateLimitUnit::Day)), None),
        ],
    };
    let compiled = CompiledRateLimitConfig::compile(config).unwrap();
    let nested = compiled.find_limit(&[("message_type", "marketing"), ("to_number", "+1555")]);
    assert_eq!(nested.unwrap().requests_per_unit, 5);
    let flat = compiled.find_limit(&[("to_number", "+1555")]);
    assert_eq!(flat.unwrap().requests_per_unit, 100);
}
