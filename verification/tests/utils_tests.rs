use rust_ratelimit::utils::{
    calculate_reset, calculate_reset_at, generate_cache_key, get_hits_addend, window_index,
    TimeSource, Unit,
};

#[test]
fn test_unit_conversions() {
    assert_eq!(Unit::Second.to_seconds(), 1);
    assert_eq!(Unit::Minute.to_seconds(), 60);
    assert_eq!(Unit::Hour.to_seconds(), 3600);
    assert_eq!(Unit::Day.to_seconds(), 86400);
}

#[test]
fn utils_test_cache_key_generation() {
    let time_source = TimeSource::new();
    let descriptors = vec![("database", "users"), ("action", "read")];

    let key = generate_cache_key("mongo", &descriptors, Unit::Second, &time_source);
    assert!(key.starts_with("mongo:database_users:action_read:"));
}

#[test]
fn utils_test_hits_addend() {
    assert_eq!(get_hits_addend(0), 1);
    assert_eq!(get_hits_addend(5), 5);
}

#[test]
fn test_fixed_time_source() {
    let ts = TimeSource::fixed(1_234_567);
    assert_eq!(ts.unix_now(), 1_234_567);
    assert_eq!(ts.unix_now(), 1_234_567);
}

#[test]
fn test_cache_key_exact_value() {
    let ts = TimeSource::fixed(125);
    let descriptors = vec![("users", "alice")];
    let key = generate_cache_key("db", &descriptors, Unit::Minute, &ts);
    // window index of 125 seconds in minutes is 2
    assert_eq!(key, "db:users_alice:2");
}

#[test]
fn test_cache_key_empty_value_omits_underscore() {
    let ts = TimeSource::fixed(0);
    let descriptors = vec![("to_number", "")];
    let key = generate_cache_key("messaging", &descriptors, Unit::Day, &ts);
    assert_eq!(key, "messaging:to_number:0");
}

#[test]
fn test_window_index_values() {
    assert_eq!(window_index(0, Unit::Second), 0);
    assert_eq!(window_index(86400, Unit::Day), 1);
    assert_eq!(window_index(86399, Unit::Day), 0);
    assert_eq!(window_index(3659, Unit::Minute), 60);
}

#[test]
fn test_calculate_reset_bounds() {
    // at second 59 of a minute, one second remains
    assert_eq!(calculate_reset_at(Unit::Minute, 119), 1);
    // at the window start, the whole window remains
    assert_eq!(calculate_reset_at(Unit::Minute, 120), 60);
    let ts = TimeSource::fixed(1000);
    let r = calculate_reset(&Unit::Hour, &ts);
    assert!(0 < r && r <= 3600);
    assert_eq!(r, 2600);
}

#[test]
fn test_cache_keys_distinct_tuples() {
    // distinct (domain, descriptor, window) tuples give distinct keys
    let t = TimeSource::fixed(0);
    let mut keys = vec![
        generate_cache_key("a", &vec![("k", "v")], Unit::Second, &t),
        generate_cache_key("b", &vec![("k", "v")], Unit::Second, &t),
        generate_cache_key("a", &vec![("k", "w")], Unit::Second, &t),
        generate_cache_key("a", &vec![("k", "v"), ("k2", "v2")], Unit::Second, &t),
        generate_cache_key("a", &vec![("k", "")], Unit::Second, &t),
    ];
    keys.push(generate_cache_key(
        "a",
        &vec![("k", "v")],
        Unit::Second,
        &TimeSource::fixed(5),
    ));
    for i in 0..keys.len() {
        for j in 0..keys.len() {
            if i != j {
                assert_ne!(keys[i], keys[j]);
            }
        }
    }
}
