use rust_ratelimit::cache::Expiration;
use rust_ratelimit::error::RateLimitError;
use rust_ratelimit::utils::Unit;

#[test]
fn test_expiration_as_duration() {
    assert_eq!(Expiration::Duration(Unit::Second).as_duration(), Some(1));
    assert_eq!(Expiration::Duration(Unit::Minute).as_duration(), Some(60));
    assert_eq!(Expiration::Duration(Unit::Hour).as_duration(), Some(3600));
    assert_eq!(Expiration::Duration(Unit::Day).as_duration(), Some(86400));
}

#[test]
fn test_error_messages() {
    assert_eq!(RateLimitError::Config("bad".to_string()).message(), "bad");
    assert_eq!(RateLimitError::Service("no".to_string()).message(), "no");
    assert_eq!(RateLimitError::Cache("c".to_string()).message(), "c");
    assert_eq!(RateLimitError::InvalidDescriptor("d".to_string()).message(), "d");
    assert_eq!(RateLimitError::DomainNotFound("dom".to_string()).message(), "dom");
    assert_eq!(RateLimitError::Store("s".to_string()).message(), "s");
}
