use cable_streaming::cache::{after_lookup, CacheStep, fresh_response, is_success, response_to_keep};
use cable_streaming::xmltv::Timestamp;
use cable_streaming::Credentials;

#[test]
fn success_statuses() {
    assert!(is_success(200));
    assert!(is_success(204));
    assert!(is_success(299));
    assert!(!is_success(199));
    assert!(!is_success(300));
    assert!(!is_success(404));
    assert!(!is_success(500));
}

#[test]
fn a_successful_response_is_kept_with_its_time() {
    let t = Timestamp { seconds: 1648296000, nanos: 12 };
    let kept = response_to_keep(200, "{\"search\":[]}".to_string(), t).unwrap();
    assert_eq!(kept.time_created, t);
    assert_eq!(kept.body, "{\"search\":[]}");
}

#[test]
fn a_failed_response_is_an_error_with_status_and_body() {
    let t = Timestamp { seconds: 0, nanos: 0 };
    let err = response_to_keep(429, "slow down".to_string(), t).unwrap_err();
    assert_eq!(err.status, 429);
    assert_eq!(err.body, "slow down");
}

#[test]
fn a_fresh_response_is_stamped_now() {
    let kept = fresh_response(201, "ok".to_string()).unwrap();
    assert_eq!(kept.body, "ok");
    assert!(kept.time_created.seconds > 1648296000);
    assert!(fresh_response(503, "down".to_string()).is_err());
}

#[test]
fn default_credentials_file() {
    assert_eq!(Credentials::from_default_file(), "creds.toml");
}

#[test]
fn a_cache_hit_is_answered_and_a_miss_fetched() {
    match after_lookup(Some(vec![1, 2, 3])) {
        CacheStep::Answer(bytes) => assert_eq!(bytes, vec![1, 2, 3]),
        CacheStep::Fetch => panic!("a hit must be answered"),
    }
    assert!(matches!(after_lookup(None), CacheStep::Fetch));
}
