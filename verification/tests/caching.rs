use dsnval::cache::FetchDecision;
use dsnval::cache::ResultCache;
use dsnval::cache::DEFAULT_TTL;

fn key() -> String {
    "https://example.test/".to_string()
}

#[test]
fn default_ttl_is_five_minutes() {
    assert_eq!(DEFAULT_TTL, 300);
}

#[test]
fn lookup_misses_on_empty_cache() {
    let cache = ResultCache::new(300);
    assert!(cache.lookup(&key(), 0).is_none());
}

#[test]
fn stored_value_serves_within_ttl() {
    let mut cache = ResultCache::new(300);
    cache.store(&key(), "result".to_string(), 1000);
    assert_eq!(cache.lookup(&key(), 1000), Some("result".to_string()));
    assert_eq!(cache.lookup(&key(), 1299), Some("result".to_string()));
}

#[test]
fn stored_value_expires_at_ttl() {
    let mut cache = ResultCache::new(300);
    cache.store(&key(), "result".to_string(), 1000);
    assert_eq!(cache.lookup(&key(), 1300), None);
    assert_eq!(cache.lookup(&key(), 2000), None);
}

#[test]
fn later_store_shadows_earlier() {
    let mut cache = ResultCache::new(300);
    cache.store(&key(), "stale".to_string(), 1000);
    cache.store(&key(), "fresh".to_string(), 1100);
    assert_eq!(cache.lookup(&key(), 1150), Some("fresh".to_string()));
}

#[test]
fn keys_are_independent() {
    let mut cache = ResultCache::new(300);
    cache.store(&"a".to_string(), "va".to_string(), 0);
    cache.store(&"b".to_string(), "vb".to_string(), 0);
    assert_eq!(cache.lookup(&"a".to_string(), 10), Some("va".to_string()));
    assert_eq!(cache.lookup(&"b".to_string(), 10), Some("vb".to_string()));
    assert_eq!(cache.lookup(&"c".to_string(), 10), None);
}

/// Two requests for the same key within the TTL window run the pipeline at
/// most once; a request after expiry runs it again.
#[test]
fn pipeline_runs_at_most_once_per_window() {
    let mut cache = ResultCache::new(300);
    let mut pipeline_runs: u32 = 0;

    // first request at t=0: miss, fetch, complete
    match cache.begin_request(&key(), 0) {
        FetchDecision::Fetch => {
            pipeline_runs += 1;
            cache.complete_request(&key(), "payload".to_string(), 0);
        }
        _ => panic!("first request must fetch"),
    }

    // second request inside the window: served from the store
    match cache.begin_request(&key(), 299) {
        FetchDecision::Hit(v) => assert_eq!(v, "payload"),
        _ => panic!("second request must hit"),
    }
    assert_eq!(pipeline_runs, 1);

    // request after expiry: the pipeline runs again
    match cache.begin_request(&key(), 300) {
        FetchDecision::Fetch => {
            pipeline_runs += 1;
            cache.complete_request(&key(), "payload2".to_string(), 300);
        }
        _ => panic!("request after expiry must fetch"),
    }
    assert_eq!(pipeline_runs, 2);
    assert_eq!(cache.lookup(&key(), 301), Some("payload2".to_string()));
}

/// While a fetch for a key is in flight, a second request for that key
/// waits instead of starting another fetch.
#[test]
fn single_flight_per_key() {
    let mut cache = ResultCache::new(300);
    match cache.begin_request(&key(), 0) {
        FetchDecision::Fetch => {}
        _ => panic!("first request must fetch"),
    }
    match cache.begin_request(&key(), 1) {
        FetchDecision::Wait => {}
        _ => panic!("concurrent request must wait"),
    }
    // an unrelated key is not blocked
    match cache.begin_request(&"other".to_string(), 1) {
        FetchDecision::Fetch => {}
        _ => panic!("other key must fetch"),
    }
    cache.complete_request(&key(), "payload".to_string(), 2);
    match cache.begin_request(&key(), 3) {
        FetchDecision::Hit(v) => assert_eq!(v, "payload"),
        _ => panic!("completed request must serve"),
    }
}
