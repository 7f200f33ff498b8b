use cache_proxy::cache::Cache;
use cache_proxy::proxy::{
    decide, decide_at, finish, finish_at, is_connection_header, strip_connection, BodyCache,
    Decision, HashedRequest, Header, OriginResponse, ProxyError, Reply,
};

const SEC: u128 = 1_000_000_000;

fn key(uri: &str, method: &str) -> HashedRequest {
    HashedRequest::from_parts(uri.to_string(), method.to_string())
}

fn header(name: &str, value: &str) -> Header {
    Header { name: name.as_bytes().to_vec(), value: value.as_bytes().to_vec() }
}

fn origin(status: u16, headers: Vec<Header>, body: &[u8]) -> OriginResponse {
    OriginResponse { status, headers, body: body.to_vec() }
}

#[test]
fn test_url_query_param_status_ok() {
    let mut cache: BodyCache = Cache::new();
    let k = key("/?url=https://blockstream.info/api/blocks/0", "GET");
    let d = decide(&cache, &k, Some("https://blockstream.info/api/blocks/0".to_string()));
    match d {
        Decision::Fetch(u) => assert_eq!(u, "https://blockstream.info/api/blocks/0"),
        _ => panic!("expected a fetch"),
    }
    let reply = finish(&mut cache, k, Ok(origin(200, vec![], b"[]"))).unwrap();
    assert_eq!(reply.status, 200);
}

#[test]
fn test_no_url_param_errors() {
    let cache: BodyCache = Cache::new();
    let k = key("/", "GET");
    let d = decide(&cache, &k, None);
    match d {
        Decision::Reject(e) => {
            assert_eq!(e, ProxyError::BadRequest);
            assert_eq!(e.status(), 400);
        }
        _ => panic!("expected a rejection"),
    }
}

#[test]
fn scenario_cold_then_cached() {
    let mut cache: BodyCache = Cache::new();
    let uri = "/?url=https://example.test/api/v1";
    let url = "https://example.test/api/v1".to_string();
    let t0: u128 = 1_700_000_000 * SEC;
    match decide_at(&cache, &key(uri, "GET"), Some(url.clone()), t0) {
        Decision::Fetch(u) => assert_eq!(u, url),
        _ => panic!("cold store must fetch"),
    }
    let reply = finish_at(&mut cache, key(uri, "GET"), Ok(origin(200, vec![], b"abc")), t0).unwrap();
    assert_eq!(reply.status, 200);
    assert_eq!(reply.body, b"abc".to_vec());
    assert_eq!(cache.get_at(&key(uri, "GET"), t0), Some(&b"abc".to_vec()));
    match decide_at(&cache, &key(uri, "GET"), Some(url.clone()), t0 + SEC) {
        Decision::Cached(b) => {
            let r = Reply::from_cached(b);
            assert_eq!(r.status, 200);
            assert_eq!(r.body, b"abc".to_vec());
        }
        _ => panic!("repeat must be served from the store"),
    }
}

#[test]
fn other_method_is_another_key() {
    let mut cache: BodyCache = Cache::new();
    let t0: u128 = 10 * SEC;
    finish_at(&mut cache, key("/?url=x", "GET"), Ok(origin(200, vec![], b"g")), t0).unwrap();
    match decide_at(&cache, &key("/?url=x", "POST"), Some("x".to_string()), t0) {
        Decision::Fetch(_) => {}
        _ => panic!("POST must not hit the GET entry"),
    }
}

#[test]
fn expired_entry_is_fetched_again() {
    let mut cache: BodyCache = Cache::new();
    let t0: u128 = 100 * SEC;
    finish_at(&mut cache, key("/?url=x", "GET"), Ok(origin(200, vec![], b"old")), t0).unwrap();
    match decide_at(&cache, &key("/?url=x", "GET"), Some("x".to_string()), t0 + 31 * SEC) {
        Decision::Fetch(u) => assert_eq!(u, "x"),
        _ => panic!("expired entry must be fetched again"),
    }
    match decide_at(&cache, &key("/?url=x", "GET"), Some("x".to_string()), t0 + 30 * SEC) {
        Decision::Cached(b) => assert_eq!(b, b"old".to_vec()),
        _ => panic!("entry at the boundary is fresh"),
    }
}

#[test]
fn missing_url_ignores_a_fresh_entry() {
    let mut cache: BodyCache = Cache::new();
    finish_at(&mut cache, key("/", "GET"), Ok(origin(200, vec![], b"body")), 0).unwrap();
    assert!(matches!(
        decide_at(&cache, &key("/", "GET"), None, 0),
        Decision::Reject(ProxyError::BadRequest)
    ));
}

#[test]
fn upstream_error_leaves_store_alone() {
    let mut cache: BodyCache = Cache::new();
    let r = finish_at(&mut cache, key("/?url=x", "GET"), Err(ProxyError::UpstreamFetch), 0);
    assert!(matches!(r, Err(ProxyError::UpstreamFetch)));
    assert_eq!(cache.get_at(&key("/?url=x", "GET"), 0), None);
    let r = finish_at(&mut cache, key("/?url=x", "GET"), Err(ProxyError::BodyDrain), 0);
    assert!(matches!(r, Err(ProxyError::BodyDrain)));
    assert_eq!(ProxyError::UpstreamFetch.status(), 500);
    assert_eq!(ProxyError::BodyDrain.status(), 500);
    assert_eq!(cache.get_at(&key("/?url=x", "GET"), 0), None);
}

#[test]
fn connection_header_is_stripped() {
    let headers = vec![
        header("content-type", "text/plain"),
        header("Connection", "keep-alive"),
        header("x-a", "1"),
        header("CONNECTION", "close"),
    ];
    let mut cache: BodyCache = Cache::new();
    let reply = finish_at(&mut cache, key("/?url=x", "GET"), Ok(origin(404, headers, b"nf")), 0).unwrap();
    assert_eq!(reply.status, 404);
    let names: Vec<Vec<u8>> = reply.headers.iter().map(|h| h.name.clone()).collect();
    assert_eq!(names, vec![b"content-type".to_vec(), b"x-a".to_vec()]);
    assert_eq!(reply.headers[0].value, b"text/plain".to_vec());
    assert_eq!(reply.headers[1].value, b"1".to_vec());
}

#[test]
fn connection_name_any_case() {
    assert!(is_connection_header(&b"connection".to_vec()));
    assert!(is_connection_header(&b"Connection".to_vec()));
    assert!(is_connection_header(&b"cOnNeCtIoN".to_vec()));
    assert!(!is_connection_header(&b"connections".to_vec()));
    assert!(!is_connection_header(&b"keep-alive".to_vec()));
    assert!(!is_connection_header(&b"".to_vec()));
    let kept = strip_connection(&vec![header("connection", "close")]);
    assert!(kept.is_empty());
}

#[test]
fn key_fields_are_case_sensitive() {
    let mut cache: BodyCache = Cache::new();
    cache.set_at(key("/A", "GET"), b"a".to_vec(), 0);
    assert_eq!(cache.get_at(&key("/a", "GET"), 0), None);
    assert_eq!(cache.get_at(&key("/A", "get"), 0), None);
    assert_eq!(cache.get_at(&key("/A", "GET"), 0), Some(&b"a".to_vec()));
}
