use cache_proxy::cache::{now_nanos, Cache, DEFAULT_TTL_SECONDS};
use cache_proxy::chunk::{bytes_to_chunks, ChunkStream, CHUNK_SIZE};
use cache_proxy::proxy::HashedRequest;

const SEC: u128 = 1_000_000_000;

fn key(uri: &str) -> HashedRequest {
    HashedRequest::from_parts(uri.to_string(), "GET".to_string())
}

#[test]
fn new_store_is_empty_with_default_ttl() {
    let c: Cache<HashedRequest, u32> = Cache::new();
    assert_eq!(c.ttl_seconds(), 30);
    assert_eq!(DEFAULT_TTL_SECONDS, 30);
    assert_eq!(c.get(&key("/")), None);
    let d: Cache<HashedRequest, u32> = Default::default();
    assert_eq!(d.ttl_seconds(), 30);
}

#[test]
fn set_returns_displaced_value() {
    let mut c: Cache<HashedRequest, u32> = Cache::new();
    assert_eq!(c.set(key("/a"), 1), None);
    assert_eq!(c.get(&key("/a")), Some(&1));
    assert_eq!(c.set(key("/a"), 2), Some(1));
    assert_eq!(c.get(&key("/a")), Some(&2));
    assert_eq!(c.set(key("/b"), 3), None);
    assert_eq!(c.get(&key("/a")), Some(&2));
    assert_eq!(c.get(&key("/b")), Some(&3));
}

#[test]
fn stale_entry_is_still_displaced() {
    let mut c: Cache<HashedRequest, u32> = Cache::with_ttl(5);
    assert_eq!(c.set_at(key("/a"), 1, 0), None);
    assert_eq!(c.get_at(&key("/a"), 100 * SEC), None);
    assert_eq!(c.set_at(key("/a"), 2, 100 * SEC), Some(1));
    assert_eq!(c.get_at(&key("/a"), 100 * SEC), Some(&2));
}

#[test]
fn ttl_boundary_whole_seconds() {
    let mut c: Cache<HashedRequest, u32> = Cache::new();
    let t0: u128 = 50 * SEC + 123;
    c.set_at(key("/a"), 7, t0);
    assert_eq!(c.get_at(&key("/a"), t0), Some(&7));
    assert_eq!(c.get_at(&key("/a"), t0 + 30 * SEC), Some(&7));
    assert_eq!(c.get_at(&key("/a"), t0 + 31 * SEC - 1), Some(&7));
    assert_eq!(c.get_at(&key("/a"), t0 + 31 * SEC), None);
    assert_eq!(c.get_at(&key("/a"), t0 - SEC), Some(&7));
}

#[test]
fn custom_ttl() {
    let mut c: Cache<HashedRequest, u32> = Cache::with_ttl(0);
    c.set_at(key("/a"), 7, 0);
    assert_eq!(c.get_at(&key("/a"), SEC - 1), Some(&7));
    assert_eq!(c.get_at(&key("/a"), SEC), None);
}

#[test]
fn clock_moves() {
    let t = now_nanos();
    assert!(t > 1_500_000_000 * SEC);
}

#[test]
fn empty_body_has_no_chunks() {
    assert!(bytes_to_chunks(vec![]).is_empty());
    let mut s = ChunkStream::new(vec![]);
    assert!(s.is_done());
    assert_eq!(s.next_chunk(), None);
}

#[test]
fn chunk_sizes() {
    assert_eq!(CHUNK_SIZE, 8192);
    let body: Vec<u8> = (0..20000u32).map(|i| (i % 251) as u8).collect();
    let cs = bytes_to_chunks(body.clone());
    assert_eq!(cs.len(), 3);
    assert_eq!(cs[0].len(), 8192);
    assert_eq!(cs[1].len(), 8192);
    assert_eq!(cs[2].len(), 20000 - 2 * 8192);
    assert_eq!(cs.concat(), body);
    assert_eq!(bytes_to_chunks(vec![1u8; 8192]).len(), 1);
    assert_eq!(bytes_to_chunks(vec![1u8; 8193]).len(), 2);
    assert_eq!(bytes_to_chunks(vec![9u8]), vec![vec![9u8]]);
}

#[test]
fn chunk_stream_small_size() {
    let mut s = ChunkStream::with_chunk_size(b"abcdefg".to_vec(), 3);
    assert!(!s.is_done());
    assert_eq!(s.next_chunk(), Some(b"abc".to_vec()));
    assert_eq!(s.next_chunk(), Some(b"def".to_vec()));
    assert_eq!(s.next_chunk(), Some(b"g".to_vec()));
    assert!(s.is_done());
    assert_eq!(s.next_chunk(), None);
    let mut t = ChunkStream::with_chunk_size(b"abcdef".to_vec(), 2);
    assert_eq!(t.next_chunk(), Some(b"ab".to_vec()));
    assert_eq!(t.collect_rest(), vec![b"cd".to_vec(), b"ef".to_vec()]);
}
