use cdn_client::cache::CacheStore;
use cdn_client::errors::TrackerError;
use cdn_client::tracker::{process_push, TRACKER_MAX_PAYLOAD};

/// A hand-built descriptor body: content id, chunk size and total length
/// big-endian, then one 20-byte digest per chunk.
fn body(content_id: [u8; 20], chunk_size: u64, total: u64, digests: &[[u8; 20]]) -> Vec<u8> {
    let mut b = Vec::new();
    b.extend_from_slice(&content_id);
    b.extend_from_slice(&chunk_size.to_be_bytes());
    b.extend_from_slice(&total.to_be_bytes());
    for d in digests {
        b.extend_from_slice(d);
    }
    b
}

/// Frame a body as one tracker payload: four-byte big-endian length prefix.
fn framed(body: &[u8]) -> Vec<u8> {
    let mut p = Vec::new();
    p.extend_from_slice(&(body.len() as u32).to_be_bytes());
    p.extend_from_slice(body);
    p
}

#[test]
fn push_stores_under_hex_content_id() {
    let mut store = CacheStore::new();
    let b = body([0xab; 20], 5, 5, &[[1; 20]]);
    let payload = framed(&b);
    process_push(&mut store, &payload, 1000, 3600).unwrap();
    let key = String::from("ab".repeat(20));
    let e = store.lookup(&key).expect("pushed descriptor is cached");
    assert_eq!(e.descriptor, b);
    assert_eq!(e.created_at, 1000);
    assert_eq!(e.expires_at, 4600);
}

#[test]
fn push_last_write_wins() {
    let mut store = CacheStore::new();
    let id = [7u8; 20];
    // descriptor A: one chunk of five bytes
    let a = body(id, 5, 5, &[[1; 20]]);
    // descriptor B: same content id, two chunks of five bytes
    let b = body(id, 5, 10, &[[2; 20], [3; 20]]);
    process_push(&mut store, &framed(&a), 1000, 3600).unwrap();
    process_push(&mut store, &framed(&b), 1500, 3600).unwrap();
    let key = String::from("07".repeat(20));
    let e = store.lookup(&key).expect("key is cached");
    assert_eq!(e.descriptor, b);
    assert_eq!(e.created_at, 1500);
}

#[test]
fn oversized_push_rejected_without_mutation() {
    let mut store = CacheStore::new();
    let a = body([9u8; 20], 5, 5, &[[1; 20]]);
    process_push(&mut store, &framed(&a), 1000, 3600).unwrap();
    let huge = vec![0u8; TRACKER_MAX_PAYLOAD + 1];
    let r = process_push(&mut store, &huge, 2000, 3600);
    assert!(matches!(r, Err(TrackerError::PayloadTooLarge)));
    // the store still holds exactly what it held before
    let key = String::from("09".repeat(20));
    let e = store.lookup(&key).expect("earlier entry survives");
    assert_eq!(e.descriptor, a);
    assert_eq!(e.created_at, 1000);
}

#[test]
fn truncated_frame_rejected() {
    let mut store = CacheStore::new();
    let a = body([9u8; 20], 5, 5, &[[1; 20]]);
    let mut payload = framed(&a);
    payload.pop();
    let r = process_push(&mut store, &payload, 1000, 3600);
    assert!(matches!(r, Err(TrackerError::Malformed)));
    assert!(store.lookup(&String::from("09".repeat(20))).is_none());
}

#[test]
fn short_payload_rejected() {
    let mut store = CacheStore::new();
    let r = process_push(&mut store, &[1, 2], 1000, 3600);
    assert!(matches!(r, Err(TrackerError::Malformed)));
}

#[test]
fn undecodable_body_rejected() {
    let mut store = CacheStore::new();
    // well-framed, but the body is no descriptor encoding
    let payload = framed(&[1, 2, 3, 4, 5]);
    let r = process_push(&mut store, &payload, 1000, 3600);
    assert!(matches!(r, Err(TrackerError::Malformed)));
}

#[test]
fn inconsistent_chunk_count_rejected() {
    let mut store = CacheStore::new();
    // total length 10 with chunk size 5 demands two digests, not one
    let b = body([7u8; 20], 5, 10, &[[1; 20]]);
    let r = process_push(&mut store, &framed(&b), 1000, 3600);
    assert!(matches!(r, Err(TrackerError::Malformed)));
}
