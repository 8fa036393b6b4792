use cdn_client::codec::{decode, encode};
use cdn_client::descriptor::generate;
use cdn_client::digest::DIGEST_LEN;
use cdn_client::errors::CodecError;

fn patterned(len: usize) -> Vec<u8> {
    let mut v = Vec::with_capacity(len);
    for i in 0..len {
        v.push((i % 251) as u8);
    }
    v
}

#[test]
fn generate_is_deterministic() {
    let content = patterned(100_000);
    let a = generate(&content, 4096);
    let b = generate(&content, 4096);
    assert_eq!(a.content_id, b.content_id);
    assert_eq!(a.chunk_size, b.chunk_size);
    assert_eq!(a.total_length, b.total_length);
    assert_eq!(a.chunks, b.chunks);
    assert_eq!(encode(&a), encode(&b));
}

#[test]
fn generate_chunk_geometry() {
    let content = patterned(6_000_000);
    let d = generate(&content, 1_500_000);
    assert_eq!(d.chunks.len(), 4);
    assert_eq!(d.total_length, 6_000_000);
    assert_eq!(d.chunk_size, 1_500_000);
    assert_eq!(d.content_id.len(), DIGEST_LEN);
    for c in &d.chunks {
        assert_eq!(c.len(), DIGEST_LEN);
    }
}

#[test]
fn generate_final_chunk_shorter() {
    let content = patterned(10_001);
    let d = generate(&content, 5_000);
    assert_eq!(d.chunks.len(), 3);
    let content2 = patterned(10_000);
    let d2 = generate(&content2, 5_000);
    assert_eq!(d2.chunks.len(), 2);
}

#[test]
fn generate_empty_content() {
    let d = generate(&[], 1024);
    assert_eq!(d.chunks.len(), 0);
    assert_eq!(d.total_length, 0);
    assert_eq!(d.content_id.len(), DIGEST_LEN);
}

#[test]
fn distinct_content_distinct_digests() {
    let a = generate(&patterned(1000), 512);
    let mut other = patterned(1000);
    other[600] ^= 0xff;
    let b = generate(&other, 512);
    assert_ne!(a.content_id, b.content_id);
    assert_eq!(a.chunks[0], b.chunks[0]);
    assert_ne!(a.chunks[1], b.chunks[1]);
}

#[test]
fn round_trip() {
    let content = patterned(100_000);
    let d = generate(&content, 4096);
    let bytes = encode(&d);
    let d2 = decode(&bytes).expect("a valid encoding decodes");
    assert_eq!(d2.content_id, d.content_id);
    assert_eq!(d2.chunk_size, d.chunk_size);
    assert_eq!(d2.total_length, d.total_length);
    assert_eq!(d2.chunks, d.chunks);
}

#[test]
fn round_trip_empty() {
    let d = generate(&[], 7);
    let bytes = encode(&d);
    assert_eq!(bytes.len(), 36);
    let d2 = decode(&bytes).expect("a valid encoding decodes");
    assert_eq!(d2.total_length, 0);
    assert_eq!(d2.chunk_size, 7);
    assert_eq!(d2.chunks.len(), 0);
}

#[test]
fn encode_layout_exact() {
    let d = generate(&[9u8; 5], 2);
    let bytes = encode(&d);
    // header: 20 id bytes, chunk size 2 big-endian, total length 5 big-endian,
    // then ceil(5 / 2) = 3 digests of 20 bytes each
    assert_eq!(bytes.len(), 36 + 3 * 20);
    assert_eq!(&bytes[0..20], &d.content_id[..]);
    assert_eq!(&bytes[20..28], &[0, 0, 0, 0, 0, 0, 0, 2]);
    assert_eq!(&bytes[28..36], &[0, 0, 0, 0, 0, 0, 0, 5]);
    assert_eq!(&bytes[36..56], &d.chunks[0][..]);
    assert_eq!(&bytes[76..96], &d.chunks[2][..]);
}

#[test]
fn decode_rejects_short_input() {
    assert!(matches!(decode(&[0u8; 10]), Err(CodecError::Malformed)));
}

#[test]
fn decode_rejects_ragged_body() {
    let d = generate(&[1u8; 100], 10);
    let mut bytes = encode(&d);
    bytes.pop();
    assert!(decode(&bytes).is_err());
}

#[test]
fn decode_rejects_zero_chunk_size() {
    let d = generate(&[1u8; 100], 10);
    let mut bytes = encode(&d);
    for i in 20..28 {
        bytes[i] = 0;
    }
    assert!(decode(&bytes).is_err());
}

#[test]
fn decode_rejects_count_mismatch() {
    let d = generate(&[1u8; 100], 10);
    let mut bytes = encode(&d);
    // drop one whole digest: the body stays a multiple of the digest length,
    // but the chunk count no longer matches ceil(total / chunk_size)
    bytes.truncate(bytes.len() - 20);
    assert!(decode(&bytes).is_err());
}
