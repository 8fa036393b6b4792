use vstd::prelude::*;

use crate::bytefmt::{push_u32_be, push_u64_be, spec_u32_be, spec_u64_be};

verus! {

/// Length in bytes of every chunk digest and of the content id.
pub const DIGEST_LEN: usize = 20;

/// Multiplier of the rolling hash.
pub const HASH_MULT: u64 = 0x100000001b3;

/// Seed of the first rolling-hash pass.
pub const HASH_SEED_A: u64 = 0xcbf29ce484222325;

/// Seed of the second rolling-hash pass.
pub const HASH_SEED_B: u64 = 0x9747b28c84222325;

/// One step of the rolling hash: multiply, then absorb one byte, modulo 2^64.
pub open spec fn spec_mix(h: u64, b: u8) -> u64 {
    h.wrapping_mul(HASH_MULT).wrapping_add(b as u64)
}

/// The rolling hash of `data` from `seed`, absorbing bytes left to right.
pub open spec fn spec_hash64(data: Seq<u8>, seed: u64) -> u64
    decreases data.len(),
{
    if data.len() == 0 {
        seed
    } else {
        spec_mix(spec_hash64(data.drop_last(), seed), data.last())
    }
}

/// The content-addressing digest: two independent rolling-hash passes and a
/// third word mixing both, laid out big-endian over `DIGEST_LEN` bytes.
#[verifier::opaque]
pub open spec fn spec_digest(data: Seq<u8>) -> Seq<u8> {
    let h1 = spec_hash64(data, HASH_SEED_A);
    let h2 = spec_hash64(data, HASH_SEED_B);
    spec_u64_be(h1) + spec_u64_be(h2) + spec_u32_be((h1.wrapping_add(h2) % 0x100000000) as u32)
}

/// A digest always has exactly `DIGEST_LEN` bytes.
pub proof fn lemma_digest_len(data: Seq<u8>)
    ensures
        spec_digest(data).len() == DIGEST_LEN,
{
    reveal(spec_digest);
}

/// Compute the digest of `data`.
pub fn digest(data: &[u8]) -> (r: Vec<u8>)
    ensures
        r@ == spec_digest(data@),
        r@.len() == DIGEST_LEN,
{
    let n = data.len();
    let mut h1: u64 = HASH_SEED_A;
    let mut h2: u64 = HASH_SEED_B;
    let mut i: usize = 0;
    while i < n
        invariant
            i <= n,
            n == data@.len(),
            h1 == spec_hash64(data@.subrange(0, i as int), HASH_SEED_A),
            h2 == spec_hash64(data@.subrange(0, i as int), HASH_SEED_B),
        decreases n - i,
    {
        let b = *vstd::slice::slice_index_get(data, i);
        proof {
            assert(data@.subrange(0, i + 1).drop_last() =~= data@.subrange(0, i as int));
            assert(data@.subrange(0, i + 1).last() == data@[i as int]);
        }
        h1 = h1.wrapping_mul(HASH_MULT).wrapping_add(b as u64);
        h2 = h2.wrapping_mul(HASH_MULT).wrapping_add(b as u64);
        i += 1;
    }
    proof {
        assert(data@.subrange(0, n as int) =~= data@);
    }
    let mut out: Vec<u8> = Vec::new();
    push_u64_be(&mut out, h1);
    push_u64_be(&mut out, h2);
    push_u32_be(&mut out, (h1.wrapping_add(h2) % 0x100000000) as u32);
    proof {
        reveal(spec_digest);
        assert(out@ =~= spec_digest(data@));
    }
    out
}

} // verus!
