use vstd::prelude::*;

use vstd::string::StringExecFns;

use crate::bytefmt::{read_u32_be, spec_be_val};
use crate::cache::{CacheEntry, CacheStore};
use crate::codec::{decode, lemma_encode_len, spec_encode};
use crate::descriptor::ContentDescriptor;
use crate::digest::DIGEST_LEN;
use crate::errors::TrackerError;
use crate::orchestrator::spec_clamp_created;

verus! {

/// Hard cap on one pushed payload, to bound memory use.
pub const TRACKER_MAX_PAYLOAD: usize = 64 * 1024 * 1024;

/// The character of one hex nibble, lower case.
pub open spec fn spec_hex_digit(n: int) -> char {
    if n == 0 {
        '0'
    } else if n == 1 {
        '1'
    } else if n == 2 {
        '2'
    } else if n == 3 {
        '3'
    } else if n == 4 {
        '4'
    } else if n == 5 {
        '5'
    } else if n == 6 {
        '6'
    } else if n == 7 {
        '7'
    } else if n == 8 {
        '8'
    } else if n == 9 {
        '9'
    } else if n == 10 {
        'a'
    } else if n == 11 {
        'b'
    } else if n == 12 {
        'c'
    } else if n == 13 {
        'd'
    } else if n == 14 {
        'e'
    } else {
        'f'
    }
}

/// The lower-case hex spelling of a byte string, two characters per byte.
pub open spec fn spec_hex(b: Seq<u8>) -> Seq<char>
    decreases b.len(),
{
    if b.len() == 0 {
        Seq::empty()
    } else {
        spec_hex(b.drop_last()) + seq![
            spec_hex_digit(b.last() as int / 16),
            spec_hex_digit(b.last() as int % 16),
        ]
    }
}

/// The one-character string of one hex nibble.
fn hex_digit_str(n: u8) -> (r: &'static str)
    requires
        n < 16,
    ensures
        r@ == seq![spec_hex_digit(n as int)],
{
    proof {
        reveal_strlit("0");
        reveal_strlit("1");
        reveal_strlit("2");
        reveal_strlit("3");
        reveal_strlit("4");
        reveal_strlit("5");
        reveal_strlit("6");
        reveal_strlit("7");
        reveal_strlit("8");
        reveal_strlit("9");
        reveal_strlit("a");
        reveal_strlit("b");
        reveal_strlit("c");
        reveal_strlit("d");
        reveal_strlit("e");
        reveal_strlit("f");
    }
    if n == 0 {
        "0"
    } else if n == 1 {
        "1"
    } else if n == 2 {
        "2"
    } else if n == 3 {
        "3"
    } else if n == 4 {
        "4"
    } else if n == 5 {
        "5"
    } else if n == 6 {
        "6"
    } else if n == 7 {
        "7"
    } else if n == 8 {
        "8"
    } else if n == 9 {
        "9"
    } else if n == 10 {
        "a"
    } else if n == 11 {
        "b"
    } else if n == 12 {
        "c"
    } else if n == 13 {
        "d"
    } else if n == 14 {
        "e"
    } else {
        "f"
    }
}

/// Spell a byte string in lower-case hex.
pub fn hex_of(b: &[u8]) -> (s: String)
    ensures
        s@ == spec_hex(b@),
{
    let mut s = String::new();
    let n = b.len();
    let mut i: usize = 0;
    proof {
        assert(b@.subrange(0, 0) =~= Seq::<u8>::empty());
    }
    while i < n
        invariant
            i <= n,
            n == b@.len(),
            s@ == spec_hex(b@.subrange(0, i as int)),
        decreases n - i,
    {
        let x = *vstd::slice::slice_index_get(b, i);
        s.append(hex_digit_str(x / 16));
        s.append(hex_digit_str(x % 16));
        proof {
            assert(b@.subrange(0, i + 1).drop_last() =~= b@.subrange(0, i as int));
            assert(b@.subrange(0, i + 1).last() == b@[i as int]);
        }
        i += 1;
    }
    proof {
        assert(b@.subrange(0, n as int) =~= b@);
    }
    s
}

/// The cache key a pushed descriptor is stored under: its content id in hex.
pub open spec fn spec_push_key(payload: Seq<u8>) -> Seq<char> {
    spec_hex(payload.subrange(4, 4 + DIGEST_LEN))
}

/// Merge one pushed payload into the cache. The payload must stay under the
/// size cap and carry a four-byte big-endian length prefix followed by
/// exactly that many descriptor bytes, which must decode; anything else is
/// rejected without touching the store. An accepted descriptor is upserted
/// whole under its content id spelled in hex, stamped at `now` with a
/// `ttl`-second validity window. Last write wins.
pub fn process_push(cache: &mut CacheStore, payload: &[u8], now: i64, ttl: i64) -> (r: Result<
    (),
    TrackerError,
>)
    requires
        old(cache).wf(),
        ttl >= 1,
    ensures
        final(cache).wf(),
        ({
            let p = payload@;
            let created = spec_clamp_created(now, ttl);
            if p.len() > TRACKER_MAX_PAYLOAD {
                &&& r == Err::<(), TrackerError>(TrackerError::PayloadTooLarge)
                &&& *final(cache) == *old(cache)
            } else if p.len() >= 4 && spec_be_val(p.subrange(0, 4)) == p.len() - 4 && (
            exists|d: ContentDescriptor| d.wf() && spec_encode(d) == p.skip(4)) {
                &&& r is Ok
                &&& exists|v: Vec<u8>|
                    v@ == p.skip(4) && final(cache).contents() == old(cache).contents().insert(
                        spec_push_key(p),
                        (CacheEntry {
                            descriptor: v,
                            created_at: created as i64,
                            expires_at: (created + ttl) as i64,
                        }),
                    )
            } else {
                &&& r == Err::<(), TrackerError>(TrackerError::Malformed)
                &&& *final(cache) == *old(cache)
            }
        }),
{
    let n = payload.len();
    if n > TRACKER_MAX_PAYLOAD {
        return Err(TrackerError::PayloadTooLarge);
    }
    if n < 4 {
        return Err(TrackerError::Malformed);
    }
    let declared = read_u32_be(payload, 0);
    proof {
        crate::bytefmt::lemma_be_val_bound(payload@.subrange(0, 4));
    }
    if declared as usize != n - 4 {
        return Err(TrackerError::Malformed);
    }
    let body = vstd::slice::slice_subrange(payload, 4, n);
    proof {
        assert(body@ =~= payload@.skip(4));
    }
    match decode(body) {
        Ok(d) => {
            proof {
                lemma_encode_len(d);
                assert(crate::descriptor::spec_chunk_count(
                    d.total_length as int,
                    d.chunk_size as int,
                ) >= 0) by (nonlinear_arith)
                    requires
                        d.chunk_size >= 1,
                        d.total_length >= 0,
                ;
                assert(body@.len() >= 36);
                assert(body@.subrange(0, DIGEST_LEN as int) =~= payload@.subrange(
                    4,
                    4 + DIGEST_LEN,
                ));
            }
            let key = hex_of(vstd::slice::slice_subrange(body, 0, DIGEST_LEN));
            let stored = vstd::slice::slice_to_vec(body);
            let created = if now > i64::MAX - ttl {
                i64::MAX - ttl
            } else {
                now
            };
            let expires = created + ttl;
            let _ = cache.upsert(key, stored, created, expires);
            Ok(())
        },
        Err(_) => Err(TrackerError::Malformed),
    }
}

} // verus!
