use vstd::prelude::*;

use crate::bytefmt::{
    append_bytes, lemma_be_val_bound, lemma_concat_push, lemma_u64_be_val, push_u64_be,
    read_u64_be, spec_be_val, spec_concat, spec_u64_be,
};
use crate::descriptor::{
    spec_chunk_count, spec_chunk_digests, spec_content_id, views_of, ContentDescriptor,
};
use crate::digest::DIGEST_LEN;
use crate::errors::CodecError;

verus! {

/// Bytes of the fixed header: content id, chunk size, total length.
pub const HEADER_LEN: usize = 36;

/// The compact binary form of a descriptor: the content id, the chunk size
/// and the total length big-endian, then the chunk digests in order.
pub open spec fn spec_encode(d: ContentDescriptor) -> Seq<u8> {
    d.content_id@ + spec_u64_be(d.chunk_size) + spec_u64_be(d.total_length) + spec_concat(
        views_of(d.chunks@),
    )
}

/// A concatenation of parts of equal length `k` has length `k` times the
/// number of parts, and each part reads back as the matching slice.
pub proof fn lemma_concat_fixed(parts: Seq<Seq<u8>>, k: int)
    requires
        k >= 0,
        forall|j: int| 0 <= j < parts.len() ==> (#[trigger] parts[j]).len() == k,
    ensures
        spec_concat(parts).len() == k * parts.len(),
        forall|j: int|
            0 <= j < parts.len() ==> (#[trigger] parts[j]) == spec_concat(parts).subrange(
                k * j,
                k * (j + 1),
            ),
    decreases parts.len(),
{
    if parts.len() == 0 {
    } else {
        let m = parts.len() as int;
        let front = parts.drop_last();
        lemma_concat_fixed(front, k);
        assert(k * m == k * (m - 1) + k) by (nonlinear_arith);
        let cat = spec_concat(parts);
        assert(cat == spec_concat(front) + parts.last());
        assert forall|j: int| 0 <= j < m implies (#[trigger] parts[j]) == cat.subrange(
            k * j,
            k * (j + 1),
        ) by {
            assert(k * (j + 1) == k * j + k) by (nonlinear_arith);
            if j < m - 1 {
                assert(k * (j + 1) <= k * (m - 1)) by (nonlinear_arith)
                    requires
                        k >= 0,
                        j + 1 <= m - 1,
                ;
                assert(k * j >= 0) by (nonlinear_arith)
                    requires
                        k >= 0,
                        j >= 0,
                ;
                assert(front[j] == parts[j]);
                assert(parts[j] == spec_concat(front).subrange(k * j, k * (j + 1)));
                assert(cat.subrange(k * j, k * (j + 1)) =~= spec_concat(front).subrange(
                    k * j,
                    k * (j + 1),
                ));
            } else {
                assert(parts[j] == parts.last());
                assert(cat.subrange(k * (m - 1), k * m) =~= parts.last());
            }
        }
    }
}

/// Joining the equal-length slices of a region in order gives back the region.
pub proof fn lemma_concat_of_slices(s: Seq<u8>, base: int, k: int, parts: Seq<Seq<u8>>)
    requires
        k >= 0,
        0 <= base,
        base + k * parts.len() <= s.len(),
        forall|j: int|
            0 <= j < parts.len() ==> (#[trigger] parts[j]) == s.subrange(
                base + k * j,
                base + k * (j + 1),
            ),
    ensures
        spec_concat(parts) == s.subrange(base, base + k * parts.len()),
    decreases parts.len(),
{
    let m = parts.len() as int;
    if m == 0 {
        assert(spec_concat(parts) =~= s.subrange(base, base));
    } else {
        let front = parts.drop_last();
        assert(k * m == k * (m - 1) + k) by (nonlinear_arith);
        assert(k * (m - 1) >= 0) by (nonlinear_arith)
            requires
                k >= 0,
                m - 1 >= 0,
        ;
        lemma_concat_of_slices(s, base, k, front);
        assert(parts.last() == s.subrange(base + k * (m - 1), base + k * m));
        assert(spec_concat(parts) == spec_concat(front) + parts.last());
        assert(s.subrange(base, base + k * (m - 1)) + s.subrange(base + k * (m - 1), base + k * m)
            =~= s.subrange(base, base + k * m));
    }
}

/// The length of an encoding, from the header and the chunk count.
pub proof fn lemma_encode_len(d: ContentDescriptor)
    requires
        forall|i: int| 0 <= i < d.chunks@.len() ==> (#[trigger] d.chunks@[i])@.len() == DIGEST_LEN,
        d.content_id@.len() == DIGEST_LEN,
    ensures
        spec_encode(d).len() == HEADER_LEN + DIGEST_LEN * d.chunks@.len(),
{
    lemma_concat_fixed(views_of(d.chunks@), DIGEST_LEN as int);
}

/// Eight big-endian bytes are recovered from the value they carry.
pub proof fn lemma_be_bytes_of_val(s: Seq<u8>)
    requires
        s.len() == 8,
    ensures
        0 <= spec_be_val(s) < 0x10000000000000000,
        spec_u64_be(spec_be_val(s) as u64) == s,
{
    reveal_with_fuel(spec_be_val, 2);
    lemma_be_val_bound(s);
    let t7 = s.drop_last();
    let t6 = t7.drop_last();
    let t5 = t6.drop_last();
    let t4 = t5.drop_last();
    let t3 = t4.drop_last();
    let t2 = t3.drop_last();
    let t1 = t2.drop_last();
    let v = spec_be_val(s);
    let v7 = spec_be_val(t7);
    let v6 = spec_be_val(t6);
    let v5 = spec_be_val(t5);
    let v4 = spec_be_val(t4);
    let v3 = spec_be_val(t3);
    let v2 = spec_be_val(t2);
    let v1 = spec_be_val(t1);
    lemma_be_val_bound(t7);
    lemma_be_val_bound(t6);
    lemma_be_val_bound(t5);
    lemma_be_val_bound(t4);
    lemma_be_val_bound(t3);
    lemma_be_val_bound(t2);
    lemma_be_val_bound(t1);
    assert(t1.drop_last() =~= Seq::<u8>::empty());
    assert(v1 == s[0]);
    assert(v == v7 * 256 + s[7] && v / 256 == v7 && v % 256 == s[7]);
    assert(v7 == v6 * 256 + s[6] && v7 / 256 == v6 && v7 % 256 == s[6]);
    assert(v6 == v5 * 256 + s[5] && v6 / 256 == v5 && v6 % 256 == s[5]);
    assert(v5 == v4 * 256 + s[4] && v5 / 256 == v4 && v5 % 256 == s[4]);
    assert(v4 == v3 * 256 + s[3] && v4 / 256 == v3 && v4 % 256 == s[3]);
    assert(v3 == v2 * 256 + s[2] && v3 / 256 == v2 && v3 % 256 == s[2]);
    assert(v2 == v1 * 256 + s[1] && v2 / 256 == v1 && v2 % 256 == s[1]);
    let u = spec_be_val(s) as u64;
    assert(u == v);
    assert(u / 0x100 == v7 && u / 0x100 / 0x100 == u / 0x10000) by (nonlinear_arith)
        requires
            u == v,
            v == v7 * 256 + s[7],
            0 <= s[7] < 256,
            v7 >= 0,
    ;
    assert(u / 0x10000 / 0x100 == u / 0x1000000) by (nonlinear_arith);
    assert(u / 0x1000000 / 0x100 == u / 0x100000000) by (nonlinear_arith);
    assert(u / 0x100000000 / 0x100 == u / 0x10000000000) by (nonlinear_arith);
    assert(u / 0x10000000000 / 0x100 == u / 0x1000000000000) by (nonlinear_arith);
    assert(u / 0x1000000000000 / 0x100 == u / 0x100000000000000) by (nonlinear_arith);
    assert(u / 0x10000 == v6);
    assert(u / 0x1000000 == v5);
    assert(u / 0x100000000 == v4);
    assert(u / 0x10000000000 == v3);
    assert(u / 0x1000000000000 == v2);
    assert(u / 0x100000000000000 == v1);
    assert(v1 < 256);
    assert(spec_u64_be(u) =~= s);
}

/// What an encoding of a well-formed descriptor looks like, field by field.
pub proof fn lemma_encode_parts(d: ContentDescriptor)
    requires
        d.wf(),
    ensures
        spec_encode(d).len() == HEADER_LEN + DIGEST_LEN * d.chunks@.len(),
        spec_encode(d).subrange(0, DIGEST_LEN as int) == d.content_id@,
        spec_encode(d).subrange(DIGEST_LEN as int, DIGEST_LEN + 8) == spec_u64_be(d.chunk_size),
        spec_encode(d).subrange(DIGEST_LEN + 8, HEADER_LEN as int) == spec_u64_be(d.total_length),
        spec_encode(d).subrange(HEADER_LEN as int, spec_encode(d).len() as int) == spec_concat(
            views_of(d.chunks@),
        ),
{
    lemma_encode_len(d);
    lemma_concat_fixed(views_of(d.chunks@), DIGEST_LEN as int);
    let e = spec_encode(d);
    assert(e.subrange(0, DIGEST_LEN as int) =~= d.content_id@);
    assert(e.subrange(DIGEST_LEN as int, DIGEST_LEN + 8) =~= spec_u64_be(d.chunk_size));
    assert(e.subrange(DIGEST_LEN + 8, HEADER_LEN as int) =~= spec_u64_be(d.total_length));
    assert(e.subrange(HEADER_LEN as int, e.len() as int) =~= spec_concat(views_of(d.chunks@)));
}

/// Serialize a descriptor into its compact binary form.
pub fn encode(d: &ContentDescriptor) -> (r: Vec<u8>)
    requires
        d.wf(),
    ensures
        r@ == spec_encode(*d),
{
    let mut out: Vec<u8> = Vec::new();
    append_bytes(&mut out, d.content_id.as_slice());
    push_u64_be(&mut out, d.chunk_size);
    push_u64_be(&mut out, d.total_length);
    let ghost head = d.content_id@ + spec_u64_be(d.chunk_size) + spec_u64_be(d.total_length);
    proof {
        assert(out@ =~= head + spec_concat(views_of(d.chunks@).subrange(0, 0)));
    }
    let m = d.chunks.len();
    let mut j: usize = 0;
    while j < m
        invariant
            m == d.chunks@.len(),
            j <= m,
            head == d.content_id@ + spec_u64_be(d.chunk_size) + spec_u64_be(d.total_length),
            out@ == head + spec_concat(views_of(d.chunks@).subrange(0, j as int)),
        decreases m - j,
    {
        let ghost prev = views_of(d.chunks@).subrange(0, j as int);
        append_bytes(&mut out, d.chunks[j].as_slice());
        proof {
            lemma_concat_push(prev, d.chunks@[j as int]@);
            assert(views_of(d.chunks@).subrange(0, j as int + 1) =~= prev.push(
                d.chunks@[j as int]@,
            ));
            assert(out@ =~= head + spec_concat(views_of(d.chunks@).subrange(0, j as int + 1)));
        }
        j += 1;
    }
    proof {
        assert(views_of(d.chunks@).subrange(0, m as int) =~= views_of(d.chunks@));
        assert(out@ =~= spec_encode(*d));
    }
    out
}

/// Ceiling division of `total` by `size`, computed without overflow.
fn chunk_count_u64(total: u64, size: u64) -> (c: u64)
    requires
        size >= 1,
    ensures
        c == spec_chunk_count(total as int, size as int),
{
    let q = total / size;
    let r = total % size;
    proof {
        assert((total + size - 1) / (size as int) == q + if r != 0 {
            1int
        } else {
            0int
        }) by (nonlinear_arith)
            requires
                size >= 1,
                q == total as int / size as int,
                r == total as int % size as int,
        ;
        if r != 0 {
            assert(q < total) by (nonlinear_arith)
                requires
                    size >= 1,
                    q == total as int / size as int,
                    r == total as int % size as int,
                    r != 0,
            ;
        }
    }
    if r != 0 {
        q + 1
    } else {
        q
    }
}

/// Deserialize a descriptor, validating the structure completely: the result
/// is `Ok` exactly when the bytes are the encoding of a well-formed
/// descriptor, and then returns that descriptor.
pub fn decode(bytes: &[u8]) -> (r: Result<ContentDescriptor, CodecError>)
    ensures
        match r {
            Ok(d) => d.wf() && spec_encode(d) == bytes@,
            Err(e) => e == CodecError::Malformed && forall|d: ContentDescriptor|
                d.wf() ==> spec_encode(d) != bytes@,
        },
{
    let n = bytes.len();
    if n < HEADER_LEN {
        proof {
            assert forall|d: ContentDescriptor| d.wf() implies spec_encode(d) != bytes@ by {
                lemma_encode_len(d);
                assert(DIGEST_LEN * d.chunks@.len() >= 0) by (nonlinear_arith)
                    requires
                        d.chunks@.len() >= 0,
                ;
            }
        }
        return Err(CodecError::Malformed);
    }
    let body = n - HEADER_LEN;
    let count = body / DIGEST_LEN;
    let rem = body % DIGEST_LEN;
    if rem != 0 {
        proof {
            assert forall|d: ContentDescriptor| d.wf() implies spec_encode(d) != bytes@ by {
                lemma_encode_len(d);
                if spec_encode(d) == bytes@ {
                    let c = d.chunks@.len() as int;
                    assert((DIGEST_LEN * c) % (DIGEST_LEN as int) == 0) by (nonlinear_arith);
                }
            }
        }
        return Err(CodecError::Malformed);
    }
    let chunk_size = read_u64_be(bytes, DIGEST_LEN);
    let total_length = read_u64_be(bytes, DIGEST_LEN + 8);
    proof {
        lemma_be_bytes_of_val(bytes@.subrange(DIGEST_LEN as int, DIGEST_LEN + 8));
        lemma_be_bytes_of_val(bytes@.subrange(DIGEST_LEN + 8, HEADER_LEN as int));
    }
    if chunk_size == 0 {
        proof {
            assert forall|d: ContentDescriptor| d.wf() implies spec_encode(d) != bytes@ by {
                if spec_encode(d) == bytes@ {
                    lemma_encode_parts(d);
                    lemma_u64_be_val(d.chunk_size);
                }
            }
        }
        return Err(CodecError::Malformed);
    }
    let expected = chunk_count_u64(total_length, chunk_size);
    if count as u64 != expected {
        proof {
            assert forall|d: ContentDescriptor| d.wf() implies spec_encode(d) != bytes@ by {
                if spec_encode(d) == bytes@ {
                    lemma_encode_parts(d);
                    lemma_u64_be_val(d.chunk_size);
                    lemma_u64_be_val(d.total_length);
                    assert(DIGEST_LEN * d.chunks@.len() == body);
                    assert(d.chunks@.len() == count) by (nonlinear_arith)
                        requires
                            DIGEST_LEN * d.chunks@.len() == body,
                            count == body as int / (DIGEST_LEN as int),
                            body as int % (DIGEST_LEN as int) == 0,
                    ;
                }
            }
        }
        return Err(CodecError::Malformed);
    }
    let content_id = vstd::slice::slice_to_vec(vstd::slice::slice_subrange(bytes, 0, DIGEST_LEN));
    let mut chunks: Vec<Vec<u8>> = Vec::new();
    let mut j: usize = 0;
    let mut off: usize = HEADER_LEN;
    proof {
        assert(DIGEST_LEN * count == body) by (nonlinear_arith)
            requires
                count == body as int / (DIGEST_LEN as int),
                body as int % (DIGEST_LEN as int) == 0,
                body >= 0,
        ;
    }
    while j < count
        invariant
            n == bytes@.len(),
            n >= HEADER_LEN,
            body == n - HEADER_LEN,
            DIGEST_LEN * count == body,
            count <= body,
            j <= count,
            off == HEADER_LEN + DIGEST_LEN * j,
            off <= n,
            chunks@.len() == j,
            forall|t: int|
                0 <= t < j ==> (#[trigger] chunks@[t])@ == bytes@.subrange(
                    HEADER_LEN + DIGEST_LEN * t,
                    HEADER_LEN + DIGEST_LEN * (t + 1),
                ),
        decreases count - j,
    {
        proof {
            assert(DIGEST_LEN * (j + 1) == DIGEST_LEN * j + DIGEST_LEN) by (nonlinear_arith);
            assert(DIGEST_LEN * (j + 1) <= DIGEST_LEN * count) by (nonlinear_arith)
                requires
                    j + 1 <= count,
        ;
        }
        let chunk = vstd::slice::slice_to_vec(
            vstd::slice::slice_subrange(bytes, off, off + DIGEST_LEN),
        );
        chunks.push(chunk);
        j += 1;
        off = off + DIGEST_LEN;
    }
    let d = ContentDescriptor { content_id, chunk_size, total_length, chunks };
    proof {
        assert(d.chunks@.len() == count);
        assert(d.wf());
        lemma_concat_of_slices(
            bytes@,
            HEADER_LEN as int,
            DIGEST_LEN as int,
            views_of(d.chunks@),
        );
        assert(spec_encode(d) =~= bytes@);
    }
    Ok(d)
}

/// The encoding of whatever `generate` builds from `content` under chunk
/// size `size`: determined by the content and the chunk size alone.
pub open spec fn spec_generated_encoding(content: Seq<u8>, size: int) -> Seq<u8> {
    spec_content_id(content, size) + spec_u64_be(size as u64) + spec_u64_be(
        content.len() as u64,
    ) + spec_concat(spec_chunk_digests(content, size))
}

/// A generated descriptor encodes to the generated encoding.
pub proof fn lemma_encode_generated(d: ContentDescriptor, content: Seq<u8>, size: int)
    requires
        d.generated_from(content, size),
    ensures
        spec_encode(d) == spec_generated_encoding(content, size),
{
}

/// Round trip: encodings of well-formed descriptors are injective, so
/// decoding an encoding gives back a descriptor with the same model.
pub proof fn lemma_encode_injective(a: ContentDescriptor, b: ContentDescriptor)
    requires
        a.wf(),
        b.wf(),
        spec_encode(a) == spec_encode(b),
    ensures
        a.dview() == b.dview(),
{
    lemma_encode_parts(a);
    lemma_encode_parts(b);
    lemma_u64_be_val(a.chunk_size);
    lemma_u64_be_val(b.chunk_size);
    lemma_u64_be_val(a.total_length);
    lemma_u64_be_val(b.total_length);
    assert(a.chunks@.len() == b.chunks@.len()) by (nonlinear_arith)
        requires
            HEADER_LEN + DIGEST_LEN * a.chunks@.len() == HEADER_LEN + DIGEST_LEN
                * b.chunks@.len(),
    ;
    lemma_concat_fixed(views_of(a.chunks@), DIGEST_LEN as int);
    lemma_concat_fixed(views_of(b.chunks@), DIGEST_LEN as int);
    let ca = spec_concat(views_of(a.chunks@));
    let cb = spec_concat(views_of(b.chunks@));
    assert(ca == cb);
    assert(views_of(a.chunks@) =~= views_of(b.chunks@));
    assert(a.dview() == b.dview());
}

} // verus!
