use vstd::prelude::*;

verus! {

/// The eight bytes of `x`, most significant first.
pub open spec fn spec_u64_be(x: u64) -> Seq<u8> {
    seq![
        ((x / 0x100000000000000) % 256) as u8,
        ((x / 0x1000000000000) % 256) as u8,
        ((x / 0x10000000000) % 256) as u8,
        ((x / 0x100000000) % 256) as u8,
        ((x / 0x1000000) % 256) as u8,
        ((x / 0x10000) % 256) as u8,
        ((x / 0x100) % 256) as u8,
        (x % 256) as u8,
    ]
}

/// The unsigned value carried by big-endian bytes.
pub open spec fn spec_be_val(s: Seq<u8>) -> int
    decreases s.len(),
{
    if s.len() == 0 {
        0
    } else {
        spec_be_val(s.drop_last()) * 256 + s.last()
    }
}

/// Big-endian bytes of `x` read back as the value `x`.
pub proof fn lemma_u64_be_val(x: u64)
    ensures
        spec_be_val(spec_u64_be(x)) == x,
{
    reveal_with_fuel(spec_be_val, 9);
    let s = spec_u64_be(x);
    assert(s.drop_last() =~= seq![s[0], s[1], s[2], s[3], s[4], s[5], s[6]]);
    assert(s.drop_last().drop_last() =~= seq![s[0], s[1], s[2], s[3], s[4], s[5]]);
    assert(s.drop_last().drop_last().drop_last() =~= seq![s[0], s[1], s[2], s[3], s[4]]);
    assert(seq![s[0], s[1], s[2], s[3], s[4]].drop_last() =~= seq![s[0], s[1], s[2], s[3]]);
    assert(seq![s[0], s[1], s[2], s[3]].drop_last() =~= seq![s[0], s[1], s[2]]);
    assert(seq![s[0], s[1], s[2]].drop_last() =~= seq![s[0], s[1]]);
    assert(seq![s[0], s[1]].drop_last() =~= seq![s[0]]);
    assert(seq![s[0]].drop_last() =~= Seq::<u8>::empty());
    assert(x / 0x100 / 0x100 == x / 0x10000) by (nonlinear_arith);
    assert(x / 0x10000 / 0x100 == x / 0x1000000) by (nonlinear_arith);
    assert(x / 0x1000000 / 0x100 == x / 0x100000000) by (nonlinear_arith);
    assert(x / 0x100000000 / 0x100 == x / 0x10000000000) by (nonlinear_arith);
    assert(x / 0x10000000000 / 0x100 == x / 0x1000000000000) by (nonlinear_arith);
    assert(x / 0x1000000000000 / 0x100 == x / 0x100000000000000) by (nonlinear_arith);
}

/// A big-endian value is bounded by 256 to the number of its bytes.
pub proof fn lemma_be_val_bound(s: Seq<u8>)
    ensures
        0 <= spec_be_val(s),
        s.len() == 4 ==> spec_be_val(s) < 0x100000000,
        s.len() == 8 ==> spec_be_val(s) < 0x10000000000000000,
{
    reveal_with_fuel(spec_pow256, 9);
    lemma_be_val_pow_bound(s);
}

/// Bound on a big-endian value for any length, by induction.
proof fn lemma_be_val_pow_bound(s: Seq<u8>)
    ensures
        0 <= spec_be_val(s) < spec_pow256(s.len() as int),
    decreases s.len(),
{
    if s.len() == 0 {
    } else {
        lemma_be_val_pow_bound(s.drop_last());
        assert(spec_be_val(s.drop_last()) <= spec_pow256(s.len() - 1) - 1);
        assert((spec_pow256(s.len() - 1) - 1) * 256 + 255 < spec_pow256(s.len() as int))
            by (nonlinear_arith)
            requires
                spec_pow256(s.len() as int) == 256 * spec_pow256(s.len() - 1),
        ;
        assert(spec_be_val(s.drop_last()) * 256 <= (spec_pow256(s.len() - 1) - 1) * 256)
            by (nonlinear_arith)
            requires
                spec_be_val(s.drop_last()) <= spec_pow256(s.len() - 1) - 1,
        ;
    }
}

/// 256 raised to `n`.
pub open spec fn spec_pow256(n: int) -> int
    decreases n,
{
    if n <= 0 {
        1
    } else {
        256 * spec_pow256(n - 1)
    }
}

/// Append the eight big-endian bytes of `x` to `out`.
pub fn push_u64_be(out: &mut Vec<u8>, x: u64)
    ensures
        final(out)@ == old(out)@ + spec_u64_be(x),
{
    out.push(((x / 0x100000000000000) % 256) as u8);
    out.push(((x / 0x1000000000000) % 256) as u8);
    out.push(((x / 0x10000000000) % 256) as u8);
    out.push(((x / 0x100000000) % 256) as u8);
    out.push(((x / 0x1000000) % 256) as u8);
    out.push(((x / 0x10000) % 256) as u8);
    out.push(((x / 0x100) % 256) as u8);
    out.push((x % 256) as u8);
    assert(out@ =~= old(out)@ + spec_u64_be(x));
}

/// Read eight big-endian bytes at `offset` as a `u64`.
pub fn read_u64_be(s: &[u8], offset: usize) -> (r: u64)
    requires
        offset + 8 <= s@.len(),
    ensures
        r == spec_be_val(s@.subrange(offset as int, offset + 8)),
{
    let n = s.len();
    let b0 = *vstd::slice::slice_index_get(s, offset);
    let b1 = *vstd::slice::slice_index_get(s, offset + 1);
    let b2 = *vstd::slice::slice_index_get(s, offset + 2);
    let b3 = *vstd::slice::slice_index_get(s, offset + 3);
    let b4 = *vstd::slice::slice_index_get(s, offset + 4);
    let b5 = *vstd::slice::slice_index_get(s, offset + 5);
    let b6 = *vstd::slice::slice_index_get(s, offset + 6);
    let b7 = *vstd::slice::slice_index_get(s, offset + 7);
    let v0: u64 = b0 as u64;
    let v1: u64 = v0 * 256 + b1 as u64;
    let v2: u64 = v1 * 256 + b2 as u64;
    let v3: u64 = v2 * 256 + b3 as u64;
    let v4: u64 = v3 * 256 + b4 as u64;
    let v5: u64 = v4 * 256 + b5 as u64;
    let v6: u64 = v5 * 256 + b6 as u64;
    let v7: u64 = v6 * 256 + b7 as u64;
    proof {
        reveal_with_fuel(spec_be_val, 9);
        let sub = s@.subrange(offset as int, offset + 8);
        assert(sub.drop_last() =~= s@.subrange(offset as int, offset + 7));
        assert(s@.subrange(offset as int, offset + 7).drop_last() =~= s@.subrange(
            offset as int,
            offset + 6,
        ));
        assert(s@.subrange(offset as int, offset + 6).drop_last() =~= s@.subrange(
            offset as int,
            offset + 5,
        ));
        assert(s@.subrange(offset as int, offset + 5).drop_last() =~= s@.subrange(
            offset as int,
            offset + 4,
        ));
        assert(s@.subrange(offset as int, offset + 4).drop_last() =~= s@.subrange(
            offset as int,
            offset + 3,
        ));
        assert(s@.subrange(offset as int, offset + 3).drop_last() =~= s@.subrange(
            offset as int,
            offset + 2,
        ));
        assert(s@.subrange(offset as int, offset + 2).drop_last() =~= s@.subrange(
            offset as int,
            offset + 1,
        ));
        assert(s@.subrange(offset as int, offset + 1).drop_last() =~= Seq::<u8>::empty());
    }
    v7
}

/// The four bytes of `x`, most significant first.
pub open spec fn spec_u32_be(x: u32) -> Seq<u8> {
    seq![
        ((x / 0x1000000) % 256) as u8,
        ((x / 0x10000) % 256) as u8,
        ((x / 0x100) % 256) as u8,
        (x % 256) as u8,
    ]
}

/// Append the four big-endian bytes of `x` to `out`.
pub fn push_u32_be(out: &mut Vec<u8>, x: u32)
    ensures
        final(out)@ == old(out)@ + spec_u32_be(x),
{
    out.push(((x / 0x1000000) % 256) as u8);
    out.push(((x / 0x10000) % 256) as u8);
    out.push(((x / 0x100) % 256) as u8);
    out.push((x % 256) as u8);
    assert(out@ =~= old(out)@ + spec_u32_be(x));
}

/// Read four big-endian bytes at `offset` as a `u32`.
pub fn read_u32_be(s: &[u8], offset: usize) -> (r: u32)
    requires
        offset + 4 <= s@.len(),
    ensures
        r == spec_be_val(s@.subrange(offset as int, offset + 4)),
{
    let n = s.len();
    let b0 = *vstd::slice::slice_index_get(s, offset);
    let b1 = *vstd::slice::slice_index_get(s, offset + 1);
    let b2 = *vstd::slice::slice_index_get(s, offset + 2);
    let b3 = *vstd::slice::slice_index_get(s, offset + 3);
    let v0: u32 = b0 as u32;
    let v1: u32 = v0 * 256 + b1 as u32;
    let v2: u32 = v1 * 256 + b2 as u32;
    let v3: u32 = v2 * 256 + b3 as u32;
    proof {
        reveal_with_fuel(spec_be_val, 5);
        let sub = s@.subrange(offset as int, offset + 4);
        assert(sub.drop_last() =~= s@.subrange(offset as int, offset + 3));
        assert(s@.subrange(offset as int, offset + 3).drop_last() =~= s@.subrange(
            offset as int,
            offset + 2,
        ));
        assert(s@.subrange(offset as int, offset + 2).drop_last() =~= s@.subrange(
            offset as int,
            offset + 1,
        ));
        assert(s@.subrange(offset as int, offset + 1).drop_last() =~= Seq::<u8>::empty());
    }
    v3
}

/// Append all bytes of `src` to `dst`.
pub fn append_bytes(dst: &mut Vec<u8>, src: &[u8])
    ensures
        final(dst)@ == old(dst)@ + src@,
{
    let n = src.len();
    let mut i: usize = 0;
    while i < n
        invariant
            i <= n,
            n == src@.len(),
            dst@ == old(dst)@ + src@.subrange(0, i as int),
        decreases n - i,
    {
        let b = *vstd::slice::slice_index_get(src, i);
        dst.push(b);
        proof {
            assert(old(dst)@ + src@.subrange(0, i + 1) =~= (old(dst)@ + src@.subrange(
                0,
                i as int,
            )).push(src@[i as int]));
        }
        i += 1;
    }
    proof {
        assert(src@.subrange(0, n as int) =~= src@);
    }
}

/// Concatenation of a sequence of byte sequences, in order.
pub open spec fn spec_concat(parts: Seq<Seq<u8>>) -> Seq<u8>
    decreases parts.len(),
{
    if parts.len() == 0 {
        Seq::empty()
    } else {
        spec_concat(parts.drop_last()) + parts.last()
    }
}

/// Concatenating one more part appends its bytes.
pub proof fn lemma_concat_push(parts: Seq<Seq<u8>>, part: Seq<u8>)
    ensures
        spec_concat(parts.push(part)) == spec_concat(parts) + part,
{
    assert(parts.push(part).drop_last() =~= parts);
    assert(parts.push(part).last() == part);
}

} // verus!
