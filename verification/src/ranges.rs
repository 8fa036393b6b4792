use vstd::prelude::*;

use crate::bytefmt::{append_bytes, lemma_concat_push, spec_concat};
use crate::codec::lemma_concat_of_slices;
use crate::descriptor::views_of;
use crate::errors::ByteRange;

verus! {

/// Planned start of partition `i`: `i` equal shares of `total / parts` bytes.
pub open spec fn spec_range_start(total: int, parts: int, i: int) -> int {
    i * (total / parts)
}

/// Planned end of partition `i`; the last partition absorbs the remainder.
pub open spec fn spec_range_end(total: int, parts: int, i: int) -> int {
    if i + 1 == parts {
        total
    } else {
        (i + 1) * (total / parts)
    }
}

/// Partition `[0, total)` into `parts` contiguous, non-overlapping byte
/// ranges of near-equal size, the last absorbing the remainder.
pub fn plan_ranges(total: u64, parts: usize) -> (r: Vec<ByteRange>)
    requires
        parts >= 1,
    ensures
        r@.len() == parts,
        forall|i: int|
            0 <= i < parts ==> (#[trigger] r@[i]).start == spec_range_start(
                total as int,
                parts as int,
                i,
            ) && r@[i].end == spec_range_end(total as int, parts as int, i),
{
    let share = total / (parts as u64);
    let mut r: Vec<ByteRange> = Vec::new();
    let mut i: usize = 0;
    let mut start: u64 = 0;
    proof {
        lemma_share_bounds(total as int, parts as int);
    }
    while i < parts
        invariant
            parts >= 1,
            share == total as int / parts as int,
            i <= parts,
            i < parts ==> start == i as int * share,
            start <= total,
            r@.len() == i,
            forall|j: int|
                0 <= j < i ==> (#[trigger] r@[j]).start == spec_range_start(
                    total as int,
                    parts as int,
                    j,
                ) && r@[j].end == spec_range_end(total as int, parts as int, j),
        decreases parts - i,
    {
        proof {
            assert((i as int + 1) * share == i as int * share + share) by (nonlinear_arith);
            if i as int + 1 < parts {
                assert((i as int + 1) * share <= parts as int * share) by (nonlinear_arith)
                    requires
                        share >= 0,
                        i as int + 1 <= parts as int,
                ;
                assert(parts as int * share <= total) by (nonlinear_arith)
                    requires
                        parts >= 1,
                        share == total as int / parts as int,
                        total >= 0,
                ;
            }
        }
        let end = if i + 1 == parts {
            total
        } else {
            start + share
        };
        r.push(ByteRange { start, end });
        i += 1;
        start = if i == parts {
            total
        } else {
            start + share
        };
        proof {
            if i == parts {
                assert(parts as int * share <= total) by (nonlinear_arith)
                    requires
                        parts >= 1,
                        share == total as int / parts as int,
                        total >= 0,
                ;
                assert(start == i as int * share || start == total);
            }
        }
    }
    r
}

/// The equal share is non-negative and `parts` shares fit inside `total`.
proof fn lemma_share_bounds(total: int, parts: int)
    requires
        parts >= 1,
        total >= 0,
    ensures
        total / parts >= 0,
        parts * (total / parts) <= total,
{
    assert(total / parts >= 0) by (nonlinear_arith)
        requires
            parts >= 1,
            total >= 0,
    ;
    assert(parts * (total / parts) <= total) by (nonlinear_arith)
        requires
            parts >= 1,
            total >= 0,
    ;
}

/// The planned ranges cover `[0, total)` contiguously, in order, without
/// overlap: range `0` starts at zero, each range ends where the next starts,
/// the last ends at `total`, and earlier ranges lie left of later ones.
pub proof fn lemma_plan_covers(total: int, parts: int)
    requires
        parts >= 1,
        total >= 0,
    ensures
        spec_range_start(total, parts, 0) == 0,
        spec_range_end(total, parts, parts - 1) == total,
        forall|i: int|
            0 <= i < parts - 1 ==> spec_range_end(total, parts, i) == spec_range_start(
                total,
                parts,
                i + 1,
            ),
        forall|i: int|
            0 <= i < parts ==> spec_range_start(total, parts, i) <= spec_range_end(
                total,
                parts,
                i,
            ),
        forall|i: int, j: int|
            0 <= i < j < parts ==> spec_range_end(total, parts, i) <= spec_range_start(
                total,
                parts,
                j,
            ),
{
    let q = total / parts;
    lemma_share_bounds(total, parts);
    assert forall|i: int| 0 <= i < parts implies spec_range_start(total, parts, i)
        <= spec_range_end(total, parts, i) by {
        assert(i * q <= (i + 1) * q) by (nonlinear_arith)
            requires
                q >= 0,
        ;
        assert((i + 1) * q <= parts * q) by (nonlinear_arith)
            requires
                q >= 0,
                i + 1 <= parts,
        ;
    }
    assert forall|i: int, j: int| 0 <= i < j < parts implies spec_range_end(total, parts, i)
        <= spec_range_start(total, parts, j) by {
        assert((i + 1) * q <= j * q) by (nonlinear_arith)
            requires
                q >= 0,
                i + 1 <= j,
        ;
        assert(j * q <= parts * q) by (nonlinear_arith)
            requires
                q >= 0,
                j <= parts,
        ;
    }
}

/// Join downloaded pieces in range order into one buffer.
pub fn assemble(pieces: &Vec<Vec<u8>>) -> (out: Vec<u8>)
    ensures
        out@ == spec_concat(views_of(pieces@)),
{
    let mut out: Vec<u8> = Vec::new();
    proof {
        assert(out@ =~= spec_concat(views_of(pieces@).subrange(0, 0)));
    }
    let m = pieces.len();
    let mut j: usize = 0;
    while j < m
        invariant
            m == pieces@.len(),
            j <= m,
            out@ == spec_concat(views_of(pieces@).subrange(0, j as int)),
        decreases m - j,
    {
        let ghost prev = views_of(pieces@).subrange(0, j as int);
        append_bytes(&mut out, pieces[j].as_slice());
        proof {
            lemma_concat_push(prev, pieces@[j as int]@);
            assert(views_of(pieces@).subrange(0, j as int + 1) =~= prev.push(
                pieces@[j as int]@,
            ));
        }
        j += 1;
    }
    proof {
        assert(views_of(pieces@).subrange(0, m as int) =~= views_of(pieces@));
    }
    out
}

/// The buffer after writing `piece` at byte offset `o`: everything outside
/// `[o, o + piece.len())` is untouched.
pub open spec fn spec_write_at(buf: Seq<u8>, o: int, piece: Seq<u8>) -> Seq<u8> {
    buf.take(o) + piece + buf.skip(o + piece.len())
}

/// Write one downloaded piece into its designated offset of a pre-sized
/// output buffer.
pub fn write_at(buf: &mut Vec<u8>, offset: usize, piece: &[u8])
    requires
        offset + piece@.len() <= old(buf)@.len(),
    ensures
        final(buf)@ == spec_write_at(old(buf)@, offset as int, piece@),
{
    let n = piece.len();
    let total = buf.len();
    let mut i: usize = 0;
    while i < n
        invariant
            i <= n,
            n == piece@.len(),
            offset + n <= total,
            total == buf@.len(),
            buf@.len() == old(buf)@.len(),
            buf@ == old(buf)@.take(offset as int) + piece@.subrange(0, i as int) + old(
                buf,
            )@.skip(offset + i),
        decreases n - i,
    {
        let b = *vstd::slice::slice_index_get(piece, i);
        buf[offset + i] = b;
        proof {
            assert(buf@ =~= old(buf)@.take(offset as int) + piece@.subrange(0, i + 1) + old(
                buf,
            )@.skip(offset + i + 1));
        }
        i += 1;
    }
    proof {
        assert(piece@.subrange(0, n as int) =~= piece@);
        assert(buf@ =~= spec_write_at(old(buf)@, offset as int, piece@));
    }
}

/// Partition, not contend: writes into non-overlapping offset ranges
/// commute, so the assembled buffer does not depend on the order in which
/// the partitions' results arrive.
pub proof fn lemma_disjoint_writes_commute(
    buf: Seq<u8>,
    o1: int,
    p1: Seq<u8>,
    o2: int,
    p2: Seq<u8>,
)
    requires
        0 <= o1,
        o1 + p1.len() <= o2,
        o2 + p2.len() <= buf.len(),
    ensures
        spec_write_at(spec_write_at(buf, o1, p1), o2, p2) == spec_write_at(
            spec_write_at(buf, o2, p2),
            o1,
            p1,
        ),
{
    assert(spec_write_at(spec_write_at(buf, o1, p1), o2, p2) =~= spec_write_at(
        spec_write_at(buf, o2, p2),
        o1,
        p1,
    ));
}

/// The delay before retry `attempt` of one partition request: doubling from
/// `base`, saturating at the largest representable delay.
pub open spec fn spec_backoff_ms(base: u64, attempt: nat) -> int
    decreases attempt,
{
    if attempt == 0 {
        base as int
    } else {
        let p = spec_backoff_ms(base, (attempt - 1) as nat);
        if 2 * p > u64::MAX {
            u64::MAX as int
        } else {
            2 * p
        }
    }
}

/// Compute the backoff delay for retry `attempt`, without overflow.
pub fn backoff_delay_ms(base: u64, attempt: u32) -> (d: u64)
    ensures
        d == spec_backoff_ms(base, attempt as nat),
{
    let mut d = base;
    let mut i: u32 = 0;
    while i < attempt
        invariant
            i <= attempt,
            d == spec_backoff_ms(base, i as nat),
        decreases attempt - i,
    {
        d = if d > u64::MAX / 2 {
            u64::MAX
        } else {
            2 * d
        };
        i += 1;
    }
    d
}

/// Reassembly correctness: if each piece carries exactly the bytes of the
/// source at its planned range, joining the pieces in range order yields the
/// source, byte for byte — whatever order the pieces arrived in.
pub proof fn lemma_reassembly(source: Seq<u8>, parts: int, pieces: Seq<Seq<u8>>)
    requires
        parts >= 1,
        pieces.len() == parts,
        forall|i: int|
            0 <= i < parts ==> (#[trigger] pieces[i]) == source.subrange(
                spec_range_start(source.len() as int, parts, i),
                spec_range_end(source.len() as int, parts, i),
            ),
    ensures
        spec_concat(pieces) == source,
{
    let total = source.len() as int;
    let q = total / parts;
    lemma_share_bounds(total, parts);
    let front = pieces.drop_last();
    assert forall|j: int| 0 <= j < front.len() implies (#[trigger] front[j]) == source.subrange(
        q * j,
        q * (j + 1),
    ) by {
        assert(front[j] == pieces[j]);
        assert(j * q == q * j) by (nonlinear_arith);
        assert((j + 1) * q == q * (j + 1)) by (nonlinear_arith);
    }
    assert(q * (parts - 1) <= total) by (nonlinear_arith)
        requires
            q >= 0,
            parts >= 1,
            parts * q <= total,
    ;
    lemma_concat_of_slices(source, 0, q, front);
    assert(spec_concat(pieces) == spec_concat(front) + pieces.last());
    assert(pieces.last() == source.subrange((parts - 1) * q, total));
    assert((parts - 1) * q == q * (parts - 1)) by (nonlinear_arith);
    assert(source.subrange(0, q * (parts - 1)) + source.subrange(q * (parts - 1), total)
        =~= source);
}

} // verus!
