use vstd::prelude::*;

use crate::bytefmt::{append_bytes, lemma_concat_push, spec_concat};
use crate::digest::{digest, lemma_digest_len, spec_digest, DIGEST_LEN};

verus! {

/// The byte sequences carried by a sequence of byte vectors, in order.
pub open spec fn views_of(parts: Seq<Vec<u8>>) -> Seq<Seq<u8>> {
    Seq::new(parts.len(), |i: int| parts[i]@)
}

/// The number of chunks of a content object: `total` split into pieces of
/// `size` bytes, the last piece possibly shorter.
pub open spec fn spec_chunk_count(total: int, size: int) -> int {
    (total + size - 1) / size
}

/// The bytes of chunk `i` of `content` under chunk size `size`.
pub open spec fn spec_chunk(content: Seq<u8>, size: int, i: int) -> Seq<u8> {
    content.subrange(
        i * size,
        if (i + 1) * size <= content.len() {
            (i + 1) * size
        } else {
            content.len() as int
        },
    )
}

/// The ordered per-chunk digests of `content` under chunk size `size`.
pub open spec fn spec_chunk_digests(content: Seq<u8>, size: int) -> Seq<Seq<u8>> {
    Seq::new(
        spec_chunk_count(content.len() as int, size) as nat,
        |i: int| spec_digest(spec_chunk(content, size, i)),
    )
}

/// The content id: the digest of the ordered chunk digests, concatenated.
pub open spec fn spec_content_id(content: Seq<u8>, size: int) -> Seq<u8> {
    spec_digest(spec_concat(spec_chunk_digests(content, size)))
}

/// The chunk manifest of one content object: its id, the chunking geometry,
/// and one digest per chunk, in order.
#[derive(Debug)]
pub struct ContentDescriptor {
    pub content_id: Vec<u8>,
    pub chunk_size: u64,
    pub total_length: u64,
    pub chunks: Vec<Vec<u8>>,
}

impl ContentDescriptor {
    /// Well-formedness: a positive chunk size, digests of the fixed length,
    /// and a chunk count that matches the total length.
    pub open spec fn wf(self) -> bool {
        &&& self.content_id@.len() == DIGEST_LEN
        &&& self.chunk_size >= 1
        &&& self.chunks@.len() == spec_chunk_count(
            self.total_length as int,
            self.chunk_size as int,
        )
        &&& forall|i: int|
            0 <= i < self.chunks@.len() ==> (#[trigger] self.chunks@[i])@.len() == DIGEST_LEN
    }

    /// The mathematical model of a descriptor: all four fields as values.
    pub open spec fn dview(self) -> (Seq<u8>, int, int, Seq<Seq<u8>>) {
        (
            self.content_id@,
            self.chunk_size as int,
            self.total_length as int,
            views_of(self.chunks@),
        )
    }

    /// Whether this descriptor is exactly what `generate` builds from
    /// `content` under chunk size `size`.
    pub open spec fn generated_from(self, content: Seq<u8>, size: int) -> bool {
        &&& self.content_id@ == spec_content_id(content, size)
        &&& self.chunk_size == size
        &&& self.total_length == content.len()
        &&& views_of(self.chunks@) == spec_chunk_digests(content, size)
    }
}

/// Split `content` into chunks of `chunk_size` bytes (the last one possibly
/// shorter), digest each chunk, and derive the content id from the ordered
/// digests. Pure: the result is a function of the arguments alone.
pub fn generate(content: &[u8], chunk_size: usize) -> (d: ContentDescriptor)
    requires
        chunk_size >= 1,
        content@.len() + chunk_size <= usize::MAX,
    ensures
        d.wf(),
        d.generated_from(content@, chunk_size as int),
{
    let n = content.len();
    let ghost size = chunk_size as int;
    let ghost count = spec_chunk_count(n as int, size);
    let ghost all = spec_chunk_digests(content@, size);
    let mut chunks: Vec<Vec<u8>> = Vec::new();
    let mut cat: Vec<u8> = Vec::new();
    let mut i: usize = 0;
    let mut start: usize = 0;
    proof {
        assert(count >= 0) by (nonlinear_arith)
            requires
                size >= 1,
                count == (n + size - 1) / size,
                n >= 0,
        ;
        assert(cat@ =~= spec_concat(all.subrange(0, 0)));
    }
    while start < n
        invariant
            chunk_size >= 1,
            n == content@.len(),
            n + chunk_size <= usize::MAX,
            size == chunk_size as int,
            count == spec_chunk_count(n as int, size),
            all == spec_chunk_digests(content@, size),
            start == i as int * size,
            i == 0 || (i as int - 1) * size < n,
            i <= count,
            chunks@.len() == i,
            forall|j: int| 0 <= j < i ==> (#[trigger] chunks@[j])@ == all[j],
            cat@ == spec_concat(all.subrange(0, i as int)),
        decreases count - i,
    {
        let end = if n - start > chunk_size {
            start + chunk_size
        } else {
            n
        };
        proof {
            assert((i as int + 1) * size == i as int * size + size) by (nonlinear_arith);
            assert(i < count) by (nonlinear_arith)
                requires
                    size >= 1,
                    i as int * size < n,
                    count == (n + size - 1) / size,
            ;
        }
        let chunk = vstd::slice::slice_subrange(content, start, end);
        let d = digest(chunk);
        proof {
            assert(chunk@ =~= spec_chunk(content@, size, i as int));
            assert(all[i as int] == spec_digest(spec_chunk(content@, size, i as int)));
        }
        append_bytes(&mut cat, d.as_slice());
        chunks.push(d);
        proof {
            lemma_concat_push(all.subrange(0, i as int), d@);
            assert(all.subrange(0, i as int + 1) =~= all.subrange(0, i as int).push(
                all[i as int],
            ));
        }
        i += 1;
        start = start + chunk_size;
    }
    proof {
        if i == 0 {
            assert(n == 0);
            assert((size - 1) / size == 0) by (nonlinear_arith)
                requires
                    size >= 1,
            ;
        } else {
            assert(count == i) by (nonlinear_arith)
                requires
                    size >= 1,
                    i as int * size >= n,
                    (i as int - 1) * size < n,
                    count == (n + size - 1) / size,
        ;
        }
        assert(all.subrange(0, count) =~= all);
    }
    let content_id = digest(cat.as_slice());
    let d = ContentDescriptor {
        content_id,
        chunk_size: chunk_size as u64,
        total_length: n as u64,
        chunks,
    };
    proof {
        assert(views_of(d.chunks@) =~= all);
        assert forall|j: int| 0 <= j < d.chunks@.len() implies (#[trigger] d.chunks@[j])@.len()
            == DIGEST_LEN by {
            lemma_digest_len(spec_chunk(content@, size, j));
        }
    }
    d
}

/// Idempotence: two descriptors generated from the same bytes and the same
/// chunk size have the same model, byte for byte.
pub proof fn lemma_generate_deterministic(
    a: ContentDescriptor,
    b: ContentDescriptor,
    content: Seq<u8>,
    size: int,
)
    requires
        a.generated_from(content, size),
        b.generated_from(content, size),
    ensures
        a.dview() == b.dview(),
{
}

} // verus!
