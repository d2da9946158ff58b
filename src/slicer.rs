//! Cutting a read buffer into fixed-size chunks.
//!
//! The reader fills a buffer with one read; the processor cuts the filled
//! prefix into chunks of `CHUNK_SIZE` bytes, the last one possibly shorter.

use vstd::prelude::*;

verus! {

/// Bytes in a read buffer (64 MiB).
pub const BUFFER_SIZE: usize = 67108864;

/// Bytes in a chunk (128 KiB); the last chunk of a buffer may be shorter.
pub const CHUNK_SIZE: usize = 131072;

/// The chunks of `s`: pieces of `CHUNK_SIZE` bytes in order, the last one
/// holding what is left; none for an empty `s`.
pub open spec fn chunks_of(s: Seq<u8>) -> Seq<Seq<u8>>
    decreases s.len(),
{
    if s.len() == 0 {
        seq![]
    } else if s.len() <= CHUNK_SIZE {
        seq![s]
    } else {
        seq![s.subrange(0, CHUNK_SIZE as int)] + chunks_of(s.subrange(CHUNK_SIZE as int, s.len() as int))
    }
}

/// The byte strings of `ss` joined in order.
pub open spec fn concat_all(ss: Seq<Seq<u8>>) -> Seq<u8>
    decreases ss.len(),
{
    if ss.len() == 0 {
        seq![]
    } else {
        ss[0] + concat_all(ss.drop_first())
    }
}

/// The bounds `[start, end)` of the chunks of the range `start..n`.
pub open spec fn chunk_bounds(start: usize, n: usize) -> Seq<(usize, usize)>
    decreases n - start,
{
    if start >= n {
        seq![]
    } else if n - start <= CHUNK_SIZE {
        seq![(start, n)]
    } else {
        seq![(start, (start + CHUNK_SIZE) as usize)] + chunk_bounds((start + CHUNK_SIZE) as usize, n)
    }
}

/// The pieces of `buf` that `bounds` delimit.
pub open spec fn pieces(buf: Seq<u8>, bounds: Seq<(usize, usize)>) -> Seq<Seq<u8>> {
    bounds.map_values(|b: (usize, usize)| buf.subrange(b.0 as int, b.1 as int))
}

proof fn lemma_bounds_are_chunks(buf: Seq<u8>, start: usize, n: usize)
    requires
        start <= n <= buf.len(),
    ensures
        pieces(buf, chunk_bounds(start, n)) == chunks_of(buf.subrange(start as int, n as int)),
    decreases n - start,
{
    let s = buf.subrange(start as int, n as int);
    if start >= n {
        assert(pieces(buf, chunk_bounds(start, n)) =~= chunks_of(s));
    } else if n - start <= CHUNK_SIZE {
        assert(pieces(buf, chunk_bounds(start, n)) =~= chunks_of(s));
    } else {
        let mid = (start + CHUNK_SIZE) as usize;
        lemma_bounds_are_chunks(buf, mid, n);
        assert(s.subrange(0, CHUNK_SIZE as int) =~= buf.subrange(start as int, mid as int));
        assert(s.subrange(CHUNK_SIZE as int, s.len() as int) =~= buf.subrange(mid as int, n as int));
        assert(pieces(buf, chunk_bounds(start, n)) =~= seq![buf.subrange(start as int, mid as int)]
            + pieces(buf, chunk_bounds(mid, n)));
    }
}

/// The bounds of the chunks of the first `n` bytes of a buffer: consecutive
/// ranges of `CHUNK_SIZE` bytes from 0, the last one ending at `n`.
pub fn chunk_ranges(n: usize) -> (r: Vec<(usize, usize)>)
    ensures
        r@ == chunk_bounds(0, n),
        forall|buf: Seq<u8>| n <= buf.len() ==> #[trigger] pieces(buf, r@) == chunks_of(buf.subrange(0, n as int)),
{
    let mut out: Vec<(usize, usize)> = Vec::new();
    let mut start: usize = 0;
    while start < n
        invariant
            start <= n,
            chunk_bounds(0, n) == out@ + chunk_bounds(start, n),
        decreases n - start,
    {
        if n - start <= CHUNK_SIZE {
            out.push((start, n));
            assert(chunk_bounds(0, n) =~= out@ + chunk_bounds(n, n));
            start = n;
        } else {
            out.push((start, start + CHUNK_SIZE));
            assert(chunk_bounds(0, n) =~= out@ + chunk_bounds((start + CHUNK_SIZE) as usize, n));
            start = start + CHUNK_SIZE;
        }
    }
    assert(out@ =~= chunk_bounds(0, n));
    assert forall|buf: Seq<u8>| n <= buf.len() implies #[trigger] pieces(buf, out@) == chunks_of(
        buf.subrange(0, n as int),
    ) by {
        lemma_bounds_are_chunks(buf, 0, n);
    }
    out
}

pub(crate) proof fn lemma_concat_single(x: Seq<u8>)
    ensures
        concat_all(seq![x]) == x,
{
    assert(seq![x].drop_first() =~= Seq::<Seq<u8>>::empty());
    assert(concat_all(seq![x].drop_first()) == Seq::<u8>::empty());
    assert(x + Seq::<u8>::empty() =~= x);
}

/// Joining two runs of pieces joins what they hold.
pub proof fn lemma_concat_all_append(a: Seq<Seq<u8>>, b: Seq<Seq<u8>>)
    ensures
        concat_all(a + b) == concat_all(a) + concat_all(b),
    decreases a.len(),
{
    if a.len() == 0 {
        assert(a + b =~= b);
    } else {
        assert((a + b).drop_first() =~= a.drop_first() + b);
        lemma_concat_all_append(a.drop_first(), b);
        assert(concat_all(a + b) =~= concat_all(a) + concat_all(b));
    }
}

/// The chunks of a byte string join back to it: no byte is lost or repeated.
pub proof fn lemma_chunks_rejoin(s: Seq<u8>)
    ensures
        concat_all(chunks_of(s)) == s,
    decreases s.len(),
{
    if s.len() == 0 {
    } else if s.len() <= CHUNK_SIZE {
        lemma_concat_single(s);
    } else {
        let head = s.subrange(0, CHUNK_SIZE as int);
        let tail = s.subrange(CHUNK_SIZE as int, s.len() as int);
        lemma_chunks_rejoin(tail);
        lemma_concat_all_append(seq![head], chunks_of(tail));
        lemma_concat_single(head);
        assert(head + tail =~= s);
    }
}

/// Every chunk holds at least one byte and at most `CHUNK_SIZE`; every chunk
/// but the last holds exactly `CHUNK_SIZE`. An empty input has no chunk.
pub proof fn lemma_chunk_sizes(s: Seq<u8>)
    ensures
        s.len() == 0 <==> chunks_of(s).len() == 0,
        forall|k: int| 0 <= k < chunks_of(s).len() ==> 0 < #[trigger] chunks_of(s)[k].len() <= CHUNK_SIZE,
        forall|k: int| 0 <= k < chunks_of(s).len() - 1 ==> #[trigger] chunks_of(s)[k].len() == CHUNK_SIZE,
    decreases s.len(),
{
    if s.len() > CHUNK_SIZE {
        let tail = s.subrange(CHUNK_SIZE as int, s.len() as int);
        lemma_chunk_sizes(tail);
        let c = chunks_of(s);
        assert forall|k: int| 0 < k < c.len() implies #[trigger] c[k] == chunks_of(tail)[k - 1] by {}
    }
}

/// An input whose length is a positive multiple of `CHUNK_SIZE` is cut into
/// exactly `len / CHUNK_SIZE` chunks, all full, the last one included: it never
/// ends in an empty or short chunk.
pub proof fn lemma_exact_multiple_ends_full(s: Seq<u8>)
    requires
        s.len() > 0,
        s.len() % (CHUNK_SIZE as nat) == 0,
    ensures
        chunks_of(s).len() > 0,
        chunks_of(s).len() == s.len() / (CHUNK_SIZE as nat),
        chunks_of(s).last().len() == CHUNK_SIZE,
        forall|k: int| 0 <= k < chunks_of(s).len() ==> #[trigger] chunks_of(s)[k].len() == CHUNK_SIZE,
    decreases s.len(),
{
    if s.len() > CHUNK_SIZE {
        let tail = s.subrange(CHUNK_SIZE as int, s.len() as int);
        assert(tail.len() % (CHUNK_SIZE as nat) == 0);
        lemma_exact_multiple_ends_full(tail);
        assert(tail.len() / (CHUNK_SIZE as nat) + 1 == s.len() / (CHUNK_SIZE as nat));
        let c = chunks_of(s);
        assert(c.last() == chunks_of(tail).last());
        assert forall|k: int| 0 <= k < c.len() implies #[trigger] c[k].len() == CHUNK_SIZE by {
            if k > 0 {
                assert(c[k] == chunks_of(tail)[k - 1]);
            }
        }
    } else {
        assert(s.len() == CHUNK_SIZE);
    }
}

/// Chunking two buffers one after the other yields a chunk sequence that
/// joins to the two buffers' bytes in order: contiguous across the boundary,
/// with no byte skipped or repeated.
pub proof fn lemma_buffers_chunk_contiguously(a: Seq<u8>, b: Seq<u8>)
    ensures
        concat_all(chunks_of(a) + chunks_of(b)) == a + b,
{
    lemma_concat_all_append(chunks_of(a), chunks_of(b));
    lemma_chunks_rejoin(a);
    lemma_chunks_rejoin(b);
}

} // verus!
