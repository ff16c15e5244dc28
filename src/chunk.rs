use vstd::prelude::*;

verus! {

/// A contiguous group of input lines, numbered from 1 in input order.
#[derive(Debug)]
pub struct Chunk {
    pub number: i32,
    pub lines: Vec<String>,
}

/// The number of chunks of `size` lines that `n` lines make: the last may be shorter.
pub open spec fn chunk_count(n: nat, size: nat) -> nat
    recommends
        size > 0,
{
    if n == 0 {
        0
    } else {
        ((n - 1) as nat / size + 1) as nat
    }
}

/// The lines of the chunk at position `k` (numbered `k + 1`).
pub open spec fn chunk_at(lines: Seq<String>, size: nat, k: int) -> Seq<String> {
    let start = k * size;
    let end = if (k + 1) * size < lines.len() {
        (k + 1) * size
    } else {
        lines.len() as int
    };
    lines.subrange(start, end)
}

/// The lines of each chunk, in chunk order.
pub open spec fn chunk_lines_of(chunks: Seq<Chunk>) -> Seq<Seq<String>> {
    chunks.map_values(|c: Chunk| c.lines@)
}

/// `chunks` is the split of `lines` into chunks of `size` lines, numbered from 1.
pub open spec fn is_chunking(chunks: Seq<Chunk>, lines: Seq<String>, size: nat) -> bool {
    &&& chunks.len() == chunk_count(lines.len(), size)
    &&& forall|k: int|
        0 <= k < chunks.len() ==> {
            &&& (#[trigger] chunks[k]).number == k + 1
            &&& chunks[k].lines@ == chunk_at(lines, size, k)
        }
}

proof fn lemma_count_from_bounds(n: nat, size: nat, c: nat)
    requires
        size > 0,
        c >= 1,
        (c - 1) * size < n,
        n <= c * size,
    ensures
        c == chunk_count(n, size),
{
    assert((n - 1) as nat / size == c - 1) by (nonlinear_arith)
        requires
            size > 0,
            c >= 1,
            (c - 1) * size < n,
            n <= c * size,
    {
        let q = (n - 1) as nat / size;
        let r = (n - 1) as nat % size;
        assert((n - 1) as nat == q * size + r);
        if q < c - 1 {
            assert(q * size + r < (q + 1) * size);
            assert((q + 1) * size <= (c - 1) * size);
        } else if q > c - 1 {
            assert(q * size >= c * size);
        }
    }
}

/// The chunk at position `k` starts before the end of the lines.
proof fn lemma_chunk_start(n: nat, size: nat, k: int)
    requires
        size > 0,
        0 <= k < chunk_count(n, size),
    ensures
        k * size < n,
        (k + 1) * size == k * size + size,
{
    let c = chunk_count(n, size);
    assert(n > 0);
    let q = (n - 1) as nat / size;
    assert(k * size < n) by (nonlinear_arith)
        requires
            0 <= k <= q,
            size > 0,
            q == (n - 1) as nat / size,
            n > 0,
    {
        assert(k * size <= q * size);
        assert(q * size <= (n - 1) as nat);
    }
    assert((k + 1) * size == k * size + size) by (nonlinear_arith);
}

/// The chunks reach the end of the lines.
proof fn lemma_count_covers(n: nat, size: nat)
    requires
        size > 0,
    ensures
        n <= chunk_count(n, size) * size,
{
    if n > 0 {
        let q = (n - 1) as nat / size;
        let c = chunk_count(n, size);
        assert(n <= c * size) by (nonlinear_arith)
            requires
                n > 0,
                size > 0,
                q == (n - 1) as nat / size,
                c == q + 1,
        {
            assert((n - 1) as nat == q * size + (n - 1) as nat % size);
            assert(c * size == q * size + size);
        }
    }
}

/// Every chunk holds at least one line and at most `size`; all but the last hold `size`.
pub proof fn lemma_chunk_sizes(chunks: Seq<Chunk>, lines: Seq<String>, size: nat)
    requires
        size > 0,
        is_chunking(chunks, lines, size),
    ensures
        forall|k: int|
            0 <= k < chunks.len() ==> 0 < (#[trigger] chunks[k]).lines@.len() <= size,
        forall|k: int|
            0 <= k < chunks.len() - 1 ==> (#[trigger] chunks[k]).lines@.len() == size,
{
    assert forall|k: int| 0 <= k < chunks.len() implies 0 < (#[trigger] chunks[k]).lines@.len()
        <= size by {
        lemma_chunk_start(lines.len(), size, k);
    }
    assert forall|k: int| 0 <= k < chunks.len() - 1 implies (#[trigger] chunks[k]).lines@.len()
        == size by {
        lemma_chunk_start(lines.len(), size, k);
        lemma_chunk_start(lines.len(), size, k + 1);
    }
}

/// Concatenating the chunks in number order gives back the lines.
pub proof fn lemma_chunks_cover(chunks: Seq<Chunk>, lines: Seq<String>, size: nat)
    requires
        size > 0,
        is_chunking(chunks, lines, size),
    ensures
        chunk_lines_of(chunks).flatten() == lines,
{
    lemma_chunks_cover_prefix(chunks, lines, size, chunks.len() as int);
    let c = chunks.len();
    lemma_count_covers(lines.len(), size);
    assert(chunk_lines_of(chunks).subrange(0, c as int) == chunk_lines_of(chunks));
    assert(lines.subrange(0, lines.len() as int) == lines);
}

proof fn lemma_chunks_cover_prefix(chunks: Seq<Chunk>, lines: Seq<String>, size: nat, j: int)
    requires
        size > 0,
        is_chunking(chunks, lines, size),
        0 <= j <= chunks.len(),
    ensures
        chunk_lines_of(chunks).subrange(0, j).flatten() == lines.subrange(
            0,
            if j * size < lines.len() {
                j * size
            } else {
                lines.len() as int
            },
        ),
    decreases j,
{
    broadcast use Seq::lemma_flatten_push;

    lemma_chunk_sizes(chunks, lines, size);
    if j == 0 {
        assert(chunk_lines_of(chunks).subrange(0, 0) == Seq::<Seq<String>>::empty());
        assert(lines.subrange(0, 0) == Seq::<String>::empty());
    } else {
        lemma_chunks_cover_prefix(chunks, lines, size, j - 1);
        let prev = chunk_lines_of(chunks).subrange(0, j - 1);
        assert(chunk_lines_of(chunks).subrange(0, j) == prev.push(chunks[j - 1].lines@));
        lemma_chunk_start(lines.len(), size, j - 1);
        let a = (j - 1) * size;
        let b = if j * size < lines.len() {
            j * size
        } else {
            lines.len() as int
        };
        assert(lines.subrange(0, b) == lines.subrange(0, a) + lines.subrange(a, b));
    }
}

/// Splits `lines` into chunks of `chunk_size` lines (the last may be shorter), numbered
/// 1, 2, 3, ... in input order.
pub fn chunk_lines(lines: Vec<String>, chunk_size: usize) -> (r: Vec<Chunk>)
    requires
        chunk_size > 0,
        lines.len() <= i32::MAX,
    ensures
        is_chunking(r@, lines@, chunk_size as nat),
{
    let ghost all = lines@;
    let ghost size = chunk_size as nat;
    let mut rest = lines;
    let mut out: Vec<Chunk> = Vec::new();
    assert(0 * size == 0);
    while rest.len() > 0
        invariant
            out.len() * size <= all.len() || rest.len() == 0,
            rest@ == all.subrange(all.len() - rest.len(), all.len() as int),
            rest.len() > 0 ==> all.len() - rest.len() == out.len() * size,
            out.len() <= all.len() - rest.len(),
            out.len() > 0 ==> (out.len() - 1) * size < all.len(),
            rest.len() == 0 ==> all.len() <= out.len() * size,
            all.len() <= i32::MAX,
            size == chunk_size,
            chunk_size > 0,
            forall|k: int|
                0 <= k < out.len() ==> {
                    &&& (#[trigger] out@[k]).number == k + 1
                    &&& out@[k].lines@ == chunk_at(all, size, k)
                },
        decreases rest.len(),
    {
        let take: usize = if rest.len() < chunk_size {
            rest.len()
        } else {
            chunk_size
        };
        let tail = rest.split_off(take);
        let number: i32 = (out.len() + 1) as i32;
        let ghost k = out.len() as int;
        assert((k + 1) * size == k * size + size) by (nonlinear_arith);
        assert(rest@ == chunk_at(all, size, k));
        out.push(Chunk { number, lines: rest });
        rest = tail;
    }
    proof {
        let c = out.len() as nat;
        let n = all.len();
        if c > 0 {
            lemma_count_from_bounds(n, size, c);
        }
    }
    out
}

} // verus!
