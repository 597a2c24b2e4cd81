//! Chunk planning: splitting a byte range into pieces that fit a payload budget.

use vstd::prelude::*;

verus! {

/// One planned piece of a byte stream.
#[derive(Debug, Clone, Copy)]
pub struct ChunkSpec {
    pub index: usize,
    pub offset: usize,
    pub size: usize,
}

/// Byte budget used when the character budget is too small to hold three bytes.
pub const FALLBACK_CHUNK_BYTES: usize = 1024;

/// Bytes carried by one chunk body of at most `max_payload_chars` encoded
/// characters, four characters encoding three bytes.
pub open spec fn bytes_per_chunk(max_payload_chars: int) -> int {
    let fitted = (max_payload_chars / 4) * 3;
    if fitted == 0 {
        FALLBACK_CHUNK_BYTES as int
    } else {
        fitted
    }
}

/// Number of chunks needed for `total` bytes at `per` bytes each.
pub open spec fn chunk_count(total: int, per: int) -> int {
    if total <= 0 {
        0
    } else {
        (total - 1) / per + 1
    }
}

/// Length of chunk `i` when `total` bytes are cut every `per` bytes.
pub open spec fn chunk_len(total: int, per: int, i: int) -> int {
    if total - i * per < per {
        total - i * per
    } else {
        per
    }
}

/// Sum of the sizes of a sequence of chunks.
pub open spec fn total_size(chunks: Seq<ChunkSpec>) -> int
    decreases chunks.len(),
{
    if chunks.len() == 0 {
        0
    } else {
        total_size(chunks.drop_last()) + chunks.last().size
    }
}

/// The chunks tile `[0, total)`: numbered from zero, none empty, the first at
/// offset zero, each beginning where the one before ends, the last ending at
/// `total`.
pub open spec fn tiles(chunks: Seq<ChunkSpec>, total: int) -> bool {
    &&& forall|i: int| 0 <= i < chunks.len() ==> (#[trigger] chunks[i]).index == i
    &&& forall|i: int| 0 <= i < chunks.len() ==> (#[trigger] chunks[i]).size > 0
    &&& chunks.len() == 0 ==> total == 0
    &&& chunks.len() > 0 ==> chunks[0].offset == 0
    &&& forall|i: int|
        0 <= i < chunks.len() - 1 ==> (#[trigger] chunks[i]).offset + chunks[i].size == chunks[i
            + 1].offset
    &&& chunks.len() > 0 ==> chunks.last().offset + chunks.last().size == total
}

/// Byte `b` lies inside chunk `c`.
pub open spec fn holds_byte(c: ChunkSpec, b: int) -> bool {
    c.offset <= b < c.offset + c.size
}

/// Byte `b` lies inside some chunk of the sequence.
pub open spec fn covered(chunks: Seq<ChunkSpec>, b: int) -> bool {
    exists|i: int| 0 <= i < chunks.len() && #[trigger] holds_byte(chunks[i], b)
}

proof fn lemma_quotient(x: int, d: int, q: int)
    requires
        d > 0,
        q * d <= x < (q + 1) * d,
    ensures
        x / d == q,
{
    assert(x / d == q) by (nonlinear_arith)
        requires
            d > 0,
            q * d <= x < (q + 1) * d,
    ;
}

proof fn lemma_next_multiple(i: int, per: int)
    ensures
        (i + 1) * per == i * per + per,
        (i - 1) * per == i * per - per,
{
    assert((i + 1) * per == i * per + per) by (nonlinear_arith);
    assert((i - 1) * per == i * per - per) by (nonlinear_arith);
}

/// Sizes of a tiling add up to the end of its last chunk.
proof fn lemma_prefix_sum(chunks: Seq<ChunkSpec>, total: int)
    requires
        tiles(chunks, total),
    ensures
        total_size(chunks) == total,
    decreases chunks.len(),
{
    if chunks.len() > 0 {
        let front = chunks.drop_last();
        let cut = chunks.last().offset as int;
        if front.len() > 0 {
            assert(front.last() == chunks[chunks.len() - 2]);
            assert(front[0] == chunks[0]);
        }
        assert forall|i: int| 0 <= i < front.len() - 1 implies (#[trigger] front[i]).offset
            + front[i].size == front[i + 1].offset by {
            assert(front[i] == chunks[i]);
            assert(front[i + 1] == chunks[i + 1]);
        }
        assert forall|i: int| 0 <= i < front.len() implies (#[trigger] front[i]).index == i by {
            assert(front[i] == chunks[i]);
        }
        assert forall|i: int| 0 <= i < front.len() implies (#[trigger] front[i]).size > 0 by {
            assert(front[i] == chunks[i]);
        }
        assert(tiles(front, cut));
        lemma_prefix_sum(front, cut);
    }
}

/// Offsets of a tiling grow with the index, and every chunk ends at or before
/// `total`.
proof fn lemma_offsets_grow(chunks: Seq<ChunkSpec>, total: int, i: int, j: int)
    requires
        tiles(chunks, total),
        0 <= i < j < chunks.len(),
    ensures
        chunks[i].offset + chunks[i].size <= chunks[j].offset,
        chunks[j].offset + chunks[j].size <= total,
    decreases chunks.len() - j,
{
    if j == chunks.len() - 1 {
    } else {
        lemma_offsets_grow(chunks, total, i, j + 1);
    }
    if i + 1 < j {
        lemma_offsets_below(chunks, total, i, j);
    }
}

proof fn lemma_offsets_below(chunks: Seq<ChunkSpec>, total: int, i: int, j: int)
    requires
        tiles(chunks, total),
        0 <= i < j < chunks.len(),
    ensures
        chunks[i].offset + chunks[i].size <= chunks[j].offset,
    decreases j - i,
{
    if i + 1 < j {
        lemma_offsets_below(chunks, total, i + 1, j);
    }
}

/// No chunk of a tiling reaches past `total`.
pub proof fn lemma_chunk_within(chunks: Seq<ChunkSpec>, total: int, i: int)
    requires
        tiles(chunks, total),
        0 <= i < chunks.len(),
    ensures
        chunks[i].offset + chunks[i].size <= total,
{
    if i < chunks.len() - 1 {
        lemma_offsets_grow(chunks, total, i, chunks.len() - 1);
        assert(chunks[chunks.len() - 1].size > 0);
    }
}

/// Every byte of `[0, total)` lies in some chunk of a tiling.
proof fn lemma_some_chunk_holds(chunks: Seq<ChunkSpec>, total: int, b: int, upto: int) -> (i: int)
    requires
        tiles(chunks, total),
        0 <= upto < chunks.len(),
        0 <= b < chunks[upto].offset + chunks[upto].size,
    ensures
        0 <= i <= upto,
        holds_byte(chunks[i], b),
    decreases upto,
{
    if chunks[upto].offset <= b {
        upto
    } else {
        assert(upto > 0);
        lemma_some_chunk_holds(chunks, total, b, upto - 1)
    }
}

/// A tiling covers `[0, total)` exactly once, in increasing offset order, with
/// sizes that add up to `total`: every byte below `total` lies in one chunk and
/// in no other, a chunk with a larger index starts at or after the end of one
/// with a smaller index, and no chunk reaches past `total`.
pub proof fn lemma_tiling_covers_once(chunks: Seq<ChunkSpec>, total: int)
    requires
        tiles(chunks, total),
    ensures
        total_size(chunks) == total,
        forall|b: int| 0 <= b < total ==> #[trigger] covered(chunks, b),
        forall|b: int, i: int, j: int|
            0 <= i < chunks.len() && 0 <= j < chunks.len() && #[trigger] holds_byte(chunks[i], b)
                && #[trigger] holds_byte(chunks[j], b) ==> i == j,
        forall|i: int, j: int|
            0 <= i < j < chunks.len() ==> (#[trigger] chunks[i]).offset + chunks[i].size <= (
            #[trigger] chunks[j]).offset,
        forall|i: int, b: int|
            0 <= i < chunks.len() && #[trigger] holds_byte(chunks[i], b) ==> 0 <= b < total,
{
    lemma_prefix_sum(chunks, total);
    assert forall|b: int| 0 <= b < total implies #[trigger] covered(chunks, b) by {
        let i = lemma_some_chunk_holds(chunks, total, b, chunks.len() - 1);
        assert(holds_byte(chunks[i], b));
    }
    assert forall|i: int, j: int| 0 <= i < j < chunks.len() implies (#[trigger] chunks[i]).offset
        + chunks[i].size <= (#[trigger] chunks[j]).offset by {
        lemma_offsets_below(chunks, total, i, j);
    }
    assert forall|i: int, b: int|
        0 <= i < chunks.len() && #[trigger] holds_byte(chunks[i], b) implies 0 <= b < total by {
        if i < chunks.len() - 1 {
            lemma_offsets_grow(chunks, total, i, chunks.len() - 1);
        }
    }
}

/// Characters that `n` bytes take in a body that writes every three bytes,
/// or what is left of them, as four characters.
pub open spec fn encoded_chars(n: int) -> int {
    4 * ((n + 2) / 3)
}

/// Every planned chunk fits the budget: under a budget of at least four
/// characters, no chunk's encoded body is longer than the budget.
pub proof fn lemma_chunk_fits_budget(total: int, max_payload_chars: int, i: int)
    requires
        max_payload_chars >= 4,
        0 <= i < chunk_count(total, bytes_per_chunk(max_payload_chars)),
    ensures
        0 < chunk_len(total, bytes_per_chunk(max_payload_chars), i) <= bytes_per_chunk(
            max_payload_chars,
        ),
        encoded_chars(chunk_len(total, bytes_per_chunk(max_payload_chars), i))
            <= max_payload_chars,
{
    let m = max_payload_chars;
    let q = m / 4;
    let per = bytes_per_chunk(m);
    assert(q >= 1 && per == q * 3 && 4 * q <= m);
    let n = chunk_len(total, per, i);
    let count = chunk_count(total, per);
    assert(i * per < total) by (nonlinear_arith)
        requires
            0 <= i < count,
            per > 0,
            total > 0,
            count == (total - 1) / per + 1,
    ;
    assert((n + 2) / 3 <= q) by (nonlinear_arith)
        requires
            0 < n <= q * 3,
    ;
}

/// Whether the chunks tile `[0, total)`.
pub fn is_tiling(chunks: &Vec<ChunkSpec>, total: usize) -> (b: bool)
    ensures
        b == tiles(chunks@, total as int),
{
    let mut expect: usize = 0;
    let mut k: usize = 0;
    while k < chunks.len()
        invariant
            k <= chunks@.len(),
            expect <= usize::MAX,
            k == 0 ==> expect == 0,
            k > 0 ==> chunks@[0].offset == 0 && expect == chunks@[k - 1].offset + chunks@[k
                - 1].size,
            forall|i: int| 0 <= i < k ==> (#[trigger] chunks@[i]).index == i && chunks@[i].size > 0,
            forall|i: int|
                0 <= i < k - 1 ==> (#[trigger] chunks@[i]).offset + chunks@[i].size == chunks@[i
                    + 1].offset,
        decreases chunks@.len() - k,
    {
        let c = &chunks[k];
        if c.index != k || c.size == 0 || c.offset != expect {
            proof {
                if tiles(chunks@, total as int) {
                    assert(chunks@[k as int].index == k);
                    if k > 0 {
                        assert(chunks@[k - 1].offset + chunks@[k - 1].size == chunks@[k as int].offset);
                    }
                }
            }
            return false;
        }
        if c.size > usize::MAX - c.offset {
            proof {
                if tiles(chunks@, total as int) {
                    if k < chunks@.len() - 1 {
                        lemma_offsets_grow(chunks@, total as int, k as int, chunks@.len() - 1);
                        assert(chunks@[chunks@.len() - 1].size > 0);
                    }
                }
            }
            return false;
        }
        expect = c.offset + c.size;
        k += 1;
    }
    expect == total
}

/// Plans the chunks for `total_size` bytes under a budget of
/// `max_payload_chars` encoded characters per chunk body.
pub fn plan_chunks(total_size: usize, max_payload_chars: usize) -> (out: Vec<ChunkSpec>)
    ensures
        out@.len() == chunk_count(total_size as int, bytes_per_chunk(max_payload_chars as int)),
        forall|i: int|
            0 <= i < out@.len() ==> {
                &&& (#[trigger] out@[i]).index == i
                &&& out@[i].offset == i * bytes_per_chunk(max_payload_chars as int)
                &&& out@[i].size == chunk_len(
                    total_size as int,
                    bytes_per_chunk(max_payload_chars as int),
                    i,
                )
            },
        tiles(out@, total_size as int),
        self::total_size(out@) == total_size,
{
    let mut max_bytes: usize = (max_payload_chars / 4) * 3;
    if max_bytes == 0 {
        max_bytes = FALLBACK_CHUNK_BYTES;
    }
    let ghost per: int = max_bytes as int;
    let ghost total: int = total_size as int;
    let mut out: Vec<ChunkSpec> = Vec::new();
    let mut off: usize = 0;
    let mut idx: usize = 0;
    while off < total_size
        invariant
            per == max_bytes,
            per == bytes_per_chunk(max_payload_chars as int),
            per > 0,
            total == total_size,
            out@.len() == idx,
            off <= total_size,
            idx <= off,
            idx == 0 ==> off == 0,
            off < total ==> off == idx * per,
            idx > 0 ==> (idx - 1) * per < total && off <= idx * per,
            forall|i: int|
                0 <= i < idx ==> {
                    &&& (#[trigger] out@[i]).index == i
                    &&& out@[i].offset == i * per
                    &&& out@[i].size == chunk_len(total, per, i)
                    &&& out@[i].size > 0
                },
            idx > 0 ==> out@[idx - 1].offset + out@[idx - 1].size == off,
        decreases total_size - off,
    {
        let rest: usize = total_size - off;
        let n: usize = if max_bytes < rest {
            max_bytes
        } else {
            rest
        };
        proof {
            lemma_next_multiple(idx as int, per);
        }
        out.push(ChunkSpec { index: idx, offset: off, size: n });
        off += n;
        idx += 1;
    }
    proof {
        if idx > 0 {
            lemma_next_multiple(idx as int, per);
            lemma_quotient(total - 1, per, idx - 1);
        }
        assert forall|i: int| 0 <= i < out@.len() - 1 implies (#[trigger] out@[i]).offset
            + out@[i].size == out@[i + 1].offset by {
            lemma_next_multiple(i, per);
            assert(out@[i + 1].size > 0);
        }
        if idx > 0 {
            assert(out@[0].offset == 0 * per);
        }
        assert(tiles(out@, total));
        lemma_prefix_sum(out@, total);
    }
    out
}

} // verus!
