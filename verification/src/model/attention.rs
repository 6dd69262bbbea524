//! What attention may look at, and in which tiles.

use vstd::prelude::*;

verus! {

/// Query-row tile of the chunked attention forward. 64 divides every `T`
/// bucket ({64, 128, 256, 512}), so bucketed batches split evenly; any
/// remainder is handled by a smaller final chunk.
pub const ATTN_QUERY_CHUNK: usize = 64;

/// A run of query rows.
#[derive(Debug, Clone, Copy, PartialEq, Eq, Structural)]
pub struct QueryChunk {
    pub start: usize,
    pub len: usize,
}

/// The tiles of query rows `from..t`.
pub open spec fn tiles(from: nat, t: nat) -> Seq<QueryChunk>
    decreases t - from,
{
    if from >= t {
        Seq::empty()
    } else {
        let len = if t - from < ATTN_QUERY_CHUNK {
            (t - from) as nat
        } else {
            ATTN_QUERY_CHUNK as nat
        };
        seq![QueryChunk { start: from as usize, len: len as usize }] + tiles(from + len, t)
    }
}

/// The query axis of `t` rows in tiles, so that no `[B, H, T, T]` buffer is
/// ever fully live at once: each tile only materializes `[B, H, C, T]`.
/// Softmax still runs over the FULL key axis per tile, so the math is that of
/// the untiled forward.
pub fn query_chunks(t: usize) -> (r: Vec<QueryChunk>)
    ensures
        r@ == tiles(0, t as nat),
{
    let mut out: Vec<QueryChunk> = Vec::new();
    let mut start: usize = 0;
    while start < t
        invariant
            start <= t,
            tiles(0, t as nat) == out@ + tiles(start as nat, t as nat),
        decreases t - start,
    {
        let len: usize = if t - start < ATTN_QUERY_CHUNK {
            t - start
        } else {
            ATTN_QUERY_CHUNK
        };
        let chunk: QueryChunk = QueryChunk { start, len };
        proof {
            let rest = tiles((start + len) as nat, t as nat);
            assert(out@ + (seq![chunk] + rest) =~= out@.push(chunk) + rest);
        }
        out.push(chunk);
        start = start + len;
    }
    assert(out@ =~= tiles(0, t as nat));
    out
}

/// Tiles follow one another without gap or overlap, none empty and none over
/// the tile size.
pub proof fn lemma_tiles_partition(from: nat, t: nat, i: int)
    requires
        from <= t <= usize::MAX,
        0 <= i < tiles(from, t).len(),
    ensures
        ({
            let xs = tiles(from, t);
            &&& 1 <= xs[i].len <= ATTN_QUERY_CHUNK
            &&& xs[0].start == from
            &&& i + 1 < xs.len() ==> xs[i + 1].start == xs[i].start + xs[i].len
            &&& i + 1 == xs.len() ==> xs[i].start + xs[i].len == t
        }),
    decreases t - from,
{
    let xs = tiles(from, t);
    let next = from + xs[0].len as nat;
    let rest = tiles(next, t);
    assert(xs =~= seq![xs[0]] + rest);
    if i > 0 {
        lemma_tiles_partition(next, t, i - 1);
        assert(xs[i] == rest[i - 1]);
        if i + 1 < xs.len() {
            assert(xs[i + 1] == rest[i]);
        }
    } else if rest.len() > 0 {
        lemma_tiles_partition(next, t, 0);
        assert(xs[1] == rest[0]);
    } else {
        assert(next >= t) by {
            if next < t {
                assert(rest.len() > 0);
            }
        }
    }
}

/// Whether the key at position `p` of a row of `len` real tokens is padding.
/// Position 0 stays open, so that a fully padded row never softmaxes over an
/// empty set (NaN would poison shared-weight gradients).
pub open spec fn is_pad(len: usize, p: int) -> bool {
    p > 0 && len <= p
}

/// One row of the mask.
pub open spec fn pad_row(len: usize, t: nat) -> Seq<bool> {
    Seq::new(t, |p: int| is_pad(len, p))
}

/// All rows of the mask, one after the other.
pub open spec fn pad_rows(lengths: Seq<usize>, t: nat) -> Seq<bool>
    decreases lengths.len(),
{
    if lengths.len() == 0 {
        Seq::empty()
    } else {
        pad_rows(lengths.drop_last(), t) + pad_row(lengths.last(), t)
    }
}

/// Key-padding mask `[B, T]`, row by row (`true` = pad, blocked from
/// attention). Bytes 0x00 (PAD) and 0x01 (EOS) are reserved; task alphabets
/// never contain them, so pad positions are unambiguous.
pub fn pad_mask(lengths: &[usize], t: usize) -> (r: Vec<bool>)
    ensures
        r@ == pad_rows(lengths@, t as nat),
{
    let mut out: Vec<bool> = Vec::new();
    let mut i: usize = 0;
    assert(lengths@.take(0) =~= Seq::<usize>::empty());
    while i < lengths.len()
        invariant
            i <= lengths@.len(),
            out@ == pad_rows(lengths@.take(i as int), t as nat),
        decreases lengths@.len() - i,
    {
        assert(lengths@.take(i + 1).drop_last() =~= lengths@.take(i as int));
        let ghost before = out@;
        let len: usize = lengths[i];
        let mut p: usize = 0;
        while p < t
            invariant
                p <= t,
                out@ =~= before + pad_row(len, t as nat).take(p as int),
            decreases t - p,
        {
            out.push(p > 0 && len <= p);
            p = p + 1;
        }
        assert(pad_row(len, t as nat).take(t as int) =~= pad_row(len, t as nat));
        i = i + 1;
    }
    assert(lengths@.take(i as int) =~= lengths@);
    out
}

/// The mask is a rectangle of one row per length: the entry of row `r` at
/// position `p` says whether `p` is padding there, and no row blocks its first
/// position.
pub proof fn lemma_pad_mask(lengths: Seq<usize>, t: nat, r: int, p: int)
    requires
        0 <= r < lengths.len(),
        0 <= p < t,
    ensures
        pad_rows(lengths, t).len() == lengths.len() * t,
        0 <= r * t + p < pad_rows(lengths, t).len(),
        pad_rows(lengths, t)[r * t + p] == is_pad(lengths[r], p),
        p == 0 ==> !pad_rows(lengths, t)[r * t + p],
    decreases lengths.len(),
{
    let front = lengths.drop_last();
    let n = front.len();
    lemma_pad_len(lengths, t);
    lemma_pad_len(front, t);
    assert(n * t + t == (n + 1) * t) by (nonlinear_arith);
    assert(0 <= r * t <= n * t) by (nonlinear_arith)
        requires
            0 <= r <= n,
            t >= 0,
    ;
    if r < n {
        lemma_pad_mask(front, t, r, p);
        assert(front[r] == lengths[r]);
    } else {
        assert(pad_rows(lengths, t)[r * t + p] == pad_row(lengths[r], t)[p]);
    }
}

proof fn lemma_pad_len(lengths: Seq<usize>, t: nat)
    ensures
        pad_rows(lengths, t).len() == lengths.len() * t,
    decreases lengths.len(),
{
    if lengths.len() > 0 {
        let n = lengths.drop_last().len();
        lemma_pad_len(lengths.drop_last(), t);
        assert(n * t + t == (n + 1) * t) by (nonlinear_arith);
    }
}

/// All tiles but the last one have 64 rows, and the last one has what is left.
pub proof fn lemma_tiles_full(from: nat, t: nat, i: int)
    requires
        from <= t <= usize::MAX,
        0 <= i < tiles(from, t).len(),
    ensures
        ({
            let xs = tiles(from, t);
            &&& xs[i].start == from + 64 * i
            &&& i + 1 < xs.len() ==> xs[i].len == 64
            &&& i + 1 == xs.len() ==> xs[i].start + xs[i].len == t && xs[i].len <= 64
            &&& xs.len() == (t - from + 63) / 64
        }),
    decreases t - from,
{
    let xs = tiles(from, t);
    let next = from + xs[0].len as nat;
    let rest = tiles(next, t);
    assert(xs =~= seq![xs[0]] + rest);
    if next < t {
        assert(rest.len() > 0);
        lemma_tiles_full(next, t, if i > 0 {
            i - 1
        } else {
            0
        });
        if i > 0 {
            assert(xs[i] == rest[i - 1]);
        }
    }
}

/// What is blocked in row `r`: every position from the row's length on, but
/// never the first one.
pub proof fn lemma_pad_mask_blocks(lengths: Seq<usize>, t: nat, r: int, p: int)
    requires
        0 <= r < lengths.len(),
        0 <= p < t,
    ensures
        pad_rows(lengths, t)[r * t + p] <==> lengths[r] <= p && p != 0,
{
    lemma_pad_mask(lengths, t, r, p);
}

} // verus!
