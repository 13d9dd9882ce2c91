//! Work partitioning for the parallel render loop.
//!
//! The flattened pixel space `[0, width * height)` is split into contiguous
//! ranges, one per worker. Each worker computes its range into a chunk of its
//! own; the chunks are then joined in range order, so that index `y * width + x`
//! of the output always holds pixel `(x, y)`, whatever the worker count.
use std::ops::Range;
use vstd::prelude::*;

verus! {

/// Start of the `i`-th of `div` ranges that split `[0, length)`.
pub open spec fn range_start(length: nat, div: nat, i: nat) -> nat {
    i * (length / div)
}

/// End (exclusive) of the `i`-th of `div` ranges that split `[0, length)`:
/// every range holds `length / div` indices, and the last one also takes the
/// `length % div` that are left over.
pub open spec fn range_end(length: nat, div: nat, i: nat) -> nat {
    if i + 1 < div {
        (i + 1) * (length / div)
    } else {
        length
    }
}

proof fn lemma_range_start_bounded(length: nat, div: nat, i: nat)
    requires
        i < div,
    ensures
        range_start(length, div, i) + length / div <= length,
        i + 1 == div ==> range_start(length, div, i) + length / div + length % div == length,
{
    let size = length / div;
    assert(length == div * size + length % div) by (nonlinear_arith)
        requires div > 0, size == length / div;
    assert(i * size + size <= div * size) by (nonlinear_arith)
        requires i < div, size >= 0;
    if i + 1 == div {
        assert(i * size + size == div * size) by (nonlinear_arith)
            requires i + 1 == div;
    }
}

/// Splits `[0, length)` into `div` contiguous ranges of `length / div`
/// indices each, the remainder `length % div` going to the last range.
pub fn split_range(length: usize, div: usize) -> (ranges: Vec<Range<usize>>)
    requires
        div > 0,
    ensures
        ranges@.len() == div,
        forall|i: int|
            0 <= i < div ==> #[trigger] ranges@[i].start == range_start(
                length as nat,
                div as nat,
                i as nat,
            ) && ranges@[i].end == range_end(length as nat, div as nat, i as nat),
{
    let mut ranges: Vec<Range<usize>> = Vec::new();
    let remainder = length % div;
    let size = length / div;
    let mut i: usize = 0;
    while i < div
        invariant
            div > 0,
            i <= div,
            remainder == length % div,
            size == length / div,
            ranges@.len() == i,
            forall|j: int|
                0 <= j < i ==> #[trigger] ranges@[j].start == range_start(
                    length as nat,
                    div as nat,
                    j as nat,
                ) && ranges@[j].end == range_end(length as nat, div as nat, j as nat),
        decreases div - i,
    {
        proof {
            lemma_range_start_bounded(length as nat, div as nat, i as nat);
        }
        let start = i * size;
        let end = if i + 1 != div {
            start + size
        } else {
            start + size + remainder
        };
        assert((i + 1) * size == i * size + size) by (nonlinear_arith);
        ranges.push(start..end);
        i = i + 1;
    }
    ranges
}

/// The ranges of `split_range(length, div)` partition `[0, length)`: the
/// first starts at 0, each one ends where the next starts, the last ends at
/// `length`; all but the last hold `length / div` indices and the last holds
/// `length / div + length % div`.
pub proof fn lemma_split_range_partition(length: nat, div: nat)
    requires
        div > 0,
    ensures
        range_start(length, div, 0) == 0,
        range_end(length, div, (div - 1) as nat) == length,
        forall|i: nat|
            i + 1 < div ==> #[trigger] range_end(length, div, i) == range_start(length, div, i + 1),
        forall|i: nat|
            i + 1 < div ==> #[trigger] range_end(length, div, i) - range_start(length, div, i)
                == length / div,
        range_end(length, div, (div - 1) as nat) - range_start(length, div, (div - 1) as nat)
            == length / div + length % div,
{
    lemma_range_start_bounded(length, div, (div - 1) as nat);
    assert forall|i: nat| i + 1 < div implies #[trigger] range_end(length, div, i) - range_start(
        length,
        div,
        i,
    ) == length / div by {
        let size = length / div;
        assert((i + 1) * size == i * size + size) by (nonlinear_arith);
    }
}

/// Every index below `length` lies in exactly one of the ranges of
/// `split_range(length, div)`, the one numbered `w`.
pub proof fn lemma_split_range_owner(length: nat, div: nat, k: nat) -> (w: nat)
    requires
        div > 0,
        k < length,
    ensures
        w < div,
        range_start(length, div, w) <= k < range_end(length, div, w),
        forall|j: nat|
            j < div && j != w ==> !(range_start(length, div, j) <= k && k < #[trigger] range_end(
                length,
                div,
                j,
            )),
{
    let size = length / div;
    lemma_split_range_partition(length, div);
    let w: nat = if size == 0 {
        (div - 1) as nat
    } else if k / size < div - 1 {
        k / size
    } else {
        (div - 1) as nat
    };
    lemma_range_start_bounded(length, div, w);
    if size > 0 {
        assert(k / size * size <= k) by (nonlinear_arith)
            requires size > 0;
        assert(k < (k / size + 1) * size) by (nonlinear_arith)
            requires size > 0;
        if k / size >= div - 1 {
            assert((div - 1) * size <= (k / size) * size) by (nonlinear_arith)
                requires k / size >= div - 1, size > 0;
        }
    }
    assert forall|j: nat| j < div && j != w implies !(range_start(length, div, j) <= k && k
        < #[trigger] range_end(length, div, j)) by {
        lemma_range_start_bounded(length, div, j);
        if j < w {
            assert((j + 1) * size <= w * size) by (nonlinear_arith)
                requires j < w;
        } else {
            assert((w + 1) * size <= j * size) by (nonlinear_arith)
                requires w < j;
        }
    }
    w
}

/// Number of pixels of a `width` by `height` image, or `None` where it does
/// not fit in a `usize`.
pub fn pixel_count(width: u32, height: u32) -> (n: Option<usize>)
    ensures
        width * height <= usize::MAX <==> n is Some,
        n is Some ==> n->0 == width * height,
{
    (width as usize).checked_mul(height as usize)
}

/// Column and row of the pixel at position `alignment` of a row-major image
/// `width` pixels wide: `(alignment % width, alignment / width)`.
pub fn alignment_to_coordinates(alignment: usize, width: usize) -> (xy: (usize, usize))
    requires
        width > 0,
    ensures
        xy.0 == alignment % width,
        xy.1 == alignment / width,
        xy.0 < width,
        xy.1 * width + xy.0 == alignment,
{
    let x = alignment % width;
    let y = alignment / width;
    assert(y * width + x == alignment) by (nonlinear_arith)
        requires width > 0, x == alignment % width, y == alignment / width;
    (x, y)
}

/// The chunks laid end to end, in order.
pub open spec fn joined<T>(chunks: Seq<Seq<T>>) -> Seq<T>
    decreases chunks.len(),
{
    if chunks.len() == 0 {
        Seq::empty()
    } else {
        joined(chunks.drop_last()) + chunks.last()
    }
}

/// Joins the chunks computed by the workers, in range order, into one buffer.
pub fn assemble_chunks<T>(chunks: Vec<Vec<T>>) -> (pixels: Vec<T>)
    ensures
        pixels@ == joined(chunks@.map_values(|c: Vec<T>| c@)),
{
    let ghost all = chunks@.map_values(|c: Vec<T>| c@);
    let mut rest = chunks;
    let mut pixels: Vec<T> = Vec::new();
    let ghost mut done: int = 0;
    while rest.len() > 0
        invariant
            0 <= done <= all.len(),
            rest@.len() == all.len() - done,
            forall|j: int| 0 <= j < rest@.len() ==> #[trigger] rest@[j]@ == all[done + j],
            pixels@ == joined(all.take(done)),
        decreases rest@.len(),
    {
        let mut chunk = rest.remove(0);
        proof {
            assert(chunk@ == all[done]);
            assert(all.take(done + 1).drop_last() =~= all.take(done));
        }
        pixels.append(&mut chunk);
        proof {
            done = done + 1;
        }
    }
    assert(all.take(done) =~= all);
    pixels
}

/// The chunks that `div` workers compute for the pixels `pixels`: chunk `j`
/// holds the pixels of the `j`-th range of `split_range`.
pub open spec fn chunks_of<T>(pixels: Seq<T>, div: nat) -> Seq<Seq<T>> {
    Seq::new(
        div,
        |j: int|
            pixels.subrange(
                range_start(pixels.len(), div, j as nat) as int,
                range_end(pixels.len(), div, j as nat) as int,
            ),
    )
}

proof fn lemma_joined_prefix<T>(pixels: Seq<T>, div: nat, m: nat)
    requires
        0 < m <= div,
    ensures
        joined(chunks_of(pixels, div).take(m as int)) == pixels.subrange(
            0,
            range_end(pixels.len(), div, (m - 1) as nat) as int,
        ),
    decreases m,
{
    let n = pixels.len();
    let chunks = chunks_of(pixels, div);
    lemma_split_range_partition(n, div);
    lemma_range_start_bounded(n, div, (m - 1) as nat);
    assert(chunks.take(m as int).drop_last() =~= chunks.take(m - 1));
    if m == 1 {
        assert(chunks.take(0) =~= Seq::<Seq<T>>::empty());
        assert(joined(chunks.take(0)) =~= Seq::<T>::empty());
    } else {
        lemma_joined_prefix(pixels, div, (m - 1) as nat);
        assert(range_end(n, div, (m - 2) as nat) == range_start(n, div, (m - 1) as nat));
    }
    assert(joined(chunks.take(m as int)) =~= pixels.subrange(
        0,
        range_end(n, div, (m - 1) as nat) as int,
    ));
}

/// Whatever the number of workers, joining their chunks in range order gives
/// back every pixel at its own index: `width * height` values, index
/// `y * width + x` holding pixel `(x, y)`.
pub proof fn lemma_chunks_reassemble<T>(pixels: Seq<T>, div: nat)
    requires
        div > 0,
    ensures
        joined(chunks_of(pixels, div)) == pixels,
{
    lemma_split_range_partition(pixels.len(), div);
    lemma_joined_prefix(pixels, div, div);
    assert(chunks_of(pixels, div).take(div as int) =~= chunks_of(pixels, div));
    assert(pixels.subrange(0, pixels.len() as int) =~= pixels);
}

} // verus!
