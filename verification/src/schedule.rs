//! Work division for the tiled renderer.
//!
//! The render farm is a fixed pool of workers sized once at startup.
//! The per-pixel sample budget is split evenly among them, the pixel
//! rows are cut into one contiguous slice per worker, and the finished
//! frame is written in a fixed row-major order that does not depend on
//! which worker finished when.

use vstd::prelude::*;

verus! {

/// Start of worker `w`'s slice of `total` rows: slices meet exactly,
/// so `w`'s slice ends where `w + 1`'s begins.
pub open spec fn slice_start(total: int, workers: int, w: int) -> int {
    (w * total) / workers
}

/// Samples each worker takes per pixel: the per-pixel budget divided
/// evenly among the workers, so the pool never oversamples the budget.
pub fn samples_per_worker(samples_per_pixel: usize, thread_count: usize) -> (r: usize)
    requires
        1 <= thread_count,
    ensures
        r == samples_per_pixel / thread_count,
        r * thread_count <= samples_per_pixel,
        samples_per_pixel < (r + 1) * thread_count,
{
    proof {
        let spp = samples_per_pixel as int;
        let tc = thread_count as int;
        vstd::arithmetic::div_mod::lemma_fundamental_div_mod(spp, tc);
        vstd::arithmetic::div_mod::lemma_mod_bound(spp, tc);
        assert(spp == tc * (spp / tc) + (spp % tc));
        assert(tc * (spp / tc) == (spp / tc) * tc) by (nonlinear_arith);
        assert((spp / tc + 1) * tc == (spp / tc) * tc + tc) by (nonlinear_arith);
    }
    samples_per_pixel / thread_count
}

/// The contiguous slice `[start, end)` of `total` rows that worker
/// `w` of `workers` owns, decided before any sampling begins.
pub fn worker_slice(total: usize, workers: usize, w: usize) -> (r: (usize, usize))
    requires
        1 <= workers,
        w < workers,
        total * workers <= usize::MAX,
    ensures
        r.0 == slice_start(total as int, workers as int, w as int),
        r.1 == slice_start(total as int, workers as int, w as int + 1),
        r.0 <= r.1 <= total,
        w == 0 ==> r.0 == 0,
        w == workers - 1 ==> r.1 == total,
{
    proof {
        lemma_slice_start_monotone(total as int, workers as int, w as int, w as int + 1);
        lemma_slice_start_monotone(total as int, workers as int, w as int + 1, workers as int);
        lemma_slice_start_full(total as int, workers as int);
        assert(w * total <= total * workers) by (nonlinear_arith)
            requires
                w < workers,
                0 <= total,
        {
        }
        assert((w + 1) * total <= total * workers) by (nonlinear_arith)
            requires
                w < workers,
                0 <= total,
        {
        }
        vstd::arithmetic::div_mod::lemma_div_is_ordered(
            (w as int + 1) * total,
            total as int * workers,
            workers as int,
        );
    }
    ((w * total) / workers, ((w + 1) * total) / workers)
}

/// Later workers never start before earlier ones: slice starts are
/// monotone, so with their meeting ends the slices are disjoint and
/// together cover `0..total`.
pub proof fn lemma_slice_start_monotone(total: int, workers: int, w1: int, w2: int)
    requires
        1 <= workers,
        0 <= total,
        0 <= w1 <= w2,
    ensures
        slice_start(total, workers, w1) <= slice_start(total, workers, w2),
{
    assert(w1 * total <= w2 * total) by (nonlinear_arith)
        requires
            0 <= w1 <= w2,
            0 <= total,
    {
    }
    vstd::arithmetic::div_mod::lemma_div_is_ordered(w1 * total, w2 * total, workers);
}

/// The first slice starts at the first row, and the last slice ends
/// after the last row: nothing is missed at either edge.
pub proof fn lemma_slice_start_full(total: int, workers: int)
    requires
        1 <= workers,
        0 <= total,
    ensures
        slice_start(total, workers, 0) == 0,
        slice_start(total, workers, workers) == total,
{
    assert(0 * total == 0) by (nonlinear_arith);
    vstd::arithmetic::div_mod::lemma_div_by_multiple(total, workers);
    assert(workers * total == total * workers) by (nonlinear_arith);
}

/// Stream position of framebuffer pixel `(i, j)`: rows come top to
/// bottom (row `height - 1` first), columns left to right.
pub open spec fn output_position(i: int, j: int, width: int, height: int) -> int {
    (height - 1 - j) * width + i
}

/// Position of framebuffer pixel `(i, j)` in the output stream,
/// whatever order the workers finished in.
pub fn output_index(i: usize, j: usize, width: usize, height: usize) -> (r: usize)
    requires
        i < width,
        j < height,
        width * height <= usize::MAX,
    ensures
        r == output_position(i as int, j as int, width as int, height as int),
        r < width * height,
{
    proof {
        assert((height - 1 - j) * width + i < width * height) by (nonlinear_arith)
            requires
                i < width,
                j < height,
        {
        }
    }
    (height - 1 - j) * width + i
}

/// Distinct pixels never share an output position: the stream order
/// lays the frame out without collisions.
pub proof fn lemma_output_index_injective(
    i1: int,
    j1: int,
    i2: int,
    j2: int,
    width: int,
    height: int,
)
    requires
        0 <= i1 < width,
        0 <= i2 < width,
        0 <= j1 < height,
        0 <= j2 < height,
        output_position(i1, j1, width, height) == output_position(i2, j2, width, height),
    ensures
        i1 == i2,
        j1 == j2,
{
    assert((height - 1 - j1) == (height - 1 - j2) && i1 == i2) by (nonlinear_arith)
        requires
            0 <= i1 < width,
            0 <= i2 < width,
            0 <= j1 < height,
            0 <= j2 < height,
            (height - 1 - j1) * width + i1 == (height - 1 - j2) * width + i2,
    {
    }
}

/// Every output position belongs to some pixel: together with the
/// absence of collisions, the stream order lays out each pixel of the
/// frame exactly once.
pub proof fn lemma_output_index_covers(r: int, width: int, height: int)
    requires
        0 < width,
        0 < height,
        0 <= r < width * height,
    ensures
        exists|i: int, j: int|
            0 <= i < width && 0 <= j < height && r == #[trigger] output_position(
                i,
                j,
                width,
                height,
            ),
{
    let row = r / width;
    let col = r % width;
    vstd::arithmetic::div_mod::lemma_fundamental_div_mod(r, width);
    vstd::arithmetic::div_mod::lemma_mod_bound(r, width);
    assert(row < height) by (nonlinear_arith)
        requires
            0 < width,
            0 < height,
            r < width * height,
            r == width * row + col,
            0 <= col < width,
    {
    }
    assert(0 <= row) by (nonlinear_arith)
        requires
            0 < width,
            0 <= r,
            r == width * row + col,
            0 <= col < width,
    {
    }
    let i = col;
    let j = height - 1 - row;
    assert((height - 1 - j) * width + i == r) by (nonlinear_arith)
        requires
            j == height - 1 - row,
            i == col,
            r == width * row + col,
    {
    }
    assert(0 <= i < width && 0 <= j < height && r == output_position(i, j, width, height));
}

} // verus!
