//! Cutting an image into rectangular chunks, one per unit of work.
//!
//! Both axes are walked with the same rule: the stride is the extent divided
//! by the number of workers, rounded up, and the last chunk on an axis is cut
//! off at the image boundary.

use vstd::prelude::*;

verus! {

/// The stride along one axis of `extent` pixels that `workers` share: the
/// quotient rounded up. With no workers the stride saturates at `u32::MAX`,
/// so that the whole axis is one span.
pub open spec fn stride(extent: u32, workers: u32) -> int {
    if workers == 0 {
        u32::MAX as int
    } else if extent % workers == 0 {
        extent as int / workers as int
    } else {
        extent as int / workers as int + 1
    }
}

/// Computes [`stride`]. For a positive number of workers the result is the
/// least `s` with `s * workers >= extent`.
pub fn axis_stride(extent: u32, workers: u32) -> (s: u32)
    ensures
        s == stride(extent, workers),
        workers > 0 ==> (s - 1) * workers < extent <= s * workers,
        extent > 0 ==> s >= 1,
        workers > 0 ==> s <= extent,
{
    if workers == 0 {
        u32::MAX
    } else {
        let q: u32 = extent / workers;
        let r: u32 = extent % workers;
        proof {
            vstd::arithmetic::div_mod::lemma_fundamental_div_mod(extent as int, workers as int);
            assert(q * workers <= extent < (q + 1) * workers) by (nonlinear_arith)
                requires
                    extent == workers * q + r,
                    0 <= r < workers,
            ;
        }
        if r == 0 {
            assert((q - 1) * workers < q * workers) by (nonlinear_arith)
                requires
                    workers > 0,
            ;
            assert(extent > 0 ==> q >= 1) by (nonlinear_arith)
                requires
                    extent == workers * q,
                    q >= 0,
            ;
            q
        } else {
            assert(q < extent) by (nonlinear_arith)
                requires
                    extent == workers * q + r,
                    r > 0,
                    workers >= 1,
                    q >= 0,
            ;
            q + 1
        }
    }
}

/// How many spans of length `step` it takes to walk `extent` pixels: the
/// quotient rounded up, and none where there is nothing to walk.
pub open spec fn span_count(extent: int, step: int) -> int {
    if extent <= 0 || step <= 0 {
        0
    } else {
        (extent - 1) / step + 1
    }
}

/// Where the `n`-th span of an axis begins.
pub open spec fn span_start(step: int, n: int) -> int {
    n * step
}

/// Where the `n`-th span of an axis ends: one stride after its start, or at
/// the boundary if that comes first.
pub open spec fn span_end(extent: int, step: int, n: int) -> int {
    if (n + 1) * step < extent {
        (n + 1) * step
    } else {
        extent
    }
}

/// The chunk in column `col` and row `row` of the grid that strides `xs` and
/// `ys` lay over an image, as `(x_start, x_end, y_start, y_end)`. Both ranges
/// are half-open.
pub open spec fn grid_chunk(width: u32, height: u32, xs: int, ys: int, col: int, row: int) -> (
    u32,
    u32,
    u32,
    u32,
) {
    (
        span_start(xs, col) as u32,
        span_end(width as int, xs, col) as u32,
        span_start(ys, row) as u32,
        span_end(height as int, ys, row) as u32,
    )
}

/// The number of chunk columns.
pub open spec fn chunk_columns(num_threads: u32, image_width: u32) -> int {
    span_count(image_width as int, stride(image_width, num_threads))
}

/// The number of chunk rows.
pub open spec fn chunk_rows(num_threads: u32, image_height: u32) -> int {
    span_count(image_height as int, stride(image_height, num_threads))
}

/// The chunks of an image, row of chunks after row of chunks from `y = 0` on,
/// and within a row from `x = 0` on.
pub open spec fn thread_chunks(num_threads: u32, image_width: u32, image_height: u32) -> Seq<
    (u32, u32, u32, u32),
> {
    let xs = stride(image_width, num_threads);
    let ys = stride(image_height, num_threads);
    let nx = chunk_columns(num_threads, image_width);
    let ny = chunk_rows(num_threads, image_height);
    Seq::new(
        (nx * ny) as nat,
        |k: int| grid_chunk(image_width, image_height, xs, ys, k % nx, k / nx),
    )
}

/// The `n`-th span begins inside the axis exactly when `n` is less than the
/// number of spans.
pub proof fn lemma_span_count(extent: int, step: int, n: int)
    requires
        0 <= extent,
        1 <= step,
        0 <= n,
    ensures
        n < span_count(extent, step) <==> n * step < extent,
{
    if extent > 0 {
        let q = (extent - 1) / step;
        vstd::arithmetic::div_mod::lemma_fundamental_div_mod(extent - 1, step);
        let r = (extent - 1) % step;
        assert(n <= q <==> n * step < extent) by (nonlinear_arith)
            requires
                extent - 1 == step * q + r,
                0 <= r < step,
                0 <= n,
        ;
    }
}

/// Whether the pixel in column `x` and row `y` lies in `chunk`.
pub open spec fn chunk_contains(chunk: (u32, u32, u32, u32), x: int, y: int) -> bool {
    chunk.0 <= x < chunk.1 && chunk.2 <= y < chunk.3
}

/// Whether `chunk` holds at least one pixel and none outside the image.
pub open spec fn chunk_in_image(chunk: (u32, u32, u32, u32), width: u32, height: u32) -> bool {
    chunk.0 < chunk.1 <= width && chunk.2 < chunk.3 <= height
}

/// Whether the pixel in column `x` and row `y` lies in one of `chunks`.
pub open spec fn covered(chunks: Seq<(u32, u32, u32, u32)>, x: int, y: int) -> bool {
    exists|k: int| 0 <= k < chunks.len() && #[trigger] chunk_contains(chunks[k], x, y)
}

/// Whether `chunks` cut the image into pieces: every chunk lies inside the
/// image and is not empty, every pixel lies in some chunk, and no pixel lies
/// in two.
pub open spec fn partitions_image(chunks: Seq<(u32, u32, u32, u32)>, width: u32, height: u32) -> bool {
    &&& forall|k: int| 0 <= k < chunks.len() ==> chunk_in_image(#[trigger] chunks[k], width, height)
    &&& forall|x: int, y: int| 0 <= x < width && 0 <= y < height ==> #[trigger] covered(chunks, x, y)
    &&& forall|k: int, m: int, x: int, y: int|
        0 <= k < chunks.len() && 0 <= m < chunks.len() && #[trigger] chunk_contains(chunks[k], x, y)
            && #[trigger] chunk_contains(chunks[m], x, y) ==> k == m
}

/// The index, in [`thread_chunks`], of the chunk that the pixel in column `x`
/// and row `y` belongs to.
pub open spec fn chunk_owner(num_threads: u32, image_width: u32, image_height: u32, x: int, y: int) -> int {
    let xs = stride(image_width, num_threads);
    let ys = stride(image_height, num_threads);
    (y / ys) * chunk_columns(num_threads, image_width) + x / xs
}

/// The stride of an axis that has pixels is at least one, and so is the
/// number of its spans; with workers, there are no more spans than workers.
pub proof fn lemma_stride_bounds(extent: u32, workers: u32)
    ensures
        0 <= stride(extent, workers) <= u32::MAX,
        extent > 0 ==> stride(extent, workers) >= 1,
        extent > 0 <==> span_count(extent as int, stride(extent, workers)) >= 1,
        0 <= span_count(extent as int, stride(extent, workers)),
        workers > 0 ==> span_count(extent as int, stride(extent, workers)) <= workers,
{
    let s = stride(extent, workers);
    if extent > 0 {
        if workers > 0 {
            let q = extent as int / workers as int;
            let r = extent as int % workers as int;
            vstd::arithmetic::div_mod::lemma_fundamental_div_mod(extent as int, workers as int);
            assert(q >= 0 && (r == 0 ==> q >= 1) && workers * s >= extent && s <= extent)
                by (nonlinear_arith)
                requires
                    extent == workers * q + r,
                    0 <= r < workers,
                    extent > 0,
                    s == if r == 0 {
                        q
                    } else {
                        q + 1
                    },
            ;
            lemma_span_count(extent as int, s, workers as int);
        }
    }
}

/// The chunk in a column and row of the grid lies inside the image, holds a
/// pixel, and holds exactly the pixels whose coordinates, divided by the
/// strides, give that column and row.
pub proof fn lemma_grid_chunk(width: u32, height: u32, xs: int, ys: int, col: int, row: int)
    requires
        1 <= xs <= u32::MAX,
        1 <= ys <= u32::MAX,
        0 <= col < span_count(width as int, xs),
        0 <= row < span_count(height as int, ys),
    ensures
        chunk_in_image(grid_chunk(width, height, xs, ys, col, row), width, height),
        forall|x: int, y: int|
            0 <= x && 0 <= y ==> (#[trigger] chunk_contains(
                grid_chunk(width, height, xs, ys, col, row),
                x,
                y,
            ) <==> x < width && y < height && x / xs == col && y / ys == row),
{
    lemma_span_count(width as int, xs, col);
    lemma_span_count(height as int, ys, row);
    assert((col + 1) * xs == col * xs + xs) by (nonlinear_arith);
    assert((row + 1) * ys == row * ys + ys) by (nonlinear_arith);
    let chunk = grid_chunk(width, height, xs, ys, col, row);
    assert forall|x: int, y: int| 0 <= x && 0 <= y implies (#[trigger] chunk_contains(chunk, x, y) <==> x
        < width && y < height && x / xs == col && y / ys == row) by {
        lemma_quotient_is_span(x, xs, col);
        lemma_quotient_is_span(y, ys, row);
    }
}

/// A coordinate lies in the `n`-th stride exactly when its quotient by the
/// stride is `n`.
pub proof fn lemma_quotient_is_span(x: int, step: int, n: int)
    requires
        0 <= x,
        1 <= step,
    ensures
        x / step == n <==> n * step <= x < (n + 1) * step,
{
    vstd::arithmetic::div_mod::lemma_fundamental_div_mod(x, step);
    let q = x / step;
    let r = x % step;
    assert(q == n <==> n * step <= x < (n + 1) * step) by (nonlinear_arith)
        requires
            x == step * q + r,
            0 <= r < step,
    ;
}

/// Every pixel of the image lies in exactly one chunk of [`thread_chunks`],
/// the one at [`chunk_owner`]; and every chunk lies inside the image and is
/// not empty. So the chunks cover the image without gaps and without overlap,
/// whatever the number of workers.
pub proof fn lemma_chunks_partition(num_threads: u32, image_width: u32, image_height: u32)
    ensures
        partitions_image(
            thread_chunks(num_threads, image_width, image_height),
            image_width,
            image_height,
        ),
        forall|x: int, y: int|
            0 <= x < image_width && 0 <= y < image_height ==> 0 <= #[trigger] chunk_owner(
                num_threads,
                image_width,
                image_height,
                x,
                y,
            ) < thread_chunks(num_threads, image_width, image_height).len() && chunk_contains(
                thread_chunks(num_threads, image_width, image_height)[chunk_owner(
                    num_threads,
                    image_width,
                    image_height,
                    x,
                    y,
                )],
                x,
                y,
            ),
        num_threads > 0 ==> thread_chunks(num_threads, image_width, image_height).len()
            <= num_threads * num_threads,
{
    let chunks = thread_chunks(num_threads, image_width, image_height);
    let xs = stride(image_width, num_threads);
    let ys = stride(image_height, num_threads);
    let nx = chunk_columns(num_threads, image_width);
    let ny = chunk_rows(num_threads, image_height);
    lemma_stride_bounds(image_width, num_threads);
    lemma_stride_bounds(image_height, num_threads);
    if num_threads > 0 {
        assert(nx * ny <= num_threads * num_threads) by (nonlinear_arith)
            requires
                0 <= nx <= num_threads,
                0 <= ny <= num_threads,
        ;
    }
    assert forall|k: int| 0 <= k < chunks.len() implies {
        &&& 0 <= k % nx < nx
        &&& 0 <= k / nx < ny
        &&& k == (k / nx) * nx + k % nx
        &&& chunks[k] == grid_chunk(image_width, image_height, xs, ys, k % nx, k / nx)
    } by {
        lemma_index_in_grid(k, nx, ny);
    }
    assert forall|k: int| 0 <= k < chunks.len() implies chunk_in_image(
        #[trigger] chunks[k],
        image_width,
        image_height,
    ) by {
        lemma_index_in_grid(k, nx, ny);
        lemma_grid_chunk(image_width, image_height, xs, ys, k % nx, k / nx);
    }
    assert forall|x: int, y: int| 0 <= x < image_width && 0 <= y < image_height implies {
        let k = #[trigger] chunk_owner(num_threads, image_width, image_height, x, y);
        &&& 0 <= k < chunks.len()
        &&& chunk_contains(chunks[k], x, y)
    } by {
        let col = x / xs;
        let row = y / ys;
        lemma_quotient_is_span(x, xs, col);
        lemma_quotient_is_span(y, ys, row);
        lemma_span_count(image_width as int, xs, col);
        lemma_span_count(image_height as int, ys, row);
        lemma_cell_index(col, row, nx, ny);
    }
    assert forall|x: int, y: int| 0 <= x < image_width && 0 <= y < image_height implies #[trigger] covered(
        chunks,
        x,
        y,
    ) by {
        let k = chunk_owner(num_threads, image_width, image_height, x, y);
        assert(chunk_contains(chunks[k], x, y));
    }
    assert forall|k: int, m: int, x: int, y: int|
        0 <= k < chunks.len() && 0 <= m < chunks.len() && #[trigger] chunk_contains(chunks[k], x, y)
            && #[trigger] chunk_contains(chunks[m], x, y) implies k == m by {
        lemma_grid_chunk(image_width, image_height, xs, ys, k % nx, k / nx);
        lemma_grid_chunk(image_width, image_height, xs, ys, m % nx, m / nx);
    }
}

/// An index below `nx * ny` names one cell of a grid of `nx` columns and `ny`
/// rows.
pub proof fn lemma_index_in_grid(k: int, nx: int, ny: int)
    requires
        0 <= nx,
        0 <= ny,
        0 <= k < nx * ny,
    ensures
        0 <= k % nx < nx,
        0 <= k / nx < ny,
        k == (k / nx) * nx + k % nx,
{
    vstd::arithmetic::div_mod::lemma_fundamental_div_mod(k, nx);
    let q = k / nx;
    let r = k % nx;
    assert(0 <= q < ny) by (nonlinear_arith)
        requires
            k == nx * q + r,
            0 <= r < nx,
            0 <= k < nx * ny,
    ;
    assert(nx * q == q * nx) by (nonlinear_arith);
}

/// The cell in column `col` and row `row` of a grid has the index
/// `row * nx + col`.
pub proof fn lemma_cell_index(col: int, row: int, nx: int, ny: int)
    requires
        0 <= col < nx,
        0 <= row < ny,
    ensures
        0 <= row * nx + col < nx * ny,
        (row * nx + col) % nx == col,
        (row * nx + col) / nx == row,
{
    assert(0 <= row * nx + col < nx * ny) by (nonlinear_arith)
        requires
            0 <= col < nx,
            0 <= row < ny,
    ;
    vstd::arithmetic::div_mod::lemma_fundamental_div_mod_converse(row * nx + col, nx, row, col);
}

/// Cuts an image of `image_width` by `image_height` pixels into chunks for
/// `num_threads` workers, each chunk as `(x_start, x_end, y_start, y_end)`.
///
/// The result is [`thread_chunks`]: a grid of up to `num_threads` columns and
/// as many rows, so up to the square of `num_threads` chunks. An image
/// without pixels has no chunks.
pub fn determine_thread_chunks(num_threads: u32, image_width: u32, image_height: u32) -> (chunks:
    Vec<(u32, u32, u32, u32)>)
    ensures
        chunks@ == thread_chunks(num_threads, image_width, image_height),
        partitions_image(chunks@, image_width, image_height),
        num_threads > 0 ==> chunks.len() <= num_threads * num_threads,
{
    proof {
        lemma_chunks_partition(num_threads, image_width, image_height);
    }
    let x_steps: u32 = axis_stride(image_width, num_threads);
    let y_steps: u32 = axis_stride(image_height, num_threads);
    let ghost xs = x_steps as int;
    let ghost ys = y_steps as int;
    let ghost nx = chunk_columns(num_threads, image_width);
    let ghost ny = chunk_rows(num_threads, image_height);
    let mut chunks: Vec<(u32, u32, u32, u32)> = Vec::new();
    let mut j: u32 = 0;
    let ghost mut row: int = 0;
    while j < image_height
        invariant
            xs == x_steps == stride(image_width, num_threads),
            ys == y_steps == stride(image_height, num_threads),
            nx == span_count(image_width as int, xs),
            ny == span_count(image_height as int, ys),
            image_width > 0 ==> xs >= 1,
            image_height > 0 ==> ys >= 1,
            0 <= nx,
            0 <= row <= ny,
            j < image_height ==> j == row * ys,
            j >= image_height ==> j == image_height && row == ny,
            chunks@ == Seq::new(
                (row * nx) as nat,
                |k: int| grid_chunk(image_width, image_height, xs, ys, k % nx, k / nx),
            ),
        decreases image_height - j,
    {
        let y_end: u32 = if image_height - j > y_steps {
            j + y_steps
        } else {
            image_height
        };
        let mut i: u32 = 0;
        let ghost mut col: int = 0;
        proof {
            assert((row + 1) * ys == row * ys + ys) by (nonlinear_arith);
            lemma_span_count(image_height as int, ys, row);
            lemma_span_count(image_height as int, ys, row + 1);
        }
        while i < image_width
            invariant
                xs == x_steps,
                nx == span_count(image_width as int, xs),
                image_width > 0 ==> xs >= 1,
                0 <= row < ny,
                0 <= col <= nx,
                j == span_start(ys, row),
                y_end == span_end(image_height as int, ys, row),
                i < image_width ==> i == col * xs,
                i >= image_width ==> i == image_width && col == nx,
                chunks@ == Seq::new(
                    (row * nx + col) as nat,
                    |k: int| grid_chunk(image_width, image_height, xs, ys, k % nx, k / nx),
                ),
            decreases image_width - i,
        {
            let x_end: u32 = if image_width - i > x_steps {
                i + x_steps
            } else {
                image_width
            };
            proof {
                assert((col + 1) * xs == col * xs + xs) by (nonlinear_arith);
                lemma_span_count(image_width as int, xs, col);
                lemma_span_count(image_width as int, xs, col + 1);
                vstd::arithmetic::div_mod::lemma_fundamental_div_mod_converse(
                    row * nx + col,
                    nx,
                    row,
                    col,
                );
            }
            chunks.push((i, x_end, j, y_end));
            proof {
                col = col + 1;
            }
            i = x_end;
        }
        proof {
            assert((row + 1) * nx == row * nx + nx) by (nonlinear_arith);
            row = row + 1;
        }
        j = y_end;
    }
    chunks
}

/// The number of columns of `chunk`; none where it ends before it begins.
pub open spec fn chunk_width(chunk: (u32, u32, u32, u32)) -> int {
    if chunk.0 < chunk.1 {
        chunk.1 - chunk.0
    } else {
        0
    }
}

/// The number of rows of `chunk`; none where it ends before it begins.
pub open spec fn chunk_height(chunk: (u32, u32, u32, u32)) -> int {
    if chunk.2 < chunk.3 {
        chunk.3 - chunk.2
    } else {
        0
    }
}

/// The number of pixels of `chunk`.
pub open spec fn chunk_area(chunk: (u32, u32, u32, u32)) -> int {
    chunk_width(chunk) * chunk_height(chunk)
}

/// The place of the pixel in column `i` and row `j` in the order in which a
/// chunk is rendered: row after row from the last row of the chunk down to
/// its first, and within a row from the first column up.
pub open spec fn scan_index(chunk: (u32, u32, u32, u32), i: int, j: int) -> int {
    (chunk.3 - 1 - j) * chunk_width(chunk) + (i - chunk.0)
}

/// The column and row of the pixel that is rendered `k`-th in a chunk.
pub open spec fn scan_pixel(chunk: (u32, u32, u32, u32), k: int) -> (int, int) {
    (chunk.0 + k % chunk_width(chunk), chunk.3 - 1 - k / chunk_width(chunk))
}

/// [`scan_index`] and [`scan_pixel`] undo each other: the pixels of a chunk
/// and the places `0..chunk_area` correspond one to one.
pub proof fn lemma_scan_order(chunk: (u32, u32, u32, u32))
    ensures
        0 <= chunk_area(chunk) <= 0xffff_ffff * 0xffff_ffff,
        forall|i: int, j: int| #[trigger]
            chunk_contains(chunk, i, j) ==> {
                &&& 0 <= scan_index(chunk, i, j) < chunk_area(chunk)
                &&& scan_pixel(chunk, scan_index(chunk, i, j)) == (i, j)
            },
        forall|k: int|
            0 <= k < chunk_area(chunk) ==> {
                &&& chunk_contains(chunk, (#[trigger] scan_pixel(chunk, k)).0, scan_pixel(chunk, k).1)
                &&& scan_index(chunk, scan_pixel(chunk, k).0, scan_pixel(chunk, k).1) == k
            },
{
    let w = chunk_width(chunk);
    let h = chunk_height(chunk);
    assert(0 <= w * h <= 0xffff_ffff * 0xffff_ffff) by (nonlinear_arith)
        requires
            0 <= w <= 0xffff_ffff,
            0 <= h <= 0xffff_ffff,
    ;
    assert forall|i: int, j: int| #[trigger] chunk_contains(chunk, i, j) implies {
        &&& 0 <= scan_index(chunk, i, j) < chunk_area(chunk)
        &&& scan_pixel(chunk, scan_index(chunk, i, j)) == (i, j)
    } by {
        lemma_cell_index(i - chunk.0, chunk.3 - 1 - j, w, h);
    }
    assert forall|k: int| 0 <= k < chunk_area(chunk) implies {
        &&& chunk_contains(chunk, (#[trigger] scan_pixel(chunk, k)).0, scan_pixel(chunk, k).1)
        &&& scan_index(chunk, scan_pixel(chunk, k).0, scan_pixel(chunk, k).1) == k
    } by {
        lemma_index_in_grid(k, w, h);
    }
}

/// The number of pixels of `chunk`.
pub fn area(chunk: (u32, u32, u32, u32)) -> (n: u64)
    ensures
        n == chunk_area(chunk),
        n > 0 <==> chunk.0 < chunk.1 && chunk.2 < chunk.3,
{
    if chunk.0 < chunk.1 && chunk.2 < chunk.3 {
        let w: u64 = (chunk.1 - chunk.0) as u64;
        let h: u64 = (chunk.3 - chunk.2) as u64;
        assert(0 < w * h <= 0xffff_ffff * 0xffff_ffff) by (nonlinear_arith)
            requires
                0 < w <= 0xffff_ffff,
                0 < h <= 0xffff_ffff,
        ;
        w * h
    } else {
        0
    }
}

/// The column and row of the pixel that is rendered `k`-th in `chunk`, or
/// `None` where the chunk has no more than `k` pixels.
pub fn chunk_pixel(chunk: (u32, u32, u32, u32), k: u64) -> (pixel: Option<(u32, u32)>)
    ensures
        pixel is Some <==> k < chunk_area(chunk),
        pixel matches Some(p) ==> (p.0 as int, p.1 as int) == scan_pixel(chunk, k as int)
            && chunk_contains(chunk, p.0 as int, p.1 as int),
{
    if k < area(chunk) {
        let w: u64 = (chunk.1 - chunk.0) as u64;
        let across: u64 = k % w;
        let down: u64 = k / w;
        proof {
            lemma_index_in_grid(k as int, chunk_width(chunk), chunk_height(chunk));
        }
        Some((chunk.0 + across as u32, chunk.3 - 1 - down as u32))
    } else {
        None
    }
}

} // verus!
