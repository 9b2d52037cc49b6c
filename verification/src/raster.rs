//! The pixel buffer of a render and the placing of colours into it.
//!
//! The buffer is the `image` crate's 8-bit RGB image. The render counts
//! columns and rows from the corner opposite to the buffer's origin, so the
//! colour of the render's pixel `(i, j)` is kept at
//! `(width - 1 - i, height - 1 - j)`.

use vstd::prelude::*;

verus! {

use crate::chunks::{
    area,
    chunk_area,
    chunk_contains,
    chunk_owner,
    lemma_chunks_partition,
    lemma_scan_order,
    scan_index,
    scan_pixel,
    thread_chunks,
};

/// A grid of 8-bit RGB pixels, `width` columns by `height` rows.
///
/// The pixels are kept by the `image` crate; [`buffer_size`] and
/// [`buffer_pixels`] stand for what it keeps.
#[verifier::external_body]
pub struct PixelBuffer {
    image: image::RgbImage,
}

/// The width and height that the buffer was made with.
pub uninterp spec fn buffer_size(buffer: PixelBuffer) -> (u32, u32);

/// The colours that the buffer holds, by column and row.
pub uninterp spec fn buffer_pixels(buffer: PixelBuffer) -> Map<(int, int), (u8, u8, u8)>;

/// Whether column `x` and row `y` name a pixel of a grid of the given size.
pub open spec fn in_grid(size: (u32, u32), x: int, y: int) -> bool {
    0 <= x < size.0 && 0 <= y < size.1
}

/// The channel bytes of a grid of pixels, row after row from `y = 0` on and,
/// within a row, pixel after pixel from `x = 0` on, three bytes a pixel.
pub open spec fn row_major(pixels: Map<(int, int), (u8, u8, u8)>, size: (u32, u32)) -> Seq<u8> {
    Seq::new(
        (3 * size.0 * size.1) as nat,
        |n: int|
            {
                let rgb = pixels[((n / 3) % (size.0 as int), (n / 3) / (size.0 as int))];
                if n % 3 == 0 {
                    rgb.0
                } else if n % 3 == 1 {
                    rgb.1
                } else {
                    rgb.2
                }
            },
    )
}

/// Where a buffer of the given size keeps the colour of the render's pixel
/// in column `i` and row `j`: the render counts both from the far corner.
pub open spec fn mirrored(size: (u32, u32), i: int, j: int) -> (int, int) {
    (size.0 - 1 - i, size.1 - 1 - j)
}

/// Whether every pixel of `chunk` is a pixel of a grid of the given size.
pub open spec fn chunk_fits(chunk: (u32, u32, u32, u32), size: (u32, u32)) -> bool {
    chunk_area(chunk) == 0 || (chunk.1 <= size.0 && chunk.3 <= size.1)
}

/// The pixels of a buffer after the first `k` colours of a chunk, in the
/// order in which the chunk is rendered, have been put in their places.
spec fn with_scanned(
    pixels: Map<(int, int), (u8, u8, u8)>,
    size: (u32, u32),
    chunk: (u32, u32, u32, u32),
    colors: Seq<(u8, u8, u8)>,
    k: int,
) -> Map<(int, int), (u8, u8, u8)> {
    Map::new(
        |p: (int, int)| pixels.dom().contains(p),
        |p: (int, int)|
            {
                let q = mirrored(size, p.0, p.1);
                if chunk_contains(chunk, q.0, q.1) && scan_index(chunk, q.0, q.1) < k {
                    colors[scan_index(chunk, q.0, q.1)]
                } else {
                    pixels[p]
                }
            },
    )
}

/// The pixels of a buffer after the colours of a chunk have been put in
/// their places: the render's pixel `(i, j)` of the chunk has the colour
/// that was computed for it, `colors[scan_index(chunk, i, j)]`, and every
/// pixel outside the chunk is as it was.
pub open spec fn with_chunk(
    pixels: Map<(int, int), (u8, u8, u8)>,
    size: (u32, u32),
    chunk: (u32, u32, u32, u32),
    colors: Seq<(u8, u8, u8)>,
) -> Map<(int, int), (u8, u8, u8)> {
    Map::new(
        |p: (int, int)| pixels.dom().contains(p),
        |p: (int, int)|
            {
                let q = mirrored(size, p.0, p.1);
                if chunk_contains(chunk, q.0, q.1) {
                    colors[scan_index(chunk, q.0, q.1)]
                } else {
                    pixels[p]
                }
            },
    )
}

/// The colours of a chunk, in the order in which the chunk is rendered, where
/// `shade` gives the colour of each pixel by its column and row.
pub open spec fn chunk_colors(
    chunk: (u32, u32, u32, u32),
    shade: spec_fn(int, int) -> (u8, u8, u8),
) -> Seq<(u8, u8, u8)> {
    Seq::new(
        chunk_area(chunk) as nat,
        |k: int| shade(scan_pixel(chunk, k).0, scan_pixel(chunk, k).1),
    )
}

/// The colours that were computed for each chunk, as sequences.
pub open spec fn color_rows(colors: Seq<Vec<(u8, u8, u8)>>) -> Seq<Seq<(u8, u8, u8)>> {
    Seq::new(colors.len(), |k: int| colors[k]@)
}

/// Whether the colours of every chunk can be kept in a grid of the given
/// size: there is one sequence of colours for each chunk, every chunk lies in
/// the grid, and there is one colour for each of its pixels.
pub open spec fn chunks_storable(
    size: (u32, u32),
    chunks: Seq<(u32, u32, u32, u32)>,
    colors: Seq<Seq<(u8, u8, u8)>>,
) -> bool {
    &&& chunks.len() == colors.len()
    &&& forall|k: int|
        0 <= k < chunks.len() ==> chunk_fits(#[trigger] chunks[k], size) && colors[k].len()
            == chunk_area(chunks[k])
}

/// The pixels of a buffer after the colours of the chunks have been put in
/// their places, chunk after chunk.
pub open spec fn with_chunks(
    pixels: Map<(int, int), (u8, u8, u8)>,
    size: (u32, u32),
    chunks: Seq<(u32, u32, u32, u32)>,
    colors: Seq<Seq<(u8, u8, u8)>>,
) -> Map<(int, int), (u8, u8, u8)>
    decreases chunks.len(),
{
    if chunks.len() == 0 {
        pixels
    } else {
        with_chunk(
            with_chunks(pixels, size, chunks.drop_last(), colors.drop_last()),
            size,
            chunks.last(),
            colors.last(),
        )
    }
}

impl PixelBuffer {
    /// `image::ImageBuffer::new`: a buffer of the given size in which every
    /// channel of every pixel is zero. The outside function panics where
    /// three bytes a pixel are more than a vector can hold, so the size is
    /// bounded.
    #[verifier::external_body]
    fn raw_new(width: u32, height: u32) -> (buffer: PixelBuffer)
        requires
            3 * width * height <= isize::MAX,
        ensures
            buffer_size(buffer) == (width, height),
            forall|x: int, y: int|
                in_grid((width, height), x, y) ==> #[trigger] buffer_pixels(buffer)[(x, y)] == (
                    0u8,
                    0u8,
                    0u8,
                ),
    {
        PixelBuffer { image: image::ImageBuffer::new(width, height) }
    }

    /// `image::ImageBuffer::dimensions`: the width and height of the buffer.
    #[verifier::external_body]
    fn raw_dimensions(&self) -> (size: (u32, u32))
        ensures
            size == buffer_size(*self),
    {
        self.image.dimensions()
    }

    /// `image::ImageBuffer::get_pixel`: the colour at column `x` and row
    /// `y`. The outside function panics outside the grid.
    #[verifier::external_body]
    fn raw_get(&self, x: u32, y: u32) -> (rgb: (u8, u8, u8))
        requires
            in_grid(buffer_size(*self), x as int, y as int),
        ensures
            rgb == buffer_pixels(*self)[(x as int, y as int)],
    {
        let pixel = self.image.get_pixel(x, y);
        (pixel.0[0], pixel.0[1], pixel.0[2])
    }

    /// `image::ImageBuffer::put_pixel`: sets the colour at column `x` and
    /// row `y` and leaves the size and every other pixel as they were. The
    /// outside function panics outside the grid.
    #[verifier::external_body]
    fn raw_put(&mut self, x: u32, y: u32, rgb: (u8, u8, u8))
        requires
            in_grid(buffer_size(*old(self)), x as int, y as int),
        ensures
            buffer_size(*final(self)) == buffer_size(*old(self)),
            buffer_pixels(*final(self)) == buffer_pixels(*old(self)).insert(
                (x as int, y as int),
                rgb,
            ),
    {
        self.image.put_pixel(x, y, image::Rgb([rgb.0, rgb.1, rgb.2]))
    }

    /// `image::ImageBuffer::into_raw`: the vector behind the buffer, which
    /// holds the channels of the pixels in row-major order.
    #[verifier::external_body]
    fn raw_bytes(self) -> (bytes: Vec<u8>)
        ensures
            bytes@ == row_major(buffer_pixels(self), buffer_size(self)),
    {
        self.image.into_raw()
    }
}

impl View for PixelBuffer {
    type V = Map<(int, int), (u8, u8, u8)>;

    /// The colour of every pixel of the grid, by column and row.
    open spec fn view(&self) -> Map<(int, int), (u8, u8, u8)> {
        Map::new(
            |p: (int, int)| in_grid(buffer_size(*self), p.0, p.1),
            |p: (int, int)| buffer_pixels(*self)[p],
        )
    }
}

impl PixelBuffer {
    /// The number of columns.
    pub open spec fn spec_width(&self) -> u32 {
        buffer_size(*self).0
    }

    /// The number of rows.
    pub open spec fn spec_height(&self) -> u32 {
        buffer_size(*self).1
    }

    /// A buffer of `width` by `height` black pixels, or `None` where its
    /// three bytes a pixel are more than a vector can hold.
    pub fn new(width: u32, height: u32) -> (made: Option<PixelBuffer>)
        ensures
            made is Some <==> 3 * width * height <= isize::MAX,
            made matches Some(buffer) ==> {
                &&& buffer.width() == width
                &&& buffer.height() == height
                &&& buffer@ == Map::new(
                    |p: (int, int)| in_grid((width, height), p.0, p.1),
                    |p: (int, int)| (0u8, 0u8, 0u8),
                )
            },
    {
        assert(0 <= width * height <= 0xffff_ffff * 0xffff_ffff) by (nonlinear_arith);
        let pixels: u128 = (width as u128) * (height as u128);
        let bytes: u128 = 3 * pixels;
        if bytes <= isize::MAX as u128 {
            assert(3 * (width * height) == 3 * width * height) by (nonlinear_arith);
            let buffer = PixelBuffer::raw_new(width, height);
            Some(buffer)
        } else {
            assert(3 * (width * height) == 3 * width * height) by (nonlinear_arith);
            None
        }
    }

    /// The number of columns.
    #[verifier::when_used_as_spec(spec_width)]
    pub fn width(&self) -> (w: u32)
        ensures
            w == self.width(),
    {
        self.raw_dimensions().0
    }

    /// The number of rows.
    #[verifier::when_used_as_spec(spec_height)]
    pub fn height(&self) -> (h: u32)
        ensures
            h == self.height(),
    {
        self.raw_dimensions().1
    }

    /// The colour at column `x` and row `y` of the buffer, or `None` outside
    /// the grid.
    pub fn get_pixel(&self, x: u32, y: u32) -> (found: Option<(u8, u8, u8)>)
        ensures
            found == if in_grid(buffer_size(*self), x as int, y as int) {
                Some(self@[(x as int, y as int)])
            } else {
                None
            },
    {
        let size = self.raw_dimensions();
        if x < size.0 && y < size.1 {
            Some(self.raw_get(x, y))
        } else {
            None
        }
    }

    /// Keeps `rgb` as the colour of the render's pixel in column `i` and row
    /// `j`, at the mirrored place of the buffer. Outside the grid nothing is
    /// kept and the result is `false`.
    pub fn store_pixel(&mut self, i: u32, j: u32, rgb: (u8, u8, u8)) -> (stored: bool)
        ensures
            stored == in_grid(buffer_size(*old(self)), i as int, j as int),
            buffer_size(*final(self)) == buffer_size(*old(self)),
            final(self)@ == if stored {
                old(self)@.insert(mirrored(buffer_size(*old(self)), i as int, j as int), rgb)
            } else {
                old(self)@
            },
    {
        let size = self.raw_dimensions();
        if i < size.0 && j < size.1 {
            self.raw_put(size.0 - 1 - i, size.1 - 1 - j, rgb);
            true
        } else {
            false
        }
    }

    /// Keeps the colours that were computed for `chunk`, given in the order
    /// in which the chunk is rendered, each at the mirrored place of its
    /// pixel. Where the chunk reaches outside the grid, or `colors` has not
    /// one colour for each pixel of the chunk, nothing is kept and the result
    /// is `false`.
    pub fn store_chunk(&mut self, chunk: (u32, u32, u32, u32), colors: &Vec<(u8, u8, u8)>) -> (stored:
        bool)
        ensures
            stored == (chunk_fits(chunk, buffer_size(*old(self))) && colors.len() == chunk_area(
                chunk,
            )),
            buffer_size(*final(self)) == buffer_size(*old(self)),
            final(self)@ == if stored {
                with_chunk(old(self)@, buffer_size(*old(self)), chunk, colors@)
            } else {
                old(self)@
            },
    {
        let size = self.raw_dimensions();
        let pixels: u64 = area(chunk);
        if colors.len() as u64 != pixels {
            return false;
        }
        proof {
            lemma_scan_order(chunk);
        }
        if pixels == 0 {
            return true;
        }
        if chunk.1 > size.0 || chunk.3 > size.1 {
            return false;
        }
        let ghost before = old(self)@;
        let ghost cw = chunk.1 - chunk.0;
        let mut k: usize = 0;
        let mut j: u32 = chunk.3;
        while j > chunk.2
            invariant
                chunk.0 < chunk.1 <= size.0,
                chunk.2 <= j <= chunk.3 <= size.1,
                cw == chunk.1 - chunk.0,
                colors.len() == chunk_area(chunk) == cw * (chunk.3 - chunk.2),
                buffer_size(*self) == size,
                k == (chunk.3 - j) * cw,
                self@ == with_scanned(before, size, chunk, colors@, k as int),
            decreases j,
        {
            j = j - 1;
            let mut i: u32 = chunk.0;
            while i < chunk.1
                invariant
                    chunk.0 <= i <= chunk.1 <= size.0,
                    chunk.2 <= j < chunk.3 <= size.1,
                    cw == chunk.1 - chunk.0,
                    colors.len() == chunk_area(chunk) == cw * (chunk.3 - chunk.2),
                    buffer_size(*self) == size,
                    k == (chunk.3 - 1 - j) * cw + (i - chunk.0),
                    self@ == with_scanned(before, size, chunk, colors@, k as int),
                decreases chunk.1 - i,
            {
                proof {
                    lemma_scan_order(chunk);
                    assert(chunk_contains(chunk, i as int, j as int));
                }
                let ghost prior = self@;
                let rgb = colors[k];
                self.raw_put(size.0 - 1 - i, size.1 - 1 - j, rgb);
                proof {
                    assert(self@ =~= prior.insert(mirrored(size, i as int, j as int), rgb));
                }
                k = k + 1;
                i = i + 1;
            }
            assert((chunk.3 - 1 - j) * cw + cw == (chunk.3 - j) * cw) by (nonlinear_arith);
        }
        proof {
            assert(k == chunk_area(chunk)) by (nonlinear_arith)
                requires
                    k == (chunk.3 - j) * cw,
                    j == chunk.2,
                    chunk_area(chunk) == cw * (chunk.3 - chunk.2),
            ;
        }
        true
    }

    /// Keeps the colours that were computed for each of `chunks`, chunk after
    /// chunk as [`PixelBuffer::store_chunk`] does. Where the colours cannot
    /// be kept (see [`chunks_storable`]) nothing is kept and the result is
    /// `false`.
    pub fn store_chunks(
        &mut self,
        chunks: &Vec<(u32, u32, u32, u32)>,
        colors: &Vec<Vec<(u8, u8, u8)>>,
    ) -> (stored: bool)
        ensures
            stored == chunks_storable(buffer_size(*old(self)), chunks@, color_rows(colors@)),
            buffer_size(*final(self)) == buffer_size(*old(self)),
            final(self)@ == if stored {
                with_chunks(old(self)@, buffer_size(*old(self)), chunks@, color_rows(colors@))
            } else {
                old(self)@
            },
    {
        let size = self.raw_dimensions();
        let ghost rows = color_rows(colors@);
        if chunks.len() != colors.len() {
            return false;
        }
        let mut n: usize = 0;
        while n < chunks.len()
            invariant
                n <= chunks.len() == colors.len(),
                rows == color_rows(colors@),
                size == buffer_size(*old(self)),
                *self == *old(self),
                forall|k: int|
                    0 <= k < n ==> chunk_fits(#[trigger] chunks@[k], size) && rows[k].len()
                        == chunk_area(chunks@[k]),
            decreases chunks.len() - n,
        {
            let chunk = chunks[n];
            let pixels: u64 = area(chunk);
            if colors[n].len() as u64 != pixels {
                return false;
            }
            if pixels != 0 && (chunk.1 > size.0 || chunk.3 > size.1) {
                return false;
            }
            n = n + 1;
        }
        let ghost before = self@;
        let mut n: usize = 0;
        while n < chunks.len()
            invariant
                before == old(self)@,
                size == buffer_size(*old(self)),
                n <= chunks.len() == colors.len(),
                rows == color_rows(colors@),
                chunks_storable(size, chunks@, rows),
                buffer_size(*self) == size,
                self@ == with_chunks(before, size, chunks@.take(n as int), rows.take(n as int)),
            decreases chunks.len() - n,
        {
            let kept = self.store_chunk(chunks[n], &colors[n]);
            proof {
                assert(kept);
                assert(chunks@.take(n + 1).drop_last() =~= chunks@.take(n as int));
                assert(rows.take(n + 1).drop_last() =~= rows.take(n as int));
            }
            n = n + 1;
        }
        proof {
            assert(chunks@.take(n as int) =~= chunks@);
            assert(rows.take(n as int) =~= rows);
        }
        true
    }

    /// The channels of the pixels in row-major order, three bytes a pixel.
    pub fn into_raw(self) -> (bytes: Vec<u8>)
        ensures
            bytes@ == row_major(self@, buffer_size(self)),
    {
        proof {
            lemma_row_major_reads_grid(buffer_pixels(self), self@, buffer_size(self));
        }
        self.raw_bytes()
    }
}

/// Mirroring twice gives the pixel back, and a pixel lies in the grid exactly
/// when its mirrored place does. So the pixels of the render and the places
/// of the buffer correspond one to one.
pub proof fn lemma_mirrored_twice(size: (u32, u32), i: int, j: int)
    ensures
        mirrored(size, mirrored(size, i, j).0, mirrored(size, i, j).1) == (i, j),
        in_grid(size, mirrored(size, i, j).0, mirrored(size, i, j).1) <==> in_grid(size, i, j),
{
}

/// Putting chunks in their places neither adds a pixel to the buffer nor
/// takes one away.
pub proof fn lemma_with_chunks_keeps_grid(
    pixels: Map<(int, int), (u8, u8, u8)>,
    size: (u32, u32),
    chunks: Seq<(u32, u32, u32, u32)>,
    colors: Seq<Seq<(u8, u8, u8)>>,
)
    ensures
        with_chunks(pixels, size, chunks, colors).dom() == pixels.dom(),
    decreases chunks.len(),
{
    if chunks.len() > 0 {
        lemma_with_chunks_keeps_grid(pixels, size, chunks.drop_last(), colors.drop_last());
    }
}

/// After the chunks have been put in their places, the render's pixel
/// `(i, j)` has the colour that was computed for it in the last chunk that
/// holds it.
pub proof fn lemma_last_chunk_decides(
    pixels: Map<(int, int), (u8, u8, u8)>,
    size: (u32, u32),
    chunks: Seq<(u32, u32, u32, u32)>,
    colors: Seq<Seq<(u8, u8, u8)>>,
    k: int,
    i: int,
    j: int,
)
    requires
        chunks.len() == colors.len(),
        pixels.dom().contains(mirrored(size, i, j)),
        0 <= k < chunks.len(),
        chunk_contains(chunks[k], i, j),
        forall|m: int| k < m < chunks.len() ==> !chunk_contains(#[trigger] chunks[m], i, j),
    ensures
        with_chunks(pixels, size, chunks, colors)[mirrored(size, i, j)] == colors[k][scan_index(
            chunks[k],
            i,
            j,
        )],
    decreases chunks.len(),
{
    lemma_with_chunks_keeps_grid(pixels, size, chunks.drop_last(), colors.drop_last());
    if k < chunks.len() - 1 {
        lemma_last_chunk_decides(pixels, size, chunks.drop_last(), colors.drop_last(), k, i, j);
    }
}

/// After the chunks have been put in their places, a pixel of the render
/// that no chunk holds has the colour it had before.
pub proof fn lemma_outside_chunks_unchanged(
    pixels: Map<(int, int), (u8, u8, u8)>,
    size: (u32, u32),
    chunks: Seq<(u32, u32, u32, u32)>,
    colors: Seq<Seq<(u8, u8, u8)>>,
    i: int,
    j: int,
)
    requires
        pixels.dom().contains(mirrored(size, i, j)),
        forall|m: int| 0 <= m < chunks.len() ==> !chunk_contains(#[trigger] chunks[m], i, j),
    ensures
        with_chunks(pixels, size, chunks, colors)[mirrored(size, i, j)] == pixels[mirrored(
            size,
            i,
            j,
        )],
    decreases chunks.len(),
{
    if chunks.len() > 0 {
        lemma_with_chunks_keeps_grid(pixels, size, chunks.drop_last(), colors.drop_last());
        lemma_outside_chunks_unchanged(pixels, size, chunks.drop_last(), colors.drop_last(), i, j);
    }
}

/// A render is complete: once the colours of the chunks that
/// [`thread_chunks`] cuts the image into have been put in their places,
/// every pixel `(i, j)` of the image has the colour that was computed for it
/// in the one chunk that holds it, whatever the buffer held before and
/// whatever the number of workers.
pub proof fn lemma_render_complete(
    pixels: Map<(int, int), (u8, u8, u8)>,
    size: (u32, u32),
    num_threads: u32,
    colors: Seq<Seq<(u8, u8, u8)>>,
    i: int,
    j: int,
)
    requires
        in_grid(size, i, j),
        pixels.dom().contains(mirrored(size, i, j)),
        colors.len() == thread_chunks(num_threads, size.0, size.1).len(),
    ensures
        ({
            let chunks = thread_chunks(num_threads, size.0, size.1);
            let k = chunk_owner(num_threads, size.0, size.1, i, j);
            &&& 0 <= k < chunks.len()
            &&& chunk_contains(chunks[k], i, j)
            &&& with_chunks(pixels, size, chunks, colors)[mirrored(size, i, j)]
                == colors[k][scan_index(chunks[k], i, j)]
        }),
{
    let chunks = thread_chunks(num_threads, size.0, size.1);
    let k = chunk_owner(num_threads, size.0, size.1, i, j);
    lemma_chunks_partition(num_threads, size.0, size.1);
    lemma_last_chunk_decides(pixels, size, chunks, colors, k, i, j);
}

/// A render does not depend on how the image is cut: where `shade` gives the
/// colour of each pixel, and the colours of every chunk are put in their
/// places, the render's pixel `(i, j)` has the colour `shade(i, j)`, whether
/// the image was cut into chunks for any number of workers or taken as the
/// one chunk that a single worker renders.
pub proof fn lemma_render_is_pointwise(
    pixels: Map<(int, int), (u8, u8, u8)>,
    size: (u32, u32),
    num_threads: u32,
    shade: spec_fn(int, int) -> (u8, u8, u8),
    i: int,
    j: int,
)
    requires
        in_grid(size, i, j),
        pixels.dom().contains(mirrored(size, i, j)),
    ensures
        with_chunks(
            pixels,
            size,
            thread_chunks(num_threads, size.0, size.1),
            thread_chunks(num_threads, size.0, size.1).map_values(
                |chunk: (u32, u32, u32, u32)| chunk_colors(chunk, shade),
            ),
        )[mirrored(size, i, j)] == shade(i, j),
        with_chunk(pixels, size, (0, size.0, 0, size.1), chunk_colors((0, size.0, 0, size.1), shade))[mirrored(
            size,
            i,
            j,
        )] == shade(i, j),
{
    let chunks = thread_chunks(num_threads, size.0, size.1);
    let colors = chunks.map_values(|chunk: (u32, u32, u32, u32)| chunk_colors(chunk, shade));
    let k = chunk_owner(num_threads, size.0, size.1, i, j);
    lemma_render_complete(pixels, size, num_threads, colors, i, j);
    lemma_scan_order(chunks[k]);
    let whole = (0u32, size.0, 0u32, size.1);
    lemma_scan_order(whole);
    lemma_mirrored_twice(size, i, j);
    assert(chunk_contains(whole, i, j));
}

/// The row-major bytes of a grid depend only on the pixels of the grid.
pub proof fn lemma_row_major_reads_grid(
    a: Map<(int, int), (u8, u8, u8)>,
    b: Map<(int, int), (u8, u8, u8)>,
    size: (u32, u32),
)
    requires
        forall|x: int, y: int| in_grid(size, x, y) ==> #[trigger] a[(x, y)] == b[(x, y)],
    ensures
        row_major(a, size) == row_major(b, size),
{
    let w = size.0 as int;
    let h = size.1 as int;
    assert forall|n: int| 0 <= n < 3 * w * h implies row_major(a, size)[n] == row_major(b, size)[n] by {
        let m = n / 3;
        assert(0 <= m < w * h) by (nonlinear_arith)
            requires
                0 <= n < 3 * w * h,
                m == n / 3,
        ;
        crate::chunks::lemma_index_in_grid(m, w, h);
    }
}

} // verus!
