use ray_tracer::chunks::{area, chunk_pixel, determine_thread_chunks};
use ray_tracer::raster::PixelBuffer;

const BLACK: (u8, u8, u8) = (0, 0, 0);

/// The colour that stands for the render's pixel `(i, j)` in these tests.
fn shade(i: u32, j: u32) -> (u8, u8, u8) {
    (i as u8 + 1, j as u8 + 101, (i * 16 + j) as u8)
}

fn shade_chunk(chunk: (u32, u32, u32, u32)) -> Vec<(u8, u8, u8)> {
    (0..area(chunk))
        .map(|k| {
            let (i, j) = chunk_pixel(chunk, k).unwrap();
            shade(i, j)
        })
        .collect()
}

fn snapshot(buffer: &PixelBuffer) -> Vec<Option<(u8, u8, u8)>> {
    let mut all = vec![];
    for y in 0..buffer.height() {
        for x in 0..buffer.width() {
            all.push(buffer.get_pixel(x, y));
        }
    }
    all
}

#[test]
fn new_buffer_is_black() {
    let buffer = PixelBuffer::new(4, 3).unwrap();
    assert_eq!(buffer.width(), 4);
    assert_eq!(buffer.height(), 3);
    for y in 0..3 {
        for x in 0..4 {
            assert_eq!(buffer.get_pixel(x, y), Some(BLACK));
        }
    }
}

#[test]
fn new_buffer_may_have_no_pixels() {
    let buffer = PixelBuffer::new(0, 5).unwrap();
    assert_eq!(buffer.width(), 0);
    assert_eq!(buffer.height(), 5);
    assert_eq!(buffer.get_pixel(0, 0), None);
    assert!(buffer.into_raw().is_empty());
}

#[test]
fn new_refuses_what_no_vector_holds() {
    assert!(PixelBuffer::new(u32::MAX, u32::MAX).is_none());
}

#[test]
fn get_pixel_outside_the_grid_is_none() {
    let buffer = PixelBuffer::new(4, 3).unwrap();
    assert_eq!(buffer.get_pixel(4, 0), None);
    assert_eq!(buffer.get_pixel(0, 3), None);
    assert_eq!(buffer.get_pixel(u32::MAX, u32::MAX), None);
    assert_eq!(buffer.get_pixel(3, 2), Some(BLACK));
}

#[test]
fn store_pixel_writes_at_the_mirrored_place() {
    let mut buffer = PixelBuffer::new(4, 3).unwrap();
    assert!(buffer.store_pixel(0, 0, (1, 2, 3)));
    assert_eq!(buffer.get_pixel(3, 2), Some((1, 2, 3)));
    assert!(buffer.store_pixel(3, 2, (4, 5, 6)));
    assert_eq!(buffer.get_pixel(0, 0), Some((4, 5, 6)));
    assert!(buffer.store_pixel(1, 2, (7, 8, 9)));
    assert_eq!(buffer.get_pixel(2, 0), Some((7, 8, 9)));
    let painted = snapshot(&buffer).iter().filter(|p| **p != Some(BLACK)).count();
    assert_eq!(painted, 3);
    assert_eq!(buffer.width(), 4);
    assert_eq!(buffer.height(), 3);
}

#[test]
fn store_pixel_outside_the_grid_keeps_nothing() {
    let mut buffer = PixelBuffer::new(4, 3).unwrap();
    assert!(!buffer.store_pixel(4, 0, (1, 2, 3)));
    assert!(!buffer.store_pixel(0, 3, (1, 2, 3)));
    assert!(snapshot(&buffer).iter().all(|p| *p == Some(BLACK)));
}

#[test]
fn store_pixel_replaces_the_colour_kept_before() {
    let mut buffer = PixelBuffer::new(2, 2).unwrap();
    assert!(buffer.store_pixel(1, 1, (1, 1, 1)));
    assert!(buffer.store_pixel(1, 1, (9, 8, 7)));
    assert_eq!(buffer.get_pixel(0, 0), Some((9, 8, 7)));
}

#[test]
fn into_raw_is_row_major_with_three_bytes_a_pixel() {
    let mut buffer = PixelBuffer::new(3, 2).unwrap();
    // The render's pixel (0, 0) is kept at column 2 of row 1.
    assert!(buffer.store_pixel(0, 0, (10, 20, 30)));
    // The render's pixel (2, 1) is kept at column 0 of row 0.
    assert!(buffer.store_pixel(2, 1, (1, 2, 3)));
    let bytes = buffer.into_raw();
    assert_eq!(
        bytes,
        vec![1, 2, 3, 0, 0, 0, 0, 0, 0, 0, 0, 0, 0, 0, 0, 10, 20, 30]
    );
}

#[test]
fn into_raw_can_be_read_back_as_an_image() {
    let mut buffer = PixelBuffer::new(3, 2).unwrap();
    assert!(buffer.store_pixel(1, 0, (10, 20, 30)));
    let picture = image::RgbImage::from_raw(3, 2, buffer.into_raw()).unwrap();
    assert_eq!(picture.get_pixel(1, 1), &image::Rgb([10, 20, 30]));
    assert_eq!(picture.get_pixel(0, 0), &image::Rgb([0, 0, 0]));
}

#[test]
fn store_chunk_places_every_colour_of_the_chunk() {
    let mut buffer = PixelBuffer::new(5, 4).unwrap();
    let chunk = (1, 4, 1, 3);
    assert!(buffer.store_chunk(chunk, &shade_chunk(chunk)));
    for j in 0..4u32 {
        for i in 0..5u32 {
            let inside = 1 <= i && i < 4 && 1 <= j && j < 3;
            let expected = if inside { shade(i, j) } else { BLACK };
            assert_eq!(buffer.get_pixel(4 - i, 3 - j), Some(expected));
        }
    }
}

#[test]
fn store_chunk_takes_colours_in_scan_order() {
    let mut buffer = PixelBuffer::new(2, 2).unwrap();
    let colors = vec![(1, 0, 0), (2, 0, 0), (3, 0, 0), (4, 0, 0)];
    assert!(buffer.store_chunk((0, 2, 0, 2), &colors));
    // First comes the render's pixel (0, 1), which is kept at (1, 0).
    assert_eq!(buffer.get_pixel(1, 0), Some((1, 0, 0)));
    assert_eq!(buffer.get_pixel(0, 0), Some((2, 0, 0)));
    assert_eq!(buffer.get_pixel(1, 1), Some((3, 0, 0)));
    assert_eq!(buffer.get_pixel(0, 1), Some((4, 0, 0)));
}

#[test]
fn store_chunk_refuses_a_wrong_number_of_colours() {
    let mut buffer = PixelBuffer::new(5, 4).unwrap();
    let chunk = (1, 4, 1, 3);
    let mut colors = shade_chunk(chunk);
    colors.pop();
    assert!(!buffer.store_chunk(chunk, &colors));
    colors.push((1, 1, 1));
    colors.push((1, 1, 1));
    assert!(!buffer.store_chunk(chunk, &colors));
    assert!(!buffer.store_chunk(chunk, &vec![]));
    assert!(snapshot(&buffer).iter().all(|p| *p == Some(BLACK)));
}

#[test]
fn store_chunk_refuses_a_chunk_outside_the_grid() {
    let mut buffer = PixelBuffer::new(5, 4).unwrap();
    let wide = (3, 6, 0, 2);
    assert!(!buffer.store_chunk(wide, &shade_chunk(wide)));
    let tall = (0, 2, 3, 5);
    assert!(!buffer.store_chunk(tall, &shade_chunk(tall)));
    assert!(snapshot(&buffer).iter().all(|p| *p == Some(BLACK)));
}

#[test]
fn store_chunk_accepts_an_empty_chunk() {
    let mut buffer = PixelBuffer::new(5, 4).unwrap();
    assert!(buffer.store_chunk((2, 2, 0, 4), &vec![]));
    assert!(buffer.store_chunk((9, 9, 9, 9), &vec![]));
    assert!(buffer.store_chunk((4, 1, 0, 4), &vec![]));
    assert!(!buffer.store_chunk((2, 2, 0, 4), &vec![(1, 1, 1)]));
    assert!(snapshot(&buffer).iter().all(|p| *p == Some(BLACK)));
}

#[test]
fn whole_image_as_one_chunk() {
    let mut buffer = PixelBuffer::new(7, 5).unwrap();
    let chunk = (0, 7, 0, 5);
    assert!(buffer.store_chunk(chunk, &shade_chunk(chunk)));
    for j in 0..5u32 {
        for i in 0..7u32 {
            assert_eq!(buffer.get_pixel(6 - i, 4 - j), Some(shade(i, j)));
        }
    }
}

#[test]
fn chunks_of_a_render_fill_the_whole_image() {
    for workers in 0..6u32 {
        let (width, height) = (7u32, 5u32);
        let chunks = determine_thread_chunks(workers, width, height);
        let colors: Vec<Vec<(u8, u8, u8)>> = chunks.iter().map(|c| shade_chunk(*c)).collect();
        let mut buffer = PixelBuffer::new(width, height).unwrap();
        assert!(buffer.store_chunks(&chunks, &colors));
        for j in 0..height {
            for i in 0..width {
                assert_eq!(
                    buffer.get_pixel(width - 1 - i, height - 1 - j),
                    Some(shade(i, j)),
                    "{} workers, pixel ({}, {})",
                    workers,
                    i,
                    j
                );
            }
        }
    }
}

#[test]
fn chunked_and_whole_renders_agree() {
    let (width, height) = (9u32, 6u32);
    let mut whole = PixelBuffer::new(width, height).unwrap();
    let all = (0, width, 0, height);
    assert!(whole.store_chunk(all, &shade_chunk(all)));
    let chunks = determine_thread_chunks(4, width, height);
    let colors: Vec<Vec<(u8, u8, u8)>> = chunks.iter().map(|c| shade_chunk(*c)).collect();
    let mut tiled = PixelBuffer::new(width, height).unwrap();
    assert!(tiled.store_chunks(&chunks, &colors));
    assert_eq!(whole.into_raw(), tiled.into_raw());
}

#[test]
fn later_chunk_wins_where_chunks_overlap() {
    let mut buffer = PixelBuffer::new(3, 1).unwrap();
    let chunks = vec![(0, 2, 0, 1), (1, 3, 0, 1)];
    let colors = vec![vec![(1, 1, 1), (2, 2, 2)], vec![(3, 3, 3), (4, 4, 4)]];
    assert!(buffer.store_chunks(&chunks, &colors));
    assert_eq!(buffer.get_pixel(2, 0), Some((1, 1, 1)));
    assert_eq!(buffer.get_pixel(1, 0), Some((3, 3, 3)));
    assert_eq!(buffer.get_pixel(0, 0), Some((4, 4, 4)));
}

#[test]
fn store_chunks_keeps_pixels_that_no_chunk_holds() {
    let mut buffer = PixelBuffer::new(3, 2).unwrap();
    assert!(buffer.store_pixel(2, 1, (9, 9, 9)));
    assert!(buffer.store_chunks(&vec![(0, 1, 0, 1)], &vec![vec![(5, 5, 5)]]));
    assert_eq!(buffer.get_pixel(0, 0), Some((9, 9, 9)));
    assert_eq!(buffer.get_pixel(2, 1), Some((5, 5, 5)));
    assert_eq!(buffer.get_pixel(1, 1), Some(BLACK));
}

#[test]
fn store_chunks_with_nothing_to_store() {
    let mut buffer = PixelBuffer::new(3, 2).unwrap();
    assert!(buffer.store_chunks(&vec![], &vec![]));
    assert!(snapshot(&buffer).iter().all(|p| *p == Some(BLACK)));
}

#[test]
fn store_chunks_refuses_everything_if_one_chunk_is_wrong() {
    let mut buffer = PixelBuffer::new(4, 4).unwrap();
    let good = (0, 2, 0, 2);
    let outside = (3, 5, 0, 1);
    // One chunk reaches outside the grid.
    assert!(!buffer.store_chunks(
        &vec![good, outside],
        &vec![shade_chunk(good), shade_chunk(outside)]
    ));
    // One chunk has a colour too few.
    let short = vec![(1, 1, 1)];
    assert!(!buffer.store_chunks(&vec![good, (2, 4, 2, 3)], &vec![shade_chunk(good), short]));
    // There are more chunks than sequences of colours, and the other way round.
    assert!(!buffer.store_chunks(&vec![good, good], &vec![shade_chunk(good)]));
    assert!(!buffer.store_chunks(&vec![good], &vec![shade_chunk(good), shade_chunk(good)]));
    assert!(snapshot(&buffer).iter().all(|p| *p == Some(BLACK)));
}
