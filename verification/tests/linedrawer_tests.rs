use raytracer::framebuffer::{FrameBuffer, FrameBufferError, Pixel};
use raytracer::linedrawer::draw_line;

fn painted(fb: &FrameBuffer) -> Vec<(i32, i32)> {
    let w = fb.width() as i32;
    let mut out = Vec::new();
    for (i, p) in fb.pixels().iter().enumerate() {
        if *p != Pixel::default() {
            out.push((i as i32 % w, i as i32 / w));
        }
    }
    out.sort();
    out
}

fn is_white(p: &Pixel) -> bool {
    f32::from_bits(p.colour.r) == 1.0
        && f32::from_bits(p.colour.g) == 1.0
        && f32::from_bits(p.colour.b) == 1.0
}

#[test]
fn horizontal_line_excludes_its_far_end() {
    let mut fb = FrameBuffer::new(8, 8).unwrap();
    draw_line(&mut fb, 1, 2, 4, 2).unwrap();
    assert_eq!(painted(&fb), vec![(1, 2), (2, 2), (3, 2)]);
    assert!(is_white(fb.get_pixel(1, 2).unwrap()));
}

#[test]
fn shallow_line_follows_bresenham() {
    let mut fb = FrameBuffer::new(8, 8).unwrap();
    draw_line(&mut fb, 0, 0, 5, 2).unwrap();
    assert_eq!(painted(&fb), vec![(0, 0), (1, 0), (2, 1), (3, 1), (4, 2)]);
}

#[test]
fn reversed_line_walks_from_the_left_end() {
    let mut fb = FrameBuffer::new(8, 8).unwrap();
    draw_line(&mut fb, 5, 2, 0, 0).unwrap();
    // Walked from (0, 0): the far end (5, 2) is excluded, the start kept.
    assert_eq!(painted(&fb), vec![(0, 0), (1, 0), (2, 1), (3, 1), (4, 2)]);
}

#[test]
fn steep_line_walks_along_y() {
    let mut fb = FrameBuffer::new(8, 8).unwrap();
    draw_line(&mut fb, 1, 1, 3, 6).unwrap();
    // n = 5, d = 2 along y from (1, 1).
    assert_eq!(painted(&fb), vec![(1, 1), (1, 2), (2, 3), (2, 4), (3, 5)]);
}

#[test]
fn descending_line_steps_down() {
    let mut fb = FrameBuffer::new(8, 8).unwrap();
    draw_line(&mut fb, 0, 4, 4, 2).unwrap();
    assert_eq!(painted(&fb), vec![(0, 4), (1, 4), (2, 3), (3, 3)]);
}

#[test]
fn diagonal_line_is_walked_along_y() {
    let mut fb = FrameBuffer::new(8, 8).unwrap();
    draw_line(&mut fb, 0, 0, 3, 3).unwrap();
    assert_eq!(painted(&fb), vec![(0, 0), (1, 1), (2, 2)]);
}

#[test]
fn a_single_point_paints_nothing() {
    let mut fb = FrameBuffer::new(8, 8).unwrap();
    draw_line(&mut fb, 3, 3, 3, 3).unwrap();
    assert!(painted(&fb).is_empty());
}

#[test]
fn leaving_the_framebuffer_stops_at_the_first_outside_pixel() {
    let mut fb = FrameBuffer::new(4, 4).unwrap();
    let r = draw_line(&mut fb, 1, 0, 7, 0);
    assert_eq!(r, Err(FrameBufferError::PixelOutOfBounds { x: 4, y: 0 }));
    assert_eq!(painted(&fb), vec![(1, 0), (2, 0), (3, 0)]);
}

#[test]
fn starting_outside_paints_nothing() {
    let mut fb = FrameBuffer::new(4, 4).unwrap();
    let r = draw_line(&mut fb, -2, 1, 3, 1);
    assert_eq!(r, Err(FrameBufferError::PixelOutOfBounds { x: -2, y: 1 }));
    assert!(painted(&fb).is_empty());
}

#[test]
fn every_pixel_is_within_half_a_pixel_of_the_segment() {
    for &(x0, y0, x1, y1) in &[(0, 0, 7, 3), (7, 1, 0, 6), (2, 0, 5, 7), (6, 7, 1, 0)] {
        let mut fb = FrameBuffer::new(8, 8).unwrap();
        draw_line(&mut fb, x0, y0, x1, y1).unwrap();
        let pts = painted(&fb);
        let len = (x1 - x0).abs().max((y1 - y0).abs());
        assert_eq!(pts.len() as i32, len);
        for (x, y) in pts {
            let cross = (x - x0) * (y1 - y0) - (y - y0) * (x1 - x0);
            assert!((2 * cross).abs() <= len);
        }
    }
}

#[test]
fn far_coordinates_do_not_overflow() {
    let mut fb = FrameBuffer::new(4, 4).unwrap();
    let r = draw_line(&mut fb, i32::MIN, i32::MIN, i32::MAX, i32::MAX);
    assert_eq!(r, Err(FrameBufferError::PixelOutOfBounds { x: i32::MIN, y: i32::MIN }));
}
