use raytracer::framebuffer::{Colour, FrameBuffer, FrameBufferError, Pixel, MAX_HEIGHT, MAX_WIDTH};

fn bits(r: f32, g: f32, b: f32, a: f32) -> Colour {
    Colour::new(r.to_bits(), g.to_bits(), b.to_bits(), a.to_bits())
}

#[test]
fn new_framebuffer_is_blank() {
    let fb = FrameBuffer::new(4, 3).unwrap();
    assert_eq!(fb.width(), 4);
    assert_eq!(fb.height(), 3);
    assert_eq!(fb.pixels().len(), 12);
    assert!(fb.pixels().iter().all(|p| *p == Pixel::default()));
    assert_eq!(*fb.get_pixel(3, 2).unwrap(), Pixel::default());
}

#[test]
fn new_accepts_the_maximum_size() {
    let fb = FrameBuffer::new(MAX_WIDTH, MAX_HEIGHT).unwrap();
    assert_eq!(fb.pixels().len(), 2048 * 2048);
}

#[test]
fn new_rejects_oversized_dimensions() {
    match FrameBuffer::new(2049, 10) {
        Err(e) => assert_eq!(e, FrameBufferError::DimensionError { width: 2049, height: 10 }),
        Ok(_) => panic!("expected a dimension error"),
    }
    match FrameBuffer::new(10, 4000) {
        Err(e) => assert_eq!(e, FrameBufferError::DimensionError { width: 10, height: 4000 }),
        Ok(_) => panic!("expected a dimension error"),
    }
}

#[test]
fn new_accepts_empty_dimensions() {
    let fb = FrameBuffer::new(0, 0).unwrap();
    assert_eq!(fb.pixels().len(), 0);
    assert_eq!(fb.get_pixel(0, 0), Err(FrameBufferError::PixelOutOfBounds { x: 0, y: 0 }));
}

#[test]
fn plot_pixel_sets_rgb_and_keeps_alpha_and_depth() {
    let mut fb = FrameBuffer::new(5, 5).unwrap();
    fb.plot_depth(2, 3, 7.5f32.to_bits()).unwrap();
    fb.plot_pixel(2, 3, bits(0.25, 0.5, 0.75, 0.9)).unwrap();
    let p = *fb.get_pixel(2, 3).unwrap();
    assert_eq!(f32::from_bits(p.colour.r), 0.25);
    assert_eq!(f32::from_bits(p.colour.g), 0.5);
    assert_eq!(f32::from_bits(p.colour.b), 0.75);
    assert_eq!(p.colour.a, 0);
    assert_eq!(f32::from_bits(p.depth), 7.5);
    // The pixel is stored row by row.
    assert_eq!(fb.pixels()[3 * 5 + 2], p);
    assert_eq!(*fb.get_pixel(3, 2).unwrap(), Pixel::default());
}

#[test]
fn out_of_bounds_access_reports_the_coordinates() {
    let mut fb = FrameBuffer::new(5, 4).unwrap();
    assert_eq!(fb.get_pixel(5, 0), Err(FrameBufferError::PixelOutOfBounds { x: 5, y: 0 }));
    assert_eq!(fb.get_pixel(0, 4), Err(FrameBufferError::PixelOutOfBounds { x: 0, y: 4 }));
    assert_eq!(fb.get_pixel(-1, 0), Err(FrameBufferError::PixelOutOfBounds { x: -1, y: 0 }));
    assert_eq!(
        fb.plot_pixel(0, -3, bits(1.0, 1.0, 1.0, 1.0)),
        Err(FrameBufferError::PixelOutOfBounds { x: 0, y: -3 })
    );
    assert_eq!(fb.plot_depth(9, 9, 0), Err(FrameBufferError::PixelOutOfBounds { x: 9, y: 9 }));
    assert!(fb.pixels().iter().all(|p| *p == Pixel::default()));
    assert_eq!(fb.check_bounds(4, 3), Ok(()));
}

#[test]
fn channel_ranges_ignore_nan() {
    let mut fb = FrameBuffer::new(3, 1).unwrap();
    fb.plot_pixel(0, 0, bits(-2.0, 0.5, 3.0, 0.0)).unwrap();
    fb.plot_pixel(1, 0, bits(f32::NAN, 7.0, 1.0, 0.0)).unwrap();
    fb.plot_depth(0, 0, 4.0f32.to_bits()).unwrap();
    fb.plot_depth(2, 0, f32::NAN.to_bits()).unwrap();
    let (lo, hi) = fb.colour_range();
    assert_eq!((f32::from_bits(lo), f32::from_bits(hi)), (-2.0, 7.0));
    let (lo, hi) = fb.depth_range();
    assert_eq!((f32::from_bits(lo), f32::from_bits(hi)), (0.0, 4.0));
}

#[test]
fn empty_framebuffer_range_is_inverted_infinity() {
    let fb = FrameBuffer::new(0, 7).unwrap();
    let (lo, hi) = fb.depth_range();
    assert_eq!(f32::from_bits(lo), f32::INFINITY);
    assert_eq!(f32::from_bits(hi), f32::NEG_INFINITY);
}

#[test]
fn plotting_one_pixel_leaves_the_others() {
    let mut fb = FrameBuffer::new(3, 3).unwrap();
    fb.plot_pixel(1, 1, bits(1.0, 2.0, 3.0, 4.0)).unwrap();
    for y in 0..3 {
        for x in 0..3 {
            let p = *fb.get_pixel(x, y).unwrap();
            if (x, y) == (1, 1) {
                assert_eq!(p.colour, Colour::new(1.0f32.to_bits(), 2.0f32.to_bits(), 3.0f32.to_bits(), 0));
            } else {
                assert_eq!(p, Pixel::default());
            }
        }
    }
}
