//! A framebuffer of colour and depth pixels with bounds-checked access.
//!
//! Each channel of a pixel holds the IEEE-754 encoding of the `f32` that the
//! renderer computed (see [`crate::float_bits`]); the framebuffer never
//! computes on them, it stores and returns them.
use vstd::prelude::*;
use crate::float_bits::{
    INFINITY_BITS, NEG_INFINITY_BITS, bits_max, bits_min, is_nan, lt, max_ignoring_nan,
    min_ignoring_nan, order_key,
};

verus! {

/// Widest framebuffer that [`FrameBuffer::new`] accepts.
pub const MAX_WIDTH: u16 = 2048;

/// Tallest framebuffer that [`FrameBuffer::new`] accepts.
pub const MAX_HEIGHT: u16 = 2048;

/// An RGBA colour; each channel is the bit pattern of an `f32`.
#[derive(Clone, Copy, PartialEq, Eq, Structural, Debug)]
pub struct Colour {
    pub r: u32,
    pub g: u32,
    pub b: u32,
    pub a: u32,
}

impl Colour {
    /// The colour with the given channel encodings.
    pub fn new(r: u32, g: u32, b: u32, a: u32) -> (c: Self)
        ensures
            c == (Colour { r, g, b, a }),
    {
        Colour { r, g, b, a }
    }
}

/// The all-zero colour (every channel `0.0`).
pub open spec fn black() -> Colour {
    Colour { r: 0, g: 0, b: 0, a: 0 }
}

impl Default for Colour {
    fn default() -> (c: Self)
        ensures
            c == black(),
    {
        Colour { r: 0, g: 0, b: 0, a: 0 }
    }
}

/// One framebuffer cell: a colour and a depth (the bit pattern of an `f32`).
#[derive(Clone, Copy, PartialEq, Eq, Structural, Debug)]
pub struct Pixel {
    pub colour: Colour,
    pub depth: u32,
}

/// The pixel that a new framebuffer holds everywhere.
pub open spec fn blank_pixel() -> Pixel {
    Pixel { colour: black(), depth: 0 }
}

impl Default for Pixel {
    fn default() -> (p: Self)
        ensures
            p == blank_pixel(),
    {
        Pixel { colour: Colour { r: 0, g: 0, b: 0, a: 0 }, depth: 0 }
    }
}

/// What can go wrong when creating or addressing a framebuffer.
#[derive(Clone, Copy, PartialEq, Eq, Structural, Debug)]
pub enum FrameBufferError {
    /// The requested size exceeds [`MAX_WIDTH`] or [`MAX_HEIGHT`].
    DimensionError { width: u16, height: u16 },
    /// The coordinates lie outside the framebuffer.
    PixelOutOfBounds { x: i32, y: i32 },
}

/// The abstract content of a framebuffer: its size and its pixels, row by row.
pub struct FrameBufferView {
    pub width: nat,
    pub height: nat,
    pub pixels: Seq<Pixel>,
}

/// Whether `(x, y)` addresses a pixel of a `width` x `height` framebuffer.
pub open spec fn in_bounds(width: nat, height: nat, x: int, y: int) -> bool {
    0 <= x < width && 0 <= y < height
}

/// Row-major position of pixel `(x, y)`.
pub open spec fn pixel_index(width: nat, x: int, y: int) -> int {
    y * width + x
}

/// `p` with its red, green and blue channels taken from `c`; alpha and depth
/// are kept.
pub open spec fn painted(p: Pixel, c: Colour) -> Pixel {
    Pixel { colour: Colour { r: c.r, g: c.g, b: c.b, a: p.colour.a }, depth: p.depth }
}

/// `p` with its depth replaced.
pub open spec fn with_depth(p: Pixel, depth: u32) -> Pixel {
    Pixel { colour: p.colour, depth }
}

impl FrameBufferView {
    /// The view after painting the in-bounds pixel `(x, y)` with `c`.
    pub open spec fn paint(self, x: int, y: int, c: Colour) -> FrameBufferView {
        let i = pixel_index(self.width, x, y);
        FrameBufferView {
            width: self.width,
            height: self.height,
            pixels: self.pixels.update(i, painted(self.pixels[i], c)),
        }
    }

    /// Size and pixel count agree.
    pub open spec fn well_formed(self) -> bool {
        &&& self.width <= MAX_WIDTH
        &&& self.height <= MAX_HEIGHT
        &&& self.pixels.len() == self.width * self.height
    }
}

proof fn lemma_index_injective(w: nat, x: int, y: int, x2: int, y2: int)
    requires
        0 <= x < w,
        0 <= x2 < w,
        pixel_index(w, x, y) == pixel_index(w, x2, y2),
    ensures
        x == x2,
        y == y2,
{
    assert(y == y2) by (nonlinear_arith)
        requires
            0 <= x < w,
            0 <= x2 < w,
            y * w + x == y2 * w + x2,
    ;
}

/// Reading back a painted pixel gives the painted red, green and blue with
/// the pixel's former alpha and depth; every other pixel reads as before.
pub proof fn lemma_paint_then_read(
    fb: FrameBufferView,
    x: int,
    y: int,
    c: Colour,
    x2: int,
    y2: int,
)
    requires
        fb.well_formed(),
        in_bounds(fb.width, fb.height, x, y),
        in_bounds(fb.width, fb.height, x2, y2),
    ensures
        fb.paint(x, y, c).well_formed(),
        x2 == x && y2 == y ==> fb.paint(x, y, c).pixels[pixel_index(fb.width, x2, y2)]
            == painted(fb.pixels[pixel_index(fb.width, x, y)], c),
        x2 != x || y2 != y ==> fb.paint(x, y, c).pixels[pixel_index(fb.width, x2, y2)]
            == fb.pixels[pixel_index(fb.width, x2, y2)],
{
    lemma_index_in_range(fb.width, fb.height, x, y);
    lemma_index_in_range(fb.width, fb.height, x2, y2);
    if pixel_index(fb.width, x, y) == pixel_index(fb.width, x2, y2) {
        lemma_index_injective(fb.width, x, y, x2, y2);
    }
}

/// The smallest and largest red, green or blue value among the first `n`
/// pixels, NaNs ignored, starting from `(+inf, -inf)`.
pub open spec fn colour_range_upto(pixels: Seq<Pixel>, n: int) -> (u32, u32)
    decreases n,
{
    if n <= 0 {
        (INFINITY_BITS, NEG_INFINITY_BITS)
    } else {
        let (lo, hi) = colour_range_upto(pixels, n - 1);
        let c = pixels[n - 1].colour;
        let pixel_min = min_ignoring_nan(min_ignoring_nan(c.r, c.g), c.b);
        let pixel_max = max_ignoring_nan(max_ignoring_nan(c.r, c.g), c.b);
        (min_ignoring_nan(lo, pixel_min), max_ignoring_nan(hi, pixel_max))
    }
}

/// The smallest and largest depth among the first `n` pixels, NaNs
/// ignored, starting from `(+inf, -inf)`.
pub open spec fn depth_range_upto(pixels: Seq<Pixel>, n: int) -> (u32, u32)
    decreases n,
{
    if n <= 0 {
        (INFINITY_BITS, NEG_INFINITY_BITS)
    } else {
        let (lo, hi) = depth_range_upto(pixels, n - 1);
        (
            min_ignoring_nan(lo, pixels[n - 1].depth),
            max_ignoring_nan(hi, pixels[n - 1].depth),
        )
    }
}

/// When no depth is a NaN, the depth range bounds every depth.
pub proof fn lemma_depth_range_bounds(pixels: Seq<Pixel>, n: int)
    requires
        0 <= n <= pixels.len(),
        forall|i: int| 0 <= i < n ==> !is_nan(#[trigger] pixels[i].depth),
    ensures
        !is_nan(depth_range_upto(pixels, n).0),
        !is_nan(depth_range_upto(pixels, n).1),
        forall|i: int|
            0 <= i < n ==> order_key(depth_range_upto(pixels, n).0) <= order_key(
                #[trigger] pixels[i].depth,
            ) <= order_key(depth_range_upto(pixels, n).1),
    decreases n,
{
    if n > 0 {
        lemma_depth_range_bounds(pixels, n - 1);
    }
}

/// When no red, green or blue value is a NaN, the colour range bounds each
/// of them.
pub proof fn lemma_colour_range_bounds(pixels: Seq<Pixel>, n: int)
    requires
        0 <= n <= pixels.len(),
        forall|i: int|
            0 <= i < n ==> !is_nan((#[trigger] pixels[i]).colour.r) && !is_nan(pixels[i].colour.g)
                && !is_nan(pixels[i].colour.b),
    ensures
        !is_nan(colour_range_upto(pixels, n).0),
        !is_nan(colour_range_upto(pixels, n).1),
        forall|i: int|
            0 <= i < n ==> {
                let (lo, hi) = colour_range_upto(pixels, n);
                let c = (#[trigger] pixels[i]).colour;
                &&& order_key(lo) <= order_key(c.r) <= order_key(hi)
                &&& order_key(lo) <= order_key(c.g) <= order_key(hi)
                &&& order_key(lo) <= order_key(c.b) <= order_key(hi)
            },
    decreases n,
{
    if n > 0 {
        lemma_colour_range_bounds(pixels, n - 1);
        let c = pixels[n - 1].colour;
        assert(!is_nan(c.r) && !is_nan(c.g) && !is_nan(c.b));
    }
}

/// Whether `v` is the red, green or blue value of pixel `p`.
pub open spec fn is_channel_of(v: u32, p: Pixel) -> bool {
    v == p.colour.r || v == p.colour.g || v == p.colour.b
}

/// The colour range is tight: over at least one pixel with no NaN red,
/// green or blue value, its lower and upper ends are each the red, green or
/// blue value of some pixel.  (Alpha never enters it.)
pub proof fn lemma_colour_range_is_tight(pixels: Seq<Pixel>, n: int)
    requires
        0 < n <= pixels.len(),
        forall|i: int|
            0 <= i < n ==> !is_nan((#[trigger] pixels[i]).colour.r) && !is_nan(pixels[i].colour.g)
                && !is_nan(pixels[i].colour.b),
    ensures
        exists|i: int| 0 <= i < n && is_channel_of(colour_range_upto(pixels, n).0, #[trigger] pixels[i]),
        exists|i: int| 0 <= i < n && is_channel_of(colour_range_upto(pixels, n).1, #[trigger] pixels[i]),
    decreases n,
{
    let p = pixels[n - 1];
    let c = p.colour;
    assert(!is_nan(c.r) && !is_nan(c.g) && !is_nan(c.b));
    let pixel_min = min_ignoring_nan(min_ignoring_nan(c.r, c.g), c.b);
    let pixel_max = max_ignoring_nan(max_ignoring_nan(c.r, c.g), c.b);
    assert(is_channel_of(pixel_min, p));
    assert(is_channel_of(pixel_max, p));
    assert(!is_nan(pixel_min) && !is_nan(pixel_max));
    let (lo, hi) = colour_range_upto(pixels, n);
    if n == 1 {
        // The fold starts from (+inf, -inf), which a non-NaN value replaces
        // unless it equals it.
        assert(colour_range_upto(pixels, 0) == (INFINITY_BITS, NEG_INFINITY_BITS));
        if !lt(pixel_min, INFINITY_BITS) {
            assert(pixel_min == INFINITY_BITS);
        }
        if !lt(NEG_INFINITY_BITS, pixel_max) {
            assert(pixel_max == NEG_INFINITY_BITS);
        }
        assert(lo == pixel_min);
        assert(hi == pixel_max);
    } else {
        lemma_colour_range_is_tight(pixels, n - 1);
        let (lo0, hi0) = colour_range_upto(pixels, n - 1);
        let a = choose|i: int| 0 <= i < n - 1 && is_channel_of(lo0, #[trigger] pixels[i]);
        let b = choose|i: int| 0 <= i < n - 1 && is_channel_of(hi0, #[trigger] pixels[i]);
        if lo == lo0 {
            assert(is_channel_of(lo, pixels[a]));
        } else {
            assert(lo == pixel_min);
            assert(is_channel_of(lo, pixels[n - 1]));
        }
        if hi == hi0 {
            assert(is_channel_of(hi, pixels[b]));
        } else {
            assert(hi == pixel_max);
            assert(is_channel_of(hi, pixels[n - 1]));
        }
    }
}

/// A `width` x `height` grid of pixels.
pub struct FrameBuffer {
    width: u16,
    height: u16,
    framebuffer: Vec<Pixel>,
}

impl View for FrameBuffer {
    type V = FrameBufferView;

    closed spec fn view(&self) -> FrameBufferView {
        FrameBufferView {
            width: self.width as nat,
            height: self.height as nat,
            pixels: self.framebuffer@,
        }
    }
}

proof fn lemma_area_bound(w: nat, h: nat)
    requires
        w <= MAX_WIDTH,
        h <= MAX_HEIGHT,
    ensures
        w * h <= 4194304,
{
    assert(w * h <= 2048 * 2048) by (nonlinear_arith)
        requires
            w <= 2048,
            h <= 2048,
    ;
}

proof fn lemma_index_in_range(w: nat, h: nat, x: int, y: int)
    requires
        in_bounds(w, h, x, y),
        w <= MAX_WIDTH,
        h <= MAX_HEIGHT,
    ensures
        0 <= y * w <= pixel_index(w, x, y) < w * h <= 4194304,
{
    lemma_area_bound(w, h);
    assert(y * w + x < w * h) by (nonlinear_arith)
        requires
            0 <= x < w,
            0 <= y < h,
    ;
    assert(0 <= y * w) by (nonlinear_arith)
        requires
            0 <= y,
    ;
}

impl FrameBuffer {
    /// Every framebuffer is well-formed: its size is within the maxima and
    /// it holds `width * height` pixels.
    #[verifier::type_invariant]
    pub open spec fn is_well_formed(self) -> bool {
        self@.well_formed()
    }

    /// Creates a `w` x `h` framebuffer of blank pixels, or reports a
    /// `DimensionError` when either side exceeds the maximum.
    pub fn new(w: u16, h: u16) -> (r: Result<Self, FrameBufferError>)
        ensures
            (w > MAX_WIDTH || h > MAX_HEIGHT) ==> r == Err::<Self, FrameBufferError>(
                FrameBufferError::DimensionError { width: w, height: h },
            ),
            (w <= MAX_WIDTH && h <= MAX_HEIGHT) ==> (r matches Ok(fb) && fb@.width == w
                && fb@.height == h && fb@.well_formed() && fb@.pixels == Seq::new(
                (w * h) as nat,
                |i: int| blank_pixel(),
            )),
    {
        if w > MAX_WIDTH || h > MAX_HEIGHT {
            return Err(FrameBufferError::DimensionError { width: w, height: h });
        }
        proof {
            lemma_area_bound(w as nat, h as nat);
        }
        let n: usize = (w as usize) * (h as usize);
        let mut framebuffer: Vec<Pixel> = Vec::with_capacity(n);
        let mut i: usize = 0;
        while i < n
            invariant
                i <= n,
                framebuffer@ == Seq::new(i as nat, |k: int| blank_pixel()),
            decreases n - i,
        {
            framebuffer.push(Pixel::default());
            i = i + 1;
            assert(framebuffer@ =~= Seq::new(i as nat, |k: int| blank_pixel()));
        }
        Ok(FrameBuffer { width: w, height: h, framebuffer })
    }

    /// The smallest and largest colour channel (red, green or blue) over all
    /// pixels, ignoring NaNs: `(+inf, -inf)` when there is none.
    pub fn colour_range(&self) -> (r: (u32, u32))
        ensures
            r == colour_range_upto(self@.pixels, self@.pixels.len() as int),
    {
        let mut lo = INFINITY_BITS;
        let mut hi = NEG_INFINITY_BITS;
        let mut i: usize = 0;
        while i < self.framebuffer.len()
            invariant
                i <= self.framebuffer@.len(),
                (lo, hi) == colour_range_upto(self@.pixels, i as int),
            decreases self.framebuffer@.len() - i,
        {
            let c = self.framebuffer[i].colour;
            let pixel_min = bits_min(bits_min(c.r, c.g), c.b);
            let pixel_max = bits_max(bits_max(c.r, c.g), c.b);
            lo = bits_min(lo, pixel_min);
            hi = bits_max(hi, pixel_max);
            i = i + 1;
        }
        (lo, hi)
    }

    /// The smallest and largest depth over all pixels, ignoring NaNs:
    /// `(+inf, -inf)` when there is none.
    pub fn depth_range(&self) -> (r: (u32, u32))
        ensures
            r == depth_range_upto(self@.pixels, self@.pixels.len() as int),
    {
        let mut lo = INFINITY_BITS;
        let mut hi = NEG_INFINITY_BITS;
        let mut i: usize = 0;
        while i < self.framebuffer.len()
            invariant
                i <= self.framebuffer@.len(),
                (lo, hi) == depth_range_upto(self@.pixels, i as int),
            decreases self.framebuffer@.len() - i,
        {
            let d = self.framebuffer[i].depth;
            lo = bits_min(lo, d);
            hi = bits_max(hi, d);
            i = i + 1;
        }
        (lo, hi)
    }

    /// Width in pixels.
    pub fn width(&self) -> (w: u16)
        ensures
            w == self@.width,
    {
        self.width
    }

    /// Height in pixels.
    pub fn height(&self) -> (h: u16)
        ensures
            h == self@.height,
    {
        self.height
    }

    /// All pixels, row by row.
    pub fn pixels(&self) -> (p: &Vec<Pixel>)
        ensures
            p@ == self@.pixels,
    {
        &self.framebuffer
    }

    /// `Ok` when `(x, y)` lies inside the framebuffer, else `PixelOutOfBounds`.
    pub fn check_bounds(&self, x: i32, y: i32) -> (r: Result<(), FrameBufferError>)
        ensures
            r is Ok <==> in_bounds(self@.width, self@.height, x as int, y as int),
            r is Err ==> r == Err::<(), FrameBufferError>(
                FrameBufferError::PixelOutOfBounds { x, y },
            ),
    {
        if x < 0 || x >= (self.width as i32) || y < 0 || y >= (self.height as i32) {
            Err(FrameBufferError::PixelOutOfBounds { x, y })
        } else {
            Ok(())
        }
    }

    fn index_of(&self, x: i32, y: i32) -> (i: usize)
        requires
            self@.well_formed(),
            in_bounds(self@.width, self@.height, x as int, y as int),
        ensures
            i == pixel_index(self@.width, x as int, y as int),
            i < self@.pixels.len(),
    {
        proof {
            lemma_index_in_range(self.width as nat, self.height as nat, x as int, y as int);
        }
        (y as usize) * (self.width as usize) + (x as usize)
    }

    /// Sets the red, green and blue channels of pixel `(x, y)` to those of
    /// `colour`, keeping its alpha and depth; out-of-bounds coordinates
    /// leave the framebuffer unchanged and report `PixelOutOfBounds`.
    pub fn plot_pixel(&mut self, x: i32, y: i32, colour: Colour) -> (r: Result<
        (),
        FrameBufferError,
    >)
        ensures
            final(self)@.well_formed(),
            r is Ok <==> in_bounds(old(self)@.width, old(self)@.height, x as int, y as int),
            r is Ok ==> final(self)@ == old(self)@.paint(x as int, y as int, colour),
            r is Err ==> r == Err::<(), FrameBufferError>(
                FrameBufferError::PixelOutOfBounds { x, y },
            ) && final(self)@ == old(self)@,
    {
        proof {
            use_type_invariant(&*self);
        }
        self.check_bounds(x, y)?;
        let index = self.index_of(x, y);
        let old_pixel = self.framebuffer[index];
        let new_pixel = Pixel {
            colour: Colour { r: colour.r, g: colour.g, b: colour.b, a: old_pixel.colour.a },
            depth: old_pixel.depth,
        };
        self.framebuffer[index] = new_pixel;
        assert(self@ == old(self)@.paint(x as int, y as int, colour));
        Ok(())
    }

    /// Sets the depth of pixel `(x, y)`, keeping its colour;
    /// out-of-bounds coordinates leave the framebuffer unchanged and report
    /// `PixelOutOfBounds`.
    pub fn plot_depth(&mut self, x: i32, y: i32, depth: u32) -> (r: Result<(), FrameBufferError>)
        ensures
            final(self)@.well_formed(),
            r is Ok <==> in_bounds(old(self)@.width, old(self)@.height, x as int, y as int),
            r is Ok ==> final(self)@ == (FrameBufferView {
                width: old(self)@.width,
                height: old(self)@.height,
                pixels: old(self)@.pixels.update(
                    pixel_index(old(self)@.width, x as int, y as int),
                    with_depth(
                        old(self)@.pixels[pixel_index(old(self)@.width, x as int, y as int)],
                        depth,
                    ),
                ),
            }),
            r is Err ==> r == Err::<(), FrameBufferError>(
                FrameBufferError::PixelOutOfBounds { x, y },
            ) && final(self)@ == old(self)@,
    {
        proof {
            use_type_invariant(&*self);
        }
        self.check_bounds(x, y)?;
        let index = self.index_of(x, y);
        let old_pixel = self.framebuffer[index];
        self.framebuffer[index] = Pixel { colour: old_pixel.colour, depth };
        Ok(())
    }

    /// The pixel at `(x, y)`, or `PixelOutOfBounds`.
    pub fn get_pixel(&self, x: i32, y: i32) -> (r: Result<&Pixel, FrameBufferError>)
        ensures
            r is Ok <==> in_bounds(self@.width, self@.height, x as int, y as int),
            r matches Ok(p) ==> *p == self@.pixels[pixel_index(self@.width, x as int, y as int)],
            r is Err ==> r == Err::<&Pixel, FrameBufferError>(
                FrameBufferError::PixelOutOfBounds { x, y },
            ),
    {
        proof {
            use_type_invariant(self);
        }
        self.check_bounds(x, y)?;
        let index = self.index_of(x, y);
        Ok(&self.framebuffer[index])
    }
}

} // verus!
