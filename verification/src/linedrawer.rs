//! Integer line drawing into a [`FrameBuffer`] (Bresenham's algorithm).
//!
//! A line is walked along its major axis, one pixel per unit, from the
//! endpoint with the smaller major coordinate up to, but not including, the
//! other endpoint.  A decision variable tells at each step whether the minor
//! coordinate advances.  Pixels are painted white; the first pixel that lies
//! outside the framebuffer stops the walk with `PixelOutOfBounds`, the pixels
//! before it staying painted.
use vstd::prelude::*;
use crate::float_bits::ONE_BITS;
use crate::framebuffer::{
    Colour, FrameBuffer, FrameBufferError, FrameBufferView, in_bounds, pixel_index,
};

verus! {

/// The colour that lines are drawn in: `1.0` in every channel.
pub open spec fn line_colour() -> Colour {
    Colour { r: ONE_BITS, g: ONE_BITS, b: ONE_BITS, a: ONE_BITS }
}

/// The parameters of one Bresenham walk.
///
/// The walk starts at `(x0, y0)` and takes `n` unit steps along the major
/// axis (`y` when `steep`, else `x`); over those steps the minor coordinate
/// should move by `d` (towards larger values when `forward`).
pub struct LineWalk {
    pub x0: int,
    pub y0: int,
    pub forward: bool,
    pub steep: bool,
    pub n: int,
    pub d: int,
}

impl LineWalk {
    /// The pixel `k` steps along the major axis and `m` along the minor axis.
    pub open spec fn point(self, k: int, m: int) -> (int, int) {
        let minor = if self.forward {
            m
        } else {
            -m
        };
        if self.steep {
            (self.x0 + minor, self.y0 + k)
        } else {
            (self.x0 + k, self.y0 + minor)
        }
    }

    /// How far `pt` lies from the start along the minor axis (inverse of
    /// [`LineWalk::point`]).
    pub open spec fn minor_offset(self, pt: (int, int)) -> int {
        let delta = if self.steep {
            pt.0 - self.x0
        } else {
            pt.1 - self.y0
        };
        if self.forward {
            delta
        } else {
            -delta
        }
    }

    /// The pixels visited from step `k` on, at minor offset `m`, with
    /// decision variable `p`.
    pub open spec fn points_from(self, k: int, m: int, p: int) -> Seq<(int, int)>
        decreases self.n - k,
    {
        if k >= self.n {
            Seq::empty()
        } else if p > 0 {
            seq![self.point(k, m)] + self.points_from(k + 1, m + 1, p + 2 * (self.d - self.n))
        } else {
            seq![self.point(k, m)] + self.points_from(k + 1, m, p + 2 * self.d)
        }
    }

    /// All pixels of the walk.
    pub open spec fn points(self) -> Seq<(int, int)> {
        self.points_from(0, 0, 2 * self.d - self.n)
    }
}

/// The walk of a line whose `x` axis is the major one, from `(x0, y0)`.
pub open spec fn x_walk(x0: int, y0: int, x1: int, y1: int) -> LineWalk {
    let forward = y0 <= y1;
    LineWalk {
        x0,
        y0,
        forward,
        steep: false,
        n: x1 - x0,
        d: if forward {
            y1 - y0
        } else {
            y0 - y1
        },
    }
}

/// The walk of a line whose `y` axis is the major one, from `(x0, y0)`.
pub open spec fn y_walk(x0: int, y0: int, x1: int, y1: int) -> LineWalk {
    let forward = x0 <= x1;
    LineWalk {
        x0,
        y0,
        forward,
        steep: true,
        n: y1 - y0,
        d: if forward {
            x1 - x0
        } else {
            x0 - x1
        },
    }
}

pub open spec fn abs(v: int) -> int {
    if v < 0 {
        -v
    } else {
        v
    }
}

/// The walk that [`draw_line`] takes from `(x0, y0)` to `(x1, y1)`: along
/// `x` when the line is flatter than a diagonal, else along `y`, always from
/// the endpoint with the smaller major coordinate.
pub open spec fn line_walk(x0: int, y0: int, x1: int, y1: int) -> LineWalk {
    if abs(y1 - y0) < abs(x1 - x0) {
        if x0 > x1 {
            x_walk(x1, y1, x0, y0)
        } else {
            x_walk(x0, y0, x1, y1)
        }
    } else {
        if y0 > y1 {
            y_walk(x1, y1, x0, y0)
        } else {
            y_walk(x0, y0, x1, y1)
        }
    }
}

/// The pixels that [`draw_line`] paints, in order.
pub open spec fn line_points(x0: int, y0: int, x1: int, y1: int) -> Seq<(int, int)> {
    line_walk(x0, y0, x1, y1).points()
}

/// Paints `pts` in order; stops at the first pixel outside the framebuffer
/// and returns it.
pub open spec fn plot_run(fb: FrameBufferView, pts: Seq<(int, int)>, c: Colour) -> (
    FrameBufferView,
    Option<(int, int)>,
)
    decreases pts.len(),
{
    if pts.len() == 0 {
        (fb, None)
    } else if !in_bounds(fb.width, fb.height, pts[0].0, pts[0].1) {
        (fb, Some(pts[0]))
    } else {
        plot_run(fb.paint(pts[0].0, pts[0].1, c), pts.drop_first(), c)
    }
}

proof fn lemma_index_bound(fb: FrameBufferView, x: int, y: int)
    requires
        fb.well_formed(),
        in_bounds(fb.width, fb.height, x, y),
    ensures
        0 <= pixel_index(fb.width, x, y) < fb.pixels.len(),
{
    assert(0 <= y * fb.width + x < fb.width * fb.height) by (nonlinear_arith)
        requires
            0 <= x < fb.width,
            0 <= y < fb.height,
    ;
}

/// What drawing `pts` into `before` leaves in `after`, and returns as `r`.
pub open spec fn drawn(
    before: FrameBufferView,
    pts: Seq<(int, int)>,
    after: FrameBufferView,
    r: Result<(), FrameBufferError>,
) -> bool {
    let (fb, failure) = plot_run(before, pts, line_colour());
    &&& after == fb
    &&& r is Ok <==> failure is None
    &&& r is Err ==> (failure matches Some(pt) && r matches Err(
        FrameBufferError::PixelOutOfBounds { x, y },
    ) && x == pt.0 && y == pt.1)
}

/// Whether some in-bounds point of `pts` addresses pixel `j`.
pub open spec fn touches(fb: FrameBufferView, pts: Seq<(int, int)>, j: int) -> bool {
    exists|i: int|
        0 <= i < pts.len() && in_bounds(fb.width, fb.height, pts[i].0, pts[i].1)
            && #[trigger] pixel_index(fb.width, pts[i].0, pts[i].1) == j
}

/// Painting a run of points changes nothing but the pixels those points
/// address, keeps the framebuffer's size, and, when no point fell outside,
/// leaves every point of the run in the run's colour.
pub proof fn lemma_plot_run_frame(fb: FrameBufferView, pts: Seq<(int, int)>, c: Colour)
    requires
        fb.well_formed(),
    ensures
        ({
            let (after, failure) = plot_run(fb, pts, c);
            &&& after.width == fb.width
            &&& after.height == fb.height
            &&& after.well_formed()
            &&& forall|j: int|
                0 <= j < fb.pixels.len() && !touches(fb, pts, j) ==> #[trigger] after.pixels[j]
                    == fb.pixels[j]
            &&& failure is None ==> forall|i: int|
                0 <= i < pts.len() ==> {
                    let q = after.pixels[pixel_index(fb.width, (#[trigger] pts[i]).0, pts[i].1)];
                    &&& in_bounds(fb.width, fb.height, pts[i].0, pts[i].1)
                    &&& q.colour.r == c.r && q.colour.g == c.g && q.colour.b == c.b
                }
        }),
    decreases pts.len(),
{
    if pts.len() > 0 && in_bounds(fb.width, fb.height, pts[0].0, pts[0].1) {
        let first = pts[0];
        let rest = pts.drop_first();
        let fb1 = fb.paint(first.0, first.1, c);
        lemma_index_bound(fb, first.0, first.1);
        lemma_plot_run_frame(fb1, rest, c);
        let (after, failure) = plot_run(fb, pts, c);
        let j0 = pixel_index(fb.width, first.0, first.1);
        assert forall|j: int|
            0 <= j < fb.pixels.len() && !touches(fb, pts, j) implies #[trigger] after.pixels[j]
            == fb.pixels[j] by {
            if touches(fb1, rest, j) {
                let i = choose|i: int|
                    0 <= i < rest.len() && in_bounds(fb1.width, fb1.height, rest[i].0, rest[i].1)
                        && #[trigger] pixel_index(fb1.width, rest[i].0, rest[i].1) == j;
                assert(pts[i + 1] == rest[i]);
            }
            assert(j != j0 || touches(fb, pts, j)) by {
                if j == j0 {
                    assert(pixel_index(fb.width, pts[0].0, pts[0].1) == j);
                }
            }
        }
        if failure is None {
            assert forall|i: int| 0 <= i < pts.len() implies {
                let q = after.pixels[pixel_index(fb.width, (#[trigger] pts[i]).0, pts[i].1)];
                &&& in_bounds(fb.width, fb.height, pts[i].0, pts[i].1)
                &&& q.colour.r == c.r && q.colour.g == c.g && q.colour.b == c.b
            } by {
                if i > 0 {
                    assert(pts[i] == rest[i - 1]);
                } else if touches(fb1, rest, j0) {
                    let i2 = choose|i2: int|
                        0 <= i2 < rest.len() && in_bounds(
                            fb1.width,
                            fb1.height,
                            rest[i2].0,
                            rest[i2].1,
                        ) && #[trigger] pixel_index(fb1.width, rest[i2].0, rest[i2].1) == j0;
                    assert(rest[i2] == rest[i2]);
                }
            }
        }
    }
}

/// One step of the walk keeps the decision variable tied to the offsets:
/// with `err = p - 2d + n`, `2 n m == 2 d k - err` and `-n <= err <= n`.
proof fn lemma_step(n: int, d: int, k: int, m: int, p: int)
    requires
        0 <= d <= n,
        0 <= k < n,
        0 <= m <= d,
        2 * (n * m) == 2 * (d * k) - (p - 2 * d + n),
        -n <= p - 2 * d + n <= n,
    ensures
        p > 0 ==> m + 1 <= d && 2 * (n * (m + 1)) == 2 * (d * (k + 1)) - ((p + 2 * (d - n))
            - 2 * d + n) && -n <= (p + 2 * (d - n)) - 2 * d + n <= n,
        p <= 0 ==> 2 * (n * m) == 2 * (d * (k + 1)) - ((p + 2 * d) - 2 * d + n) && -n <= (p
            + 2 * d) - 2 * d + n <= n,
{
    assert(n * (m + 1) == n * m + n) by (nonlinear_arith);
    assert(d * (k + 1) == d * k + d) by (nonlinear_arith);
    if p > 0 {
        assert(d * (k + 1) <= d * n) by (nonlinear_arith)
            requires
                0 <= d,
                k + 1 <= n,
        ;
        assert(m + 1 <= d) by (nonlinear_arith)
            requires
                2 * (n * m) == 2 * (d * k) - (p - 2 * d + n),
                p > 0,
                d * (k + 1) <= d * n,
                d * (k + 1) == d * k + d,
                0 < n,
        ;
    }
}

/// Twice the signed area spanned by `(px, py)` against the segment from
/// `(x0, y0)` to `(x1, y1)`: divided by the segment's longer side, it is the
/// pixel's distance from the segment along the other axis.
pub open spec fn cross(x0: int, y0: int, x1: int, y1: int, px: int, py: int) -> int {
    (px - x0) * (y1 - y0) - (py - y0) * (x1 - x0)
}

pub open spec fn max(a: int, b: int) -> int {
    if a < b {
        b
    } else {
        a
    }
}

pub open spec fn min(a: int, b: int) -> int {
    if a < b {
        a
    } else {
        b
    }
}

/// The pixels of a walk from step `k` on: one per remaining step, each
/// `k + i` along the major axis, its minor offset `mi` within `0..=d` and
/// within half a pixel of the ideal `d (k + i) / n`; the minor offset never
/// decreases and grows by at most one per step.
proof fn lemma_walk_band(w: LineWalk, k: int, m: int, p: int)
    requires
        0 <= w.d <= w.n,
        0 <= k <= w.n,
        0 <= m <= w.d,
        2 * (w.n * m) == 2 * (w.d * k) - (p - 2 * w.d + w.n),
        p - 2 * w.d + w.n <= w.n,
        k < w.n ==> -w.n < p - 2 * w.d + w.n,
    ensures
        w.points_from(k, m, p).len() == w.n - k,
        forall|i: int|
            0 <= i < w.n - k ==> {
                let pt = #[trigger] w.points_from(k, m, p)[i];
                let mi = w.minor_offset(pt);
                &&& pt == w.point(k + i, mi)
                &&& 0 <= mi <= w.d
                &&& -w.n < 2 * (w.d * (k + i)) - 2 * (w.n * mi) <= w.n
            },
        forall|i: int|
            0 <= i < w.n - k - 1 ==> {
                let step = w.minor_offset(w.points_from(k, m, p)[i + 1]) - w.minor_offset(
                    #[trigger] w.points_from(k, m, p)[i],
                );
                0 <= step <= 1
            },
    decreases w.n - k,
{
    if k < w.n {
        let n = w.n;
        let d = w.d;
        lemma_step(n, d, k, m, p);
        let (m2, p2) = if p > 0 {
            (m + 1, p + 2 * (d - n))
        } else {
            (m, p + 2 * d)
        };
        lemma_walk_band(w, k + 1, m2, p2);
        let pts = w.points_from(k, m, p);
        let rest = w.points_from(k + 1, m2, p2);
        assert(pts == seq![w.point(k, m)] + rest);
        assert(w.minor_offset(w.point(k, m)) == m);
        assert forall|i: int| 0 <= i < w.n - k implies {
            let pt = #[trigger] pts[i];
            let mi = w.minor_offset(pt);
            &&& pt == w.point(k + i, mi)
            &&& 0 <= mi <= w.d
            &&& -w.n < 2 * (w.d * (k + i)) - 2 * (w.n * mi) <= w.n
        } by {
            if i > 0 {
                assert(pts[i] == rest[i - 1]);
            }
        }
        assert forall|i: int| 0 <= i < w.n - k - 1 implies {
            let step = w.minor_offset(pts[i + 1]) - w.minor_offset(#[trigger] pts[i]);
            0 <= step <= 1
        } by {
            assert(pts[i + 1] == rest[i]);
            if i > 0 {
                assert(pts[i] == rest[i - 1]);
            } else {
                assert(rest.len() > 0);
                assert(w.minor_offset(rest[0]) == m2);
            }
        }
    }
}

/// The signed area of a walk pixel against its own segment: for the walk
/// from `a` to `b` at step `k` and minor offset `m`, it is `±(d k - n m)`.
proof fn lemma_walk_cross(w: LineWalk, ax: int, ay: int, bx: int, by: int, k: int, m: int)
    requires
        w == x_walk(ax, ay, bx, by) || w == y_walk(ax, ay, bx, by),
    ensures
        ({
            let pt = w.point(k, m);
            let c = cross(ax, ay, bx, by, pt.0, pt.1);
            c == w.d * k - w.n * m || c == w.n * m - w.d * k
        }),
{
    let pt = w.point(k, m);
    let n = w.n;
    let d = w.d;
    if !w.steep {
        if w.forward {
            assert(cross(ax, ay, bx, by, pt.0, pt.1) == d * k - n * m) by (nonlinear_arith)
                requires
                    pt.0 == ax + k,
                    pt.1 == ay + m,
                    bx - ax == n,
                    by - ay == d,
            ;
        } else {
            assert(cross(ax, ay, bx, by, pt.0, pt.1) == n * m - d * k) by (nonlinear_arith)
                requires
                    pt.0 == ax + k,
                    pt.1 == ay - m,
                    bx - ax == n,
                    by - ay == -d,
            ;
        }
    } else {
        if w.forward {
            assert(cross(ax, ay, bx, by, pt.0, pt.1) == n * m - d * k) by (nonlinear_arith)
                requires
                    pt.0 == ax + m,
                    pt.1 == ay + k,
                    bx - ax == d,
                    by - ay == n,
            ;
        } else {
            assert(cross(ax, ay, bx, by, pt.0, pt.1) == d * k - n * m) by (nonlinear_arith)
                requires
                    pt.0 == ax - m,
                    pt.1 == ay + k,
                    bx - ax == -d,
                    by - ay == n,
            ;
        }
    }
}

/// Exchanging the endpoints of a segment negates the signed area.
proof fn lemma_cross_swap(x0: int, y0: int, x1: int, y1: int, px: int, py: int)
    ensures
        cross(x1, y1, x0, y0, px, py) == -cross(x0, y0, x1, y1, px, py),
{
    assert(cross(x1, y1, x0, y0, px, py) == -cross(x0, y0, x1, y1, px, py)) by (nonlinear_arith);
}

/// What [`draw_line`] paints follows the segment from `(x0, y0)` to
/// `(x1, y1)`: one pixel per unit of the segment's longer side, each pixel
/// inside the segment's bounding box and within half a pixel of the segment
/// along the shorter axis (twice its signed area against the segment is at
/// most the longer side in magnitude), successive pixels touching (their
/// coordinates differ by at most one).
pub proof fn lemma_line_follows_segment(x0: int, y0: int, x1: int, y1: int)
    ensures
        ({
            let pts = line_points(x0, y0, x1, y1);
            let len = max(abs(x1 - x0), abs(y1 - y0));
            &&& pts.len() == len
            &&& forall|i: int|
                0 <= i < len ==> -len <= 2 * cross(
                    x0,
                    y0,
                    x1,
                    y1,
                    (#[trigger] pts[i]).0,
                    pts[i].1,
                ) <= len
            &&& forall|i: int|
                0 <= i < len ==> min(x0, x1) <= (#[trigger] pts[i]).0 <= max(x0, x1) && min(
                    y0,
                    y1,
                ) <= pts[i].1 <= max(y0, y1)
            &&& forall|i: int|
                0 <= i < len - 1 ==> abs(pts[i + 1].0 - (#[trigger] pts[i]).0) <= 1 && abs(
                    pts[i + 1].1 - pts[i].1,
                ) <= 1
        }),
{
    let w = line_walk(x0, y0, x1, y1);
    let pts = w.points();
    let len = max(abs(x1 - x0), abs(y1 - y0));
    let swapped = if abs(y1 - y0) < abs(x1 - x0) {
        x0 > x1
    } else {
        y0 > y1
    };
    let (ax, ay, bx, by) = if swapped {
        (x1, y1, x0, y0)
    } else {
        (x0, y0, x1, y1)
    };
    assert(w == x_walk(ax, ay, bx, by) || w == y_walk(ax, ay, bx, by));
    assert(w.n == len);
    assert(2 * (w.n * 0) == 2 * (w.d * 0) - ((2 * w.d - w.n) - 2 * w.d + w.n)) by (
    nonlinear_arith);
    lemma_walk_band(w, 0, 0, 2 * w.d - w.n);
    assert forall|i: int| 0 <= i < len implies -len <= 2 * cross(
        x0,
        y0,
        x1,
        y1,
        (#[trigger] pts[i]).0,
        pts[i].1,
    ) <= len && min(x0, x1) <= pts[i].0 <= max(x0, x1) && min(y0, y1) <= pts[i].1 <= max(
        y0,
        y1,
    ) by {
        let mi = w.minor_offset(pts[i]);
        assert(pts[i] == w.point(i, mi));
        lemma_walk_cross(w, ax, ay, bx, by, i, mi);
        lemma_cross_swap(ax, ay, bx, by, pts[i].0, pts[i].1);
    }
    assert forall|i: int| 0 <= i < len - 1 implies abs(pts[i + 1].0 - (#[trigger] pts[i]).0)
        <= 1 && abs(pts[i + 1].1 - pts[i].1) <= 1 by {
        assert(pts[i] == w.point(i, w.minor_offset(pts[i])));
        assert(pts[i + 1] == w.point(i + 1, w.minor_offset(pts[i + 1])));
    }
}

/// Walks `w` and paints its pixels into `fb` until one falls outside.
fn walk_and_plot(
    fb: &mut FrameBuffer,
    x0: i64,
    y0: i64,
    forward: bool,
    steep: bool,
    n: i64,
    d: i64,
) -> (r: Result<(), FrameBufferError>)
    requires
        old(fb)@.well_formed(),
        0 <= d <= n,
        i32::MIN <= x0 <= i32::MAX,
        i32::MIN <= y0 <= i32::MAX,
        ({
            let end = (LineWalk { x0: x0 as int, y0: y0 as int, forward, steep, n: n as int, d: d as int }).point(n as int, d as int);
            i32::MIN <= end.0 <= i32::MAX && i32::MIN <= end.1 <= i32::MAX
        }),
    ensures
        final(fb)@.well_formed(),
        drawn(
            old(fb)@,
            (LineWalk { x0: x0 as int, y0: y0 as int, forward, steep, n: n as int, d: d as int }).points(),
            final(fb)@,
            r,
        ),
{
    let ghost w = LineWalk { x0: x0 as int, y0: y0 as int, forward, steep, n: n as int, d: d as int };
    let ghost fb0 = fb@;
    let white = Colour { r: ONE_BITS, g: ONE_BITS, b: ONE_BITS, a: ONE_BITS };
    let mut k: i64 = 0;
    let mut m: i64 = 0;
    let mut p: i64 = 2 * d - n;
    assert(2 * (n * m) == 2 * (d * k) - (p - 2 * d + n)) by (nonlinear_arith)
        requires
            m == 0,
            k == 0,
            p == 2 * d - n,
    ;
    while k < n
        invariant
            fb@.well_formed(),
            fb0 == old(fb)@,
            0 <= d <= n,
            i32::MIN <= x0 <= i32::MAX,
            i32::MIN <= y0 <= i32::MAX,
            i32::MIN <= w.point(n as int, d as int).0 <= i32::MAX,
            i32::MIN <= w.point(n as int, d as int).1 <= i32::MAX,
            w == (LineWalk { x0: x0 as int, y0: y0 as int, forward, steep, n: n as int, d: d as int }),
            white == line_colour(),
            0 <= k <= n,
            0 <= m <= d,
            2 * (n * m) == 2 * (d * k) - (p - 2 * d + n),
            -n <= p - 2 * d + n <= n,
            plot_run(fb0, w.points(), line_colour()) == plot_run(
                fb@,
                w.points_from(k as int, m as int, p as int),
                line_colour(),
            ),
        decreases n - k,
    {
        let minor: i64 = if forward {
            m
        } else {
            -m
        };
        let (x, y) = if steep {
            (x0 + minor, y0 + k)
        } else {
            (x0 + k, y0 + minor)
        };
        assert(i32::MIN <= x <= i32::MAX && i32::MIN <= y <= i32::MAX);
        assert((x as int, y as int) == w.point(k as int, m as int));
        let ghost rest = if p > 0 {
            w.points_from(k + 1, m + 1, p + 2 * (d - n))
        } else {
            w.points_from(k + 1, m as int, p + 2 * d)
        };
        assert(w.points_from(k as int, m as int, p as int) == seq![(x as int, y as int)] + rest);
        assert((seq![(x as int, y as int)] + rest).drop_first() =~= rest);
        match fb.plot_pixel(x as i32, y as i32, white) {
            Ok(()) => {},
            Err(e) => {
                assert(plot_run(fb@, seq![(x as int, y as int)] + rest, line_colour()) == (
                fb@, Some((x as int, y as int))));
                return Err(e);
            },
        }
        proof {
            lemma_step(n as int, d as int, k as int, m as int, p as int);
        }
        if p > 0 {
            m = m + 1;
            p = p + 2 * (d - n);
        } else {
            p = p + 2 * d;
        }
        k = k + 1;
    }
    Ok(())
}

/// Draws the part of a line whose `x` axis is the major one, walking from
/// `(x0, y0)` towards `x1`.
fn draw_x_line(fb: &mut FrameBuffer, x0: i32, y0: i32, x1: i32, y1: i32) -> (r: Result<
    (),
    FrameBufferError,
>)
    requires
        old(fb)@.well_formed(),
        x0 <= x1,
        abs(y1 - y0) <= x1 - x0,
    ensures
        final(fb)@.well_formed(),
        drawn(old(fb)@, x_walk(x0 as int, y0 as int, x1 as int, y1 as int).points(), final(fb)@, r),
{
    let forward = y0 <= y1;
    let dx: i64 = x1 as i64 - x0 as i64;
    let dy: i64 = if forward {
        y1 as i64 - y0 as i64
    } else {
        y0 as i64 - y1 as i64
    };
    walk_and_plot(fb, x0 as i64, y0 as i64, forward, false, dx, dy)
}

/// Draws the part of a line whose `y` axis is the major one, walking from
/// `(x0, y0)` towards `y1`.
fn draw_y_line(fb: &mut FrameBuffer, x0: i32, y0: i32, x1: i32, y1: i32) -> (r: Result<
    (),
    FrameBufferError,
>)
    requires
        old(fb)@.well_formed(),
        y0 <= y1,
        abs(x1 - x0) <= y1 - y0,
    ensures
        final(fb)@.well_formed(),
        drawn(old(fb)@, y_walk(x0 as int, y0 as int, x1 as int, y1 as int).points(), final(fb)@, r),
{
    let forward = x0 <= x1;
    let dy: i64 = y1 as i64 - y0 as i64;
    let dx: i64 = if forward {
        x1 as i64 - x0 as i64
    } else {
        x0 as i64 - x1 as i64
    };
    walk_and_plot(fb, x0 as i64, y0 as i64, forward, true, dy, dx)
}

/// Draws a white line from `(x0, y0)` towards `(x1, y1)` (the far endpoint
/// itself excluded) and reports the first pixel outside the framebuffer.
pub fn draw_line(fb: &mut FrameBuffer, x0: i32, y0: i32, x1: i32, y1: i32) -> (r: Result<
    (),
    FrameBufferError,
>)
    ensures
        final(fb)@.well_formed(),
        drawn(old(fb)@, line_points(x0 as int, y0 as int, x1 as int, y1 as int), final(fb)@, r),
{
    proof {
        use_type_invariant(&*fb);
    }
    let ady: i64 = if y1 >= y0 {
        y1 as i64 - y0 as i64
    } else {
        y0 as i64 - y1 as i64
    };
    let adx: i64 = if x1 >= x0 {
        x1 as i64 - x0 as i64
    } else {
        x0 as i64 - x1 as i64
    };
    if ady < adx {
        if x0 > x1 {
            draw_x_line(fb, x1, y1, x0, y0)
        } else {
            draw_x_line(fb, x0, y0, x1, y1)
        }
    } else {
        if y0 > y1 {
            draw_y_line(fb, x1, y1, x0, y0)
        } else {
            draw_y_line(fb, x0, y0, x1, y1)
        }
    }
}

} // verus!
