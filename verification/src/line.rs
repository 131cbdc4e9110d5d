use vstd::prelude::*;
use crate::canvas::{lemma_paint_empty, lemma_paint_insert, lemma_paint_union, paint, pixels, plot};
use crate::common::{Image, Point, Rgba};

verus! {

/// The absolute value of an integer.
pub open spec fn magnitude(v: int) -> int {
    if v < 0 {
        -v
    } else {
        v
    }
}

/// A coordinate pair as mathematical integers.
pub open spec fn coords(p: Point) -> (int, int) {
    (p.0 as int, p.1 as int)
}

/// Membership in a rasterized segment whose extent along `a` is at least its
/// extent along `b`.
///
/// Every position `a` between `a0` and `a1` holds exactly one pixel: the one
/// whose `b` is nearest to the ideal line through the two end points. Where
/// the line passes exactly midway between two pixels, the one with the larger
/// `b` is taken. The test is stated without division: with `span` the extent
/// along `a` and `k` the number of steps from `a0`, the offset of `b` from
/// the ideal line, scaled by `span`, is `(b - b0) * span - k * (b1 - b0)`.
pub open spec fn on_shallow(a0: int, b0: int, a1: int, b1: int, a: int, b: int) -> bool {
    let span = magnitude(a1 - a0);
    let rise = b1 - b0;
    let k = if a1 >= a0 {
        a - a0
    } else {
        a0 - a
    };
    if span == 0 {
        a == a0 && b == b0
    } else {
        0 <= k <= span && -span < 2 * ((b - b0) * span - k * rise) <= span
    }
}

/// `q` is a pixel of the rasterized segment from `p0` to `p1`. The segment is
/// walked along the axis of its greater extent (along x when the two extents
/// are equal); both end points belong to it.
pub open spec fn on_line(p0: (int, int), p1: (int, int), q: (int, int)) -> bool {
    if magnitude(p1.0 - p0.0) >= magnitude(p1.1 - p0.1) {
        on_shallow(p0.0, p0.1, p1.0, p1.1, q.0, q.1)
    } else {
        on_shallow(p0.1, p0.0, p1.1, p1.0, q.1, q.0)
    }
}

/// The number of steps along the major axis from `p0` to `q`.
pub open spec fn step_index(p0: (int, int), p1: (int, int), q: (int, int)) -> int {
    if magnitude(p1.0 - p0.0) >= magnitude(p1.1 - p0.1) {
        magnitude(q.0 - p0.0)
    } else {
        magnitude(q.1 - p0.1)
    }
}

/// The pixels of the rasterized segment between two integer positions.
pub open spec fn segment_pixels(a: (int, int), b: (int, int)) -> Set<(int, int)> {
    Set::new(|q: (int, int)| on_line(a, b, q))
}

/// The pixels of the rasterized segment from `p0` to `p1`.
pub open spec fn line_pixels(p0: Point, p1: Point) -> Set<(int, int)> {
    segment_pixels(coords(p0), coords(p1))
}

/// The first `n` pixels of the segment, counted from `p0`.
pub open spec fn line_prefix(p0: Point, p1: Point, n: int) -> Set<(int, int)> {
    Set::new(
        |q: (int, int)|
            on_line(coords(p0), coords(p1), q) && step_index(coords(p0), coords(p1), q) < n,
    )
}

/// The pixels of the outline of the triangle with the three corners.
pub open spec fn triangle_pixels(p0: Point, p1: Point, p2: Point) -> Set<(int, int)> {
    line_pixels(p0, p1).union(line_pixels(p1, p2)).union(line_pixels(p2, p0))
}

/// The pixels on the four sides of the axis-aligned rectangle that has `p0`
/// and `p1` as opposite corners.
pub open spec fn outline_pixels(p0: Point, p1: Point) -> Set<(int, int)> {
    Set::new(
        |q: (int, int)|
            {
                let lo_x = if p0.0 <= p1.0 { p0.0 as int } else { p1.0 as int };
                let hi_x = if p0.0 <= p1.0 { p1.0 as int } else { p0.0 as int };
                let lo_y = if p0.1 <= p1.1 { p0.1 as int } else { p1.1 as int };
                let hi_y = if p0.1 <= p1.1 { p1.1 as int } else { p0.1 as int };
                &&& lo_x <= q.0 <= hi_x
                &&& lo_y <= q.1 <= hi_y
                &&& (q.0 == lo_x || q.0 == hi_x || q.1 == lo_y || q.1 == hi_y)
            },
    )
}

proof fn lemma_minor_unique(span: int, t: int, u: int, v: int)
    by (nonlinear_arith)
    requires
        span > 0,
        -span < 2 * (u * span - t) <= span,
        -span < 2 * (v * span - t) <= span,
    ensures
        u == v,
{
}

proof fn lemma_offset_step(span: int, rise: int, u: int, k: int, du: int)
    by (nonlinear_arith)
    ensures
        (u + du) * span - (k + 1) * rise == (u * span - k * rise) + du * span - rise,
{
}

proof fn lemma_offset_mirror(span: int, rise: int, u: int, k: int)
    by (nonlinear_arith)
    ensures
        (u - rise) * span - (span - k) * (-rise) == u * span - k * rise,
{
}

proof fn lemma_on_shallow_symmetric(a0: int, b0: int, a1: int, b1: int, a: int, b: int)
    requires
        magnitude(b1 - b0) <= magnitude(a1 - a0),
    ensures
        on_shallow(a0, b0, a1, b1, a, b) == on_shallow(a1, b1, a0, b0, a, b),
{
    let span = magnitude(a1 - a0);
    if span != 0 {
        let k = if a1 >= a0 { a - a0 } else { a0 - a };
        lemma_offset_mirror(span, b1 - b0, b - b0, k);
    }
}

/// A segment holds the same pixels whichever end it is walked from.
pub proof fn lemma_on_line_symmetric(p0: (int, int), p1: (int, int), q: (int, int))
    ensures
        on_line(p0, p1, q) == on_line(p1, p0, q),
{
    if magnitude(p1.0 - p0.0) >= magnitude(p1.1 - p0.1) {
        lemma_on_shallow_symmetric(p0.0, p0.1, p1.0, p1.1, q.0, q.1);
    } else {
        lemma_on_shallow_symmetric(p0.1, p0.0, p1.1, p1.0, q.1, q.0);
    }
}

/// The symmetry law of line drawing: the segment from `p0` to `p1` and the
/// segment from `p1` to `p0` are the same set of pixels, so drawing either
/// on a grid gives the same grid.
pub proof fn lemma_line_symmetric(g: Seq<Seq<Rgba>>, p0: Point, p1: Point, color: Rgba)
    ensures
        line_pixels(p0, p1) == line_pixels(p1, p0),
        paint(g, line_pixels(p0, p1), color) == paint(g, line_pixels(p1, p0), color),
{
    assert forall|q: (int, int)| line_pixels(p0, p1).contains(q) == line_pixels(p1, p0).contains(
        q,
    ) by {
        lemma_on_line_symmetric(coords(p0), coords(p1), q);
    }
    assert(line_pixels(p0, p1) =~= line_pixels(p1, p0));
}

/// The pixel of a step, in closed form: `k` steps from `a0` the segment holds
/// the pixel at the offset `k * (b1 - b0) / span` from `b0`, rounded to the
/// nearest whole number, and rounded up where it lies midway between two.
pub proof fn lemma_line_nearest(a0: int, b0: int, a1: int, b1: int, a: int, b: int)
    requires
        a0 != a1,
    ensures
        ({
            let span = magnitude(a1 - a0);
            let k = if a1 >= a0 { a - a0 } else { a0 - a };
            on_shallow(a0, b0, a1, b1, a, b) <==> 0 <= k <= span && b - b0 == (2 * k * (b1 - b0)
                + span) / (2 * span)
        }),
{
    let span = magnitude(a1 - a0);
    let rise = b1 - b0;
    let k = if a1 >= a0 { a - a0 } else { a0 - a };
    let n = 2 * k * rise + span;
    let q = n / (2 * span);
    let r = n % (2 * span);
    vstd::arithmetic::div_mod::lemma_fundamental_div_mod(n, 2 * span);
    vstd::arithmetic::div_mod::lemma_mod_bound(n, 2 * span);
    assert((2 * span) * q == 2 * (q * span)) by (nonlinear_arith);
    assert(2 * k * rise == 2 * (k * rise)) by (nonlinear_arith);
    if 0 <= k <= span && on_shallow(a0, b0, a1, b1, a, b) {
        lemma_minor_unique(span, k * rise, b - b0, q);
    }
}

/// Both end points are pixels of the segment.
pub proof fn lemma_line_has_ends(p0: Point, p1: Point)
    ensures
        line_pixels(p0, p1).contains(coords(p0)),
        line_pixels(p0, p1).contains(coords(p1)),
{
    let a = coords(p0);
    let b = coords(p1);
    assert(on_line(a, b, a)) by {
        if magnitude(b.0 - a.0) >= magnitude(b.1 - a.1) {
            assert(0 * magnitude(b.0 - a.0) == 0);
            assert(0 * (b.1 - a.1) == 0);
        } else {
            assert(0 * magnitude(b.1 - a.1) == 0);
            assert(0 * (b.0 - a.0) == 0);
        }
    }
    lemma_on_line_symmetric(a, b, b);
    assert(on_line(b, a, b)) by {
        if magnitude(a.0 - b.0) >= magnitude(a.1 - b.1) {
            assert(0 * magnitude(a.0 - b.0) == 0);
            assert(0 * (a.1 - b.1) == 0);
        } else {
            assert(0 * magnitude(a.1 - b.1) == 0);
            assert(0 * (a.0 - b.0) == 0);
        }
    }
}

/// The pixel `q`, found at step `k`, is a pixel of the segment, and the only
/// one at that step: the first `k + 1` pixels are the first `k` and `q`.
proof fn lemma_prefix_grows(p0: Point, p1: Point, k: int, q: (int, int))
    requires
        on_line(coords(p0), coords(p1), q),
        step_index(coords(p0), coords(p1), q) == k,
    ensures
        line_prefix(p0, p1, k + 1) == line_prefix(p0, p1, k).insert(q),
{
    let a = coords(p0);
    let b = coords(p1);
    assert forall|r: (int, int)| line_prefix(p0, p1, k + 1).contains(r) implies line_prefix(
        p0,
        p1,
        k,
    ).insert(q).contains(r) by {
        if step_index(a, b, r) == k {
            if magnitude(b.0 - a.0) >= magnitude(b.1 - a.1) {
                let span = magnitude(b.0 - a.0);
                if span != 0 {
                    lemma_minor_unique(span, k * (b.1 - a.1), r.1 - a.1, q.1 - a.1);
                }
            } else {
                let span = magnitude(b.1 - a.1);
                lemma_minor_unique(span, k * (b.0 - a.0), r.0 - a.0, q.0 - a.0);
            }
            assert(r == q);
        }
    }
    assert(line_prefix(p0, p1, k + 1) =~= line_prefix(p0, p1, k).insert(q));
}

/// Beyond the last step the prefix is the whole segment.
proof fn lemma_prefix_full(p0: Point, p1: Point, n: int)
    requires
        n > magnitude(p1.0 - p0.0),
        n > magnitude(p1.1 - p0.1),
    ensures
        line_prefix(p0, p1, n) == line_pixels(p0, p1),
{
    assert(line_prefix(p0, p1, n) =~= line_pixels(p0, p1));
}

/// Draws the segment from `p0` to `p1` by the incremental midpoint method.
///
/// One pixel is set for each step along the major axis, both end points
/// included. A decision variable holds twice the scaled offset of the current
/// pixel from the ideal line; each step changes it by twice the minor extent,
/// and a step along the minor axis changes it by twice the major extent.
/// Pixels outside the canvas are skipped one by one.
pub fn draw_line_bresenham_helper(image: &mut Image, p0: &Point, p1: &Point, color: &Rgba)
    ensures
        pixels(*final(image)) == paint(pixels(*old(image)), line_pixels(*p0, *p1), *color),
{
    let ghost orig = pixels(*image);
    let delta_x: i64 = p1.0 as i64 - p0.0 as i64;
    let delta_y: i64 = p1.1 as i64 - p0.1 as i64;
    let abs_x: i64 = if delta_x < 0 { -delta_x } else { delta_x };
    let abs_y: i64 = if delta_y < 0 { -delta_y } else { delta_y };
    let steep: bool = abs_x < abs_y;
    // (a, b): position along the major and the minor axis
    let a0: i64 = if steep { p0.1 as i64 } else { p0.0 as i64 };
    let b0: i64 = if steep { p0.0 as i64 } else { p0.1 as i64 };
    let span: i64 = if steep { abs_y } else { abs_x };
    let rise: i64 = if steep { delta_x } else { delta_y };
    let forward: bool = if steep { delta_y >= 0 } else { delta_x >= 0 };
    let inc_a: i64 = if forward { 1 } else { -1 };

    let mut a: i64 = a0;
    let mut b: i64 = b0;
    let mut d: i64 = 0;
    let mut k: i64 = 0;
    proof {
        lemma_line_has_ends(*p0, *p1);
        assert(line_prefix(*p0, *p1, 0) =~= Set::empty());
        lemma_paint_empty(orig, *color);
        lemma_paint_insert(orig, line_prefix(*p0, *p1, 0), p0.0 as int, p0.1 as int, *color);
        lemma_prefix_grows(*p0, *p1, 0, coords(*p0));
        assert(0 * (rise as int) == 0);
        assert(0 * (span as int) == 0);
    }
    plot(image, p0.0 as i64, p0.1 as i64, *color);
    while k < span
        invariant
            0 <= k <= span <= 0x1_0000_0000,
            steep == (magnitude(p1.0 - p0.0) < magnitude(p1.1 - p0.1)),
            span == (if steep { magnitude(p1.1 - p0.1) } else { magnitude(p1.0 - p0.0) }),
            rise == (if steep { p1.0 - p0.0 } else { p1.1 - p0.1 }),
            a0 == (if steep { p0.1 } else { p0.0 }),
            b0 == (if steep { p0.0 } else { p0.1 }),
            forward == (if steep { p1.1 >= p0.1 } else { p1.0 >= p0.0 }),
            inc_a == (if forward { 1int } else { -1int }),
            -span <= rise <= span,
            a == (if forward { a0 + k } else { a0 - k }),
            -k <= b - b0 <= k,
            d == 2 * ((b - b0) * span - k * rise),
            span == 0 || -span < d <= span,
            pixels(*image) == paint(orig, line_prefix(*p0, *p1, k + 1), *color),
        decreases span - k,
    {
        proof {
            lemma_offset_step(span as int, rise as int, b - b0, k as int, 0);
            lemma_offset_step(span as int, rise as int, b - b0, k as int, 1);
            lemma_offset_step(span as int, rise as int, b - b0, k as int, -1);
        }
        k = k + 1;
        a = a + inc_a;
        d = d - 2 * rise;
        if d <= -span {
            b = b + 1;
            d = d + 2 * span;
        } else if d > span {
            b = b - 1;
            d = d - 2 * span;
        }
        let x: i64 = if steep { b } else { a };
        let y: i64 = if steep { a } else { b };
        proof {
            let q = (x as int, y as int);
            assert(on_line(coords(*p0), coords(*p1), q));
            assert(step_index(coords(*p0), coords(*p1), q) == k);
            lemma_prefix_grows(*p0, *p1, k as int, q);
            lemma_paint_insert(orig, line_prefix(*p0, *p1, k as int), x as int, y as int, *color);
        }
        plot(image, x, y, *color);
    }
    proof {
        lemma_prefix_full(*p0, *p1, k + 1);
    }
}

/// The quotient that the direct method computes at step `k` gives the pixel
/// nearest to the ideal line: `u` is the offset along the minor axis, found
/// by one division of non-negative numbers.
proof fn lemma_direct_offset(span: int, rise: int, k: int, q: int, u: int)
    requires
        span > 0,
        -span <= rise <= span,
        0 <= k <= span,
        rise >= 0 ==> q == (2 * k * rise + span) / (2 * span) && u == q,
        rise < 0 ==> q == (2 * k * (-rise) + span - 1) / (2 * span) && u == -q,
    ensures
        0 <= q <= k,
        -span < 2 * (u * span - k * rise) <= span,
{
    let lift = if rise >= 0 { rise } else { -rise };
    let n = if rise >= 0 { 2 * k * lift + span } else { 2 * k * lift + span - 1 };
    let r = n % (2 * span);
    vstd::arithmetic::div_mod::lemma_fundamental_div_mod(n, 2 * span);
    vstd::arithmetic::div_mod::lemma_mod_bound(n, 2 * span);
    assert((2 * span) * q == 2 * (q * span)) by (nonlinear_arith);
    assert(2 * k * lift == 2 * (k * lift)) by (nonlinear_arith);
    assert(0 <= k * lift <= k * span) by (nonlinear_arith)
        requires
            0 <= k,
            0 <= lift <= span,
    ;
    assert(0 <= q <= k) by (nonlinear_arith)
        requires
            span > 0,
            0 <= k,
            0 <= r < 2 * span,
            -1 <= 2 * (q * span) + r - span <= 2 * (k * span),
    ;
    if rise >= 0 {
        assert(k * rise == k * lift);
    } else {
        assert(k * rise == -(k * lift)) by (nonlinear_arith)
            requires
                rise == -lift,
        ;
        assert(u * span == -(q * span)) by (nonlinear_arith)
            requires
                u == -q,
        ;
    }
}

/// Draws the segment from `p0` to `p1` by evaluating the line at every step.
///
/// For each step along the major axis the minor coordinate is found by one
/// exact integer division, rounding to the nearest pixel. Nothing is carried
/// from one step to the next. Pixels outside the canvas are skipped one by
/// one.
pub fn draw_line_helper(image: &mut Image, p0: &Point, p1: &Point, color: &Rgba)
    ensures
        pixels(*final(image)) == paint(pixels(*old(image)), line_pixels(*p0, *p1), *color),
{
    let ghost orig = pixels(*image);
    let delta_x: i64 = p1.0 as i64 - p0.0 as i64;
    let delta_y: i64 = p1.1 as i64 - p0.1 as i64;
    let abs_x: i64 = if delta_x < 0 { -delta_x } else { delta_x };
    let abs_y: i64 = if delta_y < 0 { -delta_y } else { delta_y };
    let steep: bool = abs_x < abs_y;
    let a0: i64 = if steep { p0.1 as i64 } else { p0.0 as i64 };
    let b0: i64 = if steep { p0.0 as i64 } else { p0.1 as i64 };
    let span: i64 = if steep { abs_y } else { abs_x };
    let rise: i64 = if steep { delta_x } else { delta_y };
    let forward: bool = if steep { delta_y >= 0 } else { delta_x >= 0 };
    if span == 0 {
        proof {
            lemma_line_has_ends(*p0, *p1);
            assert(line_prefix(*p0, *p1, 0) =~= Set::empty());
            lemma_paint_empty(orig, *color);
            lemma_paint_insert(orig, line_prefix(*p0, *p1, 0), p0.0 as int, p0.1 as int, *color);
            lemma_prefix_grows(*p0, *p1, 0, coords(*p0));
            lemma_prefix_full(*p0, *p1, 1);
        }
        plot(image, p0.0 as i64, p0.1 as i64, *color);
        return ;
    }
    let lift: u128 = if rise >= 0 { rise as u128 } else { (-rise) as u128 };
    let twice: u128 = 2 * (span as u128);
    let mut k: i64 = 0;
    proof {
        assert(line_prefix(*p0, *p1, 0) =~= Set::empty());
        lemma_paint_empty(orig, *color);
    }
    while k <= span
        invariant
            0 <= k <= span + 1,
            0 < span <= 0x1_0000_0000,
            steep == (magnitude(p1.0 - p0.0) < magnitude(p1.1 - p0.1)),
            span == (if steep { magnitude(p1.1 - p0.1) } else { magnitude(p1.0 - p0.0) }),
            rise == (if steep { p1.0 - p0.0 } else { p1.1 - p0.1 }),
            a0 == (if steep { p0.1 } else { p0.0 }),
            b0 == (if steep { p0.0 } else { p0.1 }),
            forward == (if steep { p1.1 >= p0.1 } else { p1.0 >= p0.0 }),
            -span <= rise <= span,
            lift == magnitude(rise as int),
            twice == 2 * span,
            pixels(*image) == paint(orig, line_prefix(*p0, *p1, k as int), *color),
        decreases span + 1 - k,
    {
        let steps: u128 = 2 * (k as u128);
        assert(steps * lift <= 0x4_0000_0000_0000_0000) by (nonlinear_arith)
            requires
                0 <= steps <= 0x2_0000_0000,
                0 <= lift <= 0x1_0000_0000,
        ;
        let run: u128 = steps * lift;
        let q: u128 = if rise >= 0 {
            (run + (span as u128)) / twice
        } else {
            (run + (span as u128) - 1) / twice
        };
        proof {
            let u: int = if rise >= 0 { q as int } else { -(q as int) };
            assert(2 * k * magnitude(rise as int) == run);
            lemma_direct_offset(span as int, rise as int, k as int, q as int, u);
        }
        let a: i64 = if forward { a0 + k } else { a0 - k };
        let b: i64 = if rise >= 0 { b0 + (q as i64) } else { b0 - (q as i64) };
        let x: i64 = if steep { b } else { a };
        let y: i64 = if steep { a } else { b };
        proof {
            let point = (x as int, y as int);
            assert(on_line(coords(*p0), coords(*p1), point));
            assert(step_index(coords(*p0), coords(*p1), point) == k);
            lemma_prefix_grows(*p0, *p1, k as int, point);
            lemma_paint_insert(orig, line_prefix(*p0, *p1, k as int), x as int, y as int, *color);
        }
        plot(image, x, y, *color);
        k = k + 1;
    }
    proof {
        lemma_prefix_full(*p0, *p1, k as int);
    }
}

/// Draws the segment from `p0` to `p1` with `color` and returns the canvas.
/// Both end points are drawn, and the same pixels are set whichever end
/// comes first. Pixels of the segment that the canvas does not have are
/// skipped.
pub fn draw_line(image: Image, p0: Point, p1: Point, color: Rgba) -> (result: Image)
    ensures
        pixels(result) == paint(pixels(image), line_pixels(p0, p1), color),
{
    let mut new_image = image;
    draw_line_helper(&mut new_image, &p0, &p1, &color);
    new_image
}

/// Draws the segment from `p0` to `p1` with `color` and returns the canvas.
/// Pixels of the segment that the canvas does not have are skipped.
pub fn draw_line_bresenham(image: Image, p0: Point, p1: Point, color: Rgba) -> (result: Image)
    ensures
        pixels(result) == paint(pixels(image), line_pixels(p0, p1), color),
{
    let mut new_image = image;
    draw_line_bresenham_helper(&mut new_image, &p0, &p1, &color);
    new_image
}

/// Draws the outline of the triangle with corners `p0`, `p1` and `p2`.
pub fn draw_triangle(image: Image, p0: Point, p1: Point, p2: Point, color: Rgba) -> (result:
    Image)
    ensures
        pixels(result) == paint(pixels(image), triangle_pixels(p0, p1, p2), color),
{
    let mut new_image = image;
    draw_line_bresenham_helper(&mut new_image, &p0, &p1, &color);
    draw_line_bresenham_helper(&mut new_image, &p1, &p2, &color);
    draw_line_bresenham_helper(&mut new_image, &p2, &p0, &color);
    proof {
        let g = pixels(image);
        lemma_paint_union(g, line_pixels(p0, p1), line_pixels(p1, p2), color);
        lemma_paint_union(
            g,
            line_pixels(p0, p1).union(line_pixels(p1, p2)),
            line_pixels(p2, p0),
            color,
        );
    }
    new_image
}

/// A segment parallel to an axis holds the pixels between its two ends.
proof fn lemma_axis_line(p0: Point, p1: Point, q: (int, int))
    requires
        p0.0 == p1.0 || p0.1 == p1.1,
    ensures
        line_pixels(p0, p1).contains(q) <==> {
            &&& p0.0 <= q.0 <= p1.0 || p1.0 <= q.0 <= p0.0
            &&& p0.1 <= q.1 <= p1.1 || p1.1 <= q.1 <= p0.1
        },
{
    let a = coords(p0);
    let b = coords(p1);
    if magnitude(b.0 - a.0) >= magnitude(b.1 - a.1) {
        let span = magnitude(b.0 - a.0);
        if span != 0 {
            let k = if b.0 >= a.0 { q.0 - a.0 } else { a.0 - q.0 };
            assert(k * (b.1 - a.1) == 0);
            lemma_zero_offset(span, q.1 - a.1);
        }
    } else {
        let span = magnitude(b.1 - a.1);
        let k = if b.1 >= a.1 { q.1 - a.1 } else { a.1 - q.1 };
        assert(k * (b.0 - a.0) == 0);
        lemma_zero_offset(span, q.0 - a.0);
    }
}

proof fn lemma_zero_offset(span: int, u: int)
    by (nonlinear_arith)
    requires
        span > 0,
    ensures
        (-span < 2 * (u * span - 0) <= span) <==> u == 0,
{
}

/// The colour of a selection outline: all four channels zero.
pub open spec fn clear_color() -> Rgba {
    [0u8, 0u8, 0u8, 0u8]
}

/// Marks a selection: draws the four sides of the axis-aligned rectangle
/// with opposite corners `p0` and `p1` in the clear colour.
pub fn select_area(image: Image, p0: Point, p1: Point) -> (result: Image)
    ensures
        pixels(result) == paint(pixels(image), outline_pixels(p0, p1), clear_color()),
{
    let mut new_image = image;
    let p2: Point = (p0.0, p1.1);
    let p3: Point = (p1.0, p0.1);
    let color: Rgba = [0, 0, 0, 0];
    draw_line_bresenham_helper(&mut new_image, &p0, &p2, &color);
    draw_line_bresenham_helper(&mut new_image, &p0, &p3, &color);
    draw_line_bresenham_helper(&mut new_image, &p1, &p2, &color);
    draw_line_bresenham_helper(&mut new_image, &p1, &p3, &color);
    proof {
        assert(color =~= clear_color());
        let g = pixels(image);
        let s1 = line_pixels(p0, p2);
        let s2 = s1.union(line_pixels(p0, p3));
        let s3 = s2.union(line_pixels(p1, p2));
        let s4 = s3.union(line_pixels(p1, p3));
        lemma_paint_union(g, s1, line_pixels(p0, p3), color);
        lemma_paint_union(g, s2, line_pixels(p1, p2), color);
        lemma_paint_union(g, s3, line_pixels(p1, p3), color);
        assert forall|q: (int, int)| s4.contains(q) == outline_pixels(p0, p1).contains(q) by {
            lemma_axis_line(p0, p2, q);
            lemma_axis_line(p0, p3, q);
            lemma_axis_line(p1, p2, q);
            lemma_axis_line(p1, p3, q);
        }
        assert(s4 =~= outline_pixels(p0, p1));
    }
    new_image
}

} // verus!
