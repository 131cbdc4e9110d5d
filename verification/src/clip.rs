use vstd::prelude::*;
use crate::canvas::{paint, pixels};
use crate::common::{Border, Edge, Image, Point, Rgba};
use crate::line::{coords, draw_line_bresenham_helper, magnitude, segment_pixels};

verus! {

/// Outcode bit: the point lies above the top side.
pub const TOP: u8 = 0b1000;

/// Outcode bit: the point lies below the bottom side.
pub const BOTTOM: u8 = 0b0100;

/// Outcode bit: the point lies right of the right side.
pub const RIGHT: u8 = 0b0010;

/// Outcode bit: the point lies left of the left side.
pub const LEFT: u8 = 0b0001;

/// The outcode of `(x, y)`: one bit for each side of the rectangle that the
/// point lies beyond. A point on a side is not beyond it, so the code is zero
/// exactly for the points of the rectangle, sides included.
pub open spec fn outcode(x: int, y: int, b: Border) -> u8 {
    let v: u8 = if y > b.top {
        TOP
    } else if y < b.bottom {
        BOTTOM
    } else {
        0u8
    };
    let h: u8 = if x > b.right {
        RIGHT
    } else if x < b.left {
        LEFT
    } else {
        0u8
    };
    (v + h) as u8
}

/// The integer nearest to `n / d`; a quotient exactly midway between two
/// integers goes to the one farther from zero.
pub open spec fn round_div(n: int, d: int) -> int {
    let q = (2 * magnitude(n) + magnitude(d)) / (2 * magnitude(d));
    if (n >= 0) == (d > 0) {
        q
    } else {
        -q
    }
}

/// The points where the line through `p0` and `p1` meets the lines that
/// carry the sides of the rectangle, each rounded to the nearest pixel.
///
/// A vertical line meets only the bottom and the top, a horizontal one only
/// the left and the right; any other line meets, in this order, the left,
/// the top, the bottom and the right.
pub open spec fn crossings(p0: (int, int), p1: (int, int), b: Border) -> Seq<(int, int)> {
    let dx = p1.0 - p0.0;
    let dy = p1.1 - p0.1;
    if dx == 0 {
        seq![(p0.0, b.bottom as int), (p0.0, b.top as int)]
    } else if dy == 0 {
        seq![(b.left as int, p0.1), (b.right as int, p0.1)]
    } else {
        seq![
            (b.left as int, round_div(p0.1 * dx + (b.left - p0.0) * dy, dx)),
            (round_div(p0.0 * dy + (b.top - p0.1) * dx, dy), b.top as int),
            (round_div(p0.0 * dy + (b.bottom - p0.1) * dx, dy), b.bottom as int),
            (b.right as int, round_div(p0.1 * dx + (b.right - p0.0) * dy, dx)),
        ]
    }
}

/// `c` lies strictly between `p0` and `p1`, measured along the axis on which
/// the segment has its greater extent (along x when the extents are equal).
pub open spec fn within_segment(p0: (int, int), p1: (int, int), c: (int, int)) -> bool {
    if magnitude(p1.0 - p0.0) >= magnitude(p1.1 - p0.1) {
        (p0.0 < c.0 < p1.0) || (p1.0 < c.0 < p0.0)
    } else {
        (p0.1 < c.1 < p1.1) || (p1.1 < c.1 < p0.1)
    }
}

/// A crossing counts when it is a point of the rectangle and, if `strict`,
/// lies strictly between the two end points.
pub open spec fn counts(p0: (int, int), p1: (int, int), b: Border, strict: bool, c: (int, int))
    -> bool {
    b.holds(c.0, c.1) && (strict ==> within_segment(p0, p1, c))
}

/// The index of the first crossing at or after index `i` that counts.
pub open spec fn first_hit(p0: (int, int), p1: (int, int), b: Border, strict: bool, i: int)
    -> Option<int>
    decreases crossings(p0, p1, b).len() - i,
{
    let c = crossings(p0, p1, b);
    if i < 0 || i >= c.len() {
        None
    } else if counts(p0, p1, b, strict, c[i]) {
        Some(i)
    } else {
        first_hit(p0, p1, b, strict, i + 1)
    }
}

/// The part of the segment from `p0` to `p1` that the rectangle shows, for a
/// segment that is neither wholly inside nor beyond one side.
///
/// An end point inside the rectangle is kept, and the other end becomes the
/// first crossing that lies in the rectangle and strictly between the end
/// points; if there is none, the segment shrinks to the kept point. With
/// both end points outside, the two ends become the first two crossings
/// that lie in the rectangle (twice the same one if there is only one), and
/// nothing is shown if no crossing lies in it.
pub open spec fn segment_in_screen(p0: (int, int), p1: (int, int), b: Border) -> Option<
    ((int, int), (int, int)),
> {
    let c = crossings(p0, p1, b);
    if b.holds(p0.0, p0.1) {
        match first_hit(p0, p1, b, true, 0) {
            Some(i) => Some((p0, c[i])),
            None => Some((p0, p0)),
        }
    } else if b.holds(p1.0, p1.1) {
        match first_hit(p0, p1, b, true, 0) {
            Some(i) => Some((c[i], p1)),
            None => Some((p1, p1)),
        }
    } else {
        match first_hit(p0, p1, b, false, 0) {
            Some(i) => match first_hit(p0, p1, b, false, i + 1) {
                Some(j) => Some((c[i], c[j])),
                None => Some((c[i], c[i])),
            },
            None => None,
        }
    }
}

/// Cohen-Sutherland clipping of the segment from `p0` to `p1` against the
/// rectangle, whose sides belong to it.
///
/// Both outcodes zero: the segment is shown as it is. A bit common to both
/// outcodes: both ends lie beyond one side, and nothing is shown. Otherwise
/// the segment is cut at the sides.
pub open spec fn clipped(p0: (int, int), p1: (int, int), b: Border) -> Option<
    ((int, int), (int, int)),
> {
    let code0 = outcode(p0.0, p0.1, b);
    let code1 = outcode(p1.0, p1.1, b);
    if code0 == 0 && code1 == 0 {
        Some((p0, p1))
    } else if code0 & code1 != 0 {
        None
    } else {
        segment_in_screen(p0, p1, b)
    }
}

/// Both end points lie beyond one and the same side of the rectangle.
pub open spec fn beyond_one_side(p0: (int, int), p1: (int, int), b: Border) -> bool {
    ||| p0.1 > b.top && p1.1 > b.top
    ||| p0.1 < b.bottom && p1.1 < b.bottom
    ||| p0.0 > b.right && p1.0 > b.right
    ||| p0.0 < b.left && p1.0 < b.left
}

/// The point lies on one of the four lines that carry the sides.
pub open spec fn on_side(q: (int, int), b: Border) -> bool {
    q.0 == b.left || q.0 == b.right || q.1 == b.top || q.1 == b.bottom
}

/// An optional segment of pixel coordinates as mathematical integers.
pub open spec fn edge_coords(e: Option<Edge>) -> Option<((int, int), (int, int))> {
    match e {
        Some(e) => Some((coords(e.0), coords(e.1))),
        None => None,
    }
}

/// The rectangle spanned by two opposite corners.
pub open spec fn border_of(boundary: Edge) -> Border {
    Border {
        top: if boundary.0.1 >= boundary.1.1 { boundary.0.1 } else { boundary.1.1 },
        bottom: if boundary.0.1 <= boundary.1.1 { boundary.0.1 } else { boundary.1.1 },
        left: if boundary.0.0 <= boundary.1.0 { boundary.0.0 } else { boundary.1.0 },
        right: if boundary.0.0 >= boundary.1.0 { boundary.0.0 } else { boundary.1.0 },
    }
}

/// Computes the outcode of a point.
pub fn assign_code_to_point(p0: &Point, borders: &Border) -> (code: u8)
    ensures
        code == outcode(p0.0 as int, p0.1 as int, *borders),
        code == 0 <==> borders.holds(p0.0 as int, p0.1 as int),
{
    let mut code: u8 = 0b0000;
    if p0.1 > borders.top {
        code += TOP;
    } else if p0.1 < borders.bottom {
        code += BOTTOM;
    }
    if p0.0 > borders.right {
        code += RIGHT;
    } else if p0.0 < borders.left {
        code += LEFT;
    }
    code
}

/// Tells whether `p2` lies strictly between `p0` and `p1` along the axis of
/// the segment's greater extent. The three points are taken to be collinear.
pub fn is_inside_segment(p0: &Point, p1: &Point, p2: &Point) -> (inside: bool)
    ensures
        inside == within_segment(coords(*p0), coords(*p1), coords(*p2)),
{
    let delta_x: i64 = p1.0 as i64 - p0.0 as i64;
    let delta_y: i64 = p1.1 as i64 - p0.1 as i64;
    let abs_x: i64 = if delta_x < 0 { -delta_x } else { delta_x };
    let abs_y: i64 = if delta_y < 0 { -delta_y } else { delta_y };
    if abs_x >= abs_y {
        (p0.0 < p2.0 && p2.0 < p1.0) || (p1.0 < p2.0 && p2.0 < p0.0)
    } else {
        (p0.1 < p2.1 && p2.1 < p1.1) || (p1.1 < p2.1 && p2.1 < p0.1)
    }
}

/// What is kept of a crossing: its point if it lies in the rectangle.
pub open spec fn hit_of(c: (int, int), b: Border) -> Option<Point> {
    if b.holds(c.0, c.1) {
        Some((c.0 as i32, c.1 as i32))
    } else {
        None
    }
}

/// Divides with rounding to the nearest integer.
fn rounded_quotient(n: i128, d: i128) -> (r: i128)
    requires
        d != 0,
        -0x1_0000_0000_0000_0000_0000 <= n <= 0x1_0000_0000_0000_0000_0000,
        -0x1_0000_0000_0000_0000_0000 <= d <= 0x1_0000_0000_0000_0000_0000,
    ensures
        r == round_div(n as int, d as int),
{
    let size_n: u128 = if n < 0 { (-n) as u128 } else { n as u128 };
    let size_d: u128 = if d < 0 { (-d) as u128 } else { d as u128 };
    let top: u128 = 2 * size_n + size_d;
    let q: u128 = top / (2 * size_d);
    proof {
        vstd::arithmetic::div_mod::lemma_div_nonincreasing(top as int, 2 * size_d);
        vstd::arithmetic::div_mod::lemma_div_pos_is_pos(top as int, 2 * size_d);
    }
    let signed: i128 = q as i128;
    if (n >= 0) == (d > 0) {
        signed
    } else {
        -signed
    }
}

/// Where the line through a point meets one of the four side lines.
///
/// The line passes through a point with coordinate `from` along the axis
/// that the side line crosses and `base` along the other; it advances `run`
/// along the other axis for every `rise` along the crossed one. The result is
/// its coordinate along the other axis where the crossed one reaches `level`.
fn meet(base: i32, from: i32, level: i32, run: i64, rise: i64) -> (r: i128)
    requires
        rise != 0,
        -0x1_0000_0000 < run < 0x1_0000_0000,
        -0x1_0000_0000 < rise < 0x1_0000_0000,
    ensures
        r == round_div(base * rise + (level - from) * run, rise as int),
{
    assert(-0x8000_0000_0000_0000 <= base * rise <= 0x8000_0000_0000_0000) by (nonlinear_arith)
        requires
            -0x8000_0000 <= base <= 0x8000_0000,
            -0x1_0000_0000 < rise < 0x1_0000_0000,
    ;
    assert(-0x1_0000_0000_0000_0000 <= (level - from) * run <= 0x1_0000_0000_0000_0000)
        by (nonlinear_arith)
        requires
            -0x1_0000_0000 <= level - from <= 0x1_0000_0000,
            -0x1_0000_0000 < run < 0x1_0000_0000,
    ;
    let first: i128 = (base as i128) * (rise as i128);
    let second: i128 = ((level as i128) - (from as i128)) * (run as i128);
    rounded_quotient(first + second, rise as i128)
}

/// Keeps a crossing if it is a point of the rectangle.
fn keep_hit(x: i128, y: i128, borders: &Border) -> (r: Option<Point>)
    ensures
        r == hit_of((x as int, y as int), *borders),
{
    if (borders.left as i128) <= x && x <= (borders.right as i128) && (borders.bottom as i128) <= y
        && y <= (borders.top as i128) {
        Some((x as i32, y as i32))
    } else {
        None
    }
}

/// Finds the first kept crossing, from index `start` on, that counts.
fn find_hit(
    hits: &Vec<Option<Point>>,
    start: usize,
    p0: &Point,
    p1: &Point,
    borders: &Border,
    strict: bool,
) -> (r: Option<usize>)
    requires
        hits@.len() == crossings(coords(*p0), coords(*p1), *borders).len(),
        forall|i: int|
            0 <= i < hits@.len() ==> hits@[i] == hit_of(
                #[trigger] crossings(coords(*p0), coords(*p1), *borders)[i],
                *borders,
            ),
    ensures
        match r {
            Some(i) => {
                &&& first_hit(coords(*p0), coords(*p1), *borders, strict, start as int) == Some(
                    i as int,
                )
                &&& i < hits@.len()
                &&& hits@[i as int] matches Some(c)
                &&& coords(c) == crossings(coords(*p0), coords(*p1), *borders)[i as int]
            },
            None => first_hit(coords(*p0), coords(*p1), *borders, strict, start as int) is None,
        },
{
    let ghost a = coords(*p0);
    let ghost b = coords(*p1);
    let ghost c = crossings(a, b, *borders);
    let mut i: usize = start;
    while i < hits.len()
        invariant
            start <= i,
            hits@.len() == c.len(),
            c == crossings(a, b, *borders),
            a == coords(*p0),
            b == coords(*p1),
            forall|j: int| 0 <= j < hits@.len() ==> hits@[j] == hit_of(#[trigger] c[j], *borders),
            first_hit(a, b, *borders, strict, start as int) == first_hit(
                a,
                b,
                *borders,
                strict,
                i as int,
            ),
        decreases hits.len() - i,
    {
        let entry: Option<Point> = hits[i];
        proof {
            assert(entry == hit_of(c[i as int], *borders));
        }
        match entry {
            Some(point) => {
                if !strict || is_inside_segment(p0, p1, &point) {
                    return Some(i);
                }
            },
            None => {},
        }
        i = i + 1;
    }
    None
}

/// Cuts a segment that is neither wholly inside the rectangle nor beyond one
/// of its sides. `None` means that no part of it is shown.
pub fn points_in_screen(p0: &Point, p1: &Point, borders: &Border) -> (r: Option<Edge>)
    ensures
        edge_coords(r) == segment_in_screen(coords(*p0), coords(*p1), *borders),
{
    let delta_y: i64 = p1.1 as i64 - p0.1 as i64;
    let delta_x: i64 = p1.0 as i64 - p0.0 as i64;
    let ghost c = crossings(coords(*p0), coords(*p1), *borders);
    let mut hits: Vec<Option<Point>> = Vec::new();
    if delta_x == 0 {
        hits.push(keep_hit(p0.0 as i128, borders.bottom as i128, borders));
        hits.push(keep_hit(p0.0 as i128, borders.top as i128, borders));
    } else if delta_y == 0 {
        hits.push(keep_hit(borders.left as i128, p0.1 as i128, borders));
        hits.push(keep_hit(borders.right as i128, p0.1 as i128, borders));
    } else {
        let yl: i128 = meet(p0.1, p0.0, borders.left, delta_y, delta_x);
        let xt: i128 = meet(p0.0, p0.1, borders.top, delta_x, delta_y);
        let xb: i128 = meet(p0.0, p0.1, borders.bottom, delta_x, delta_y);
        let yr: i128 = meet(p0.1, p0.0, borders.right, delta_y, delta_x);
        hits.push(keep_hit(borders.left as i128, yl, borders));
        hits.push(keep_hit(xt, borders.top as i128, borders));
        hits.push(keep_hit(xb, borders.bottom as i128, borders));
        hits.push(keep_hit(borders.right as i128, yr, borders));
    }
    assert(hits@.len() == c.len());
    assert forall|i: int| 0 <= i < hits@.len() implies hits@[i] == hit_of(
        #[trigger] c[i],
        *borders,
    ) by {}
    let code_p0 = assign_code_to_point(p0, borders);
    let code_p1 = assign_code_to_point(p1, borders);
    if code_p0 == 0 {
        match find_hit(&hits, 0, p0, p1, borders, true) {
            Some(i) => {
                match hits[i] {
                    Some(point) => Some((*p0, point)),
                    None => Some((*p0, *p0)),
                }
            },
            None => Some((*p0, *p0)),
        }
    } else if code_p1 == 0 {
        match find_hit(&hits, 0, p0, p1, borders, true) {
            Some(i) => {
                match hits[i] {
                    Some(point) => Some((point, *p1)),
                    None => Some((*p1, *p1)),
                }
            },
            None => Some((*p1, *p1)),
        }
    } else {
        match find_hit(&hits, 0, p0, p1, borders, false) {
            Some(i) => {
                match hits[i] {
                    Some(first) => {
                        match find_hit(&hits, i + 1, p0, p1, borders, false) {
                            Some(j) => {
                                match hits[j] {
                                    Some(second) => Some((first, second)),
                                    None => Some((first, first)),
                                }
                            },
                            None => Some((first, first)),
                        }
                    },
                    None => None,
                }
            },
            None => None,
        }
    }
}

/// Clips the segment from `p0` to `p1` against the rectangle, whose sides
/// belong to it. `None` means that no part of the segment is shown.
///
/// A segment with both ends in the rectangle comes back unchanged, and one
/// with both ends beyond the same side is not shown. With one end in the
/// rectangle, that end is kept and the other becomes a point of the
/// rectangle on one of its side lines.
pub fn clip(p0: Point, p1: Point, border: &Border) -> (r: Option<Edge>)
    ensures
        edge_coords(r) == clipped(coords(p0), coords(p1), *border),
        border.holds(p0.0 as int, p0.1 as int) && border.holds(p1.0 as int, p1.1 as int) ==> r
            == Some((p0, p1)),
        border.wf() && beyond_one_side(coords(p0), coords(p1), *border) ==> r is None,
        border.holds(p0.0 as int, p0.1 as int) != border.holds(p1.0 as int, p1.1 as int) ==> (r
            matches Some(e) && border.holds(e.0.0 as int, e.0.1 as int) && border.holds(
            e.1.0 as int,
            e.1.1 as int,
        ) && (if border.holds(p0.0 as int, p0.1 as int) {
            e.0 == p0 && on_side(coords(e.1), *border)
        } else {
            e.1 == p1 && on_side(coords(e.0), *border)
        })),
{
    proof {
        if border.wf() {
            lemma_outcodes_share_bit(coords(p0), coords(p1), *border);
        }
        if border.holds(p0.0 as int, p0.1 as int) != border.holds(p1.0 as int, p1.1 as int) {
            lemma_clip_one_inside(coords(p0), coords(p1), *border);
        }
    }
    let code_p0 = assign_code_to_point(&p0, border);
    let code_p1 = assign_code_to_point(&p1, border);
    if code_p0 == 0 && code_p1 == 0 {
        Some((p0, p1))
    } else if code_p0 & code_p1 != 0 {
        None
    } else {
        points_in_screen(&p0, &p1, border)
    }
}

/// Clips the segment from `p0` to `p1` against the rectangle spanned by the
/// two corners of `boundary` and draws what is shown of it.
pub fn cohen_sutherland(image: Image, p0: Point, p1: Point, color: Rgba, boundary: Edge) -> (result:
    Image)
    ensures
        pixels(result) == match clipped(coords(p0), coords(p1), border_of(boundary)) {
            Some(e) => paint(pixels(image), segment_pixels(e.0, e.1), color),
            None => pixels(image),
        },
{
    let mut new_image = image;
    let xl: i32 = if boundary.0.0 <= boundary.1.0 { boundary.0.0 } else { boundary.1.0 };
    let xr: i32 = if boundary.0.0 >= boundary.1.0 { boundary.0.0 } else { boundary.1.0 };
    let yt: i32 = if boundary.0.1 >= boundary.1.1 { boundary.0.1 } else { boundary.1.1 };
    let yb: i32 = if boundary.0.1 <= boundary.1.1 { boundary.0.1 } else { boundary.1.1 };
    let borders = Border { top: yt, bottom: yb, left: xl, right: xr };
    match clip(p0, p1, &borders) {
        Some(edge) => {
            draw_line_bresenham_helper(&mut new_image, &edge.0, &edge.1, &color);
        },
        None => {},
    }
    new_image
}

/// Outcodes are made of a vertical part (top, bottom or neither) and a
/// horizontal part (right, left or neither); two of them share a bit exactly
/// when they agree in a part that is set.
proof fn lemma_shared_bit(v0: u8, h0: u8, v1: u8, h1: u8)
    requires
        v0 == 8 || v0 == 4 || v0 == 0,
        v1 == 8 || v1 == 4 || v1 == 0,
        h0 == 2 || h0 == 1 || h0 == 0,
        h1 == 2 || h1 == 1 || h1 == 0,
    ensures
        (((v0 + h0) as u8) & ((v1 + h1) as u8) != 0) <==> ((v0 != 0 && v0 == v1) || (h0 != 0 && h0
            == h1)),
{
    assert((((v0 + h0) as u8) & ((v1 + h1) as u8) != 0) <==> ((v0 != 0 && v0 == v1) || (h0 != 0
        && h0 == h1))) by (bit_vector)
        requires
            v0 == 8 || v0 == 4 || v0 == 0,
            v1 == 8 || v1 == 4 || v1 == 0,
            h0 == 2 || h0 == 1 || h0 == 0,
            h1 == 2 || h1 == 1 || h1 == 0,
    ;
}

/// The two outcodes share a bit exactly when both end points lie beyond one
/// and the same side.
pub proof fn lemma_outcodes_share_bit(p0: (int, int), p1: (int, int), b: Border)
    requires
        b.wf(),
    ensures
        (outcode(p0.0, p0.1, b) & outcode(p1.0, p1.1, b) != 0) <==> beyond_one_side(p0, p1, b),
{
    let v0: u8 = if p0.1 > b.top { TOP } else if p0.1 < b.bottom { BOTTOM } else { 0u8 };
    let h0: u8 = if p0.0 > b.right { RIGHT } else if p0.0 < b.left { LEFT } else { 0u8 };
    let v1: u8 = if p1.1 > b.top { TOP } else if p1.1 < b.bottom { BOTTOM } else { 0u8 };
    let h1: u8 = if p1.0 > b.right { RIGHT } else if p1.0 < b.left { LEFT } else { 0u8 };
    lemma_shared_bit(v0, h0, v1, h1);
}

/// A segment with both outcodes zero is shown as it is.
pub proof fn lemma_clip_accepts(p0: (int, int), p1: (int, int), b: Border)
    requires
        outcode(p0.0, p0.1, b) == 0,
        outcode(p1.0, p1.1, b) == 0,
    ensures
        clipped(p0, p1, b) == Some((p0, p1)),
{
}

/// A segment whose outcodes share a set bit is not shown at all.
pub proof fn lemma_clip_rejects(p0: (int, int), p1: (int, int), b: Border)
    requires
        outcode(p0.0, p0.1, b) & outcode(p1.0, p1.1, b) != 0,
    ensures
        clipped(p0, p1, b) is None,
{
    let c0 = outcode(p0.0, p0.1, b);
    let c1 = outcode(p1.0, p1.1, b);
    assert(!(c0 == 0 && c1 == 0)) by (bit_vector)
        requires
            c0 & c1 != 0,
    ;
}

/// The rounded quotient is nearest: it differs from the exact quotient by
/// at most one half.
proof fn lemma_round_near(n: int, d: int)
    requires
        d != 0,
    ensures
        -magnitude(d) <= 2 * (n - round_div(n, d) * d) <= magnitude(d),
{
    let size_n = magnitude(n);
    let size_d = magnitude(d);
    let top = 2 * size_n + size_d;
    let q = top / (2 * size_d);
    let r = top % (2 * size_d);
    vstd::arithmetic::div_mod::lemma_fundamental_div_mod(top, 2 * size_d);
    vstd::arithmetic::div_mod::lemma_mod_bound(top, 2 * size_d);
    assert((2 * size_d) * q == 2 * (q * size_d)) by (nonlinear_arith);
    // 2 * (size_n - q * size_d) == r - size_d, which lies in [-size_d, size_d)
    let rounded = round_div(n, d);
    if (n >= 0) == (d > 0) {
        assert(rounded == q);
        if d > 0 {
            assert(rounded * d == q * size_d);
        } else {
            assert(rounded * d == -(q * size_d)) by (nonlinear_arith)
                requires
                    rounded == q,
                    d == -size_d,
            ;
        }
    } else {
        assert(rounded == -q);
        if d > 0 {
            assert(rounded * d == -(q * size_d)) by (nonlinear_arith)
                requires
                    rounded == -q,
                    d == size_d,
            ;
        } else {
            assert(rounded * d == q * size_d) by (nonlinear_arith)
                requires
                    rounded == -q,
                    d == -size_d,
            ;
        }
    }
}

/// A crossing lies within half a pixel of the line. With `c` the rounded
/// coordinate where the line through a point reaches `level`, `u = c - base`
/// its offset along the free axis and `w = level - from` the offset along the
/// crossed one: `|u * rise - w * run| <= |rise| / 2`.
proof fn lemma_cross_near(base: int, from: int, level: int, run: int, rise: int)
    requires
        rise != 0,
    ensures
        ({
            let c = round_div(base * rise + (level - from) * run, rise);
            -magnitude(rise) <= 2 * ((c - base) * rise - (level - from) * run) <= magnitude(rise)
        }),
{
    let n = base * rise + (level - from) * run;
    let c = round_div(n, rise);
    lemma_round_near(n, rise);
    assert((c - base) * rise == c * rise - base * rise) by (nonlinear_arith);
}

/// The geometry behind a cut, with all directions positive.
///
/// A line leaves a point that lies `wa` before the far side along its major
/// axis and `wb` before the far side along its minor axis; it advances `da`
/// along the major and `db` along the minor axis. The crossing with the far
/// side of the minor axis lies `h` along the major axis, and the crossing
/// with the far side of the major axis lies `v` along the minor axis. If the
/// line ends beyond the minor far side without passing the major one, or
/// its crossing with the major far side lies beyond the minor far side,
/// then the other crossing lies strictly between the two ends and not
/// beyond the major far side.
proof fn lemma_side_hit_positive(da: int, db: int, wa: int, wb: int, v: int, h: int)
    requires
        da >= db,
        db >= 1,
        wa >= 1,
        wb >= 1,
        -db <= 2 * (h * db - wb * da) <= db,
        (da <= wa && db > wb) || (da > wa && -da <= 2 * (v * da - wa * db) <= da && v >= wb + 1),
    ensures
        1 <= h <= da - 1,
        h <= wa,
{
    assert(wb * da >= da) by (nonlinear_arith)
        requires
            wb >= 1,
            da >= 1,
    ;
    assert(h >= 1) by (nonlinear_arith)
        requires
            h * db >= 1,
            db >= 1,
    ;
    if da <= wa && db > wb {
        assert(wb * da <= db * da - da) by (nonlinear_arith)
            requires
                1 <= wb <= db - 1,
                da >= 1,
        ;
        assert(h < da) by (nonlinear_arith)
            requires
                h * db < db * da,
                db >= 1,
        ;
    } else {
        assert(v * da >= wb * da + da) by (nonlinear_arith)
            requires
                v >= wb + 1,
                da >= 1,
        ;
        assert(h <= wa) by (nonlinear_arith)
            requires
                h * db <= wa * db,
                db >= 1,
        ;
    }
}

/// The same with the directions as they come: `da` and `wa` have one sign,
/// `db` and `wb` have one sign, and `v` and `h` are signed offsets.
proof fn lemma_side_hit(da: int, db: int, wa: int, wb: int, v: int, h: int)
    requires
        magnitude(da) >= magnitude(db) >= 1,
        (da > 0 && wa >= 1) || (da < 0 && wa <= -1),
        (db > 0 && wb >= 1) || (db < 0 && wb <= -1),
        -magnitude(db) <= 2 * (h * db - wb * da) <= magnitude(db),
        (magnitude(da) <= magnitude(wa) && magnitude(db) > magnitude(wb)) || (magnitude(da)
            > magnitude(wa) && -magnitude(da) <= 2 * (v * da - wa * db) <= magnitude(da) && (if db
            > 0 {
            v >= wb + 1
        } else {
            v <= wb - 1
        })),
    ensures
        da > 0 ==> 1 <= h <= da - 1 && h <= wa,
        da < 0 ==> da + 1 <= h <= -1 && h >= wa,
{
    let size_a = magnitude(da);
    let size_b = magnitude(db);
    let far_a = magnitude(wa);
    let far_b = magnitude(wb);
    let along = if da > 0 { h } else { -h };
    let across = if db > 0 { v } else { -v };
    assert(along * size_b - far_b * size_a == h * db - wb * da || along * size_b - far_b * size_a
        == -(h * db - wb * da)) by (nonlinear_arith)
        requires
            (along == h && size_a == da && far_a == wa) || (along == -h && size_a == -da && far_a
                == -wa),
            (size_b == db && far_b == wb) || (size_b == -db && far_b == -wb),
    ;
    assert(across * size_a - far_a * size_b == v * da - wa * db || across * size_a - far_a
        * size_b == -(v * da - wa * db)) by (nonlinear_arith)
        requires
            (size_a == da && far_a == wa) || (size_a == -da && far_a == -wa),
            (across == v && size_b == db && far_b == wb) || (across == -v && size_b == -db
                && far_b == -wb),
    ;
    lemma_side_hit_positive(size_a, size_b, far_a, far_b, across, along);
}

/// The crossing with the far side of the major axis does not lie behind the
/// starting point along the minor axis.
proof fn lemma_not_behind(da: int, db: int, wa: int, v: int)
    requires
        magnitude(da) >= magnitude(db) >= 1,
        (da > 0 && wa >= 1) || (da < 0 && wa <= -1),
        -magnitude(da) <= 2 * (v * da - wa * db) <= magnitude(da),
    ensures
        db > 0 ==> v >= 0,
        db < 0 ==> v <= 0,
{
    let size_a = magnitude(da);
    let size_b = magnitude(db);
    let far_a = magnitude(wa);
    let across = if db > 0 { v } else { -v };
    assert(across * size_a - far_a * size_b == v * da - wa * db || across * size_a - far_a
        * size_b == -(v * da - wa * db)) by (nonlinear_arith)
        requires
            (size_a == da && far_a == wa) || (size_a == -da && far_a == -wa),
            (across == v && size_b == db) || (across == -v && size_b == -db),
    ;
    assert(far_a * size_b >= size_b) by (nonlinear_arith)
        requires
            far_a >= 1,
            size_b >= 1,
    ;
    assert(across >= 0) by (nonlinear_arith)
        requires
            2 * (across * size_a) > -2 * size_a,
            size_a >= 1,
    ;
}

/// A segment that starts strictly inside the rectangle and ends outside has
/// a crossing in the rectangle that lies strictly between its two ends.
proof fn lemma_strict_hit_exists(p0: (int, int), p1: (int, int), b: Border)
    requires
        b.left < p0.0 < b.right,
        b.bottom < p0.1 < b.top,
        !b.holds(p1.0, p1.1),
    ensures
        exists|k: int|
            0 <= k < crossings(p0, p1, b).len() && counts(
                p0,
                p1,
                b,
                true,
                #[trigger] crossings(p0, p1, b)[k],
            ),
{
    let dx = p1.0 - p0.0;
    let dy = p1.1 - p0.1;
    let c = crossings(p0, p1, b);
    if dx == 0 {
        let k: int = if dy > 0 { 1 } else { 0 };
        assert(counts(p0, p1, b, true, c[k]));
    } else if dy == 0 {
        let k: int = if dx > 0 { 1 } else { 0 };
        assert(counts(p0, p1, b, true, c[k]));
    } else {
        let x_far: int = if dx > 0 { b.right as int } else { b.left as int };
        let y_far: int = if dy > 0 { b.top as int } else { b.bottom as int };
        let kx: int = if dx > 0 { 3 } else { 0 };
        let ky: int = if dy > 0 { 1 } else { 2 };
        let yv = c[kx].1;
        let xh = c[ky].0;
        lemma_cross_near(p0.1, p0.0, x_far, dy, dx);
        lemma_cross_near(p0.0, p0.1, y_far, dx, dy);
        assert(yv == round_div(p0.1 * dx + (x_far - p0.0) * dy, dx));
        assert(xh == round_div(p0.0 * dy + (y_far - p0.1) * dx, dy));
        if magnitude(dx) >= magnitude(dy) {
            let passes = magnitude(dx) > magnitude(x_far - p0.0);
            if passes && b.bottom <= yv <= b.top {
                assert(counts(p0, p1, b, true, c[kx]));
            } else {
                if passes {
                    lemma_not_behind(dx, dy, x_far - p0.0, yv - p0.1);
                }
                lemma_side_hit(dx, dy, x_far - p0.0, y_far - p0.1, yv - p0.1, xh - p0.0);
                assert(counts(p0, p1, b, true, c[ky]));
            }
        } else {
            let passes = magnitude(dy) > magnitude(y_far - p0.1);
            if passes && b.left <= xh <= b.right {
                assert(counts(p0, p1, b, true, c[ky]));
            } else {
                if passes {
                    lemma_not_behind(dy, dx, y_far - p0.1, xh - p0.0);
                }
                lemma_side_hit(dy, dx, y_far - p0.1, x_far - p0.0, xh - p0.0, yv - p0.1);
                assert(counts(p0, p1, b, true, c[kx]));
            }
        }
    }
}

/// What the search for a crossing returns: the first one that counts, or
/// nothing if none counts.
proof fn lemma_first_hit(p0: (int, int), p1: (int, int), b: Border, strict: bool, i: int)
    requires
        0 <= i,
    ensures
        match first_hit(p0, p1, b, strict, i) {
            Some(k) => i <= k < crossings(p0, p1, b).len() && counts(
                p0,
                p1,
                b,
                strict,
                crossings(p0, p1, b)[k],
            ),
            None => forall|j: int|
                i <= j < crossings(p0, p1, b).len() ==> !counts(
                    p0,
                    p1,
                    b,
                    strict,
                    #[trigger] crossings(p0, p1, b)[j],
                ),
        },
    decreases crossings(p0, p1, b).len() - i,
{
    let c = crossings(p0, p1, b);
    if i < c.len() && !counts(p0, p1, b, strict, c[i]) {
        lemma_first_hit(p0, p1, b, strict, i + 1);
    }
}

proof fn lemma_round_div_mirror(n: int, d: int)
    requires
        d != 0,
    ensures
        round_div(-n, -d) == round_div(n, d),
{
    if n == 0 {
        vstd::arithmetic::div_mod::lemma_basic_div(magnitude(d), 2 * magnitude(d));
    }
}

/// A crossing computed from the other end of the segment is the same.
proof fn lemma_cross_mirror(base: int, from: int, level: int, run: int, rise: int)
    requires
        rise != 0,
    ensures
        round_div((base + run) * (-rise) + (level - (from + rise)) * (-run), -rise) == round_div(
            base * rise + (level - from) * run,
            rise,
        ),
{
    let n = base * rise + (level - from) * run;
    assert((base + run) * (-rise) + (level - (from + rise)) * (-run) == -n) by (nonlinear_arith)
        requires
            n == base * rise + (level - from) * run,
    ;
    lemma_round_div_mirror(n, rise);
}

/// The crossings belong to the line, not to the order of its end points.
proof fn lemma_crossings_symmetric(p0: (int, int), p1: (int, int), b: Border)
    ensures
        crossings(p0, p1, b) == crossings(p1, p0, b),
{
    let dx = p1.0 - p0.0;
    let dy = p1.1 - p0.1;
    if dx != 0 && dy != 0 {
        lemma_cross_mirror(p0.1, p0.0, b.left as int, dy, dx);
        lemma_cross_mirror(p0.1, p0.0, b.right as int, dy, dx);
        lemma_cross_mirror(p0.0, p0.1, b.top as int, dx, dy);
        lemma_cross_mirror(p0.0, p0.1, b.bottom as int, dx, dy);
    }
    assert(crossings(p0, p1, b) =~= crossings(p1, p0, b));
}

/// With one end point in the rectangle and the other outside, something is
/// shown: the end point inside is kept as it is, and the other end is a
/// point of the rectangle on one of the four side lines.
pub proof fn lemma_clip_one_inside(p0: (int, int), p1: (int, int), b: Border)
    requires
        b.holds(p0.0, p0.1) != b.holds(p1.0, p1.1),
    ensures
        clipped(p0, p1, b) matches Some(e) && b.holds(e.0.0, e.0.1) && b.holds(e.1.0, e.1.1) && (
        if b.holds(p0.0, p0.1) {
            e.0 == p0 && on_side(e.1, b)
        } else {
            e.1 == p1 && on_side(e.0, b)
        }),
{
    let code0 = outcode(p0.0, p0.1, b);
    let code1 = outcode(p1.0, p1.1, b);
    assert(code0 == 0 <==> b.holds(p0.0, p0.1));
    assert(code1 == 0 <==> b.holds(p1.0, p1.1));
    assert(code0 & code1 == 0) by (bit_vector)
        requires
            code0 == 0 || code1 == 0,
    ;
    let c = crossings(p0, p1, b);
    lemma_first_hit(p0, p1, b, true, 0);
    match first_hit(p0, p1, b, true, 0) {
        Some(i) => {
            assert(on_side(c[i], b));
        },
        None => {
            if b.holds(p0.0, p0.1) {
                if !on_side(p0, b) {
                    lemma_strict_hit_exists(p0, p1, b);
                }
            } else {
                if !on_side(p1, b) {
                    lemma_strict_hit_exists(p1, p0, b);
                    lemma_crossings_symmetric(p0, p1, b);
                    let k = choose|k: int|
                        0 <= k < crossings(p1, p0, b).len() && counts(
                            p1,
                            p0,
                            b,
                            true,
                            #[trigger] crossings(p1, p0, b)[k],
                        );
                    assert(counts(p0, p1, b, true, c[k]));
                }
            }
        },
    }
}

} // verus!
