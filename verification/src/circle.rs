use vstd::prelude::*;
use crate::canvas::{lemma_paint_empty, lemma_paint_insert, paint, pixels, plot};
use crate::common::{Image, Point, Rgba};
use crate::line::{coords, magnitude};

verus! {

/// `r` is the square root of `n`, rounded down.
pub open spec fn is_root(n: int, r: int) -> bool {
    r >= 0 && r * r <= n < (r + 1) * (r + 1)
}

/// The square root of `n`, rounded down.
pub open spec fn floor_sqrt(n: int) -> int {
    choose|r: int| is_root(n, r)
}

/// The radius of the circle around `center` through `point`: their
/// distance, rounded down.
pub open spec fn radius_of(center: Point, point: Point) -> int {
    floor_sqrt(
        (point.0 - center.0) * (point.0 - center.0) + (point.1 - center.1) * (point.1
            - center.1),
    )
}

proof fn lemma_root_order(a: int, b: int)
    by (nonlinear_arith)
    requires
        0 <= a < b,
    ensures
        (a + 1) * (a + 1) <= b * b,
{
}

/// A number has one rounded-down square root.
pub proof fn lemma_floor_sqrt(n: int, r: int)
    requires
        is_root(n, r),
    ensures
        floor_sqrt(n) == r,
{
    let s = floor_sqrt(n);
    assert(is_root(n, s));
    if s < r {
        lemma_root_order(s, r);
    }
    if r < s {
        lemma_root_order(r, s);
    }
}

/// Computes the square root of `n`, rounded down, by bisection.
pub fn integer_root(n: u128) -> (r: u64)
    ensures
        is_root(n as int, r as int),
        r == floor_sqrt(n as int),
{
    let mut lo: u128 = 0;
    let mut hi: u128 = 0x1_0000_0000_0000_0000;
    assert(0x1_0000_0000_0000_0000int * 0x1_0000_0000_0000_0000int
        == 0x1_0000_0000_0000_0000_0000_0000_0000_0000int) by (nonlinear_arith);
    assert(0int * 0int == 0) by (nonlinear_arith);
    while hi - lo > 1
        invariant
            lo < hi <= 0x1_0000_0000_0000_0000,
            lo * lo <= n < hi * hi,
        decreases hi - lo,
    {
        let mid: u128 = lo + (hi - lo) / 2;
        assert(mid * mid <= 0xffff_ffff_ffff_ffff * 0xffff_ffff_ffff_ffff) by (nonlinear_arith)
            requires
                0 <= mid <= 0xffff_ffff_ffff_ffff,
        ;
        assert(0xffff_ffff_ffff_ffffint * 0xffff_ffff_ffff_ffffint
            < 0x1_0000_0000_0000_0000_0000_0000_0000_0000int) by (nonlinear_arith);
        if mid * mid <= n {
            lo = mid;
        } else {
            hi = mid;
        }
    }
    proof {
        assert(hi == lo + 1);
        lemma_floor_sqrt(n as int, lo as int);
    }
    lo as u64
}

/// Computes the radius of the circle around `p0` through `p1`.
pub fn calculate_radius(p0: Point, p1: Point) -> (radius: i64)
    ensures
        radius == radius_of(p0, p1),
        0 <= radius <= 0x2_0000_0000,
{
    let delta_x: i64 = p1.0 as i64 - p0.0 as i64;
    let delta_y: i64 = p1.1 as i64 - p0.1 as i64;
    let size_x: u128 = if delta_x < 0 { (-delta_x) as u128 } else { delta_x as u128 };
    let size_y: u128 = if delta_y < 0 { (-delta_y) as u128 } else { delta_y as u128 };
    assert(size_x * size_x <= 0x1_0000_0000 * 0x1_0000_0000) by (nonlinear_arith)
        requires
            0 <= size_x <= 0x1_0000_0000,
    ;
    assert(size_y * size_y <= 0x1_0000_0000 * 0x1_0000_0000) by (nonlinear_arith)
        requires
            0 <= size_y <= 0x1_0000_0000,
    ;
    assert(size_x * size_x == (p1.0 - p0.0) * (p1.0 - p0.0)) by (nonlinear_arith)
        requires
            size_x == p1.0 - p0.0 || size_x == -(p1.0 - p0.0),
    ;
    assert(size_y * size_y == (p1.1 - p0.1) * (p1.1 - p0.1)) by (nonlinear_arith)
        requires
            size_y == p1.1 - p0.1 || size_y == -(p1.1 - p0.1),
    ;
    let sum: u128 = size_x * size_x + size_y * size_y;
    let root: u64 = integer_root(sum);
    assert(root <= 0x2_0000_0000) by (nonlinear_arith)
        requires
            root * root <= sum,
            sum <= 0x2_0000_0000_0000_0000,
            0 <= root,
    ;
    root as i64
}

/// The level of the point `(x, y)` of the first octant: its squared distance
/// from the centre, less `y`. A circle of radius `r` passes between `(x, y)`
/// and `(x, y - 1)` where the level is near the square of `r`.
pub open spec fn arc_level(x: int, y: int) -> int {
    x * x + y * y - y
}

/// `(x, y)` is a pixel of the circle of radius `r` in the octant `0 <= x <= y`.
///
/// In each column `x` of the octant the circle has one pixel: the greatest
/// `y` with `x * x + y * y - y < r * r`, which is the `y` nearest to the
/// ideal circle. The circle of radius zero is its centre.
pub open spec fn on_arc(r: int, x: int, y: int) -> bool {
    &&& 0 <= x <= y
    &&& if r == 0 {
        y == 0
    } else {
        arc_level(x, y) < r * r <= arc_level(x, y + 1)
    }
}

/// `q` is a pixel of the circle: its offsets from the centre, signs dropped
/// and the smaller put first, name a pixel of the first octant.
pub open spec fn on_circle(c: (int, int), r: int, q: (int, int)) -> bool {
    let u = magnitude(q.0 - c.0);
    let v = magnitude(q.1 - c.1);
    if u <= v {
        on_arc(r, u, v)
    } else {
        on_arc(r, v, u)
    }
}

/// The smaller of the two offsets of `q` from the centre, signs dropped.
pub open spec fn minor_offset(c: (int, int), q: (int, int)) -> int {
    let u = magnitude(q.0 - c.0);
    let v = magnitude(q.1 - c.1);
    if u <= v {
        u
    } else {
        v
    }
}

/// The pixels of the midpoint circle of radius `r` around `center`.
pub open spec fn circle_pixels(center: Point, r: int) -> Set<(int, int)> {
    Set::new(|q: (int, int)| on_circle(coords(center), r, q))
}

/// The pixels of the circle whose smaller offset is less than `n`.
pub open spec fn circle_before(center: Point, r: int, n: int) -> Set<(int, int)> {
    Set::new(
        |q: (int, int)| on_circle(coords(center), r, q) && minor_offset(coords(center), q) < n,
    )
}

/// The eight pixels with offsets `x` and `y` from the centre.
pub open spec fn octants(c: (int, int), x: int, y: int) -> Set<(int, int)> {
    Set::empty().insert((c.0 + x, c.1 + y)).insert((c.0 + x, c.1 - y)).insert(
        (c.0 - x, c.1 + y),
    ).insert((c.0 - x, c.1 - y)).insert((c.0 + y, c.1 + x)).insert((c.0 + y, c.1 - x)).insert(
        (c.0 - y, c.1 + x),
    ).insert((c.0 - y, c.1 - x))
}

proof fn lemma_arc_level_steps(x: int, y: int)
    by (nonlinear_arith)
    ensures
        x * x + y * y - y == arc_level(x, y),
        arc_level(x + 1, y) == arc_level(x, y) + 2 * x + 1,
        arc_level(x, y + 1) == arc_level(x, y) + 2 * y,
        arc_level(x + 1, y - 1) == arc_level(x, y) + 2 * x - 2 * y + 3,
        arc_level(x + 2, y) == arc_level(x, y) + 4 * x + 4,
        arc_level(x + 2, y - 1) == arc_level(x, y) + 4 * x - 2 * y + 6,
        arc_level(x + 1, y + 1) == arc_level(x, y) + 2 * x + 2 * y + 1,
{
}

proof fn lemma_arc_level_grows(x: int, y: int, a: int, b: int)
    by (nonlinear_arith)
    requires
        0 <= x <= a,
        1 <= y <= b,
    ensures
        arc_level(x, y) <= arc_level(a, b),
{
}

/// A column of the octant holds one pixel of the circle.
proof fn lemma_arc_unique(r: int, x: int, y: int, z: int)
    requires
        on_arc(r, x, y),
        on_arc(r, x, z),
    ensures
        y == z,
{
    if r != 0 {
        lemma_arc_level_steps(x, 0);
        if y < z {
            lemma_arc_level_grows(x, y + 1, x, z);
        }
        if z < y {
            lemma_arc_level_grows(x, z + 1, x, y);
        }
    }
}

/// The circle is the same under the eight reflections about its centre:
/// changing the sign of either offset of a pixel, or exchanging the two
/// offsets, leads from a pixel of the circle to a pixel of the circle.
pub proof fn lemma_circle_eightfold(center: Point, r: int, dx: int, dy: int)
    ensures
        ({
            let c = coords(center);
            let here = circle_pixels(center, r).contains((c.0 + dx, c.1 + dy));
            &&& circle_pixels(center, r).contains((c.0 - dx, c.1 + dy)) == here
            &&& circle_pixels(center, r).contains((c.0 + dx, c.1 - dy)) == here
            &&& circle_pixels(center, r).contains((c.0 - dx, c.1 - dy)) == here
            &&& circle_pixels(center, r).contains((c.0 + dy, c.1 + dx)) == here
            &&& circle_pixels(center, r).contains((c.0 - dy, c.1 + dx)) == here
            &&& circle_pixels(center, r).contains((c.0 + dy, c.1 - dx)) == here
            &&& circle_pixels(center, r).contains((c.0 - dy, c.1 - dx)) == here
        }),
{
}

/// Every pixel of a circle of radius `r >= 1` lies at a distance from the
/// centre that rounds to `r`: with `s` the square of that distance,
/// `(r - 1/2)^2 < s < (r + 1/2)^2`, which for whole numbers is
/// `r * r - r < s < r * r + r`.
pub proof fn lemma_circle_near_radius(center: Point, r: int, q: (int, int))
    requires
        r >= 1,
        circle_pixels(center, r).contains(q),
    ensures
        ({
            let s = (q.0 - center.0) * (q.0 - center.0) + (q.1 - center.1) * (q.1 - center.1);
            r * r - r < s < r * r + r
        }),
{
    let c = coords(center);
    let u = magnitude(q.0 - c.0);
    let v = magnitude(q.1 - c.1);
    let x = if u <= v { u } else { v };
    let y = if u <= v { v } else { u };
    assert(on_arc(r, x, y));
    lemma_arc_level_steps(x, y);
    assert(u * u == (q.0 - c.0) * (q.0 - c.0)) by (nonlinear_arith)
        requires
            u == q.0 - c.0 || u == -(q.0 - c.0),
    ;
    assert(v * v == (q.1 - c.1) * (q.1 - c.1)) by (nonlinear_arith)
        requires
            v == q.1 - c.1 || v == -(q.1 - c.1),
    ;
    assert(x * x + y * y == u * u + v * v);
    assert(y <= r && x * x >= 0 && (y == r ==> y * y == r * r)) by (nonlinear_arith)
        requires
            0 <= x <= y,
            r >= 1,
            x * x + y * y - y < r * r,
    ;
}

/// Sets the eight pixels with offsets `x` and `y` from the centre.
fn plot_octants(
    image: &mut Image,
    cx: i64,
    cy: i64,
    x: i64,
    y: i64,
    color: Rgba,
    Ghost(orig): Ghost<Seq<Seq<Rgba>>>,
    Ghost(part): Ghost<Set<(int, int)>>,
)
    requires
        pixels(*old(image)) == paint(orig, part, color),
        -0x8000_0000 <= cx <= 0x8000_0000,
        -0x8000_0000 <= cy <= 0x8000_0000,
        -0x4_0000_0000 <= x <= 0x4_0000_0000,
        -0x4_0000_0000 <= y <= 0x4_0000_0000,
    ensures
        pixels(*final(image)) == paint(
            orig,
            part.union(octants((cx as int, cy as int), x as int, y as int)),
            color,
        ),
{
    let ghost c = (cx as int, cy as int);
    let ghost s1 = part.insert((c.0 + x, c.1 + y));
    let ghost s2 = s1.insert((c.0 + x, c.1 - y));
    let ghost s3 = s2.insert((c.0 - x, c.1 + y));
    let ghost s4 = s3.insert((c.0 - x, c.1 - y));
    let ghost s5 = s4.insert((c.0 + y, c.1 + x));
    let ghost s6 = s5.insert((c.0 + y, c.1 - x));
    let ghost s7 = s6.insert((c.0 - y, c.1 + x));
    let ghost s8 = s7.insert((c.0 - y, c.1 - x));
    proof {
        lemma_paint_insert(orig, part, c.0 + x, c.1 + y, color);
        lemma_paint_insert(orig, s1, c.0 + x, c.1 - y, color);
        lemma_paint_insert(orig, s2, c.0 - x, c.1 + y, color);
        lemma_paint_insert(orig, s3, c.0 - x, c.1 - y, color);
        lemma_paint_insert(orig, s4, c.0 + y, c.1 + x, color);
        lemma_paint_insert(orig, s5, c.0 + y, c.1 - x, color);
        lemma_paint_insert(orig, s6, c.0 - y, c.1 + x, color);
        lemma_paint_insert(orig, s7, c.0 - y, c.1 - x, color);
    }
    plot(image, cx + x, cy + y, color);
    plot(image, cx + x, cy - y, color);
    plot(image, cx - x, cy + y, color);
    plot(image, cx - x, cy - y, color);
    plot(image, cx + y, cy + x, color);
    plot(image, cx + y, cy - x, color);
    plot(image, cx - y, cy + x, color);
    plot(image, cx - y, cy - x, color);
    proof {
        assert(s8 =~= part.union(octants(c, x as int, y as int)));
    }
}

/// Draws the circle around `p0` through `p1` by the midpoint method.
///
/// The walk starts at the top of the circle and goes through one octant,
/// one column at a time. A decision variable, which starts at `3 - 2 * r`,
/// tells whether the next pixel keeps its row or moves one row towards the
/// centre. Each pixel is set in all eight octants; pixels outside the
/// canvas are skipped one by one.
pub fn draw_circle_bresenham_helper(image: &mut Image, p0: &Point, p1: &Point, color: &Rgba)
    ensures
        pixels(*final(image)) == paint(
            pixels(*old(image)),
            circle_pixels(*p0, radius_of(*p0, *p1)),
            *color,
        ),
{
    let ghost orig = pixels(*image);
    let ghost c = coords(*p0);
    let radius: i64 = calculate_radius(*p0, *p1);
    let ghost r = radius as int;
    let cx: i64 = p0.0 as i64;
    let cy: i64 = p0.1 as i64;
    proof {
        assert(circle_before(*p0, r, 0) =~= Set::<(int, int)>::empty());
        lemma_paint_empty(orig, *color);
    }
    if radius == 0 {
        plot_octants(image, cx, cy, 0, 0, *color, Ghost(orig), Ghost(Set::empty()));
        proof {
            assert(Set::<(int, int)>::empty().union(octants(c, 0, 0)) =~= circle_pixels(*p0, 0));
        }
        return ;
    }
    let mut x: i64 = 0;
    let mut y: i64 = radius;
    let mut d: i64 = 3 - 2 * radius;
    proof {
        lemma_arc_level_steps(0, r);
        assert(arc_level(0, r) == r * r - r) by (nonlinear_arith);
    }
    while x <= y
        invariant
            1 <= r <= 0x2_0000_0000,
            r == radius,
            c == coords(*p0),
            cx == p0.0,
            cy == p0.1,
            0 <= x <= y + 2,
            y <= r,
            d == 2 * arc_level(x as int + 1, y as int) - 2 * (r * r) + 1,
            x <= y ==> arc_level(x as int, y as int) < r * r <= arc_level(x as int, y as int + 1),
            x > y ==> arc_level(x as int, x as int) >= r * r,
            pixels(*image) == paint(orig, circle_before(*p0, r, x as int), *color),
        decreases r + 1 - x,
    {
        let ghost part = circle_before(*p0, r, x as int);
        proof {
            lemma_arc_level_steps(x as int, y as int);
        }
        plot_octants(image, cx, cy, x, y, *color, Ghost(orig), Ghost(part));
        proof {
            let next = circle_before(*p0, r, x as int + 1);
            let got = part.union(octants(c, x as int, y as int));
            assert(on_arc(r, x as int, y as int));
            assert forall|q: (int, int)| next.contains(q) implies got.contains(q) by {
                if minor_offset(c, q) == x {
                    let u = magnitude(q.0 - c.0);
                    let v = magnitude(q.1 - c.1);
                    if u <= v {
                        lemma_arc_unique(r, x as int, v, y as int);
                    } else {
                        lemma_arc_unique(r, x as int, u, y as int);
                    }
                }
            }
            assert forall|q: (int, int)| got.contains(q) implies next.contains(q) by {}
            assert(next =~= got);
        }
        if d < 0 {
            d = d + 4 * x + 6;
        } else {
            d = d + 4 * (x - y) + 10;
            y = y - 1;
        }
        x = x + 1;
    }
    proof {
        assert forall|q: (int, int)| circle_pixels(*p0, r).contains(q) implies circle_before(
            *p0,
            r,
            x as int,
        ).contains(q) by {
            let u = magnitude(q.0 - c.0);
            let v = magnitude(q.1 - c.1);
            let a = if u <= v { u } else { v };
            let b = if u <= v { v } else { u };
            if a >= x {
                lemma_arc_level_grows(x as int, x as int, a, b);
            }
        }
        assert(circle_before(*p0, r, x as int) =~= circle_pixels(*p0, r));
    }
}

/// Draws the circle with centre `p0` that passes through `p1`, with its
/// radius rounded down to a whole number of pixels.
pub fn draw_circle_bresenham(image: Image, p0: Point, p1: Point, color: Rgba) -> (result: Image)
    ensures
        pixels(result) == paint(pixels(image), circle_pixels(p0, radius_of(p0, p1)), color),
{
    let mut new_image = image;
    draw_circle_bresenham_helper(&mut new_image, &p0, &p1, &color);
    new_image
}

/// The pixels that the column-wise circle sets: for each column at an
/// offset `a` from the centre with `-r < a <= r`, the two pixels at the
/// height `sqrt(r * r - a * a)`, rounded down, above and below the centre.
pub open spec fn chord_pixels(center: Point, r: int) -> Set<(int, int)> {
    Set::new(
        |q: (int, int)|
            {
                let a = q.0 - center.0;
                -r < a <= r && magnitude(q.1 - center.1) == floor_sqrt(r * r - a * a)
            },
    )
}

/// The pixels of the first `n` columns, counted from the right.
pub open spec fn chord_before(center: Point, r: int, n: int) -> Set<(int, int)> {
    Set::new(|q: (int, int)| chord_pixels(center, r).contains(q) && q.0 - center.0 > r - n)
}

/// Draws the circle with centre `p0` that passes through `p1`, one column
/// at a time: in each column the two pixels are found from the circle's
/// equation by a square root.
///
/// The columns run from `r - 1` pixels left of the centre to `r` pixels
/// right of it, so a circle of radius zero sets nothing. Steep parts of the
/// outline are left with gaps. Pixels outside the canvas are skipped one
/// by one.
pub fn draw_circle(image: Image, p0: Point, p1: Point, color: Rgba) -> (result: Image)
    ensures
        pixels(result) == paint(pixels(image), chord_pixels(p0, radius_of(p0, p1)), color),
{
    let ghost orig = pixels(image);
    let mut new_image = image;
    let radius: i64 = calculate_radius(p0, p1);
    let ghost r = radius as int;
    let cx: i64 = p0.0 as i64;
    let cy: i64 = p0.1 as i64;
    assert(radius * radius <= 0x4_0000_0000_0000_0000) by (nonlinear_arith)
        requires
            0 <= radius <= 0x2_0000_0000,
    ;
    let square: u128 = (radius as u128) * (radius as u128);
    let mut x: i64 = -radius;
    proof {
        assert(chord_before(p0, r, 0) =~= Set::<(int, int)>::empty());
        lemma_paint_empty(orig, color);
    }
    while x < radius
        invariant
            0 <= r <= 0x2_0000_0000,
            r == radius,
            cx == p0.0,
            cy == p0.1,
            square == r * r,
            square <= 0x4_0000_0000_0000_0000,
            -r <= x <= r,
            pixels(new_image) == paint(orig, chord_before(p0, r, x + r), color),
        decreases radius - x,
    {
        let size: u128 = if x < 0 { (-x) as u128 } else { x as u128 };
        assert(size * size <= r * r && size * size == (-x) * (-x)) by (nonlinear_arith)
            requires
                0 <= size <= r,
                size == x || size == -x,
        ;
        let rest: u128 = square - size * size;
        let root: u64 = integer_root(rest);
        assert(root <= 0x2_0000_0000) by (nonlinear_arith)
            requires
                0 <= root,
                root * root <= rest,
                rest <= 0x4_0000_0000_0000_0000,
        ;
        let temp_y: i64 = root as i64;
        let x_circumference: i64 = cx - x;
        let y_upper: i64 = cy - temp_y;
        let y_lower: i64 = cy + temp_y;
        proof {
            let part = chord_before(p0, r, x + r);
            let upper = (x_circumference as int, y_upper as int);
            let lower = (x_circumference as int, y_lower as int);
            lemma_paint_insert(orig, part, upper.0, upper.1, color);
            lemma_paint_insert(orig, part.insert(upper), lower.0, lower.1, color);
            assert(chord_before(p0, r, x + r + 1) =~= part.insert(upper).insert(lower));
        }
        plot(&mut new_image, x_circumference, y_upper, color);
        plot(&mut new_image, x_circumference, y_lower, color);
        x = x + 1;
    }
    proof {
        assert(chord_before(p0, r, x + r) =~= chord_pixels(p0, r));
    }
    new_image
}

} // verus!
