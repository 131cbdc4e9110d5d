use vstd::prelude::*;
use crate::canvas::{has_color, lemma_paint_empty, lemma_paint_insert, paint, pixels, set_pixel};
use crate::common::{Image, Rgba};
use crate::line::magnitude;

verus! {

/// The colour that marks a pixel as taken into a profile: each of red, green
/// and blue turned into its complement, and full alpha.
pub open spec fn inverse_color(c: Rgba) -> Rgba {
    [(255 - c[0]) as u8, (255 - c[1]) as u8, (255 - c[2]) as u8, 255u8]
}

/// The number of columns of row `y` that a profile scan reads: all but the
/// last column of the canvas, whose width is that of its first row.
pub open spec fn scan_width(g: Seq<Seq<Rgba>>, y: int) -> int {
    if g[0].len() == 0 {
        0
    } else if g[y].len() <= g[0].len() - 1 {
        g[y].len() as int
    } else {
        g[0].len() - 1
    }
}

/// The pixels that a profile scan takes: those of the colour, the last row
/// and the last column of the canvas left out.
pub open spec fn profile_region(g: Seq<Seq<Rgba>>, color: Rgba) -> Set<(int, int)> {
    Set::new(
        |q: (int, int)|
            0 <= q.1 < g.len() - 1 && 0 <= q.0 < scan_width(g, q.1) && g[q.1][q.0] == color,
    )
}

/// The part of the profile region above row `y`, or in row `y` left of
/// column `x`.
pub open spec fn profile_region_before(g: Seq<Seq<Rgba>>, color: Rgba, x: int, y: int) -> Set<
    (int, int),
> {
    Set::new(
        |q: (int, int)| profile_region(g, color).contains(q) && (q.1 < y || (q.1 == y && q.0 < x)),
    )
}

/// The profile points of the first `n` pixels of a row: for each pixel of
/// the colour, from left to right, its distance from the column `half` and
/// the row's number.
pub open spec fn row_profile(row: Seq<Rgba>, color: Rgba, half: int, y: int, n: int) -> Seq<
    (int, int),
>
    decreases n,
{
    if n <= 0 {
        Seq::empty()
    } else {
        let rest = row_profile(row, color, half, y, n - 1);
        if row[n - 1] == color {
            rest.push((magnitude(half - (n - 1)), y))
        } else {
            rest
        }
    }
}

/// The profile points of the first `m` rows, row after row. The distances
/// are measured from the middle column of the canvas.
pub open spec fn profile(g: Seq<Seq<Rgba>>, color: Rgba, m: int) -> Seq<(int, int)>
    decreases m,
{
    if m <= 0 {
        Seq::empty()
    } else {
        profile(g, color, m - 1) + row_profile(
            g[m - 1],
            color,
            g[0].len() as int / 2,
            m - 1,
            scan_width(g, m - 1),
        )
    }
}

/// A list of profile points as mathematical integers.
pub open spec fn profile_view(points: Seq<(u64, u64)>) -> Seq<(int, int)> {
    Seq::new(points.len(), |i: int| (points[i].0 as int, points[i].1 as int))
}

/// Takes the profile of a solid of revolution from the canvas.
///
/// Every pixel of the colour, the last row and the last column left out, is
/// recorded by its distance from the middle column and its row, and is then
/// marked with the inverse colour. The points come back in the order of the
/// scan, row after row and from left to right.
pub fn sweep_profile(image: Image, color: Rgba) -> (r: (Image, Vec<(u64, u64)>))
    ensures
        pixels(r.0) == paint(
            pixels(image),
            profile_region(pixels(image), color),
            inverse_color(color),
        ),
        profile_view(r.1@) == profile(pixels(image), color, pixels(image).len() - 1),
{
    let ghost orig = pixels(image);
    let mark: Rgba = [255 - color[0], 255 - color[1], 255 - color[2], 255];
    let mut new_image = image;
    let mut points_to_sweep: Vec<(u64, u64)> = Vec::new();
    proof {
        assert(mark =~= inverse_color(color));
        assert(profile_region_before(orig, color, 0, 0) =~= Set::<(int, int)>::empty());
        lemma_paint_empty(orig, mark);
        assert(profile_view(points_to_sweep@) =~= profile(orig, color, 0));
        assert(orig.len() == new_image@.len());
    }
    if new_image.len() == 0 {
        proof {
            assert(profile_region(orig, color) =~= Set::<(int, int)>::empty());
        }
        return (new_image, points_to_sweep);
    }
    proof {
        assert(orig[0].len() == new_image@[0]@.len());
    }
    let width: usize = new_image[0].len();
    let half: usize = width / 2;
    let last: usize = new_image.len() - 1;
    let mut y: usize = 0;
    while y < last
        invariant
            0 <= y <= last,
            last == orig.len() - 1,
            width == orig[0].len(),
            half == width / 2,
            mark == inverse_color(color),
            pixels(new_image) == paint(
                orig,
                profile_region_before(orig, color, 0, y as int),
                mark,
            ),
            profile_view(points_to_sweep@) == profile(orig, color, y as int),
        decreases last - y,
    {
        proof {
            assert(pixels(new_image).len() == new_image@.len());
            assert(pixels(new_image)[y as int].len() == new_image@[y as int]@.len());
        }
        let row_len: usize = new_image[y].len();
        let limit: usize = if width == 0 {
            0
        } else if row_len <= width - 1 {
            row_len
        } else {
            width - 1
        };
        let ghost before_row = points_to_sweep@;
        let mut x: usize = 0;
        proof {
            assert(profile_view(points_to_sweep@) + row_profile(orig[y as int], color, half as int, y as int, 0)
                =~= profile_view(points_to_sweep@));
        }
        while x < limit
            invariant
                0 <= x <= limit,
                limit == scan_width(orig, y as int),
                0 <= y < last,
                last == orig.len() - 1,
                width == orig[0].len(),
                half == width / 2,
                mark == inverse_color(color),
                pixels(new_image) == paint(
                    orig,
                    profile_region_before(orig, color, x as int, y as int),
                    mark,
                ),
                profile_view(points_to_sweep@) == profile(orig, color, y as int) + row_profile(
                    orig[y as int],
                    color,
                    half as int,
                    y as int,
                    x as int,
                ),
            decreases limit - x,
        {
            let ghost part = profile_region_before(orig, color, x as int, y as int);
            let ghost next = profile_region_before(orig, color, x as int + 1, y as int);
            let ghost listed = points_to_sweep@;
            if has_color(&new_image, x, y, &color) {
                let distance: u64 = if half >= x {
                    (half - x) as u64
                } else {
                    (x - half) as u64
                };
                points_to_sweep.push((distance, y as u64));
                proof {
                    assert(orig[y as int][x as int] == color);
                    assert(next =~= part.insert((x as int, y as int)));
                    lemma_paint_insert(orig, part, x as int, y as int, mark);
                    assert(profile_view(points_to_sweep@) =~= profile_view(listed).push(
                        (magnitude(half as int - x as int), y as int),
                    ));
                    assert(profile_view(points_to_sweep@) =~= profile(orig, color, y as int)
                        + row_profile(orig[y as int], color, half as int, y as int, x as int + 1));
                }
                set_pixel(&mut new_image, x, y, mark);
            } else {
                proof {
                    assert(orig[y as int][x as int] != color);
                    assert(next =~= part);
                }
            }
            x = x + 1;
        }
        proof {
            assert(profile_region_before(orig, color, 0, y as int + 1) =~= profile_region_before(
                orig,
                color,
                limit as int,
                y as int,
            ));
        }
        y = y + 1;
    }
    proof {
        assert(profile_region_before(orig, color, 0, last as int) =~= profile_region(orig, color));
    }
    (new_image, points_to_sweep)
}

} // verus!
