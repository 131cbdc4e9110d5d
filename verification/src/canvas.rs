use vstd::prelude::*;
use crate::common::{Image, Rgba};

verus! {

/// The canvas as a mathematical grid: row `y`, then column `x`.
pub open spec fn pixels(image: Image) -> Seq<Seq<Rgba>> {
    Seq::new(image@.len(), |y: int| image@[y]@)
}

/// `(x, y)` names a pixel of the grid.
pub open spec fn inside(g: Seq<Seq<Rgba>>, x: int, y: int) -> bool {
    0 <= y < g.len() && 0 <= x < g[y].len()
}

/// The grid with every pixel of `region` that it holds set to `color`.
/// Coordinates of `region` outside the grid are ignored.
pub open spec fn paint(g: Seq<Seq<Rgba>>, region: Set<(int, int)>, color: Rgba) -> Seq<Seq<Rgba>> {
    Seq::new(
        g.len(),
        |y: int|
            Seq::new(
                g[y].len(),
                |x: int|
                    if region.contains((x, y)) {
                        color
                    } else {
                        g[y][x]
                    },
            ),
    )
}

/// The grid after one guarded write: `(x, y)` takes `color` if it names a
/// pixel, and nothing changes otherwise.
pub open spec fn plotted(g: Seq<Seq<Rgba>>, x: int, y: int, color: Rgba) -> Seq<Seq<Rgba>> {
    if inside(g, x, y) {
        g.update(y, g[y].update(x, color))
    } else {
        g
    }
}

/// Painting nothing leaves the grid as it is.
pub proof fn lemma_paint_empty(g: Seq<Seq<Rgba>>, color: Rgba)
    ensures
        paint(g, Set::empty(), color) == g,
{
    assert(paint(g, Set::empty(), color) =~~= g);
}

/// One more guarded write on a painted grid paints the region with that
/// pixel added.
pub proof fn lemma_paint_insert(
    g: Seq<Seq<Rgba>>,
    region: Set<(int, int)>,
    x: int,
    y: int,
    color: Rgba,
)
    ensures
        plotted(paint(g, region, color), x, y, color) == paint(g, region.insert((x, y)), color),
{
    let before = paint(g, region, color);
    let after = paint(g, region.insert((x, y)), color);
    let got = plotted(before, x, y, color);
    assert(got.len() == after.len());
    assert forall|j: int| 0 <= j < after.len() implies #[trigger] got[j] == after[j] by {
        assert(got[j].len() == after[j].len());
        assert forall|i: int| 0 <= i < after[j].len() implies #[trigger] got[j][i]
            == after[j][i] by {
            if i == x && j == y {
                assert(inside(before, x, y));
            }
        }
        assert(got[j] =~= after[j]);
    }
    assert(got =~= after);
}

/// Painting one region and then another, in one colour, paints their union.
pub proof fn lemma_paint_union(
    g: Seq<Seq<Rgba>>,
    a: Set<(int, int)>,
    b: Set<(int, int)>,
    color: Rgba,
)
    ensures
        paint(paint(g, a, color), b, color) == paint(g, a.union(b), color),
{
    let l = paint(paint(g, a, color), b, color);
    let r = paint(g, a.union(b), color);
    assert forall|j: int| 0 <= j < r.len() implies #[trigger] l[j] == r[j] by {
        assert(l[j] =~= r[j]);
    }
    assert(l =~= r);
}

/// Painting a region twice in one colour is painting it once.
pub proof fn lemma_paint_idempotent(g: Seq<Seq<Rgba>>, region: Set<(int, int)>, color: Rgba)
    ensures
        paint(paint(g, region, color), region, color) == paint(g, region, color),
{
    lemma_paint_union(g, region, region, color);
    assert(region.union(region) =~= region);
}

/// Whether two colours are the same in all four channels.
pub fn same_color(a: &Rgba, b: &Rgba) -> (r: bool)
    ensures
        r == (*a == *b),
{
    let r = a[0] == b[0] && a[1] == b[1] && a[2] == b[2] && a[3] == b[3];
    proof {
        if r {
            assert(*a =~= *b);
        }
    }
    r
}

/// The bounds-checked pixel write: sets the pixel at column `x` of row `y`
/// when the canvas has one there, and does nothing when it has not.
pub fn plot(image: &mut Image, x: i64, y: i64, color: Rgba)
    ensures
        pixels(*final(image)) == plotted(pixels(*old(image)), x as int, y as int, color),
{
    if x >= 0 && y >= 0 && (y as u64) < (image.len() as u64) {
        let row = y as usize;
        if (x as u64) < (image[row].len() as u64) {
            let col = x as usize;
            image[row][col] = color;
            proof {
                let got = pixels(*image);
                let want = plotted(pixels(*old(image)), x as int, y as int, color);
                assert forall|j: int| 0 <= j < want.len() implies #[trigger] got[j] == want[j] by {
                    assert(got[j] =~= want[j]);
                }
                assert(got =~= want);
            }
            return ;
        }
    }
    proof {
        assert(!inside(pixels(*old(image)), x as int, y as int));
    }
}

/// Sets the pixel at column `x` of row `y`, which the canvas must have.
pub fn set_pixel(image: &mut Image, x: usize, y: usize, color: Rgba)
    requires
        inside(pixels(*old(image)), x as int, y as int),
    ensures
        pixels(*final(image)) == plotted(pixels(*old(image)), x as int, y as int, color),
{
    assert(pixels(*image)[y as int].len() == image@[y as int]@.len());
    image[y][x] = color;
    proof {
        let got = pixels(*image);
        let want = plotted(pixels(*old(image)), x as int, y as int, color);
        assert forall|j: int| 0 <= j < want.len() implies #[trigger] got[j] == want[j] by {
            assert(got[j] =~= want[j]);
        }
        assert(got =~= want);
    }
}

/// Whether the canvas has a pixel at column `x` of row `y` with the colour.
pub fn has_color(image: &Image, x: usize, y: usize, color: &Rgba) -> (r: bool)
    ensures
        r == (inside(pixels(*image), x as int, y as int) && pixels(*image)[y as int][x as int]
            == *color),
{
    if y < image.len() {
        assert(pixels(*image)[y as int].len() == image@[y as int]@.len());
        if x < image[y].len() {
            return same_color(&image[y][x], color);
        }
    }
    false
}

} // verus!
