use vstd::prelude::*;
use crate::canvas::{
    has_color, inside, lemma_paint_empty, lemma_paint_insert, paint, pixels, plot, plotted,
    same_color, set_pixel,
};
use crate::common::{Image, Neighborhood, Point, Rgba};
use crate::line::{coords, magnitude};

verus! {

/// The tolerance of a flood fill, in percent of the greatest possible
/// difference between two colours.
pub const FILL_TOLERANCE: u32 = 5;

/// The sum, over red, green and blue, of the absolute channel differences.
/// Alpha takes no part.
pub open spec fn color_distance(a: Rgba, b: Rgba) -> int {
    magnitude(a[0] - b[0]) + magnitude(a[1] - b[1]) + magnitude(a[2] - b[2])
}

/// Two colours are similar when the mean of their three channel differences,
/// each taken as a fraction of 255, is less than `tolerance` percent.
pub open spec fn similar(a: Rgba, b: Rgba, tolerance: int) -> bool {
    100 * color_distance(a, b) < tolerance * 765
}

/// The neighbourhood that a flood fill uses.
pub open spec fn hood_of(n4: bool) -> Neighborhood {
    if n4 {
        Neighborhood::Four
    } else {
        Neighborhood::Eight
    }
}

/// A pixel that a fill with `color` may take: it is on the canvas, at a
/// position that a `Point` can name, does not have the fill colour yet, and
/// is similar to the colour `like`.
pub open spec fn fillable(g: Seq<Seq<Rgba>>, like: Rgba, color: Rgba, q: (int, int)) -> bool {
    &&& inside(g, q.0, q.1)
    &&& q.0 <= i32::MAX
    &&& q.1 <= i32::MAX
    &&& g[q.1][q.0] != color
    &&& similar(g[q.1][q.0], like, FILL_TOLERANCE as int)
}

/// A walk from the seed over pixels that the fill may take, each adjacent to
/// the one before it.
pub open spec fn is_fill_path(
    g: Seq<Seq<Rgba>>,
    seed: (int, int),
    color: Rgba,
    hood: Neighborhood,
    path: Seq<(int, int)>,
) -> bool {
    &&& path.len() > 0
    &&& path[0] == seed
    &&& forall|i: int| 0 <= i < path.len() ==> fillable(g, g[seed.1][seed.0], color, #[trigger] path[i])
    &&& forall|i: int| 0 < i < path.len() ==> hood.adjacent(path[i - 1], #[trigger] path[i])
}

/// The pixels that a flood fill from `seed` reaches: the ends of all walks
/// from the seed. It is empty when the seed is off the canvas or already has
/// the fill colour.
pub open spec fn fill_region(
    g: Seq<Seq<Rgba>>,
    seed: (int, int),
    color: Rgba,
    hood: Neighborhood,
) -> Set<(int, int)> {
    Set::new(
        |q: (int, int)|
            exists|path: Seq<(int, int)>|
                #[trigger] is_fill_path(g, seed, color, hood, path) && path.last() == q,
    )
}

/// The number of pixels of a row that do not have the colour.
pub open spec fn row_uncolored(row: Seq<Rgba>, color: Rgba) -> nat
    decreases row.len(),
{
    if row.len() == 0 {
        0
    } else {
        row_uncolored(row.drop_last(), color) + if row.last() != color {
            1nat
        } else {
            0nat
        }
    }
}

/// The number of pixels of a grid that do not have the colour.
pub open spec fn uncolored(g: Seq<Seq<Rgba>>, color: Rgba) -> nat
    decreases g.len(),
{
    if g.len() == 0 {
        0
    } else {
        uncolored(g.drop_last(), color) + row_uncolored(g.last(), color)
    }
}

proof fn lemma_row_uncolored_update(row: Seq<Rgba>, x: int, color: Rgba)
    requires
        0 <= x < row.len(),
        row[x] != color,
    ensures
        row_uncolored(row.update(x, color), color) + 1 == row_uncolored(row, color),
    decreases row.len(),
{
    let after = row.update(x, color);
    if x == row.len() - 1 {
        assert(after.drop_last() =~= row.drop_last());
    } else {
        assert(after.drop_last() =~= row.drop_last().update(x, color));
        lemma_row_uncolored_update(row.drop_last(), x, color);
    }
}

proof fn lemma_uncolored_update(g: Seq<Seq<Rgba>>, y: int, row: Seq<Rgba>, color: Rgba)
    requires
        0 <= y < g.len(),
        row_uncolored(row, color) + 1 == row_uncolored(g[y], color),
    ensures
        uncolored(g.update(y, row), color) + 1 == uncolored(g, color),
    decreases g.len(),
{
    let after = g.update(y, row);
    if y == g.len() - 1 {
        assert(after.drop_last() =~= g.drop_last());
    } else {
        assert(after.drop_last() =~= g.drop_last().update(y, row));
        lemma_uncolored_update(g.drop_last(), y, row, color);
    }
}

/// Setting a pixel that did not have the colour leaves one pixel fewer
/// without it.
proof fn lemma_uncolored_plotted(g: Seq<Seq<Rgba>>, x: int, y: int, color: Rgba)
    requires
        inside(g, x, y),
        g[y][x] != color,
    ensures
        uncolored(plotted(g, x, y, color), color) + 1 == uncolored(g, color),
{
    lemma_row_uncolored_update(g[y], x, color);
    lemma_uncolored_update(g, y, g[y].update(x, color), color);
}

/// A fillable seed is reached.
proof fn lemma_region_has_seed(g: Seq<Seq<Rgba>>, seed: (int, int), color: Rgba, hood: Neighborhood)
    requires
        inside(g, seed.0, seed.1),
        seed.0 <= i32::MAX,
        seed.1 <= i32::MAX,
        g[seed.1][seed.0] != color,
    ensures
        fill_region(g, seed, color, hood).contains(seed),
{
    let path = seq![seed];
    assert(is_fill_path(g, seed, color, hood, path));
    assert(path.last() == seed);
}

/// A seed that the fill may not take reaches nothing.
proof fn lemma_region_empty(g: Seq<Seq<Rgba>>, seed: (int, int), color: Rgba, hood: Neighborhood)
    requires
        !fillable(g, g[seed.1][seed.0], color, seed),
    ensures
        fill_region(g, seed, color, hood) == Set::<(int, int)>::empty(),
{
    assert forall|q: (int, int)| !fill_region(g, seed, color, hood).contains(q) by {
        if fill_region(g, seed, color, hood).contains(q) {
            let path = choose|path: Seq<(int, int)>|
                #[trigger] is_fill_path(g, seed, color, hood, path) && path.last() == q;
            assert(fillable(g, g[seed.1][seed.0], color, path[0]));
        }
    }
    assert(fill_region(g, seed, color, hood) =~= Set::<(int, int)>::empty());
}

/// Every reached pixel is one that the fill may take.
proof fn lemma_region_fillable(
    g: Seq<Seq<Rgba>>,
    seed: (int, int),
    color: Rgba,
    hood: Neighborhood,
    q: (int, int),
)
    requires
        fill_region(g, seed, color, hood).contains(q),
    ensures
        fillable(g, g[seed.1][seed.0], color, q),
{
    let path = choose|path: Seq<(int, int)>|
        #[trigger] is_fill_path(g, seed, color, hood, path) && path.last() == q;
    assert(fillable(g, g[seed.1][seed.0], color, path[path.len() - 1]));
}

/// A fillable pixel adjacent to a reached one is reached.
proof fn lemma_region_step(
    g: Seq<Seq<Rgba>>,
    seed: (int, int),
    color: Rgba,
    hood: Neighborhood,
    a: (int, int),
    b: (int, int),
)
    requires
        fill_region(g, seed, color, hood).contains(a),
        hood.adjacent(a, b),
        fillable(g, g[seed.1][seed.0], color, b),
    ensures
        fill_region(g, seed, color, hood).contains(b),
{
    let path = choose|path: Seq<(int, int)>|
        #[trigger] is_fill_path(g, seed, color, hood, path) && path.last() == a;
    let longer = path.push(b);
    assert forall|i: int| 0 <= i < longer.len() implies fillable(
        g,
        g[seed.1][seed.0],
        color,
        #[trigger] longer[i],
    ) by {
        if i < path.len() {
            assert(longer[i] == path[i]);
        }
    }
    assert forall|i: int| 0 < i < longer.len() implies hood.adjacent(
        longer[i - 1],
        #[trigger] longer[i],
    ) by {
        if i < path.len() {
            assert(longer[i] == path[i]);
            assert(longer[i - 1] == path[i - 1]);
        }
    }
    assert(is_fill_path(g, seed, color, hood, longer));
    assert(longer.last() == b);
}

/// A set that holds the seed and, with each of its pixels, the adjacent ones
/// that the fill may take, holds every pixel of every walk.
proof fn lemma_closed_holds_path(
    g: Seq<Seq<Rgba>>,
    seed: (int, int),
    color: Rgba,
    hood: Neighborhood,
    done: Set<(int, int)>,
    path: Seq<(int, int)>,
    i: int,
)
    requires
        is_fill_path(g, seed, color, hood, path),
        0 <= i < path.len(),
        done.contains(seed),
        forall|a: (int, int), b: (int, int)|
            done.contains(a) && #[trigger] hood.adjacent(a, b) && fillable(
                g,
                g[seed.1][seed.0],
                color,
                b,
            ) ==> done.contains(b),
    ensures
        done.contains(path[i]),
    decreases i,
{
    if i > 0 {
        lemma_closed_holds_path(g, seed, color, hood, done, path, i - 1);
        assert(hood.adjacent(path[i - 1], path[i]));
    }
}

/// Whether two colours are similar within `tolerance` percent.
pub fn is_similar_color(color1: Rgba, color2: Rgba, tolerance: u32) -> (r: bool)
    ensures
        r == similar(color1, color2, tolerance as int),
{
    let delta_r: u64 = if color1[0] >= color2[0] {
        (color1[0] - color2[0]) as u64
    } else {
        (color2[0] - color1[0]) as u64
    };
    let delta_g: u64 = if color1[1] >= color2[1] {
        (color1[1] - color2[1]) as u64
    } else {
        (color2[1] - color1[1]) as u64
    };
    let delta_b: u64 = if color1[2] >= color2[2] {
        (color1[2] - color2[2]) as u64
    } else {
        (color2[2] - color1[2]) as u64
    };
    100 * (delta_r + delta_g + delta_b) < (tolerance as u64) * 765
}

/// The four positions that share a side with `(x, y)`, column by column.
pub open spec fn around_4(x: int, y: int) -> Seq<(int, int)> {
    seq![(x - 1, y), (x, y - 1), (x, y + 1), (x + 1, y)]
}

/// The eight positions around `(x, y)`, column by column.
pub open spec fn around_8(x: int, y: int) -> Seq<(int, int)> {
    seq![
        (x - 1, y - 1),
        (x - 1, y),
        (x - 1, y + 1),
        (x, y - 1),
        (x, y + 1),
        (x + 1, y - 1),
        (x + 1, y),
        (x + 1, y + 1),
    ]
}

/// A list of positions as mathematical integers.
pub open spec fn positions(v: Seq<(i64, i64)>) -> Seq<(int, int)> {
    Seq::new(v.len(), |i: int| (v[i].0 as int, v[i].1 as int))
}

/// The four positions that share a side with `point`. They are given in a
/// wider type than the point's, so that none is lost at the limits.
pub fn get_neighbors_4(point: Point) -> (neighbors: Vec<(i64, i64)>)
    ensures
        positions(neighbors@) == around_4(point.0 as int, point.1 as int),
{
    let mut neighbors: Vec<(i64, i64)> = Vec::new();
    let x: i64 = point.0 as i64;
    let y: i64 = point.1 as i64;
    neighbors.push((x - 1, y));
    neighbors.push((x, y - 1));
    neighbors.push((x, y + 1));
    neighbors.push((x + 1, y));
    assert(positions(neighbors@) =~= around_4(point.0 as int, point.1 as int));
    neighbors
}

/// The eight positions around `point`. They are given in a wider type than
/// the point's, so that none is lost at the limits.
pub fn get_neighbors_8(point: Point) -> (neighbors: Vec<(i64, i64)>)
    ensures
        positions(neighbors@) == around_8(point.0 as int, point.1 as int),
{
    let mut neighbors: Vec<(i64, i64)> = Vec::new();
    let x: i64 = point.0 as i64;
    let y: i64 = point.1 as i64;
    neighbors.push((x - 1, y - 1));
    neighbors.push((x - 1, y));
    neighbors.push((x - 1, y + 1));
    neighbors.push((x, y - 1));
    neighbors.push((x, y + 1));
    neighbors.push((x + 1, y - 1));
    neighbors.push((x + 1, y));
    neighbors.push((x + 1, y + 1));
    assert(positions(neighbors@) =~= around_8(point.0 as int, point.1 as int));
    neighbors
}

/// The positions adjacent to `(x, y)` in the neighbourhood.
pub open spec fn around(hood: Neighborhood, x: int, y: int) -> Seq<(int, int)> {
    if hood == Neighborhood::Four {
        around_4(x, y)
    } else {
        around_8(x, y)
    }
}

/// The list of positions around a pixel holds every adjacent position.
proof fn lemma_adjacent_listed(hood: Neighborhood, a: (int, int), b: (int, int))
    requires
        hood.adjacent(a, b),
    ensures
        exists|k: int| 0 <= k < around(hood, a.0, a.1).len() && #[trigger] around(hood, a.0, a.1)[k] == b,
{
    let l = around(hood, a.0, a.1);
    let dx = b.0 - a.0;
    let dy = b.1 - a.1;
    if hood == Neighborhood::Four {
        let k: int = if dx == -1 { 0 } else if dx == 1 { 3 } else if dy == -1 { 1 } else { 2 };
        assert(l[k] == b);
    } else {
        let k: int = if dx == -1 {
            dy + 1
        } else if dx == 0 {
            if dy == -1 { 3 } else { 4 }
        } else {
            dy + 6
        };
        assert(l[k] == b);
    }
}

/// Every listed position is adjacent.
proof fn lemma_listed_adjacent(hood: Neighborhood, a: (int, int), k: int)
    requires
        0 <= k < around(hood, a.0, a.1).len(),
    ensures
        hood.adjacent(a, around(hood, a.0, a.1)[k]),
{
}

/// The positions adjacent to `point` in the neighbourhood.
pub fn get_neighbors(point: Point, hood: Neighborhood) -> (neighbors: Vec<(i64, i64)>)
    ensures
        positions(neighbors@) == around(hood, point.0 as int, point.1 as int),
{
    match hood {
        Neighborhood::Four => get_neighbors_4(point),
        Neighborhood::Eight => get_neighbors_8(point),
    }
}

/// The position `q` waits in the queue.
pub open spec fn waiting(queue: Seq<Point>, q: (int, int)) -> bool {
    exists|i: int| 0 <= i < queue.len() && coords(#[trigger] queue[i]) == q
}

/// Fills the region around the seed `p0` with `color`.
///
/// The region holds the seed and every pixel that a walk from the seed
/// reaches through adjacent pixels (four neighbours if `n4`, else eight),
/// where each pixel of the walk is similar, within five percent, to the
/// colour that the seed had, and does not have the fill colour. A seed off
/// the canvas, or one that has the fill colour already, leaves the canvas
/// unchanged.
pub fn flood_fill(image: Image, p0: Point, color: Rgba, n4: bool) -> (result: Image)
    ensures
        pixels(result) == paint(
            pixels(image),
            fill_region(pixels(image), coords(p0), color, hood_of(n4)),
            color,
        ),
{
    let ghost orig = pixels(image);
    let ghost seed = coords(p0);
    let hood: Neighborhood = if n4 {
        Neighborhood::Four
    } else {
        Neighborhood::Eight
    };
    let ghost region = fill_region(orig, seed, color, hood);
    let mut new_image = image;
    if p0.0 < 0 || p0.1 < 0 || (p0.1 as u64) >= (new_image.len() as u64) {
        proof {
            lemma_region_empty(orig, seed, color, hood);
            lemma_paint_empty(orig, color);
        }
        return new_image;
    }
    if (p0.0 as u64) >= (new_image[p0.1 as usize].len() as u64) {
        proof {
            lemma_region_empty(orig, seed, color, hood);
            lemma_paint_empty(orig, color);
        }
        return new_image;
    }
    let old_color: Rgba = new_image[p0.1 as usize][p0.0 as usize];
    if same_color(&old_color, &color) {
        proof {
            lemma_region_empty(orig, seed, color, hood);
            lemma_paint_empty(orig, color);
        }
        return new_image;
    }
    let mut queue: Vec<Point> = Vec::new();
    queue.push(p0);
    let ghost mut done: Set<(int, int)> = Set::empty();
    proof {
        lemma_paint_empty(orig, color);
        lemma_region_has_seed(orig, seed, color, hood);
        assert(coords(queue@[0]) == seed);
    }
    while queue.len() > 0
        invariant
            pixels(new_image) == paint(orig, done, color),
            old_color == orig[seed.1][seed.0],
            inside(orig, seed.0, seed.1),
            region == fill_region(orig, seed, color, hood),
            hood == hood_of(n4),
            forall|q: (int, int)| done.contains(q) ==> region.contains(q),
            forall|i: int| 0 <= i < queue@.len() ==> region.contains(coords(#[trigger] queue@[i])),
            forall|a: (int, int), b: (int, int)|
                done.contains(a) && #[trigger] hood.adjacent(a, b) && fillable(
                    orig,
                    old_color,
                    color,
                    b,
                ) ==> done.contains(b) || waiting(queue@, b),
            done.contains(seed) || waiting(queue@, seed),
        decreases uncolored(pixels(new_image), color), queue@.len(),
    {
        let ghost before = queue@;
        let ghost done_before = done;
        let point = queue.pop().unwrap();
        let ghost s = coords(point);
        proof {
            assert(point == before[before.len() - 1]);
            lemma_region_fillable(orig, seed, color, hood, s);
            assert forall|q: (int, int)| waiting(before, q) implies q == s || waiting(
                queue@,
                q,
            ) by {
                let i = choose|i: int| 0 <= i < before.len() && coords(#[trigger] before[i]) == q;
                if i < before.len() - 1 {
                    assert(queue@[i] == before[i]);
                }
            }
            assert(pixels(new_image).len() == new_image@.len());
            assert(pixels(new_image)[s.1].len() == new_image@[s.1]@.len());
        }
        let x: usize = point.0 as usize;
        let y: usize = point.1 as usize;
        let current: Rgba = new_image[y][x];
        proof {
            assert(current == pixels(new_image)[s.1][s.0]);
        }
        if !same_color(&current, &color) {
            proof {
                assert(!done.contains(s));
                lemma_paint_insert(orig, done, s.0, s.1, color);
                lemma_uncolored_plotted(pixels(new_image), s.0, s.1, color);
                done = done.insert(s);
            }
            plot(&mut new_image, point.0 as i64, point.1 as i64, color);
            let ghost painted = pixels(new_image);
            let neighbors = get_neighbors(point, hood);
            let mut i: usize = 0;
            proof {
                assert(positions(neighbors@) == around(hood, s.0, s.1));
                assert(positions(neighbors@).len() == neighbors@.len());
            }
            while i < neighbors.len()
                invariant
                    0 <= i <= neighbors@.len(),
                    positions(neighbors@) == around(hood, s.0, s.1),
                    pixels(new_image) == painted,
                    painted == paint(orig, done, color),
                    old_color == orig[seed.1][seed.0],
                    inside(orig, seed.0, seed.1),
                    region == fill_region(orig, seed, color, hood),
                    hood == hood_of(n4),
                    done == done_before.insert(s),
                    region.contains(s),
                    forall|q: (int, int)| done.contains(q) ==> region.contains(q),
                    forall|j: int|
                        0 <= j < queue@.len() ==> region.contains(coords(#[trigger] queue@[j])),
                    forall|a: (int, int), b: (int, int)|
                        done_before.contains(a) && #[trigger] hood.adjacent(a, b) && fillable(
                            orig,
                            old_color,
                            color,
                            b,
                        ) ==> done.contains(b) || waiting(queue@, b),
                    forall|k: int|
                        0 <= k < i && fillable(
                            orig,
                            old_color,
                            color,
                            #[trigger] positions(neighbors@)[k],
                        ) ==> done.contains(positions(neighbors@)[k]) || waiting(
                            queue@,
                            positions(neighbors@)[k],
                        ),
                    done.contains(seed) || waiting(queue@, seed),
                decreases neighbors@.len() - i,
            {
                let n: (i64, i64) = neighbors[i];
                let ghost b = (n.0 as int, n.1 as int);
                let ghost waiting_before = queue@;
                proof {
                    assert(positions(neighbors@)[i as int] == b);
                    lemma_listed_adjacent(hood, s, i as int);
                    assert(pixels(new_image).len() == new_image@.len());
                }
                if n.0 >= 0 && n.1 >= 0 && n.0 <= 0x7fff_ffff && n.1 <= 0x7fff_ffff && (n.1 as u64)
                    < (new_image.len() as u64) {
                    let row: usize = n.1 as usize;
                    proof {
                        assert(pixels(new_image)[b.1].len() == new_image@[b.1]@.len());
                    }
                    if (n.0 as u64) < (new_image[row].len() as u64) {
                        let col: usize = n.0 as usize;
                        let neighbor_color: Rgba = new_image[row][col];
                        proof {
                            assert(neighbor_color == pixels(new_image)[b.1][b.0]);
                        }
                        if !same_color(&neighbor_color, &color) && is_similar_color(
                            neighbor_color,
                            old_color,
                            FILL_TOLERANCE,
                        ) {
                            proof {
                                assert(!done.contains(b));
                                assert(fillable(orig, old_color, color, b));
                                lemma_region_step(orig, seed, color, hood, s, b);
                            }
                            queue.push((n.0 as i32, n.1 as i32));
                            proof {
                                assert(coords(queue@[waiting_before.len() as int]) == b);
                                assert(waiting(queue@, b));
                            }
                        }
                    }
                }
                proof {
                    assert forall|q: (int, int)| waiting(waiting_before, q) implies waiting(
                        queue@,
                        q,
                    ) by {
                        let j = choose|j: int|
                            0 <= j < waiting_before.len() && coords(#[trigger] waiting_before[j])
                                == q;
                        assert(queue@[j] == waiting_before[j]);
                    }
                }
                i = i + 1;
            }
            proof {
                assert forall|a: (int, int), b: (int, int)|
                    done.contains(a) && #[trigger] hood.adjacent(a, b) && fillable(
                        orig,
                        old_color,
                        color,
                        b,
                    ) implies done.contains(b) || waiting(queue@, b) by {
                    if a == s {
                        lemma_adjacent_listed(hood, s, b);
                        let k = choose|k: int|
                            0 <= k < around(hood, s.0, s.1).len() && #[trigger] around(
                                hood,
                                s.0,
                                s.1,
                            )[k] == b;
                        assert(positions(neighbors@)[k] == b);
                    }
                }
            }
        } else {
            proof {
                assert(done.contains(s));
            }
        }
    }
    proof {
        assert(!waiting(queue@, seed));
        assert forall|q: (int, int)| region.contains(q) implies done.contains(q) by {
            let path = choose|path: Seq<(int, int)>|
                #[trigger] is_fill_path(orig, seed, color, hood, path) && path.last() == q;
            assert forall|a: (int, int), b: (int, int)|
                done.contains(a) && #[trigger] hood.adjacent(a, b) && fillable(
                    orig,
                    orig[seed.1][seed.0],
                    color,
                    b,
                ) implies done.contains(b) by {
                assert(!waiting(queue@, b));
            }
            lemma_closed_holds_path(orig, seed, color, hood, done, path, path.len() - 1);
        }
        assert(done =~= region);
    }
    new_image
}

/// Flood fill is idempotent: a second fill from the same seed with the same
/// colour changes nothing, since the seed has the fill colour after the first.
pub proof fn lemma_flood_fill_idempotent(
    g: Seq<Seq<Rgba>>,
    seed: (int, int),
    color: Rgba,
    hood: Neighborhood,
)
    ensures
        ({
            let once = paint(g, fill_region(g, seed, color, hood), color);
            paint(once, fill_region(once, seed, color, hood), color) == once
        }),
{
    let region = fill_region(g, seed, color, hood);
    let once = paint(g, region, color);
    if fillable(g, g[seed.1][seed.0], color, seed) {
        lemma_region_has_seed(g, seed, color, hood);
        assert(once[seed.1][seed.0] == color);
    } else {
        lemma_region_empty(g, seed, color, hood);
        lemma_paint_empty(g, color);
    }
    lemma_region_empty(once, seed, color, hood);
    lemma_paint_empty(once, color);
}

/// The canvas has a pixel at `(x, y)`, and it has the colour.
pub open spec fn is_border(g: Seq<Seq<Rgba>>, color: Rgba, x: int, y: int) -> bool {
    inside(g, x, y) && g[y][x] == color
}

/// The number of runs of the colour that begin in the rows before row `n` of
/// column `x`. A run is a stretch of vertically adjacent pixels of the
/// colour; it begins where the pixel above is missing or has another colour.
pub open spec fn runs_begun(g: Seq<Seq<Rgba>>, color: Rgba, x: int, n: int) -> nat
    decreases n,
{
    if n <= 0 {
        0
    } else {
        runs_begun(g, color, x, n - 1) + if is_border(g, color, x, n - 1) && !is_border(
            g,
            color,
            x,
            n - 2,
        ) {
            1nat
        } else {
            0nat
        }
    }
}

/// Some pixel in row `y` or a later row has the colour.
pub open spec fn border_from(g: Seq<Seq<Rgba>>, color: Rgba, y: int) -> bool {
    exists|x: int, j: int| j >= y && #[trigger] is_border(g, color, x, j)
}

/// The pixels that an edge fill paints.
///
/// A column takes part if at least two runs of the colour begin in it. In
/// such a column a pixel is painted if it has another colour, an odd number
/// of runs begin above it, and it does not lie below the last row of the
/// canvas that holds the colour.
pub open spec fn edge_region(g: Seq<Seq<Rgba>>, color: Rgba) -> Set<(int, int)> {
    Set::new(
        |q: (int, int)|
            {
                &&& inside(g, q.0, q.1)
                &&& g[q.1][q.0] != color
                &&& runs_begun(g, color, q.0, g.len() as int) >= 2
                &&& runs_begun(g, color, q.0, q.1) % 2 == 1
                &&& border_from(g, color, q.1)
            },
    )
}

/// The part of the edge region that lies left of column `i`, or in column
/// `i` above row `j`.
pub open spec fn edge_region_before(g: Seq<Seq<Rgba>>, color: Rgba, i: int, j: int) -> Set<
    (int, int),
> {
    Set::new(
        |q: (int, int)|
            edge_region(g, color).contains(q) && (q.0 < i || (q.0 == i && q.1 < j)),
    )
}

/// No run begins before the first row that holds the colour.
proof fn lemma_no_runs_above(g: Seq<Seq<Rgba>>, color: Rgba, x: int, n: int)
    requires
        forall|j: int| j < n ==> !is_border(g, color, x, j),
    ensures
        runs_begun(g, color, x, n) == 0,
    decreases n,
{
    if n > 0 {
        lemma_no_runs_above(g, color, x, n - 1);
    }
}

/// No run begins after the last row that holds the colour.
proof fn lemma_no_runs_below(g: Seq<Seq<Rgba>>, color: Rgba, x: int, m: int, n: int)
    requires
        0 <= m <= n,
        forall|j: int| j >= m ==> !is_border(g, color, x, j),
    ensures
        runs_begun(g, color, x, n) == runs_begun(g, color, x, m),
    decreases n - m,
{
    if n > m {
        lemma_no_runs_below(g, color, x, m, n - 1);
    }
}

/// Finds the smallest rectangle that holds every pixel of the colour, as
/// `(min_x, max_x, min_y, max_y)` with all four bounds inclusive. `None`
/// means that no pixel has the colour.
pub fn get_bounding_box(image: &Image, color: &Rgba) -> (r: Option<(usize, usize, usize, usize)>)
    ensures
        match r {
            None => forall|x: int, y: int| !#[trigger] is_border(pixels(*image), *color, x, y),
            Some((min_x, max_x, min_y, max_y)) => {
                &&& min_x <= max_x < usize::MAX
                &&& min_y <= max_y < image@.len()
                &&& max_y < usize::MAX
                &&& forall|x: int, y: int| #[trigger]
                    is_border(pixels(*image), *color, x, y) ==> min_x <= x <= max_x && min_y <= y
                        <= max_y
                &&& exists|y: int| #[trigger] is_border(pixels(*image), *color, min_x as int, y)
                &&& exists|y: int| #[trigger] is_border(pixels(*image), *color, max_x as int, y)
                &&& exists|x: int| #[trigger] is_border(pixels(*image), *color, x, min_y as int)
                &&& exists|x: int| #[trigger] is_border(pixels(*image), *color, x, max_y as int)
            },
        },
{
    let ghost g = pixels(*image);
    let mut found: bool = false;
    let mut min_x: usize = 0;
    let mut max_x: usize = 0;
    let mut min_y: usize = 0;
    let mut max_y: usize = 0;
    let ghost mut at_min_x: int = 0;
    let ghost mut at_max_x: int = 0;
    let ghost mut at_min_y: int = 0;
    let ghost mut at_max_y: int = 0;
    let mut y: usize = 0;
    while y < image.len()
        invariant
            0 <= y <= image@.len(),
            g == pixels(*image),
            !found ==> forall|a: int, b: int| b < y ==> !#[trigger] is_border(g, *color, a, b),
            found ==> {
                &&& min_x <= max_x < usize::MAX
                &&& min_y <= max_y < y
                &&& forall|a: int, b: int|
                    b < y && #[trigger] is_border(g, *color, a, b) ==> min_x <= a <= max_x && min_y
                        <= b <= max_y
                &&& is_border(g, *color, min_x as int, at_min_x)
                &&& is_border(g, *color, max_x as int, at_max_x)
                &&& is_border(g, *color, at_min_y, min_y as int)
                &&& is_border(g, *color, at_max_y, max_y as int)
            },
        decreases image@.len() - y,
    {
        let mut x: usize = 0;
        proof {
            assert(g[y as int].len() == image@[y as int]@.len());
        }
        while x < image[y].len()
            invariant
                0 <= y < image@.len(),
                0 <= x <= image@[y as int]@.len(),
                g == pixels(*image),
                !found ==> forall|a: int, b: int|
                    (b < y || (b == y && a < x)) ==> !#[trigger] is_border(g, *color, a, b),
                found ==> {
                    &&& min_x <= max_x < usize::MAX
                    &&& min_y <= max_y <= y
                    &&& forall|a: int, b: int|
                        (b < y || (b == y && a < x)) && #[trigger] is_border(g, *color, a, b)
                            ==> min_x <= a <= max_x && min_y <= b <= max_y
                    &&& is_border(g, *color, min_x as int, at_min_x)
                    &&& is_border(g, *color, max_x as int, at_max_x)
                    &&& is_border(g, *color, at_min_y, min_y as int)
                    &&& is_border(g, *color, at_max_y, max_y as int)
                },
            decreases image@[y as int]@.len() - x,
        {
            proof {
                assert(g[y as int][x as int] == image@[y as int]@[x as int]);
            }
            if same_color(&image[y][x], color) {
                if !found {
                    found = true;
                    min_x = x;
                    max_x = x;
                    min_y = y;
                    max_y = y;
                    proof {
                        at_min_x = y as int;
                        at_max_x = y as int;
                        at_min_y = x as int;
                        at_max_y = x as int;
                    }
                } else {
                    if x < min_x {
                        min_x = x;
                        proof {
                            at_min_x = y as int;
                        }
                    }
                    if x > max_x {
                        max_x = x;
                        proof {
                            at_max_x = y as int;
                        }
                    }
                    if y > max_y {
                        max_y = y;
                        proof {
                            at_max_y = x as int;
                        }
                    }
                }
            }
            x = x + 1;
        }
        y = y + 1;
    }
    if found {
        Some((min_x, max_x, min_y, max_y))
    } else {
        assert forall|a: int, b: int| !#[trigger] is_border(g, *color, a, b) by {
            assert(g.len() == image@.len());
        }
        None
    }
}

/// A pixel outside the painted part still looks as it did.
proof fn lemma_untouched(
    g: Seq<Seq<Rgba>>,
    part: Set<(int, int)>,
    color: Rgba,
    x: int,
    y: int,
)
    requires
        !part.contains((x, y)),
    ensures
        inside(paint(g, part, color), x, y) == inside(g, x, y),
        is_border(paint(g, part, color), color, x, y) == is_border(g, color, x, y),
{
}

/// A column without the colour holds no pixel of the edge region.
proof fn lemma_plain_column(g: Seq<Seq<Rgba>>, color: Rgba, x: int, y: int)
    requires
        forall|j: int| !is_border(g, color, x, j),
    ensures
        !edge_region(g, color).contains((x, y)),
{
    lemma_no_runs_above(g, color, x, g.len() as int);
}

/// Fills the outlines drawn in `color`, column by column, by the parity
/// rule.
///
/// Going down a column, each run of the colour that begins switches between
/// outside and inside, and the pixels of other colours that are met inside
/// take the colour. A column in which fewer than two runs begin is left as
/// it is, and so is every pixel below the last row that holds the colour.
pub fn edge_fill(image: Image, color: Rgba) -> (result: Image)
    ensures
        pixels(result) == paint(pixels(image), edge_region(pixels(image), color), color),
{
    let ghost orig = pixels(image);
    let ghost region = edge_region(orig, color);
    let bounds = get_bounding_box(&image, &color);
    let mut new_image = image;
    match bounds {
        None => {
            proof {
                assert forall|q: (int, int)| !region.contains(q) by {
                    lemma_plain_column(orig, color, q.0, q.1);
                }
                assert(region =~= Set::<(int, int)>::empty());
                lemma_paint_empty(orig, color);
            }
        },
        Some((min_x, max_x, min_y, max_y)) => {
            let ghost last_x = choose|x: int| #[trigger] is_border(orig, color, x, max_y as int);
            let mut i: usize = min_x;
            proof {
                assert forall|q: (int, int)| !edge_region_before(
                    orig,
                    color,
                    min_x as int,
                    0,
                ).contains(q) by {
                    if q.0 < min_x {
                        lemma_plain_column(orig, color, q.0, q.1);
                    }
                }
                assert(edge_region_before(orig, color, min_x as int, 0) =~= Set::<
                    (int, int),
                >::empty());
                lemma_paint_empty(orig, color);
            }
            while i <= max_x
                invariant
                    min_x <= i <= max_x + 1,
                    max_x < usize::MAX,
                    min_y <= max_y < orig.len(),
                    max_y < usize::MAX,
                    region == edge_region(orig, color),
                    is_border(orig, color, last_x, max_y as int),
                    forall|x: int, y: int| #[trigger]
                        is_border(orig, color, x, y) ==> min_x <= x <= max_x && min_y <= y <= max_y,
                    pixels(new_image) == paint(
                        orig,
                        edge_region_before(orig, color, i as int, 0),
                        color,
                    ),
                decreases max_x + 1 - i,
            {
                let ghost column_start = edge_region_before(orig, color, i as int, 0);
                let mut still_in_borders: bool = false;
                let mut count: usize = 0;
                let mut j: usize = min_y;
                proof {
                    lemma_no_runs_above(orig, color, i as int, min_y as int);
                }
                while j <= max_y
                    invariant
                        min_y <= j <= max_y + 1,
                        max_y < orig.len(),
                        max_y < usize::MAX,
                        count <= j,
                        count == runs_begun(orig, color, i as int, j as int),
                        still_in_borders == is_border(orig, color, i as int, j as int - 1),
                        column_start == edge_region_before(orig, color, i as int, 0),
                        pixels(new_image) == paint(orig, column_start, color),
                    decreases max_y + 1 - j,
                {
                    proof {
                        lemma_untouched(orig, column_start, color, i as int, j as int);
                    }
                    if has_color(&new_image, i, j, &color) {
                        if !still_in_borders {
                            count = count + 1;
                        }
                        still_in_borders = true;
                    } else {
                        still_in_borders = false;
                    }
                    j = j + 1;
                }
                proof {
                    lemma_no_runs_below(
                        orig,
                        color,
                        i as int,
                        max_y as int + 1,
                        orig.len() as int,
                    );
                }
                if count >= 2 {
                    let mut is_inside: bool = false;
                    let mut still_in_borders: bool = false;
                    let mut j: usize = min_y;
                    proof {
                        assert forall|q: (int, int)|
                            edge_region_before(orig, color, i as int, min_y as int).contains(q)
                                implies column_start.contains(q) by {
                            if q.0 == i {
                                lemma_no_runs_above(orig, color, i as int, q.1);
                            }
                        }
                        assert(edge_region_before(orig, color, i as int, min_y as int)
                            =~= column_start);
                    }
                    while j <= max_y
                        invariant
                            min_y <= j <= max_y + 1,
                            max_y < orig.len(),
                            max_y < usize::MAX,
                            region == edge_region(orig, color),
                            is_border(orig, color, last_x, max_y as int),
                            runs_begun(orig, color, i as int, orig.len() as int) >= 2,
                            is_inside == (runs_begun(orig, color, i as int, j as int) % 2 == 1),
                            still_in_borders == is_border(orig, color, i as int, j as int - 1),
                            pixels(new_image) == paint(
                                orig,
                                edge_region_before(orig, color, i as int, j as int),
                                color,
                            ),
                        decreases max_y + 1 - j,
                    {
                        let ghost part = edge_region_before(orig, color, i as int, j as int);
                        let ghost next = edge_region_before(orig, color, i as int, j as int + 1);
                        proof {
                            lemma_untouched(orig, part, color, i as int, j as int);
                            assert(pixels(new_image).len() == new_image@.len());
                            assert(pixels(new_image)[j as int].len() == new_image@[j as int]@.len());
                        }
                        if !has_color(&new_image, i, j, &color) {
                            if is_inside && i < new_image[j].len() {
                                proof {
                                    assert(region.contains((i as int, j as int)));
                                    assert(next =~= part.insert((i as int, j as int)));
                                    lemma_paint_insert(orig, part, i as int, j as int, color);
                                }
                                set_pixel(&mut new_image, i, j, color);
                            } else {
                                proof {
                                    assert(!region.contains((i as int, j as int)));
                                    assert(next =~= part);
                                }
                            }
                            still_in_borders = false;
                        } else {
                            if !still_in_borders {
                                is_inside = !is_inside;
                            }
                            still_in_borders = true;
                            proof {
                                assert(!region.contains((i as int, j as int)));
                                assert(next =~= part);
                            }
                        }
                        j = j + 1;
                    }
                    proof {
                        let ended = edge_region_before(orig, color, i as int, max_y as int + 1);
                        let after = edge_region_before(orig, color, i as int + 1, 0);
                        assert forall|q: (int, int)| after.contains(q) implies ended.contains(
                            q,
                        ) by {
                            if q.0 == i && q.1 > max_y {
                                assert(!border_from(orig, color, q.1));
                            }
                        }
                        assert(ended =~= after);
                    }
                } else {
                    proof {
                        let after = edge_region_before(orig, color, i as int + 1, 0);
                        assert(column_start =~= after);
                    }
                }
                i = i + 1;
            }
            proof {
                let all = edge_region_before(orig, color, max_x as int + 1, 0);
                assert forall|q: (int, int)| region.contains(q) implies all.contains(q) by {
                    if q.0 > max_x {
                        lemma_plain_column(orig, color, q.0, q.1);
                    }
                }
                assert(all =~= region);
            }
        },
    }
    new_image
}

} // verus!
