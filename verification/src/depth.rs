use std::collections::HashMap;
use vstd::prelude::*;
use crate::canvas::{inside, pixels, plot, plotted, set_pixel};
use crate::common::{Image, Rgba};

verus! {

/// A coloured sample of a point cloud as the depth test sees it: the pixel
/// that it projects to, its depth, and its colour. A smaller depth is
/// nearer to the viewer.
#[derive(Clone, Copy, Debug)]
pub struct DepthSample {
    pub x: i32,
    pub y: i32,
    pub depth: i64,
    pub color: Rgba,
}

/// Sample `w` hides sample `j` where both project to one pixel: it is
/// nearer, or as near and earlier in the list.
pub open spec fn hides(samples: Seq<DepthSample>, w: int, j: int) -> bool {
    samples[w].depth < samples[j].depth || (samples[w].depth == samples[j].depth && w <= j)
}

/// Among the first `n` samples, sample `w` is the one seen at its pixel.
pub open spec fn shows(samples: Seq<DepthSample>, n: int, w: int) -> bool {
    &&& 0 <= w < n
    &&& forall|j: int|
        0 <= j < n && samples[j].x == samples[w].x && samples[j].y == samples[w].y ==> #[trigger] hides(
            samples,
            w,
            j,
        )
}

/// Sample `w` is the one seen at the pixel `(x, y)`.
pub open spec fn seen_at(samples: Seq<DepthSample>, x: int, y: int, w: int) -> bool {
    shows(samples, samples.len() as int, w) && samples[w].x == x && samples[w].y == y
}

/// The sample seen at the pixel `(x, y)`: of those that project to it the
/// nearest, and of several equally near ones the first. `None` if no sample
/// projects to the pixel.
pub open spec fn visible(samples: Seq<DepthSample>, x: int, y: int) -> Option<DepthSample> {
    if exists|w: int| seen_at(samples, x, y, w) {
        Some(samples[choose|w: int| seen_at(samples, x, y, w)])
    } else {
        None
    }
}

/// The pixel of the cloud that is shown at column `col` of row `row` of a
/// canvas of the given height. With `invert`, the cloud's y axis points up
/// and its row `y` is shown `y` rows above the lower edge of the canvas.
pub open spec fn source(col: int, row: int, height: int, invert: bool) -> (int, int) {
    if invert {
        (col, height - row)
    } else {
        (col, row)
    }
}

/// The canvas with the point cloud drawn over it: each pixel takes the
/// colour of the sample seen there, and keeps its own where none is.
pub open spec fn composite(g: Seq<Seq<Rgba>>, samples: Seq<DepthSample>, invert: bool) -> Seq<
    Seq<Rgba>,
> {
    Seq::new(
        g.len(),
        |row: int|
            Seq::new(
                g[row].len(),
                |col: int|
                    {
                        let at = source(col, row, g.len() as int, invert);
                        match visible(samples, at.0, at.1) {
                            Some(s) => s.color,
                            None => g[row][col],
                        }
                    },
            ),
    )
}

/// A pixel has one sample that is seen.
pub proof fn lemma_seen_unique(samples: Seq<DepthSample>, x: int, y: int, a: int, b: int)
    requires
        seen_at(samples, x, y, a),
        seen_at(samples, x, y, b),
    ensures
        a == b,
{
    assert(hides(samples, a, b));
    assert(hides(samples, b, a));
}

/// The sample seen at a pixel is the visible one.
pub proof fn lemma_visible(samples: Seq<DepthSample>, x: int, y: int, w: int)
    requires
        seen_at(samples, x, y, w),
    ensures
        visible(samples, x, y) == Some(samples[w]),
{
    let c = choose|c: int| seen_at(samples, x, y, c);
    lemma_seen_unique(samples, x, y, w, c);
}

/// The key under which a pixel is filed: its two coordinates, each shifted
/// to be non-negative, side by side in one number.
pub open spec fn pixel_key(x: int, y: int) -> int {
    (x + 0x8000_0000) * 0x1_0000_0000 + (y + 0x8000_0000)
}

/// The sample's pixel is filed under position `k`.
pub open spec fn filed(place: Map<u64, usize>, s: DepthSample, k: int) -> bool {
    let key = pixel_key(s.x as int, s.y as int) as u64;
    place.contains_key(key) && place[key] == k
}

/// The list holds a sample at the pixel `(x, y)`.
pub open spec fn has_pixel(list: Seq<DepthSample>, x: int, y: int) -> bool {
    exists|k: int| 0 <= k < list.len() && (#[trigger] list[k]).x == x && list[k].y == y
}

/// Resolves a point cloud to the samples that are seen: one for each pixel
/// that any sample projects to. Of the samples of one pixel the nearest is
/// kept; a later sample replaces the one kept only if it is strictly
/// nearer, so of equally near ones the first is kept.
pub fn z_buffer(object: Vec<DepthSample>) -> (winners: Vec<DepthSample>)
    ensures
        forall|k: int|
            0 <= k < winners@.len() ==> visible(
                object@,
                (#[trigger] winners@[k]).x as int,
                winners@[k].y as int,
            ) == Some(winners@[k]),
        forall|k: int, l: int|
            0 <= k < l < winners@.len() ==> !(winners@[k].x == winners@[l].x && winners@[k].y
                == winners@[l].y),
        forall|j: int|
            0 <= j < object@.len() ==> has_pixel(
                winners@,
                (#[trigger] object@[j]).x as int,
                object@[j].y as int,
            ),
{
    let mut place: HashMap<u64, usize> = HashMap::new();
    let mut winners: Vec<DepthSample> = Vec::new();
    let ghost mut origin: Seq<int> = Seq::empty();
    let mut n: usize = 0;
    while n < object.len()
        invariant
            0 <= n <= object@.len(),
            winners@.len() == origin.len(),
            forall|k: int| 0 <= k < origin.len() ==> shows(object@, n as int, #[trigger] origin[k]),
            forall|k: int| 0 <= k < origin.len() ==> #[trigger] winners@[k] == object@[origin[k]],
            forall|k: int|
                0 <= k < winners@.len() ==> filed(place@, #[trigger] winners@[k], k),
            forall|key: u64| #[trigger]
                place@.contains_key(key) ==> place@[key] < winners@.len() && key == pixel_key(
                    winners@[place@[key] as int].x as int,
                    winners@[place@[key] as int].y as int,
                ),
            forall|j: int|
                0 <= j < n ==> place@.contains_key(
                    #[trigger] pixel_key(object@[j].x as int, object@[j].y as int) as u64,
                ),
        decreases object@.len() - n,
    {
        let point: DepthSample = object[n];
        let key: u64 = ((point.x as i64 + 0x8000_0000) as u64) * 0x1_0000_0000 + ((point.y as i64
            + 0x8000_0000) as u64);
        assert(key == pixel_key(point.x as int, point.y as int));
        let ghost old_origin = origin;
        let ghost old_winners = winners@;
        let found: Option<usize> = match place.get(&key) {
            Some(k) => Some(*k),
            None => None,
        };
        match found {
            None => {
                place.insert(key, winners.len());
                winners.push(point);
                proof {
                    origin = origin.push(n as int);
                    assert forall|k: int| 0 <= k < origin.len() implies shows(
                        object@,
                        n as int + 1,
                        #[trigger] origin[k],
                    ) by {
                        if k < old_origin.len() {
                            assert(origin[k] == old_origin[k]);
                            assert(shows(object@, n as int, old_origin[k]));
                            assert(winners@[k] == old_winners[k]);
                        } else {
                            assert forall|j: int|
                                0 <= j < n + 1 && object@[j].x == object@[n as int].x && object@[j].y
                                    == object@[n as int].y implies #[trigger] hides(
                                object@,
                                n as int,
                                j,
                            ) by {
                                if j < n {
                                    assert(pixel_key(object@[j].x as int, object@[j].y as int)
                                        == key);
                                }
                            }
                        }
                    }
                }
            },
            Some(k) => {
                proof {
                    assert(place@.contains_key(key));
                    assert(origin[k as int] == old_origin[k as int]);
                    assert(shows(object@, n as int, old_origin[k as int]));
                }
                let kept: DepthSample = winners[k];
                if point.depth < kept.depth {
                    winners[k] = point;
                    proof {
                        origin = origin.update(k as int, n as int);
                        assert forall|i: int| 0 <= i < origin.len() implies shows(
                            object@,
                            n as int + 1,
                            #[trigger] origin[i],
                        ) by {
                            if i != k {
                                assert(origin[i] == old_origin[i]);
                                assert(shows(object@, n as int, old_origin[i]));
                                assert(winners@[i] == old_winners[i]);
                            } else {
                                let w = old_origin[k as int];
                                assert forall|j: int|
                                    0 <= j < n + 1 && object@[j].x == object@[n as int].x
                                        && object@[j].y == object@[n as int].y implies #[trigger] hides(
                                    object@,
                                    n as int,
                                    j,
                                ) by {
                                    if j < n {
                                        assert(hides(object@, w, j));
                                    }
                                }
                            }
                        }
                    }
                } else {
                    proof {
                        assert forall|i: int| 0 <= i < origin.len() implies shows(
                            object@,
                            n as int + 1,
                            #[trigger] origin[i],
                        ) by {
                            let w = origin[i];
                            assert(shows(object@, n as int, w));
                            assert(winners@[i] == object@[w]);
                            assert(filed(place@, winners@[i], i));
                            assert forall|j: int|
                                0 <= j < n + 1 && object@[j].x == object@[w].x && object@[j].y
                                    == object@[w].y implies #[trigger] hides(object@, w, j) by {
                                if j == n {
                                    assert(i == k);
                                }
                            }
                        }
                    }
                }
            },
        }
        n = n + 1;
    }
    proof {
        assert forall|k: int| 0 <= k < winners@.len() implies visible(
            object@,
            (#[trigger] winners@[k]).x as int,
            winners@[k].y as int,
        ) == Some(winners@[k]) by {
            assert(shows(object@, n as int, origin[k]));
            lemma_visible(object@, winners@[k].x as int, winners@[k].y as int, origin[k]);
        }
        assert forall|k: int, l: int| 0 <= k < l < winners@.len() implies !(winners@[k].x
            == winners@[l].x && winners@[k].y == winners@[l].y) by {
            assert(shows(object@, n as int, origin[k]));
            assert(shows(object@, n as int, origin[l]));
        }
        assert forall|j: int| 0 <= j < object@.len() implies has_pixel(
            winners@,
            (#[trigger] object@[j]).x as int,
            object@[j].y as int,
        ) by {
            let key = pixel_key(object@[j].x as int, object@[j].y as int) as u64;
            assert(place@.contains_key(key));
            let k = place@[key] as int;
            assert(winners@[k].x == object@[j].x && winners@[k].y == object@[j].y);
        }
    }
    winners
}

/// Where on a canvas of the given height a sample is drawn: the inverse of
/// `source`.
pub open spec fn target(s: DepthSample, height: int, invert: bool) -> (int, int) {
    if invert {
        (s.x as int, height - s.y)
    } else {
        (s.x as int, s.y as int)
    }
}

/// The canvas after the first `m` of the resolved samples are drawn.
pub open spec fn layered(
    g: Seq<Seq<Rgba>>,
    samples: Seq<DepthSample>,
    winners: Seq<DepthSample>,
    m: int,
    invert: bool,
) -> Seq<Seq<Rgba>> {
    Seq::new(
        g.len(),
        |row: int|
            Seq::new(
                g[row].len(),
                |col: int|
                    {
                        let at = source(col, row, g.len() as int, invert);
                        if has_pixel(winners.take(m), at.0, at.1) {
                            match visible(samples, at.0, at.1) {
                                Some(s) => s.color,
                                None => g[row][col],
                            }
                        } else {
                            g[row][col]
                        }
                    },
            ),
    )
}

proof fn lemma_layer_step(
    g: Seq<Seq<Rgba>>,
    samples: Seq<DepthSample>,
    winners: Seq<DepthSample>,
    m: int,
    invert: bool,
)
    requires
        0 <= m < winners.len(),
        visible(samples, winners[m].x as int, winners[m].y as int) == Some(winners[m]),
    ensures
        ({
            let t = target(winners[m], g.len() as int, invert);
            plotted(layered(g, samples, winners, m, invert), t.0, t.1, winners[m].color)
                == layered(g, samples, winners, m + 1, invert)
        }),
{
    let t = target(winners[m], g.len() as int, invert);
    let before = layered(g, samples, winners, m, invert);
    let got = plotted(before, t.0, t.1, winners[m].color);
    let want = layered(g, samples, winners, m + 1, invert);
    let short = winners.take(m);
    let long = winners.take(m + 1);
    assert forall|row: int| 0 <= row < want.len() implies #[trigger] got[row] == want[row] by {
        assert forall|col: int| 0 <= col < want[row].len() implies #[trigger] got[row][col]
            == want[row][col] by {
            let at = source(col, row, g.len() as int, invert);
            if has_pixel(short, at.0, at.1) {
                let k = choose|k: int|
                    0 <= k < short.len() && (#[trigger] short[k]).x == at.0 && short[k].y == at.1;
                assert(long[k] == short[k]);
                assert(has_pixel(long, at.0, at.1));
            }
            if has_pixel(long, at.0, at.1) && !(col == t.0 && row == t.1) {
                let k = choose|k: int|
                    0 <= k < long.len() && (#[trigger] long[k]).x == at.0 && long[k].y == at.1;
                assert(k < m);
                assert(short[k] == long[k]);
                assert(has_pixel(short, at.0, at.1));
            }
            if col == t.0 && row == t.1 {
                assert(long[m] == winners[m]);
                assert(has_pixel(long, at.0, at.1));
            }
        }
        assert(got[row] =~= want[row]);
    }
    assert(got =~= want);
}

/// Draws a point cloud on the canvas with hidden samples removed: the cloud
/// is resolved to the sample seen at each pixel, and each of these is
/// written at its pixel if the canvas has it. With `invert`, a sample at
/// height `y` is written `y` rows above the lower edge of the canvas.
pub fn print_objects_in_screen(image: Image, points: Vec<DepthSample>, invert: bool) -> (result:
    Image)
    ensures
        pixels(result) == composite(pixels(image), points@, invert),
{
    let ghost orig = pixels(image);
    let ghost samples = points@;
    let mut new_image = image;
    let z_buffered_objects = z_buffer(points);
    let ghost winners = z_buffered_objects@;
    let height: usize = new_image.len();
    let mut m: usize = 0;
    proof {
        let start = layered(orig, samples, winners, 0, invert);
        assert forall|row: int| 0 <= row < orig.len() implies #[trigger] start[row] == orig[row] by {
            assert(start[row] =~= orig[row]);
        }
        assert(start =~= orig);
    }
    while m < z_buffered_objects.len()
        invariant
            0 <= m <= winners.len(),
            winners == z_buffered_objects@,
            height == orig.len(),
            forall|k: int|
                0 <= k < winners.len() ==> visible(
                    samples,
                    (#[trigger] winners[k]).x as int,
                    winners[k].y as int,
                ) == Some(winners[k]),
            pixels(new_image) == layered(orig, samples, winners, m as int, invert),
        decreases winners.len() - m,
    {
        let point: DepthSample = z_buffered_objects[m];
        proof {
            lemma_layer_step(orig, samples, winners, m as int, invert);
            assert(pixels(new_image).len() == new_image@.len());
        }
        if invert {
            let mut written: bool = false;
            if point.x >= 0 && point.y > 0 && (point.y as u64) <= (height as u64) {
                let row: usize = height - (point.y as usize);
                proof {
                    assert(pixels(new_image)[row as int].len() == new_image@[row as int]@.len());
                }
                if (point.x as u64) < (new_image[row].len() as u64) {
                    set_pixel(&mut new_image, point.x as usize, row, point.color);
                    written = true;
                }
            }
            proof {
                if !written {
                    let t = target(point, height as int, invert);
                    assert(!inside(layered(orig, samples, winners, m as int, invert), t.0, t.1));
                }
            }
        } else {
            plot(&mut new_image, point.x as i64, point.y as i64, point.color);
        }
        m = m + 1;
    }
    proof {
        let got = layered(orig, samples, winners, m as int, invert);
        let want = composite(orig, samples, invert);
        assert(winners.take(m as int) =~= winners);
        assert forall|row: int| 0 <= row < want.len() implies #[trigger] got[row] == want[row] by {
            assert forall|col: int| 0 <= col < want[row].len() implies #[trigger] got[row][col]
                == want[row][col] by {
                let at = source(col, row, orig.len() as int, invert);
                if visible(samples, at.0, at.1) is Some {
                    let w = choose|w: int| seen_at(samples, at.0, at.1, w);
                    assert(has_pixel(winners, samples[w].x as int, samples[w].y as int));
                }
            }
            assert(got[row] =~= want[row]);
        }
        assert(got =~= want);
    }
    new_image
}

/// A sample that is strictly nearer than every other sample of its pixel is
/// the one seen there, wherever in the list it stands.
pub proof fn lemma_nearest_is_visible(samples: Seq<DepthSample>, w: int)
    requires
        0 <= w < samples.len(),
        forall|j: int|
            0 <= j < samples.len() && j != w && samples[j].x == samples[w].x && samples[j].y
                == samples[w].y ==> samples[w].depth < (#[trigger] samples[j]).depth,
    ensures
        visible(samples, samples[w].x as int, samples[w].y as int) == Some(samples[w]),
{
    assert forall|j: int|
        0 <= j < samples.len() && samples[j].x == samples[w].x && samples[j].y
            == samples[w].y implies #[trigger] hides(samples, w, j) by {
        if j != w {
            assert(samples[w].depth < samples[j].depth);
        }
    }
    lemma_visible(samples, samples[w].x as int, samples[w].y as int, w);
}

/// Of two samples that project to one pixel the nearer gives the pixel its
/// colour, whichever of the two comes first.
pub proof fn lemma_nearer_wins(
    g: Seq<Seq<Rgba>>,
    near: DepthSample,
    far: DepthSample,
    invert: bool,
    col: int,
    row: int,
)
    requires
        near.x == far.x,
        near.y == far.y,
        near.depth < far.depth,
        inside(g, col, row),
        source(col, row, g.len() as int, invert) == (near.x as int, near.y as int),
    ensures
        composite(g, seq![near, far], invert)[row][col] == near.color,
        composite(g, seq![far, near], invert)[row][col] == near.color,
{
    lemma_nearest_is_visible(seq![near, far], 0);
    lemma_nearest_is_visible(seq![far, near], 1);
}

/// Of two equally near samples that project to one pixel the one that comes
/// first gives the pixel its colour.
pub proof fn lemma_first_wins_ties(
    g: Seq<Seq<Rgba>>,
    first: DepthSample,
    second: DepthSample,
    invert: bool,
    col: int,
    row: int,
)
    requires
        first.x == second.x,
        first.y == second.y,
        first.depth == second.depth,
        inside(g, col, row),
        source(col, row, g.len() as int, invert) == (first.x as int, first.y as int),
    ensures
        composite(g, seq![first, second], invert)[row][col] == first.color,
{
    let samples = seq![first, second];
    assert forall|j: int|
        0 <= j < samples.len() && samples[j].x == samples[0].x && samples[j].y
            == samples[0].y implies #[trigger] hides(samples, 0, j) by {}
    lemma_visible(samples, first.x as int, first.y as int, 0);
}

} // verus!
