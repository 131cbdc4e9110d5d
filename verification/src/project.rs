use vstd::prelude::*;
use crate::canvas::{paint, pixels};
use crate::clip::{border_of, clipped, cohen_sutherland};
use crate::common::{Border, Edge, Image, Rgba};
use crate::line::segment_pixels;

verus! {

/// The colour in which projected edges are drawn: opaque black.
pub open spec fn stroke_color() -> Rgba {
    [0u8, 0u8, 0u8, 255u8]
}

/// The greatest coordinate along an axis of the given length, as far as a
/// pixel coordinate can name it.
pub open spec fn last_coordinate(len: int) -> int {
    if len - 1 > i32::MAX {
        i32::MAX as int
    } else {
        len - 1
    }
}

/// The canvas as a clip rectangle.
pub open spec fn screen_border(g: Seq<Seq<Rgba>>) -> Border {
    Border {
        top: last_coordinate(g.len() as int) as i32,
        bottom: 0,
        left: 0,
        right: last_coordinate(g[0].len() as int) as i32,
    }
}

/// A height turned over: geometry counts y upwards from the lower edge of
/// the canvas, rows are counted downwards from the upper edge. A result
/// that no pixel coordinate can hold is replaced by the nearest that can.
pub open spec fn flipped(y: int, y_max: int) -> int {
    if y_max - y > i32::MAX {
        i32::MAX as int
    } else if y_max - y < i32::MIN {
        i32::MIN as int
    } else {
        y_max - y
    }
}

/// The canvas after the first `n` edges are projected onto it: each edge is
/// turned over, clipped against the canvas and drawn in the stroke colour.
/// A canvas without pixels stays as it is.
pub open spec fn projected(g: Seq<Seq<Rgba>>, edges: Seq<Edge>, n: int) -> Seq<Seq<Rgba>>
    decreases n,
{
    if n <= 0 || g.len() == 0 || g[0].len() == 0 {
        g
    } else {
        let before = projected(g, edges, n - 1);
        let b = screen_border(g);
        let e = edges[n - 1];
        let p0 = (e.0.0 as int, flipped(e.0.1 as int, b.top as int));
        let p1 = (e.1.0 as int, flipped(e.1.1 as int, b.top as int));
        match clipped(p0, p1, b) {
            Some(s) => paint(before, segment_pixels(s.0, s.1), stroke_color()),
            None => before,
        }
    }
}

/// Turns a height over.
fn flip(y: i32, y_max: i32) -> (r: i32)
    ensures
        r == flipped(y as int, y_max as int),
{
    let wide: i64 = y_max as i64 - y as i64;
    if wide > 0x7fff_ffff {
        0x7fff_ffff
    } else if wide < -0x8000_0000 {
        -0x8000_0000
    } else {
        wide as i32
    }
}

/// Draws a wireframe that is given in pixel coordinates with y pointing up:
/// each edge is turned over, clipped against the canvas and drawn in black.
pub fn project_to_2d(image: Image, new_edges: &Vec<Edge>) -> (result: Image)
    ensures
        pixels(result) == projected(pixels(image), new_edges@, new_edges@.len() as int),
{
    let ghost orig = pixels(image);
    let mut new_image = image;
    proof {
        assert(orig.len() == new_image@.len());
    }
    if new_image.len() == 0 {
        return new_image;
    }
    proof {
        assert(orig[0].len() == new_image@[0]@.len());
    }
    if new_image[0].len() == 0 {
        return new_image;
    }
    let height: usize = new_image.len();
    let width: usize = new_image[0].len();
    let y_max: i32 = if height - 1 > 0x7fff_ffff { 0x7fff_ffff } else { (height - 1) as i32 };
    let x_max: i32 = if width - 1 > 0x7fff_ffff { 0x7fff_ffff } else { (width - 1) as i32 };
    let color: Rgba = [0, 0, 0, 255];
    let boundary: Edge = ((0, 0), (x_max, y_max));
    proof {
        assert(color =~= stroke_color());
        assert(border_of(boundary) == screen_border(orig));
    }
    let mut i: usize = 0;
    while i < new_edges.len()
        invariant
            0 <= i <= new_edges@.len(),
            orig.len() > 0,
            orig[0].len() > 0,
            y_max == screen_border(orig).top,
            color == stroke_color(),
            border_of(boundary) == screen_border(orig),
            pixels(new_image) == projected(orig, new_edges@, i as int),
        decreases new_edges@.len() - i,
    {
        let edge: Edge = new_edges[i];
        let p0 = (edge.0.0, flip(edge.0.1, y_max));
        let p1 = (edge.1.0, flip(edge.1.1, y_max));
        new_image = cohen_sutherland(new_image, p0, p1, color, boundary);
        i = i + 1;
    }
    new_image
}

} // verus!
