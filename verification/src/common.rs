use vstd::prelude::*;

verus! {

/// A colour: red, green, blue and alpha, eight bits each.
pub type Rgba = [u8; 4];

/// A pixel coordinate `(x, y)`; it may lie outside the canvas.
pub type Point = (i32, i32);

/// A pixel grid stored row by row: `image[y][x]`.
pub type Image = Vec<Vec<Rgba>>;

/// A line segment between two pixel coordinates.
pub type Edge = (Point, Point);

/// An axis-aligned clip rectangle. Its four sides belong to it.
#[derive(Clone, Copy, Debug, PartialEq, Eq, Structural)]
pub struct Border {
    pub top: i32,
    pub bottom: i32,
    pub left: i32,
    pub right: i32,
}

impl Border {
    /// The rectangle is not inverted.
    pub open spec fn wf(self) -> bool {
        self.bottom <= self.top && self.left <= self.right
    }

    /// The point `(x, y)` lies in the rectangle, sides included.
    pub open spec fn holds(self, x: int, y: int) -> bool {
        self.left <= x <= self.right && self.bottom <= y <= self.top
    }
}

/// Which pixels count as adjacent to a pixel.
#[derive(Clone, Copy, Debug, PartialEq, Eq, Structural)]
pub enum Neighborhood {
    /// The four pixels that share a side with it.
    Four,
    /// Those four and the four that share only a corner.
    Eight,
}

impl Neighborhood {
    /// Two distinct pixels are adjacent.
    pub open spec fn adjacent(self, a: (int, int), b: (int, int)) -> bool {
        let dx = b.0 - a.0;
        let dy = b.1 - a.1;
        &&& -1 <= dx <= 1
        &&& -1 <= dy <= 1
        &&& !(dx == 0 && dy == 0)
        &&& (self == Neighborhood::Four ==> dx == 0 || dy == 0)
    }
}

} // verus!
