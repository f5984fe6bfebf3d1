use vstd::prelude::*;

verus! {

/// Horizontal size of one cell on the screen, in terminal columns.
pub const X_WIDTH: i16 = 2;

/// The display colour a cell is drawn with.
#[derive(Clone, Copy, Debug, PartialEq, Eq, Structural)]
pub enum Color {
    White,
    Blue,
    Red,
    Green,
    Yellow,
    Magenta,
    Cyan,
    DarkYellow,
}

/// A grid coordinate (y grows downward) with a colour tag.
#[derive(Clone, Copy, Debug, PartialEq, Eq, Structural)]
pub struct Point {
    pub x: i16,
    pub y: i16,
    pub color: Color,
}

/// The coordinates of a point as mathematical integers.
pub open spec fn xy(p: Point) -> (int, int) {
    (p.x as int, p.y as int)
}

/// The coordinates of a sequence of points.
pub open spec fn coords(ps: Seq<Point>) -> Seq<(int, int)> {
    ps.map_values(|p: Point| xy(p))
}

impl Point {
    pub fn new(x: i16, y: i16) -> (r: Point)
        ensures
            r.x == x,
            r.y == y,
            r.color == Color::White,
    {
        Point { x, y, color: Color::White }
    }

    pub fn new_with_color(x: i16, y: i16, color: Color) -> (r: Point)
        ensures
            r.x == x,
            r.y == y,
            r.color == color,
    {
        Point { x, y, color }
    }

    /// The x coordinate scaled to terminal columns.
    pub fn x_width(&self) -> (r: i16)
        requires
            -16384 <= self.x < 16384,
        ensures
            r == self.x * X_WIDTH,
    {
        self.x * X_WIDTH
    }
}

} // verus!
