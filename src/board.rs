use vstd::prelude::*;

verus! {

/// The largest width or height a board may have.
pub const MAX_DIM: u16 = 255;

/// The playing field: its size in cells and where it is drawn on screen.
pub struct Board {
    pub width: u16,
    pub height: u16,
    pub offset_x: u16,
    pub offset_y: u16,
}

impl Board {
    /// A board is well formed when both dimensions are at most `MAX_DIM`.
    pub open spec fn wf(&self) -> bool {
        self.width <= MAX_DIM && self.height <= MAX_DIM
    }

    /// The standard 10 by 20 board.
    pub fn new() -> (r: Board)
        ensures
            r.wf(),
            r.width == 10,
            r.height == 20,
            r.offset_x == 5,
            r.offset_y == 2,
    {
        Board { width: 10, height: 20, offset_x: 5, offset_y: 2 }
    }

    pub fn get_height(&self) -> (r: u16)
        ensures
            r == self.height,
    {
        self.height
    }

    pub fn get_width(&self) -> (r: u16)
        ensures
            r == self.width,
    {
        self.width
    }

    pub fn get_offset_x(&self) -> (r: u16)
        ensures
            r == self.offset_x,
    {
        self.offset_x
    }

    pub fn get_offset_y(&self) -> (r: u16)
        ensures
            r == self.offset_y,
    {
        self.offset_y
    }
}

} // verus!
