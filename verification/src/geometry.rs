//! Rectangles and screens in integer pixel coordinates.

use vstd::prelude::*;

verus! {

/// An axis-aligned rectangle in pixels.
#[derive(Debug, Clone, Copy, PartialEq, Eq, Structural)]
pub struct Rect {
    pub x: i32,
    pub y: i32,
    pub width: i32,
    pub height: i32,
}

impl Rect {
    /// A rectangle is proper when neither extent is negative. A rectangle of
    /// zero area is proper.
    pub open spec fn is_proper(self) -> bool {
        self.width >= 0 && self.height >= 0
    }

    /// Tells whether neither extent is negative.
    pub fn proper(&self) -> (b: bool)
        ensures
            b == self.is_proper(),
    {
        self.width >= 0 && self.height >= 0
    }
}

/// One of the connected displays.
#[derive(Debug, Clone, Copy, PartialEq, Eq, Structural)]
pub struct Screen {
    /// Position of the display among all connected displays, from 0.
    pub index: u64,
    /// The part of the display that windows may cover.
    pub visible_frame: Rect,
    /// The whole display.
    pub frame: Rect,
}

} // verus!
