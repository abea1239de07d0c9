//! Placing a popup in the frame.

use vstd::prelude::*;

verus! {

/// A rectangle of the terminal: its upper left corner and its size, in
/// columns and rows.
#[derive(Clone, Copy, Debug, PartialEq, Eq, Structural)]
pub struct Rect {
    pub x: u16,
    pub y: u16,
    pub width: u16,
    pub height: u16,
}

/// The lesser of two numbers.
pub open spec fn lesser(a: u16, b: u16) -> u16 {
    if a <= b {
        a
    } else {
        b
    }
}

/// A rectangle of the given size in the middle of a frame of the size of
/// `r`, cut down to the frame where the frame is smaller. What is left
/// over of an odd number of columns or rows goes to the right and below.
pub fn centered_rect_absolute(width: u16, height: u16, r: Rect) -> (rect: Rect)
    ensures
        rect.width == lesser(width, r.width),
        rect.height == lesser(height, r.height),
        rect.x == (r.width - rect.width) / 2,
        rect.y == (r.height - rect.height) / 2,
{
    Rect {
        x: r.width.saturating_sub(width) / 2,
        y: r.height.saturating_sub(height) / 2,
        width: if width <= r.width {
            width
        } else {
            r.width
        },
        height: if height <= r.height {
            height
        } else {
            r.height
        },
    }
}

} // verus!
