//! Where the launcher window stands on the primary display.

use vstd::prelude::*;

verus! {

/// Size and position of the window, in display pixels.
#[derive(Debug, PartialEq, Eq, Structural, Clone, Copy)]
pub struct WindowAttributes {
    pub width: u32,
    pub height: u32,
    pub pos_x: i32,
    pub pos_y: i32,
}

impl WindowAttributes {
    /// A window three quarters of the display's size in each direction
    /// (rounded down), centred on it.
    pub fn new(display_width: u32, display_height: u32) -> (r: Self)
        ensures
            r.width == display_width * 3 / 4,
            r.height == display_height * 3 / 4,
            r.pos_x == (display_width - r.width) / 2,
            r.pos_y == (display_height - r.height) / 2,
    {
        let width = ((display_width as u64) * 3 / 4) as u32;
        let height = ((display_height as u64) * 3 / 4) as u32;
        let pos_x = ((display_width - width) / 2) as i32;
        let pos_y = ((display_height - height) / 2) as i32;
        WindowAttributes { width, height, pos_x, pos_y }
    }
}

} // verus!
