//! The size of the screen.

use vstd::prelude::*;

verus! {

#[derive(Debug, Copy, Clone)]
pub struct Dimensions {
    pub width: usize,
    pub height: usize,
}

/// The width assumed before the terminal is asked.
pub const DEFAULT_WIDTH: usize = 80;

/// The height assumed before the terminal is asked.
pub const DEFAULT_HEIGHT: usize = 24;

impl Default for Dimensions {
    fn default() -> (d: Self)
        ensures
            d.width == DEFAULT_WIDTH && d.height == DEFAULT_HEIGHT,
    {
        Dimensions { width: DEFAULT_WIDTH, height: DEFAULT_HEIGHT }
    }
}

} // verus!
