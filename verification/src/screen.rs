//! The measured bounds of the terminal screen. Driving the terminal itself
//! is I/O and lives outside this library; here only the bounds are kept and
//! queried.

use vstd::prelude::*;

verus! {

/// The terminal's measured bounds: `max_y` rows and `max_x` columns.
pub struct Screen {
    max_y: u32,
    max_x: u32,
}

impl Screen {
    /// The screen's row count.
    pub closed spec fn spec_max_y(&self) -> u32 {
        self.max_y
    }

    /// The screen's column count.
    pub closed spec fn spec_max_x(&self) -> u32 {
        self.max_x
    }

    /// A screen of the given measured bounds.
    pub fn new(max_y: u32, max_x: u32) -> (s: Screen)
        ensures
            s.spec_max_y() == max_y,
            s.spec_max_x() == max_x,
    {
        Screen { max_y, max_x }
    }

    /// The current bounds, as `(rows, columns)`.
    pub fn dimensions(&self) -> (d: (u32, u32))
        ensures
            d.0 == self.spec_max_y(),
            d.1 == self.spec_max_x(),
    {
        (self.max_y, self.max_x)
    }
}

} // verus!
