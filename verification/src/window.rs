//! A window: a view of fixed dimensions over a text buffer.

use crate::buffer::Buffer;
use vstd::prelude::*;

verus! {

/// A window of `height` by `width` cells over its own text buffer.
pub struct Window {
    height: u32,
    width: u32,
    buf: Buffer,
}

impl Window {
    /// The window's height in cells.
    pub closed spec fn spec_height(&self) -> u32 {
        self.height
    }

    /// The window's width in cells.
    pub closed spec fn spec_width(&self) -> u32 {
        self.width
    }

    /// The content of the window's own buffer.
    pub closed spec fn contents(&self) -> Seq<u32> {
        self.buf@
    }

    /// A window of the given dimensions. The window starts out over an empty
    /// buffer of its own; the buffer handed in is not retained.
    #[allow(unused_variables)]
    pub fn new(height: u32, width: u32, buf: Buffer) -> (w: Window)
        ensures
            w.spec_height() == height,
            w.spec_width() == width,
            w.contents() == Seq::<u32>::empty(),
    {
        Window { height, width, buf: Buffer::new() }
    }
}

} // verus!
