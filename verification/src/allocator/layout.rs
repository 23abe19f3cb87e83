//! What a caller asks of an allocator.
use vstd::prelude::*;

verus! {

/// The size and alignment of a requested block, in bytes.
///
/// Any pair can be written down. An allocator serves only those whose
/// alignment is a power of two.
#[derive(Clone, Copy, Debug, PartialEq, Eq, Structural)]
pub struct Layout {
    pub size: usize,
    pub align: usize,
}

impl Layout {
    /// The layout of a block of `size` bytes at a multiple of `align`.
    pub fn new(size: usize, align: usize) -> (layout: Layout)
        ensures
            layout == (Layout { size, align }),
    {
        Layout { size, align }
    }

    /// The number of bytes asked for.
    pub fn size(&self) -> (size: usize)
        ensures
            size == self.size,
    {
        self.size
    }

    /// The alignment asked for.
    pub fn align(&self) -> (align: usize)
        ensures
            align == self.align,
    {
        self.align
    }
}

} // verus!
