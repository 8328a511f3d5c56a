use vstd::prelude::*;

verus! {

/// The image row that the `row`-th scanline fills; image row 0 is the top,
/// while scanlines count from the bottom of the camera's view.
pub fn row_to_y(height: u32, row: u32) -> (r: u32)
    requires
        row < height,
    ensures
        r == height - row - 1,
{
    height - row - 1
}

} // verus!
