//! Classification of the cells of a flat pixel buffer as open path or wall.

use vstd::prelude::*;

verus! {

/// The channel value that marks an open cell.
pub const OPEN: u8 = 255;

/// Whether cell `index` of the buffer is open: in a greyscale buffer its one
/// byte is `OPEN`, in a three-channel buffer all three of its bytes are.
pub open spec fn open_at(buffer: Seq<u8>, index: int, greyscale: bool) -> bool {
    if greyscale {
        buffer[index] == OPEN
    } else {
        buffer[3 * index] == OPEN && buffer[3 * index + 1] == OPEN && buffer[3 * index + 2] == OPEN
    }
}

/// The number of bytes that one cell takes.
pub open spec fn channels(greyscale: bool) -> int {
    if greyscale { 1 } else { 3 }
}

/// Tells whether the cell at `coord` is open path.
pub fn is_path(image_buff: &Vec<u8>, coord: usize, is_grey: bool) -> (open: bool)
    requires
        channels(is_grey) * coord + channels(is_grey) <= image_buff.len(),
    ensures
        open == open_at(image_buff@, coord as int, is_grey),
{
    if is_grey {
        image_buff[coord] == OPEN
    } else {
        image_buff[coord * 3] == OPEN && image_buff[coord * 3 + 1] == OPEN && image_buff[coord * 3
            + 2] == OPEN
    }
}

} // verus!
