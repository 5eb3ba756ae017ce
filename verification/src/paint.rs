//! Recolouring the cells of a three-channel pixel buffer.

use crate::pixel::OPEN;
use vstd::prelude::*;

verus! {

/// A colour by its red, green and blue channel.
#[derive(Clone, Copy, Debug, PartialEq, Eq, Structural)]
pub struct Color {
    pub red: u8,
    pub green: u8,
    pub blue: u8,
}

impl Color {
    /// The value of channel 0 (red), 1 (green) or 2 (blue).
    pub open spec fn channel(self, index: int) -> u8 {
        if index == 0 {
            self.red
        } else if index == 1 {
            self.green
        } else {
            self.blue
        }
    }
}

/// Whether `at` is one of `cells`.
pub open spec fn among(cells: Seq<usize>, at: int) -> bool {
    exists|k: int| 0 <= k < cells.len() && #[trigger] cells[k] == at
}

/// The buffer in which each of `cells` has the given colour and every other
/// byte is as it was.
pub open spec fn painted(buffer: Seq<u8>, cells: Seq<usize>, color: Color) -> Seq<u8> {
    Seq::new(
        buffer.len(),
        |i: int|
            if among(cells, i / 3) {
                color.channel(i % 3)
            } else {
                buffer[i]
            },
    )
}

/// The three-channel buffer of a greyscale buffer: an open cell is white,
/// any other cell black.
pub open spec fn to_rgb(grey: Seq<u8>) -> Seq<u8> {
    Seq::new(
        3 * grey.len(),
        |i: int|
            if grey[i / 3] == OPEN {
                255u8
            } else {
                0u8
            },
    )
}

/// Painting one more cell in the same colour.
pub proof fn lemma_painted_push(buffer: Seq<u8>, cells: Seq<usize>, cell: usize, color: Color)
    requires
        3 * cell + 2 < buffer.len(),
    ensures
        painted(buffer, cells.push(cell), color) == painted(buffer, cells, color).update(
            3 * cell,
            color.red,
        ).update(3 * cell + 1, color.green).update(3 * cell + 2, color.blue),
{
    let more = cells.push(cell);
    let left = painted(buffer, more, color);
    let right = painted(buffer, cells, color).update(3 * cell, color.red).update(
        3 * cell + 1,
        color.green,
    ).update(3 * cell + 2, color.blue);
    assert forall|i: int| 0 <= i < buffer.len() implies left[i] == right[i] by {
        let at = i / 3;
        assert(more[cells.len() as int] == cell);
        if among(cells, at) {
            let k = choose|k: int| 0 <= k < cells.len() && #[trigger] cells[k] == at;
            assert(more[k] == at);
        }
        if among(more, at) && at != cell {
            let k = choose|k: int| 0 <= k < more.len() && #[trigger] more[k] == at;
            assert(cells[k] == at);
        }
    }
    assert(left =~= right);
}

/// Gives the cell `at` of a three-channel buffer the given colour.
pub fn paint_cell(image_buffer: &mut Vec<u8>, at: usize, color: Color)
    requires
        3 * at + 2 < old(image_buffer).len(),
    ensures
        final(image_buffer)@ == old(image_buffer)@.update(3 * at, color.red).update(
            3 * at + 1,
            color.green,
        ).update(3 * at + 2, color.blue),
{
    image_buffer.set(at * 3, color.red);
    image_buffer.set(at * 3 + 1, color.green);
    image_buffer.set(at * 3 + 2, color.blue);
}

/// The three-channel buffer of a greyscale buffer: an open cell becomes
/// white, any other cell black.
pub fn convert_greyscale_buf_to_rgb(image_buffer: &Vec<u8>) -> (color_buf: Vec<u8>)
    ensures
        color_buf@ == to_rgb(image_buffer@),
{
    let mut color_buf: Vec<u8> = Vec::new();
    let mut at: usize = 0;
    while at < image_buffer.len()
        invariant
            at <= image_buffer.len(),
            color_buf.len() == 3 * at,
            forall|i: int| 0 <= i < 3 * at ==> #[trigger] color_buf[i] == to_rgb(image_buffer@)[i],
        decreases image_buffer.len() - at,
    {
        let value: u8 = if image_buffer[at] == OPEN {
            255
        } else {
            0
        };
        color_buf.push(value);
        color_buf.push(value);
        color_buf.push(value);
        at += 1;
    }
    assert(color_buf@ =~= to_rgb(image_buffer@));
    color_buf
}

} // verus!
