//! Copying a tile's pixels out of a frame.

use crate::tile_hash::{
    lemma_rows_inside_prefix, lemma_sampled_byte, lemma_sampled_rows_len, read_column, row_start,
    rows_inside, tile_inside, tile_pixels,
};
use vstd::prelude::*;

verus! {

/// A tile as wide as the frame lies inside it row by row as well.
proof fn lemma_tile_rows(len: int, x: int, y: int, width: int, height: int, stride: int)
    requires
        0 <= x,
        0 <= y,
        0 <= width,
        0 <= height,
        0 <= stride,
        tile_inside(len, x, y, width, height, stride),
    ensures
        rows_inside(len, read_column(x, width, stride), y, width, stride, 1, height),
{
    if width == stride && height > 0 {
        assert((height - 1) * 1 == height - 1);
        assert((y + height - 1) * stride + stride == (y + height) * stride) by (nonlinear_arith);
    }
}

/// Copies the pixels of a tile to the front of `tile_buffer`.
pub fn extract_tile(
    frame_rgba: &[u8],
    tile_buffer: &mut [u8],
    tile_x: u32,
    tile_y: u32,
    tile_width: u32,
    tile_height: u32,
    frame_width: u32,
)
    requires
        tile_inside(
            frame_rgba@.len() as int,
            tile_x as int,
            tile_y as int,
            tile_width as int,
            tile_height as int,
            frame_width as int,
        ),
        tile_width * tile_height * 4 <= old(tile_buffer)@.len(),
    ensures
        final(tile_buffer)@.len() == old(tile_buffer)@.len(),
        final(tile_buffer)@.take(tile_width * tile_height * 4) == tile_pixels(
            frame_rgba@,
            tile_x as int,
            tile_y as int,
            tile_width as int,
            tile_height as int,
            frame_width as int,
        ),
        final(tile_buffer)@.skip(tile_width * tile_height * 4) == old(tile_buffer)@.skip(
            tile_width * tile_height * 4,
        ),
{
    let column: u32 = if tile_width == frame_width {
        0
    } else {
        tile_x
    };
    let ghost want = tile_pixels(
        frame_rgba@,
        tile_x as int,
        tile_y as int,
        tile_width as int,
        tile_height as int,
        frame_width as int,
    );
    let ghost (x, y, w, h, fw) = (
        column as int,
        tile_y as int,
        tile_width as int,
        tile_height as int,
        frame_width as int,
    );
    let source: usize = frame_rgba.len();
    let room: usize = tile_buffer.len();
    proof {
        lemma_tile_rows(source as int, tile_x as int, y, w, h, fw);
        lemma_sampled_rows_len(frame_rgba@, x, y, w, fw, 1, h as nat);
        assert(h * w * 4 == w * h * 4) by (nonlinear_arith);
    }
    let row_bytes: u64 = tile_width as u64 * 4;
    let mut row: u32 = 0;
    while row < tile_height
        invariant
            row <= tile_height,
            row_bytes == tile_width * 4,
            (x, y, w, h, fw) == (
                column as int,
                tile_y as int,
                tile_width as int,
                tile_height as int,
                frame_width as int,
            ),
            x == read_column(tile_x as int, w, fw),
            want == tile_pixels(frame_rgba@, tile_x as int, y, w, h, fw),
            want.len() == w * h * 4,
            rows_inside(source as int, x, y, w, fw, 1, h),
            source == frame_rgba@.len(),
            room == tile_buffer@.len() == old(tile_buffer)@.len(),
            w * h * 4 <= room,
            forall|j: int| 0 <= j < row * w * 4 ==> #[trigger] tile_buffer@[j] == want[j],
            forall|j: int|
                row * w * 4 <= j < room ==> #[trigger] tile_buffer@[j] == old(tile_buffer)@[j],
        decreases tile_height - row,
    {
        proof {
            lemma_rows_inside_prefix(source as int, x, y, w, fw, 1, h, row as int);
            assert(row * 1 == row);
            assert(0 <= row * w * 4 && row * w * 4 + w * 4 == (row + 1) * w * 4) by (nonlinear_arith)
                requires
                    row >= 0,
                    w >= 0,
            ;
            assert((row + 1) * w * 4 <= w * h * 4) by (nonlinear_arith)
                requires
                    row + 1 <= h,
                    w >= 0,
            ;
            assert(row * w * 4 == row * row_bytes) by (nonlinear_arith)
                requires
                    row_bytes == w * 4,
            ;
        }
        let start: u64 = ((tile_y as u64 + row as u64) * frame_width as u64 + column as u64) * 4;
        let dest: u64 = row as u64 * row_bytes;
        let mut k: u64 = 0;
        while k < row_bytes
            invariant
                k <= row_bytes == w * 4,
                (x, y, w, h, fw) == (
                    column as int,
                    tile_y as int,
                    tile_width as int,
                    tile_height as int,
                    frame_width as int,
                ),
                x == read_column(tile_x as int, w, fw),
                row < tile_height,
                start == row_start(x, y, fw, 1, row as int),
                start + w * 4 <= source,
                dest == row * w * 4,
                dest + w * 4 <= room,
                dest + w * 4 == (row + 1) * w * 4,
                want == tile_pixels(frame_rgba@, tile_x as int, y, w, h, fw),
                rows_inside(source as int, x, y, w, fw, 1, h),
                source == frame_rgba@.len(),
                room == tile_buffer@.len() == old(tile_buffer)@.len(),
                forall|j: int| 0 <= j < dest + k ==> #[trigger] tile_buffer@[j] == want[j],
                forall|j: int|
                    dest + k <= j < room ==> #[trigger] tile_buffer@[j] == old(tile_buffer)@[j],
            decreases row_bytes - k,
        {
            proof {
                lemma_sampled_byte(frame_rgba@, x, y, w, fw, 1, h as nat, row as int, k as int);
            }
            tile_buffer[(dest + k) as usize] = frame_rgba[(start + k) as usize];
            k += 1;
        }
        row += 1;
    }
    proof {
        assert(h * w * 4 == w * h * 4) by (nonlinear_arith);
        assert(tile_buffer@.take(w * h * 4) =~= want);
        assert(tile_buffer@.skip(w * h * 4) =~= old(tile_buffer)@.skip(w * h * 4));
    }
}

} // verus!
