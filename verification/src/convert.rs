//! Pixel format conversion.

use vstd::prelude::*;

verus! {

/// The bytes of `pixels` RGBA pixels made from BGRX ones: red and blue change
/// places, and alpha is opaque.
pub open spec fn rgba_of_bgrx(src: Seq<u8>, pixels: nat) -> Seq<u8> {
    Seq::new(
        pixels * 4,
        |j: int|
            if j % 4 == 0 {
                src[j + 2]
            } else if j % 4 == 1 {
                src[j]
            } else if j % 4 == 2 {
                src[j - 2]
            } else {
                255
            },
    )
}

/// Converts `width * height` BGRX pixels into `dst`, whatever it held before.
pub fn convert_bgrx_to_rgba_inplace(src: &[u8], width: u32, height: u32, dst: &mut Vec<u8>)
    requires
        width * height <= u32::MAX,
        width * height * 4 <= src@.len(),
    ensures
        final(dst)@ == rgba_of_bgrx(src@, (width * height) as nat),
{
    let total: usize = src.len();
    let pixels: usize = (width * height) as usize;
    dst.clear();
    let mut i: usize = 0;
    while i < pixels
        invariant
            i <= pixels,
            total == src@.len(),
            pixels * 4 <= total,
            dst@ == rgba_of_bgrx(src@, i as nat),
        decreases pixels - i,
    {
        let s: usize = i * 4;
        let ghost before = dst@;
        dst.push(src[s + 2]);
        dst.push(src[s + 1]);
        dst.push(src[s]);
        dst.push(255);
        assert(dst@ =~= rgba_of_bgrx(src@, (i + 1) as nat));
        i += 1;
    }
}

/// Converts `width * height` BGRX pixels.
pub fn convert_bgrx_to_rgba(src: &[u8], width: u32, height: u32) -> (rgba: Vec<u8>)
    requires
        width * height <= u32::MAX,
        width * height * 4 <= src@.len(),
    ensures
        rgba@ == rgba_of_bgrx(src@, (width * height) as nat),
{
    let mut rgba: Vec<u8> = Vec::new();
    convert_bgrx_to_rgba_inplace(src, width, height, &mut rgba);
    rgba
}

/// Every converted pixel is opaque and keeps its three colours.
pub proof fn law_conversion_keeps_colours(src: Seq<u8>, pixels: nat, i: int)
    requires
        0 <= i < pixels,
        pixels * 4 <= src.len(),
    ensures
        ({
            let rgba = rgba_of_bgrx(src, pixels);
            &&& rgba.len() == pixels * 4
            &&& rgba[i * 4] == src[i * 4 + 2]
            &&& rgba[i * 4 + 1] == src[i * 4 + 1]
            &&& rgba[i * 4 + 2] == src[i * 4]
            &&& rgba[i * 4 + 3] == 255
        }),
{
}

} // verus!
