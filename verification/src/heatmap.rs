//! The capacitive heatmap inside a touch frame.
use crate::slices::array_window;
use vstd::prelude::*;

verus! {

/// Rows of the heatmap.
pub const HEATMAP_ROWS: usize = 44;

/// Columns of the heatmap.
pub const HEATMAP_COLS: usize = 64;

/// Where the heatmap starts in a touch frame.
pub const HEATMAP_OFFSET: usize = 26;

/// The 44 x 64 heatmap of a 3500-byte touch frame: its bytes from offset 26.
pub fn get_heatmap(input: &[u8; 3500]) -> (r: &[u8; 2816])
    ensures
        r@ == input@.subrange(26, 2842),
{
    array_window(input, 26)
}

/// The PNG file of a 64 by 44 grey-scale picture with eight bits per pixel,
/// as the `png` crate writes it with its best compression.
pub uninterp spec fn heatmap_png(pixels: Seq<u8>) -> Seq<u8>;

/// `png::Encoder` of the `png` crate writing the heatmap as a 64 by 44
/// grey-scale, eight-bit picture with its best compression into memory. The
/// bytes depend on the pixels alone.
#[verifier::external_body]
pub fn encode_heatmap_png(pixels: &[u8; 2816]) -> (r: Vec<u8>)
    ensures
        r@ == heatmap_png(pixels@),
{
    let mut out: Vec<u8> = Vec::new();
    let mut encoder = png::Encoder::new(&mut out, 64, 44);
    encoder.set_color(png::ColorType::Grayscale);
    encoder.set_depth(png::BitDepth::Eight);
    encoder.set_compression(png::Compression::Best);
    let mut writer = encoder.write_header().unwrap();
    writer.write_image_data(&pixels[..]).unwrap();
    writer.finish().unwrap();
    out
}

/// The picture of a frame's heatmap, as a PNG file.
pub fn frame_png(input: &[u8; 3500]) -> (r: Vec<u8>)
    ensures
        r@ == heatmap_png(input@.subrange(26, 2842)),
{
    encode_heatmap_png(get_heatmap(input))
}

} // verus!
