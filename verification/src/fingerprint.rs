//! The perceptual hash of an image, computed from its grayscale pixels.

use vstd::prelude::*;

verus! {

/// The length in bytes of every hash that [`perceptual_hash`] gives.
pub const HASH_BYTES: usize = 8;

/// Whether `luma` holds exactly one byte for each pixel of a `width` by
/// `height` image, and the image has at least one pixel.
pub open spec fn covers(width: u32, height: u32, luma: Seq<u8>) -> bool {
    width > 0 && height > 0 && luma.len() == width * height
}

/// Builds an `image::GrayImage` from the pixels with `ImageBuffer::from_raw`
/// and hashes it with the hasher that `image_hasher::HasherConfig::new()`
/// configures (`to_hasher`, `hash_image`, `ImageHash::as_bytes`).
///
/// Trusted: the result has eight bytes. That configuration compares, in
/// each of eight rows, nine resized pixels with their left neighbours and
/// packs the sixty-four outcomes eight to a byte. Which bits come out is
/// not stated: the resizing works in floating point. The pixels must cover
/// the image, or `from_raw` gives nothing to hash. An image without pixels
/// is left out: walking the pixels of one that has rows but no columns
/// panics inside `image`.
#[verifier::external_body]
fn gradient_hash(width: u32, height: u32, luma: Vec<u8>) -> (hash: Vec<u8>)
    requires
        covers(width, height, luma@),
    ensures
        hash@.len() == HASH_BYTES,
{
    let pixels = image::GrayImage::from_raw(width, height, luma).unwrap();
    image_hasher::HasherConfig::new().to_hasher().hash_image(&pixels).as_bytes().to_vec()
}

/// Hashes a grayscale image given as its dimensions and one byte per pixel,
/// row by row.
///
/// Gives a hash of [`HASH_BYTES`] bytes exactly when the image has at least
/// one pixel and the pixels cover it, and nothing otherwise.
pub fn perceptual_hash(width: u32, height: u32, luma: Vec<u8>) -> (hash: Option<Vec<u8>>)
    ensures
        hash is Some <==> covers(width, height, luma@),
        hash matches Some(h) ==> h@.len() == HASH_BYTES,
{
    assert(width * height <= 0xffff_ffff * 0xffff_ffff) by (nonlinear_arith)
        requires
            0 <= width <= 0xffff_ffff,
            0 <= height <= 0xffff_ffff,
    ;
    let wanted: u64 = (width as u64) * (height as u64);
    if width > 0 && height > 0 && luma.len() as u64 == wanted {
        Some(gradient_hash(width, height, luma))
    } else {
        None
    }
}

} // verus!
