//! Album art: decoding embedded pictures and which decoded pictures a small
//! cache keeps.

use vstd::prelude::*;

verus! {

/// The width, height and RGBA pixel bytes that `image` decodes from the
/// encoded picture `bytes`, if it can.
pub uninterp spec fn decoded_rgba(bytes: Seq<u8>) -> Option<(u32, u32, Seq<u8>)>;

/// Calls `image::load_from_memory` and converts the picture to 8-bit RGBA.
/// Trusted: the result is named `decoded_rgba` of the bytes; nothing is
/// claimed about which formats decode or what the pixels are.
#[verifier::external_body]
fn load_rgba(bytes: &[u8]) -> (r: Option<(u32, u32, Vec<u8>)>)
    ensures
        match r {
            Some(img) => decoded_rgba(bytes@) == Some((img.0, img.1, img.2@)),
            None => decoded_rgba(bytes@) is None,
        },
{
    let img = image::load_from_memory(bytes).ok()?.to_rgba8();
    Some((img.width(), img.height(), img.into_raw()))
}

/// A decoded picture.
pub struct ArtImage {
    pub width: usize,
    pub height: usize,
    /// Pixels row by row, four bytes (red, green, blue, alpha) each.
    pub pixels: Vec<u8>,
}

/// Decodes an embedded picture into RGBA pixels.
pub fn decode_album_art(bytes: &[u8]) -> (r: Option<ArtImage>)
    ensures
        match decoded_rgba(bytes@) {
            Some((w, h, p)) => r matches Some(img) && img.width == w && img.height == h
                && img.pixels@ == p,
            None => r is None,
        },
{
    match load_rgba(bytes) {
        Some((w, h, pixels)) => Some(ArtImage { width: w as usize, height: h as usize, pixels }),
        None => None,
    }
}

/// More pictures than this in the cache and it is pruned before the next
/// one is added.
pub const ART_CACHE_LIMIT: usize = 32;

/// The cache must be pruned before another picture is added.
pub fn art_cache_full(len: usize) -> (r: bool)
    ensures
        r == (len > ART_CACHE_LIMIT),
{
    len > ART_CACHE_LIMIT
}

/// When the cache is pruned for `current`, the picture of track `key` is
/// kept: it is within four tracks of it.
pub fn art_cache_keeps(key: usize, current: usize) -> (r: bool)
    ensures
        r == (key <= current + 4 && current <= key + 4),
{
    let diff = if key >= current {
        key - current
    } else {
        current - key
    };
    diff <= 4
}

} // verus!
