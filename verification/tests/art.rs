use musiq::art::{art_cache_full, art_cache_keeps, decode_album_art, ART_CACHE_LIMIT};

// A 1x1 PNG with a single opaque red pixel.
const RED_PIXEL_PNG: [u8; 69] = [
    0x89, 0x50, 0x4E, 0x47, 0x0D, 0x0A, 0x1A, 0x0A, 0x00, 0x00, 0x00, 0x0D, 0x49, 0x48, 0x44, 0x52,
    0x00, 0x00, 0x00, 0x01, 0x00, 0x00, 0x00, 0x01, 0x08, 0x02, 0x00, 0x00, 0x00, 0x90, 0x77, 0x53,
    0xDE, 0x00, 0x00, 0x00, 0x0C, 0x49, 0x44, 0x41, 0x54, 0x78, 0x9C, 0x63, 0xF8, 0xCF, 0xC0, 0x00,
    0x00, 0x03, 0x01, 0x01, 0x00, 0xC9, 0xFE, 0x92, 0xEF, 0x00, 0x00, 0x00, 0x00, 0x49, 0x45, 0x4E,
    0x44, 0xAE, 0x42, 0x60, 0x82,
];

#[test]
fn decode_rejects_garbage() {
    assert!(decode_album_art(&[]).is_none());
    assert!(decode_album_art(b"not a picture").is_none());
}

#[test]
fn decode_png_gives_rgba_pixels() {
    let img = decode_album_art(&RED_PIXEL_PNG).expect("valid png");
    assert_eq!(img.width, 1);
    assert_eq!(img.height, 1);
    assert_eq!(img.pixels, vec![255, 0, 0, 255]);
}

#[test]
fn cache_is_full_past_limit() {
    assert!(!art_cache_full(ART_CACHE_LIMIT));
    assert!(art_cache_full(ART_CACHE_LIMIT + 1));
    assert!(!art_cache_full(0));
}

#[test]
fn cache_keeps_neighbours_of_current_track() {
    assert!(art_cache_keeps(10, 10));
    assert!(art_cache_keeps(14, 10));
    assert!(art_cache_keeps(6, 10));
    assert!(!art_cache_keeps(15, 10));
    assert!(!art_cache_keeps(5, 10));
    assert!(art_cache_keeps(0, 3));
    assert!(art_cache_keeps(usize::MAX, usize::MAX - 2));
}
