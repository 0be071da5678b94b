use byte_engine::font::GlyphKey;

fn key(character: char, font_size: f32) -> GlyphKey {
    GlyphKey::new(character, font_size.to_bits())
}

#[test]
fn glyph_key_normalizes_sizes_below_one_pixel() {
    assert_eq!(key('a', 0.25), key('a', 1.0));
    assert_ne!(key('a', 2.0), key('a', 1.0));
}

#[test]
fn negative_and_undefined_sizes_key_as_one_pixel() {
    assert_eq!(key('a', -3.0), key('a', 1.0));
    assert_eq!(key('a', f32::NAN), key('a', 1.0));
    assert_eq!(key('a', 0.0), key('a', 1.0));
    assert_eq!(key('a', 16.0).font_size_bits, 16.0f32.to_bits());
    assert_eq!(key('a', f32::INFINITY).font_size_bits, f32::INFINITY.to_bits());
    assert_ne!(key('a', 16.0), key('b', 16.0));
}
