use ab_glyph::{CodepointIdIter, Font, FontArc, GlyphId, Outline, PxScale};
use kaku::bitmap::Bitmap;
use kaku::cache::{create_char_texture, create_char_texture_sdf, Character, RasterGlyph, RasterOutline};
use kaku::fonts::{FontData, FontError, FontId, FontMap};
use kaku::settings::SdfSettings;

/// A font without glyphs: enough to stand in a registry.
struct Blank;

impl Font for Blank {
    fn units_per_em(&self) -> Option<f32> {
        Some(1000.0)
    }

    fn ascent_unscaled(&self) -> f32 {
        800.0
    }

    fn descent_unscaled(&self) -> f32 {
        -200.0
    }

    fn line_gap_unscaled(&self) -> f32 {
        0.0
    }

    fn glyph_id(&self, _: char) -> GlyphId {
        GlyphId(0)
    }

    fn h_advance_unscaled(&self, _: GlyphId) -> f32 {
        500.0
    }

    fn h_side_bearing_unscaled(&self, _: GlyphId) -> f32 {
        0.0
    }

    fn v_advance_unscaled(&self, _: GlyphId) -> f32 {
        0.0
    }

    fn v_side_bearing_unscaled(&self, _: GlyphId) -> f32 {
        0.0
    }

    fn kern_unscaled(&self, _: GlyphId, _: GlyphId) -> f32 {
        0.0
    }

    fn outline(&self, _: GlyphId) -> Option<Outline> {
        None
    }

    fn glyph_count(&self) -> usize {
        1
    }

    fn codepoint_ids(&self) -> CodepointIdIter<'_> {
        panic!("a blank font has no codepoints")
    }

    fn glyph_raster_image2(&self, _: GlyphId, _: u16) -> Option<ab_glyph::v2::GlyphImage<'_>> {
        None
    }
}

fn blank() -> FontArc {
    FontArc::new(Blank)
}

fn settings(radius: f32) -> SdfSettings {
    SdfSettings { radius_bits: radius.to_bits() }
}

fn space(advance: f32) -> RasterGlyph {
    RasterGlyph { advance_bits: advance.to_bits(), outline: None }
}

fn block(width: u32, height: u32, advance: f32) -> RasterGlyph {
    let coverage = Bitmap::from_pixels(width, height, &vec![255; (width * height) as usize]).unwrap();
    RasterGlyph {
        advance_bits: advance.to_bits(),
        outline: Some(RasterOutline {
            origin_bits: (1.5f32.to_bits(), (-7.25f32).to_bits()),
            coverage,
        }),
    }
}

fn entries(data: &FontData, chars: &[char]) -> Vec<(char, Character)> {
    chars.iter().map(|&c| (c, data.create_character(block(2, 2, 10.0)))).collect()
}

#[test]
fn handles_are_issued_in_order() {
    let mut fonts = FontMap::new();
    let first = fonts.load(blank(), PxScale::from(24.0));
    let second = fonts.load_with_sdf(blank(), PxScale::from(32.0), settings(8.0)).unwrap();
    let third = fonts.load(blank(), PxScale::from(12.0));
    assert_eq!((first.index(), second.index(), third.index()), (0, 1, 2));
    assert!(first < second && second < third);
    assert_eq!(first, first);
    assert_ne!(first, third);
    assert_eq!(*fonts.get(first).unwrap().scale(), PxScale::from(24.0));
    assert_eq!(*fonts.get(second).unwrap().scale(), PxScale::from(32.0));
    assert_eq!(*fonts.get(third).unwrap().scale(), PxScale::from(12.0));
}

#[test]
fn unknown_font_is_an_error() {
    let mut fonts = FontMap::new();
    let mut other = FontMap::new();
    other.load(blank(), PxScale::from(24.0));
    let stray: FontId = other.load(blank(), PxScale::from(24.0));
    assert!(matches!(fonts.get(stray), Err(FontError::UnknownFont)));
    assert_eq!(fonts.font_uses_sdf(stray), Err(FontError::UnknownFont));
    assert!(matches!(fonts.get_mut(stray), Err(FontError::UnknownFont)));
    assert_eq!(fonts.commit(stray, Vec::new()), Err(FontError::UnknownFont));
    let own = fonts.load(blank(), PxScale::from(24.0));
    assert!(fonts.get(own).is_ok());
    assert!(matches!(fonts.get(stray), Err(FontError::UnknownFont)));
}

#[test]
fn invalid_radius_is_rejected_at_load() {
    let mut fonts = FontMap::new();
    for radius in [0.0, -0.0, -3.0, f32::NAN, f32::NEG_INFINITY] {
        let loaded = fonts.load_with_sdf(blank(), PxScale::from(24.0), settings(radius));
        assert_eq!(loaded, Err(FontError::InvalidSdfConfig));
    }
    // nothing was loaded: the next handle is the first
    let id = fonts.load_with_sdf(blank(), PxScale::from(24.0), settings(0.5)).unwrap();
    assert_eq!(id.index(), 0);
}

#[test]
fn fonts_know_whether_they_use_sdf() {
    let mut fonts = FontMap::new();
    let plain = fonts.load(blank(), PxScale::from(24.0));
    let field = fonts.load_with_sdf(blank(), PxScale::from(24.0), settings(15.0)).unwrap();
    assert_eq!(fonts.font_uses_sdf(plain), Ok(false));
    assert_eq!(fonts.font_uses_sdf(field), Ok(true));
    assert_eq!(fonts.get(plain).unwrap().sdf_settings(), None);
    assert_eq!(fonts.get(field).unwrap().sdf_settings(), Some(settings(15.0)));
}

#[test]
fn glyph_lookup_before_generation_is_an_error() {
    let mut fonts = FontMap::new();
    let font = fonts.load(blank(), PxScale::from(24.0));
    assert!(matches!(fonts.get(font).unwrap().character('a'), Err(FontError::UnknownGlyph)));
    assert!(!fonts.get(font).unwrap().has_character('a'));
    let batch = entries(fonts.get(font).unwrap(), &['a']);
    assert_eq!(fonts.commit(font, batch), Ok(()));
    assert!(fonts.get(font).unwrap().character('a').is_ok());
    assert!(fonts.get(font).unwrap().has_character('a'));
    assert!(matches!(fonts.get(font).unwrap().character('b'), Err(FontError::UnknownGlyph)));
}

#[test]
fn repeated_characters_are_computed_once() {
    let mut fonts = FontMap::new();
    let font = fonts.load(blank(), PxScale::from(24.0));
    let missing = fonts.get(font).unwrap().new_characters(&vec!['a', 'a', 'b']);
    assert_eq!(missing, vec!['a', 'b']);
    let more = fonts.get(font).unwrap().new_characters(&vec!['c', 'b', 'a', 'b', 'c', 'a', 'd']);
    assert_eq!(more, vec!['c', 'b', 'a', 'd']);
    assert_eq!(fonts.get(font).unwrap().new_characters(&Vec::new()), Vec::<char>::new());
}

#[test]
fn cached_characters_are_skipped() {
    let mut fonts = FontMap::new();
    let font = fonts.load(blank(), PxScale::from(24.0));
    let batch = entries(fonts.get(font).unwrap(), &['b', 'x']);
    fonts.commit(font, batch).unwrap();
    let missing = fonts.get(font).unwrap().new_characters(&vec!['a', 'b', 'a', 'x', 'y', 'b']);
    assert_eq!(missing, vec!['a', 'y']);
}

#[test]
fn second_serving_is_idle() {
    let mut fonts = FontMap::new();
    let font = fonts.load_with_sdf(blank(), PxScale::from(24.0), settings(2.0)).unwrap();
    let text = vec!['h', 'e', 'l', 'l', 'o'];
    let missing = fonts.get(font).unwrap().new_characters(&text);
    assert_eq!(missing, vec!['h', 'e', 'l', 'o']);
    let batch = entries(fonts.get(font).unwrap(), &missing);
    fonts.commit(font, batch).unwrap();
    let first: Vec<Vec<u8>> = text
        .iter()
        .map(|&c| {
            let data = fonts.get(font).unwrap();
            data.character(c).unwrap().texture.as_ref().unwrap().pixels.to_pixels()
        })
        .collect();
    // the second time nothing is left to compute
    let again = fonts.get(font).unwrap().new_characters(&text);
    assert_eq!(again, Vec::<char>::new());
    fonts.commit(font, Vec::new()).unwrap();
    let second: Vec<Vec<u8>> = text
        .iter()
        .map(|&c| {
            let data = fonts.get(font).unwrap();
            data.character(c).unwrap().texture.as_ref().unwrap().pixels.to_pixels()
        })
        .collect();
    assert_eq!(first, second);
}

#[test]
fn entries_are_never_overwritten() {
    let mut fonts = FontMap::new();
    let font = fonts.load(blank(), PxScale::from(24.0));
    fonts.commit(font, vec![('a', create_char_texture(space(3.0)))]).unwrap();
    // a later batch has another entry for 'a', and two for 'b'
    let batch = vec![
        ('a', create_char_texture(space(4.0))),
        ('b', create_char_texture(space(5.0))),
        ('b', create_char_texture(space(6.0))),
    ];
    fonts.commit(font, batch).unwrap();
    let data = fonts.get(font).unwrap();
    assert_eq!(data.character('a').unwrap().advance_bits, 3.0f32.to_bits());
    assert_eq!(data.character('b').unwrap().advance_bits, 6.0f32.to_bits());
}

#[test]
fn commit_leaves_other_fonts_alone() {
    let mut fonts = FontMap::new();
    let first = fonts.load(blank(), PxScale::from(24.0));
    let second = fonts.load(blank(), PxScale::from(24.0));
    fonts.commit(second, vec![('a', create_char_texture(space(3.0)))]).unwrap();
    assert!(!fonts.get(first).unwrap().has_character('a'));
    assert!(fonts.get(second).unwrap().has_character('a'));
}

#[test]
fn glyph_without_outline_has_no_texture() {
    let plain = create_char_texture(space(7.5));
    assert!(plain.texture.is_none());
    assert_eq!(plain.advance_bits, 7.5f32.to_bits());
    assert!(f32::from_bits(plain.advance_bits) > 0.0);
    let field = create_char_texture_sdf(space(7.5), &settings(4.0));
    assert!(field.texture.is_none());
    assert_eq!(field.advance_bits, 7.5f32.to_bits());
}

#[test]
fn plain_texture_is_the_coverage() {
    let character = create_char_texture(block(3, 2, 9.0));
    let texture = character.texture.unwrap();
    assert_eq!(texture.size, (3, 2));
    assert_eq!(texture.padding, 0);
    assert_eq!(texture.origin_bits, (1.5f32.to_bits(), (-7.25f32).to_bits()));
    assert_eq!(texture.pixels.dimensions(), (3, 2));
    assert_eq!(texture.pixels.to_pixels(), vec![255; 6]);
    assert_eq!(character.advance_bits, 9.0f32.to_bits());
}

#[test]
fn sdf_texture_is_padded() {
    let character = create_char_texture_sdf(block(3, 2, 9.0), &settings(2.5));
    let texture = character.texture.unwrap();
    assert_eq!(texture.size, (9, 8));
    assert_eq!(texture.padding, 3);
    assert_eq!(texture.origin_bits, (1.5f32.to_bits(), (-7.25f32).to_bits()));
    assert_eq!(texture.pixels.dimensions(), (9, 8));
    let pixels = texture.pixels.to_pixels();
    // every pixel of the block is on its rim: half a pixel inside
    // (-0.5 / 5 + 0.5) * 255 = 102
    for y in 3..5 {
        for x in 3..6 {
            assert_eq!(pixels[y * 9 + x], 102);
        }
    }
    assert_eq!(pixels[0], 255);
}

#[test]
fn font_makes_the_entry_it_is_set_up_for() {
    let mut fonts = FontMap::new();
    let plain = fonts.load(blank(), PxScale::from(24.0));
    let field = fonts.load_with_sdf(blank(), PxScale::from(24.0), settings(1.0)).unwrap();
    let glyph = block(4, 4, 2.0);
    assert!(fonts.get(plain).unwrap().can_create(&glyph));
    let entry = fonts.get(plain).unwrap().create_character(glyph);
    assert_eq!(entry.texture.unwrap().size, (4, 4));
    let glyph = block(4, 4, 2.0);
    assert!(fonts.get(field).unwrap().can_create(&glyph));
    let entry = fonts.get(field).unwrap().create_character(glyph);
    let texture = entry.texture.unwrap();
    assert_eq!(texture.size, (6, 6));
    assert_eq!(texture.padding, 1);
}

#[test]
fn glyph_too_large_for_the_radius_cannot_be_created() {
    let mut fonts = FontMap::new();
    let huge = fonts.load_with_sdf(blank(), PxScale::from(24.0), settings(3.0e9)).unwrap();
    let endless = fonts.load_with_sdf(blank(), PxScale::from(24.0), settings(f32::INFINITY)).unwrap();
    assert!(!fonts.get(huge).unwrap().can_create(&block(1, 1, 2.0)));
    assert!(!fonts.get(endless).unwrap().can_create(&block(1, 1, 2.0)));
    assert!(fonts.get(huge).unwrap().can_create(&space(2.0)));
}

#[test]
fn cache_grows_through_the_mutable_handle() {
    let mut fonts = FontMap::new();
    let font = fonts.load(blank(), PxScale::from(24.0));
    fonts.get_mut(font).unwrap().commit(vec![('q', create_char_texture(space(1.0)))]);
    assert!(fonts.get(font).unwrap().has_character('q'));
}
