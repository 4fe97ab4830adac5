//! The font registry: every loaded font with its scale, its settings and its
//! glyph cache, under a handle that stays valid as long as the registry lives.
use crate::cache::cache_contains;
use crate::cache::cache_entries;
use crate::cache::cache_get;
use crate::cache::cache_new;
use crate::cache::commit;
use crate::cache::committed;
use crate::cache::create_char_texture;
use crate::cache::create_char_texture_sdf;
use crate::cache::new_characters;
use crate::cache::new_characters_spec;
use crate::cache::Character;
use crate::cache::CharacterCache;
use crate::cache::RasterGlyph;
use crate::field::scene_of;
use crate::sdf::canvas_fits;
use crate::settings::SdfSettings;
use ab_glyph::FontArc;
use ab_glyph::PxScale;
use vstd::prelude::*;

verus! {

/// The `FontArc` of the `ab_glyph` crate, a shared font, as an opaque type.
/// The registry only keeps it for the rasteriser.
#[verifier::external_type_specification]
#[verifier::external_body]
pub struct ExFontArc(FontArc);

/// The `PxScale` of the `ab_glyph` crate, a pixel scale, as an opaque type.
/// The registry only keeps it for the rasteriser.
#[verifier::external_type_specification]
#[verifier::external_body]
pub struct ExPxScale(PxScale);

/// A handle to a font stored in a [`FontMap`].
///
/// Loading a font into the registry gives back one of these, referencing
/// that font.
#[derive(Clone, Copy, Debug, PartialEq, Eq, PartialOrd, Ord, Hash, Structural)]
pub struct FontId(pub(crate) usize);

impl FontId {
    /// The place of the font among the fonts of its registry: fonts are
    /// numbered from zero in the order in which they are loaded.
    pub closed spec fn index_spec(&self) -> int {
        self.0 as int
    }

    /// The place of the font among the fonts of its registry.
    pub fn index(&self) -> (index: usize)
        ensures
            index == self.index_spec(),
    {
        self.0
    }
}

/// What can go wrong in the registry. Each of these is a mistake of the
/// caller, not a state to recover from.
#[derive(Clone, Copy, Debug, PartialEq, Eq, Structural)]
pub enum FontError {
    /// The handle was not issued by this registry.
    UnknownFont,
    /// The character has no cache entry yet.
    UnknownGlyph,
    /// The radius of the distance field is not greater than zero, or is not
    /// a number.
    InvalidSdfConfig,
}

/// A loaded font.
#[derive(Debug)]
pub struct FontData {
    pub(crate) font: FontArc,
    pub(crate) scale: PxScale,
    pub(crate) char_cache: CharacterCache,
    pub(crate) sdf_settings: Option<SdfSettings>,
}

impl FontData {
    /// The source of the glyphs.
    pub closed spec fn font_spec(&self) -> FontArc {
        self.font
    }

    /// The scale at which the glyphs are rasterised.
    pub closed spec fn scale_spec(&self) -> PxScale {
        self.scale
    }

    /// The settings of the distance field, if the font has one.
    pub closed spec fn sdf_spec(&self) -> Option<SdfSettings> {
        self.sdf_settings
    }

    /// The cache entries of the font, by character.
    pub closed spec fn glyphs(&self) -> Map<char, Character> {
        cache_entries(self.char_cache)
    }

    /// The settings of the distance field, if any, are valid.
    pub open spec fn wf(&self) -> bool {
        self.sdf_spec() matches Some(sdf) ==> sdf.is_valid()
    }

    /// Whether an entry can be made of the glyph: where the font has a
    /// distance field, the padded glyph must fit a bitmap.
    pub open spec fn can_hold(&self, glyph: RasterGlyph) -> bool {
        self.sdf_spec() matches Some(sdf) ==> glyph.fits(sdf)
    }

    /// Whether two entries are of one font: they agree in all but the cache.
    pub open spec fn same_font(&self, other: FontData) -> bool {
        &&& self.font_spec() == other.font_spec()
        &&& self.scale_spec() == other.scale_spec()
        &&& self.sdf_spec() == other.sdf_spec()
    }

    /// A font without a distance field, and with an empty cache.
    pub fn new(font: FontArc, scale: PxScale) -> (data: Self)
        ensures
            data.font_spec() == font,
            data.scale_spec() == scale,
            data.sdf_spec() is None,
            data.glyphs() =~= Map::empty(),
            data.wf(),
    {
        Self { font, scale, sdf_settings: None, char_cache: cache_new() }
    }

    /// A font with a distance field, and with an empty cache.
    pub fn new_with_sdf(font: FontArc, scale: PxScale, sdf_settings: SdfSettings) -> (data: Self)
        requires
            sdf_settings.is_valid(),
        ensures
            data.font_spec() == font,
            data.scale_spec() == scale,
            data.sdf_spec() == Some(sdf_settings),
            data.glyphs() =~= Map::empty(),
            data.wf(),
    {
        Self { font, scale, sdf_settings: Some(sdf_settings), char_cache: cache_new() }
    }

    /// The source of the glyphs.
    pub fn font(&self) -> (font: &FontArc)
        ensures
            *font == self.font_spec(),
    {
        &self.font
    }

    /// The scale at which the glyphs are rasterised.
    pub fn scale(&self) -> (scale: &PxScale)
        ensures
            *scale == self.scale_spec(),
    {
        &self.scale
    }

    /// The settings of the distance field, if the font has one.
    pub fn sdf_settings(&self) -> (sdf: Option<SdfSettings>)
        ensures
            sdf == self.sdf_spec(),
    {
        self.sdf_settings
    }

    /// Whether the character has a cache entry.
    pub fn has_character(&self, c: char) -> (cached: bool)
        ensures
            cached == self.glyphs().contains_key(c),
    {
        cache_contains(&self.char_cache, c)
    }

    /// The cache entry of a character, which must have been committed
    /// before.
    pub fn character(&self, c: char) -> (entry: Result<&Character, FontError>)
        ensures
            entry is Ok <==> self.glyphs().contains_key(c),
            entry matches Ok(character) ==> *character == self.glyphs()[c],
            entry matches Err(error) ==> error == FontError::UnknownGlyph,
    {
        match cache_get(&self.char_cache, c) {
            Some(character) => Ok(character),
            None => Err(FontError::UnknownGlyph),
        }
    }

    /// The characters of `chars` that the cache lacks, each once, in the
    /// order in which they first occur.
    pub fn new_characters(&self, chars: &Vec<char>) -> (missing: Vec<char>)
        ensures
            missing@ == new_characters_spec(self.glyphs(), chars@),
    {
        new_characters(&self.char_cache, chars)
    }

    /// Whether an entry can be made of the glyph.
    pub fn can_create(&self, glyph: &RasterGlyph) -> (fits: bool)
        requires
            self.wf(),
        ensures
            fits == self.can_hold(*glyph),
    {
        match (&self.sdf_settings, &glyph.outline) {
            (Some(sdf), Some(outline)) => canvas_fits(outline.coverage.dimensions(), sdf),
            _ => true,
        }
    }

    /// The cache entry for a rasterised glyph: its coverage as it is, or its
    /// signed distance field where the font has one.
    pub fn create_character(&self, glyph: RasterGlyph) -> (character: Character)
        requires
            self.can_hold(glyph),
        ensures
            character.advance_bits == glyph.advance_bits,
            character.texture is None <==> glyph.outline is None,
            character.texture matches Some(texture) ==> match self.sdf_spec() {
                None => texture.pixels == glyph.outline.unwrap().coverage && texture.padding == 0,
                Some(sdf) => scene_of(
                    glyph.outline.unwrap().coverage,
                    glyph.outline.unwrap().size(),
                    sdf,
                ).is_field(texture.pixels) && texture.padding == sdf.padding_spec(),
            },
            character.texture matches Some(texture) ==> texture.origin_bits
                == glyph.outline.unwrap().origin_bits && texture.size.0
                == glyph.outline.unwrap().size().0 + 2 * texture.padding && texture.size.1
                == glyph.outline.unwrap().size().1 + 2 * texture.padding && texture.size.0
                == texture.pixels.width_spec() && texture.size.1 == texture.pixels.height_spec(),
    {
        match &self.sdf_settings {
            None => create_char_texture(glyph),
            Some(sdf) => create_char_texture_sdf(glyph, sdf),
        }
    }

    /// Commits a batch of entries as a whole. An item whose character
    /// already has an entry is dropped: no entry is ever overwritten.
    pub fn commit(&mut self, char_data: Vec<(char, Character)>)
        ensures
            final(self).glyphs() == committed(old(self).glyphs(), char_data@),
            final(self).same_font(*old(self)),
    {
        commit(&mut self.char_cache, char_data);
    }
}

/// The fonts that have been loaded, each under its handle.
#[derive(Debug)]
pub struct FontMap {
    pub(crate) fonts: Vec<FontData>,
}

impl Default for FontMap {
    /// A registry without fonts.
    fn default() -> (map: Self)
        ensures
            map.fonts_spec() =~= Seq::empty(),
            map.wf(),
    {
        FontMap::new()
    }
}

impl FontMap {
    /// The fonts in the order in which they were loaded.
    pub closed spec fn fonts_spec(&self) -> Seq<FontData> {
        self.fonts@
    }

    /// Whether the handle was issued by this registry.
    pub open spec fn knows(&self, font: FontId) -> bool {
        0 <= font.index_spec() < self.fonts_spec().len()
    }

    /// The font under a handle.
    pub open spec fn font_spec(&self, font: FontId) -> FontData {
        self.fonts_spec()[font.index_spec()]
    }

    /// Every font has valid settings.
    pub open spec fn wf(&self) -> bool {
        forall|i: int| 0 <= i < self.fonts_spec().len() ==> (#[trigger] self.fonts_spec()[i]).wf()
    }

    /// A registry without fonts.
    pub fn new() -> (map: Self)
        ensures
            map.fonts_spec() =~= Seq::empty(),
            map.wf(),
    {
        Self { fonts: Vec::new() }
    }

    /// Loads a font into the registry.
    pub fn load(&mut self, font: FontArc, scale: PxScale) -> (id: FontId)
        requires
            old(self).wf(),
        ensures
            final(self).wf(),
            id.index_spec() == old(self).fonts_spec().len(),
            final(self).fonts_spec().len() == old(self).fonts_spec().len() + 1,
            final(self).fonts_spec().drop_last() == old(self).fonts_spec(),
            final(self).font_spec(id).font_spec() == font,
            final(self).font_spec(id).scale_spec() == scale,
            final(self).font_spec(id).sdf_spec() is None,
            final(self).font_spec(id).glyphs() =~= Map::empty(),
    {
        let id = self.fonts.len();
        self.fonts.push(FontData::new(font, scale));
        assert(self.fonts@.drop_last() == old(self).fonts@);
        assert forall|i: int| 0 <= i < self.fonts@.len() implies (#[trigger] self.fonts@[i]).wf() by {
            if i < id {
                assert(self.fonts@[i] == old(self).fonts_spec()[i]);
            }
        }
        FontId(id)
    }

    /// Loads a font into the registry with a distance field. Settings whose
    /// radius is not greater than zero, or is not a number, are rejected, and
    /// the registry stays as it is.
    pub fn load_with_sdf(&mut self, font: FontArc, scale: PxScale, sdf_settings: SdfSettings) -> (id:
        Result<FontId, FontError>)
        requires
            old(self).wf(),
        ensures
            final(self).wf(),
            id is Ok <==> sdf_settings.is_valid(),
            id matches Err(error) ==> error == FontError::InvalidSdfConfig && final(self).fonts_spec()
                == old(self).fonts_spec(),
            id matches Ok(id) ==> id.index_spec() == old(self).fonts_spec().len(),
            id is Ok ==> final(self).fonts_spec().len() == old(self).fonts_spec().len() + 1,
            id is Ok ==> final(self).fonts_spec().drop_last() == old(self).fonts_spec(),
            id matches Ok(id) ==> final(self).font_spec(id).font_spec() == font,
            id matches Ok(id) ==> final(self).font_spec(id).scale_spec() == scale,
            id matches Ok(id) ==> final(self).font_spec(id).sdf_spec() == Some(sdf_settings),
            id matches Ok(id) ==> final(self).font_spec(id).glyphs() =~= Map::empty(),
    {
        if !sdf_settings.check() {
            return Err(FontError::InvalidSdfConfig);
        }
        let id = self.fonts.len();
        self.fonts.push(FontData::new_with_sdf(font, scale, sdf_settings));
        assert(self.fonts@.drop_last() == old(self).fonts@);
        assert forall|i: int| 0 <= i < self.fonts@.len() implies (#[trigger] self.fonts@[i]).wf() by {
            if i < id {
                assert(self.fonts@[i] == old(self).fonts_spec()[i]);
            }
        }
        Ok(FontId(id))
    }

    /// The font under a handle.
    pub fn get(&self, font: FontId) -> (data: Result<&FontData, FontError>)
        ensures
            data is Ok <==> self.knows(font),
            data matches Ok(found) ==> *found == self.font_spec(font),
            data matches Err(error) ==> error == FontError::UnknownFont,
    {
        if font.0 < self.fonts.len() {
            Ok(&self.fonts[font.0])
        } else {
            Err(FontError::UnknownFont)
        }
    }

    /// The font under a handle, to let its cache grow.
    pub fn get_mut(&mut self, font: FontId) -> (data: Result<&mut FontData, FontError>)
        ensures
            data is Ok <==> old(self).knows(font),
            data matches Ok(found) ==> *found == old(self).font_spec(font) && final(self).fonts_spec()
                == old(self).fonts_spec().update(font.index_spec(), *final(found)),
            data matches Err(error) ==> error == FontError::UnknownFont && final(self).fonts_spec()
                == old(self).fonts_spec(),
    {
        if font.0 < self.fonts.len() {
            Ok(&mut self.fonts[font.0])
        } else {
            Err(FontError::UnknownFont)
        }
    }

    /// Commits a batch of cache entries to a font as a whole. An item
    /// whose character already has an entry is dropped; the other fonts stay
    /// as they are.
    pub fn commit(&mut self, font: FontId, char_data: Vec<(char, Character)>) -> (done: Result<
        (),
        FontError,
    >)
        requires
            old(self).wf(),
        ensures
            final(self).wf(),
            done is Ok <==> old(self).knows(font),
            done matches Err(error) ==> error == FontError::UnknownFont && final(self).fonts_spec()
                == old(self).fonts_spec(),
            done is Ok ==> final(self).fonts_spec().len() == old(self).fonts_spec().len(),
            done is Ok ==> final(self).font_spec(font).glyphs() == committed(
                old(self).font_spec(font).glyphs(),
                char_data@,
            ),
            done is Ok ==> final(self).font_spec(font).same_font(old(self).font_spec(font)),
            done is Ok ==> forall|other: FontId|
                old(self).knows(other) && other != font ==> #[trigger] final(self).font_spec(other)
                    == old(self).font_spec(other),
    {
        match self.get_mut(font) {
            Ok(data) => {
                data.commit(char_data);
            },
            Err(error) => {
                return Err(error);
            },
        }
        assert forall|i: int| 0 <= i < self.fonts_spec().len() implies (
        #[trigger] self.fonts_spec()[i]).wf() by {
            if i != font.index_spec() {
                assert(self.fonts_spec()[i] == old(self).fonts_spec()[i]);
            }
        }
        Ok(())
    }

    /// Returns whether a given font was loaded with a distance field.
    pub fn font_uses_sdf(&self, font: FontId) -> (uses: Result<bool, FontError>)
        ensures
            uses is Ok <==> self.knows(font),
            uses matches Ok(sdf) ==> sdf == (self.font_spec(font).sdf_spec() is Some),
            uses matches Err(error) ==> error == FontError::UnknownFont,
    {
        match self.get(font) {
            Ok(data) => Ok(data.sdf_settings().is_some()),
            Err(error) => Err(error),
        }
    }
}

} // verus!
