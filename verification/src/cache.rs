//! The glyph cache of a font: one entry per character, written once and never
//! changed.
//!
//! A batch of text is served in three steps. The cache names the characters
//! it lacks, each once. Their glyphs are rasterised elsewhere, and each is
//! turned into an entry here, with a distance field where the font asks for
//! one. The entries are then committed together.
//!
//! The entries live in an `AHashMap` of the `ahash` crate, reached through
//! wrappers; what the map holds is the uninterpreted `cache_entries`.
use crate::bitmap::Bitmap;
use crate::sdf::canvas_fits_spec;
use crate::sdf::create_sdf_texture;
use crate::field::scene_of;
use crate::settings::SdfSettings;
use ahash::AHashMap;
use itertools::Itertools;
use vstd::prelude::*;

verus! {

/// The `AHashMap` of the `ahash` crate, as an opaque type.
#[verifier::external_type_specification]
#[verifier::external_body]
#[verifier::reject_recursive_types(K)]
#[verifier::reject_recursive_types(V)]
#[verifier::reject_recursive_types(S)]
pub struct ExAHashMap<K, V, S>(AHashMap<K, V, S>);

/// What the rasteriser found for a glyph with an outline.
#[derive(Debug)]
pub struct RasterOutline {
    /// The top-left corner of the pixel bounds of the outline, relative to
    /// the pen: the bit patterns of two single-precision numbers.
    pub origin_bits: (u32, u32),
    /// The coverage of every pixel within the bounds.
    pub coverage: Bitmap,
}

/// What the rasteriser found for a character.
#[derive(Debug)]
pub struct RasterGlyph {
    /// The horizontal advance, as the bit pattern of a single-precision
    /// number.
    pub advance_bits: u32,
    /// The outline, unless the glyph has none (whitespace, say).
    pub outline: Option<RasterOutline>,
}

/// The texture of a glyph.
#[derive(Debug)]
pub struct CharTexture {
    /// The pixels: coverage, or a signed distance field.
    pub pixels: Bitmap,
    /// The top-left corner of the pixel bounds of the outline, relative to
    /// the pen: the bit patterns of two single-precision numbers.
    pub origin_bits: (u32, u32),
    /// By how many pixels the texture reaches beyond the bounds of the
    /// outline on every side. The quad is placed at the origin less the
    /// padding.
    pub padding: u32,
    /// The width and height of the texture.
    pub size: (u32, u32),
}

/// The cache entry of a character.
#[derive(Debug)]
pub struct Character {
    /// The texture for the glyph, or `None` where the glyph has no outline,
    /// as for whitespace and characters that the font does not know.
    pub texture: Option<CharTexture>,
    /// The amount of space to leave after this character, as the bit pattern
    /// of a single-precision number.
    pub advance_bits: u32,
}

/// The entries of one font, by character.
pub type CharacterCache = AHashMap<char, Character>;

/// The entry of each character that a cache holds.
pub uninterp spec fn cache_entries(cache: CharacterCache) -> Map<char, Character>;

/// The characters of `chars` that have no entry, in their order.
pub open spec fn uncached(entries: Map<char, Character>, chars: Seq<char>) -> Seq<char>
    decreases chars.len(),
{
    if chars.len() == 0 {
        Seq::empty()
    } else if entries.contains_key(chars.last()) {
        uncached(entries, chars.drop_last())
    } else {
        uncached(entries, chars.drop_last()).push(chars.last())
    }
}

/// The characters of `chars`, each once, in the order in which they first
/// occur.
pub open spec fn first_occurrences(chars: Seq<char>) -> Seq<char>
    decreases chars.len(),
{
    if chars.len() == 0 {
        Seq::empty()
    } else if first_occurrences(chars.drop_last()).contains(chars.last()) {
        first_occurrences(chars.drop_last())
    } else {
        first_occurrences(chars.drop_last()).push(chars.last())
    }
}

/// The characters for which entries have to be computed to serve `chars`:
/// those without an entry, each once.
pub open spec fn new_characters_spec(entries: Map<char, Character>, chars: Seq<char>) -> Seq<char> {
    first_occurrences(uncached(entries, chars))
}

/// The items of `char_data` whose character has no entry, in their order.
pub open spec fn fresh(entries: Map<char, Character>, char_data: Seq<(char, Character)>) -> Seq<
    (char, Character),
>
    decreases char_data.len(),
{
    if char_data.len() == 0 {
        Seq::empty()
    } else if entries.contains_key(char_data.last().0) {
        fresh(entries, char_data.drop_last())
    } else {
        fresh(entries, char_data.drop_last()).push(char_data.last())
    }
}

/// The entries after each item of `char_data` has been inserted in turn: where
/// a character occurs twice, its last item stays.
pub open spec fn extended(entries: Map<char, Character>, char_data: Seq<(char, Character)>) -> Map<
    char,
    Character,
>
    decreases char_data.len(),
{
    if char_data.len() == 0 {
        entries
    } else {
        extended(entries, char_data.drop_last()).insert(char_data.last().0, char_data.last().1)
    }
}

/// The entries after a batch has been committed: the items whose character
/// had no entry are inserted, the others dropped.
pub open spec fn committed(entries: Map<char, Character>, char_data: Seq<(char, Character)>) -> Map<
    char,
    Character,
> {
    extended(entries, fresh(entries, char_data))
}

/// `AHashMap::default`: a cache without entries.
#[verifier::external_body]
pub(crate) fn cache_new() -> (cache: CharacterCache)
    ensures
        cache_entries(cache) =~= Map::empty(),
{
    AHashMap::default()
}

/// `HashMap::contains_key`: whether the character has an entry.
#[verifier::external_body]
pub(crate) fn cache_contains(cache: &CharacterCache, c: char) -> (held: bool)
    ensures
        held == cache_entries(*cache).contains_key(c),
{
    cache.contains_key(&c)
}

/// `HashMap::get`: the entry of the character, if it has one.
#[verifier::external_body]
pub(crate) fn cache_get(cache: &CharacterCache, c: char) -> (entry: Option<&Character>)
    ensures
        entry is Some <==> cache_entries(*cache).contains_key(c),
        entry matches Some(character) ==> *character == cache_entries(*cache)[c],
{
    cache.get(&c)
}

/// `Extend::extend` on an `AHashMap`, which is that of the standard
/// map: every item is inserted in turn, and an item replaces the entry that
/// its character had.
#[verifier::external_body]
pub(crate) fn cache_extend(cache: &mut CharacterCache, char_data: Vec<(char, Character)>)
    ensures
        cache_entries(*final(cache)) == extended(cache_entries(*old(cache)), char_data@),
{
    cache.extend(char_data);
}

/// `Itertools::unique`, collected by `Itertools::collect_vec`: an element
/// that has occurred before is left out, and the others keep their order.
#[verifier::external_body]
pub(crate) fn unique_chars(chars: Vec<char>) -> (unique: Vec<char>)
    ensures
        unique@ == first_occurrences(chars@),
{
    chars.into_iter().unique().collect_vec()
}

/// The characters of `chars` that the cache lacks, each once, in the order
/// in which they first occur.
pub fn new_characters(cache: &CharacterCache, chars: &Vec<char>) -> (missing: Vec<char>)
    ensures
        missing@ == new_characters_spec(cache_entries(*cache), chars@),
{
    let mut lacking: Vec<char> = Vec::new();
    for i in 0..chars.len()
        invariant
            lacking@ == uncached(cache_entries(*cache), chars@.take(i as int)),
    {
        assert(chars@.take(i + 1).drop_last() == chars@.take(i as int));
        if !cache_contains(cache, chars[i]) {
            lacking.push(chars[i]);
        }
    }
    assert(chars@.take(chars.len() as int) == chars@);
    unique_chars(lacking)
}

/// Commits a batch of entries as a whole. An item whose character already
/// has an entry is dropped: no entry is ever overwritten.
pub fn commit(cache: &mut CharacterCache, char_data: Vec<(char, Character)>)
    ensures
        cache_entries(*final(cache)) == committed(cache_entries(*old(cache)), char_data@),
{
    let ghost all = char_data@;
    let mut batch: Vec<(char, Character)> = Vec::new();
    for item in items: char_data
        invariant
            items.seq() == all,
            batch@ == fresh(cache_entries(*cache), all.take(items.index() as int)),
            cache_entries(*cache) == cache_entries(*old(cache)),
    {
        assert(all.take(items.index() + 1).drop_last() == all.take(items.index() as int));
        if !cache_contains(cache, item.0) {
            batch.push(item);
        }
    }
    assert(all.take(all.len() as int) == all);
    cache_extend(cache, batch);
}

impl RasterOutline {
    /// The width and height of the coverage bitmap.
    pub open spec fn size(&self) -> (u32, u32) {
        (self.coverage.width_spec() as u32, self.coverage.height_spec() as u32)
    }
}

impl RasterGlyph {
    /// Whether a distance field can be built for the outline, if there is
    /// one.
    pub open spec fn fits(&self, sdf: SdfSettings) -> bool {
        self.outline matches Some(outline) ==> canvas_fits_spec(outline.size(), sdf)
    }
}

/// The entry of a character in a font without a distance field: the coverage
/// of the glyph as it is, without padding.
pub fn create_char_texture(glyph: RasterGlyph) -> (character: Character)
    ensures
        character.advance_bits == glyph.advance_bits,
        character.texture is None <==> glyph.outline is None,
        character.texture matches Some(texture) ==> texture.pixels == glyph.outline.unwrap().coverage
            && texture.origin_bits == glyph.outline.unwrap().origin_bits && texture.padding == 0
            && texture.size.0 == texture.pixels.width_spec() && texture.size.1
            == texture.pixels.height_spec(),
{
    let texture = match glyph.outline {
        None => None,
        Some(outline) => {
            let size = outline.coverage.dimensions();
            Some(
                CharTexture {
                    pixels: outline.coverage,
                    origin_bits: outline.origin_bits,
                    padding: 0,
                    size,
                },
            )
        },
    };
    Character { texture, advance_bits: glyph.advance_bits }
}

/// The entry of a character in a font with a distance field: the signed
/// distance field of the coverage of the glyph, padded by the radius rounded
/// up.
pub fn create_char_texture_sdf(glyph: RasterGlyph, sdf: &SdfSettings) -> (character: Character)
    requires
        glyph.fits(*sdf),
    ensures
        character.advance_bits == glyph.advance_bits,
        character.texture is None <==> glyph.outline is None,
        character.texture matches Some(texture) ==> scene_of(
            glyph.outline.unwrap().coverage,
            glyph.outline.unwrap().size(),
            *sdf,
        ).is_field(texture.pixels),
        character.texture matches Some(texture) ==> texture.origin_bits
            == glyph.outline.unwrap().origin_bits && texture.padding == sdf.padding_spec()
            && texture.size.0 == glyph.outline.unwrap().size().0 + 2 * sdf.padding_spec()
            && texture.size.1 == glyph.outline.unwrap().size().1 + 2 * sdf.padding_spec()
            && texture.size.0 == texture.pixels.width_spec() && texture.size.1
            == texture.pixels.height_spec(),
{
    let texture = match glyph.outline {
        None => None,
        Some(outline) => {
            let dimensions = outline.coverage.dimensions();
            let (pixels, padding) = create_sdf_texture(&outline.coverage, dimensions, sdf);
            let size = pixels.dimensions();
            Some(CharTexture { pixels, origin_bits: outline.origin_bits, padding, size })
        },
    };
    Character { texture, advance_bits: glyph.advance_bits }
}

/// Whether one of the items is for the character `c`.
pub open spec fn has_item(char_data: Seq<(char, Character)>, c: char) -> bool {
    exists|i: int| 0 <= i < char_data.len() && (#[trigger] char_data[i]).0 == c
}

/// The characters without an entry are those of `chars` that the entries
/// lack.
pub proof fn lemma_uncached(entries: Map<char, Character>, chars: Seq<char>, c: char)
    ensures
        uncached(entries, chars).contains(c) <==> chars.contains(c) && !entries.contains_key(c),
    decreases chars.len(),
{
    if chars.len() > 0 {
        let init = chars.drop_last();
        lemma_uncached(entries, init, c);
        if chars.contains(c) {
            let i = choose|i: int| 0 <= i < chars.len() && chars[i] == c;
            if i < init.len() {
                assert(init[i] == c);
            }
        }
        if init.contains(c) {
            let i = choose|i: int| 0 <= i < init.len() && init[i] == c;
            assert(chars[i] == c);
        }
        assert(chars[chars.len() - 1] == chars.last());
        let rest = uncached(entries, init);
        if !entries.contains_key(chars.last()) {
            let all = rest.push(chars.last());
            if all.contains(c) {
                let i = choose|i: int| 0 <= i < all.len() && all[i] == c;
                if i < rest.len() {
                    assert(rest[i] == c);
                }
            }
            if rest.contains(c) {
                let i = choose|i: int| 0 <= i < rest.len() && rest[i] == c;
                assert(all[i] == c);
            }
            assert(all[all.len() - 1] == chars.last());
        }
    }
}

/// The first occurrences hold the same characters as `chars`, and none
/// twice.
pub proof fn lemma_first_occurrences(chars: Seq<char>)
    ensures
        forall|c: char| #[trigger] first_occurrences(chars).contains(c) <==> chars.contains(c),
        first_occurrences(chars).no_duplicates(),
        first_occurrences(chars).len() <= chars.len(),
    decreases chars.len(),
{
    if chars.len() > 0 {
        let init = chars.drop_last();
        lemma_first_occurrences(init);
        let rest = first_occurrences(init);
        let all = first_occurrences(chars);
        assert(chars[chars.len() - 1] == chars.last());
        assert forall|c: char| #[trigger] all.contains(c) <==> chars.contains(c) by {
            assert(rest.contains(c) <==> init.contains(c));
            if chars.contains(c) {
                let i = choose|i: int| 0 <= i < chars.len() && chars[i] == c;
                if i < init.len() {
                    assert(init[i] == c);
                }
            }
            if init.contains(c) {
                let i = choose|i: int| 0 <= i < init.len() && init[i] == c;
                assert(chars[i] == c);
            }
            if !rest.contains(chars.last()) {
                if all.contains(c) {
                    let i = choose|i: int| 0 <= i < all.len() && all[i] == c;
                    if i < rest.len() {
                        assert(rest[i] == c);
                    }
                }
                if rest.contains(c) {
                    let i = choose|i: int| 0 <= i < rest.len() && rest[i] == c;
                    assert(all[i] == c);
                }
                assert(all[all.len() - 1] == chars.last());
            }
        }
        if !rest.contains(chars.last()) {
            assert forall|i: int, j: int| 0 <= i < all.len() && 0 <= j < all.len() && i != j implies all[i]
                != all[j] by {
                if i < rest.len() && j < rest.len() {
                    assert(rest[i] != rest[j]);
                } else if i < rest.len() {
                    assert(rest.contains(rest[i]));
                } else {
                    assert(rest.contains(rest[j]));
                }
            }
        }
    }
}

/// Inserting items adds their characters to the entries, and leaves the
/// entry of every other character as it was.
pub proof fn lemma_extended(entries: Map<char, Character>, char_data: Seq<(char, Character)>, c: char)
    ensures
        extended(entries, char_data).contains_key(c) <==> entries.contains_key(c) || has_item(
            char_data,
            c,
        ),
        !has_item(char_data, c) ==> extended(entries, char_data)[c] == entries[c],
    decreases char_data.len(),
{
    if char_data.len() > 0 {
        let init = char_data.drop_last();
        lemma_extended(entries, init, c);
        if has_item(init, c) {
            let i = choose|i: int| 0 <= i < init.len() && (#[trigger] init[i]).0 == c;
            assert(char_data[i].0 == c);
        }
        if has_item(char_data, c) {
            let i = choose|i: int| 0 <= i < char_data.len() && (#[trigger] char_data[i]).0 == c;
            if i < init.len() {
                assert(init[i].0 == c);
            }
        }
        assert(char_data[char_data.len() - 1] == char_data.last());
    }
}

/// The fresh items are for the characters of the batch that the entries
/// lack.
pub proof fn lemma_fresh(entries: Map<char, Character>, char_data: Seq<(char, Character)>, c: char)
    ensures
        has_item(fresh(entries, char_data), c) <==> has_item(char_data, c) && !entries.contains_key(
            c,
        ),
    decreases char_data.len(),
{
    if char_data.len() > 0 {
        let init = char_data.drop_last();
        lemma_fresh(entries, init, c);
        let rest = fresh(entries, init);
        if has_item(init, c) {
            let i = choose|i: int| 0 <= i < init.len() && (#[trigger] init[i]).0 == c;
            assert(char_data[i].0 == c);
        }
        if has_item(char_data, c) {
            let i = choose|i: int| 0 <= i < char_data.len() && (#[trigger] char_data[i]).0 == c;
            if i < init.len() {
                assert(init[i].0 == c);
            }
        }
        assert(char_data[char_data.len() - 1] == char_data.last());
        if !entries.contains_key(char_data.last().0) {
            let all = rest.push(char_data.last());
            if has_item(rest, c) {
                let i = choose|i: int| 0 <= i < rest.len() && (#[trigger] rest[i]).0 == c;
                assert(all[i].0 == c);
            }
            if has_item(all, c) {
                let i = choose|i: int| 0 <= i < all.len() && (#[trigger] all[i]).0 == c;
                if i < rest.len() {
                    assert(rest[i].0 == c);
                }
            }
            assert(all[all.len() - 1] == char_data.last());
        }
    }
}

/// A commit never overwrites: every character that had an entry keeps that
/// very entry. And it serves the batch: afterwards exactly the characters
/// that had an entry or have an item in the batch have one.
pub proof fn lemma_commit_never_overwrites(
    entries: Map<char, Character>,
    char_data: Seq<(char, Character)>,
)
    ensures
        forall|c: char| #[trigger]
            entries.contains_key(c) ==> committed(entries, char_data).contains_key(c) && committed(
                entries,
                char_data,
            )[c] == entries[c],
        forall|c: char| #[trigger]
            committed(entries, char_data).contains_key(c) <==> entries.contains_key(c) || has_item(
                char_data,
                c,
            ),
{
    assert forall|c: char| #[trigger]
        entries.contains_key(c) implies committed(entries, char_data).contains_key(c) && committed(
        entries,
        char_data,
    )[c] == entries[c] by {
        lemma_fresh(entries, char_data, c);
        lemma_extended(entries, fresh(entries, char_data), c);
    }
    assert forall|c: char| #[trigger]
        committed(entries, char_data).contains_key(c) <==> entries.contains_key(c) || has_item(
            char_data,
            c,
        ) by {
        lemma_fresh(entries, char_data, c);
        lemma_extended(entries, fresh(entries, char_data), c);
    }
}

/// The characters to compute are those of `chars` that the entries lack, and
/// none is named twice.
pub proof fn lemma_new_characters(entries: Map<char, Character>, chars: Seq<char>)
    ensures
        forall|c: char| #[trigger]
            new_characters_spec(entries, chars).contains(c) <==> chars.contains(c)
                && !entries.contains_key(c),
        new_characters_spec(entries, chars).no_duplicates(),
        new_characters_spec(entries, chars).len() <= chars.len(),
{
    lemma_first_occurrences(uncached(entries, chars));
    assert forall|c: char| #[trigger]
        new_characters_spec(entries, chars).contains(c) <==> chars.contains(c)
            && !entries.contains_key(c) by {
        lemma_uncached(entries, chars, c);
    }
    lemma_uncached_len(entries, chars);
}

/// No more characters lack an entry than there are characters.
pub proof fn lemma_uncached_len(entries: Map<char, Character>, chars: Seq<char>)
    ensures
        uncached(entries, chars).len() <= chars.len(),
    decreases chars.len(),
{
    if chars.len() > 0 {
        lemma_uncached_len(entries, chars.drop_last());
    }
}

/// Serving the same characters twice is idle the second time. Once a batch
/// with an item for every character to compute has been committed, no
/// character of `chars` is left to compute; and committing that batch, or
/// any other batch for those characters, once more leaves every entry as it
/// is.
pub proof fn lemma_second_serving_is_idle(
    entries: Map<char, Character>,
    chars: Seq<char>,
    char_data: Seq<(char, Character)>,
    again: Seq<(char, Character)>,
)
    requires
        forall|c: char| #[trigger]
            new_characters_spec(entries, chars).contains(c) ==> has_item(char_data, c),
        forall|c: char| #[trigger] has_item(again, c) ==> chars.contains(c),
    ensures
        new_characters_spec(committed(entries, char_data), chars) == Seq::<char>::empty(),
        committed(committed(entries, char_data), again) == committed(entries, char_data),
{
    let after = committed(entries, char_data);
    lemma_new_characters(entries, chars);
    lemma_commit_never_overwrites(entries, char_data);
    lemma_new_characters(after, chars);
    let left = new_characters_spec(after, chars);
    if left.len() > 0 {
        let c = left[0];
        assert(left.contains(c));
        assert(chars.contains(c) && !after.contains_key(c));
        if !entries.contains_key(c) {
            assert(new_characters_spec(entries, chars).contains(c));
        }
    }
    assert(left =~= Seq::<char>::empty());
    let rest = fresh(after, again);
    if rest.len() > 0 {
        let c = rest[0].0;
        assert(has_item(rest, c));
        lemma_fresh(after, again, c);
        assert(chars.contains(c) && !after.contains_key(c));
        assert(left.contains(c));
    }
    assert(rest =~= Seq::<(char, Character)>::empty());
}

} // verus!
