//! Keys of the glyph cache.
use vstd::prelude::*;

verus! {

/// The bit pattern of the font size `1.0`, the smallest size glyphs are rasterized at.
pub const ONE_PIXEL_BITS: u32 = 0x3F80_0000;

/// The bit pattern of positive infinity. Bit patterns of positive sizes order as the sizes do, up to this one.
pub const INFINITY_BITS: u32 = 0x7F80_0000;

/// The `GlyphKey` struct identifies one rasterized glyph: a character at one font size.
///
/// The size is keyed by its bit pattern so a cache lookup never depends on float rounding.
#[derive(Debug, Clone, Copy, PartialEq, Eq, Hash, Structural)]
pub struct GlyphKey {
    pub character: char,
    pub font_size_bits: u32,
}

/// The bit pattern of a font size raised to one pixel: a size below one pixel, a negative size, and a NaN all key as
/// one pixel; any other size keys as itself.
pub open spec fn normalized_size_bits(bits: u32) -> u32 {
    if ONE_PIXEL_BITS <= bits <= INFINITY_BITS {
        bits
    } else {
        ONE_PIXEL_BITS
    }
}

impl GlyphKey {
    /// The key of `character` at the font size whose bit pattern is `font_size_bits`.
    pub fn new(character: char, font_size_bits: u32) -> (r: Self)
        ensures
            r.character == character,
            r.font_size_bits == normalized_size_bits(font_size_bits),
    {
        let bits = if ONE_PIXEL_BITS <= font_size_bits && font_size_bits <= INFINITY_BITS {
            font_size_bits
        } else {
            ONE_PIXEL_BITS
        };
        GlyphKey { character, font_size_bits: bits }
    }
}

/// Every size below one pixel shares the key of one pixel, and distinct sizes of at least one pixel keep distinct
/// keys.
pub proof fn sizes_below_one_pixel_share_a_key(character: char, small: u32, a: u32, b: u32)
    requires
        small < ONE_PIXEL_BITS,
        ONE_PIXEL_BITS <= a <= INFINITY_BITS,
        ONE_PIXEL_BITS <= b <= INFINITY_BITS,
        a != b,
    ensures
        normalized_size_bits(small) == normalized_size_bits(ONE_PIXEL_BITS),
        normalized_size_bits(a) != normalized_size_bits(b),
{
}

/// Whether `ttf_parser::Face::parse` accepts `data` as a font with a face at `index`.
pub uninterp spec fn parses_as_face(data: Seq<u8>, index: u32) -> bool;

/// What the character maps of the font in `data` map `character` to: for each subtable of its `cmap` table that
/// `ttf_parser` reads, in order, the glyph it maps the character to, if any.
pub uninterp spec fn cmap_glyph_mappings(data: Seq<u8>, character: char) -> Seq<Option<u16>>;

/// Calls `ttf_parser::Face::parse` and reports whether it succeeded. The parser only reads `data`, so the answer
/// depends on `data` and `index` alone.
#[verifier::external_body]
fn face_parses(data: &[u8], index: u32) -> (r: bool)
    ensures
        r == parses_as_face(data@, index),
{
    ttf_parser::Face::parse(data, index).is_ok()
}

/// Parses the face at index 0 with `ttf_parser::Face::parse` and returns, for each subtable its `cmap` table
/// yields, what `Subtable::glyph_index` maps `character` to. A font without a `cmap` table maps nothing.
#[verifier::external_body]
fn cmap_mappings(data: &[u8], character: char) -> (r: Vec<Option<u16>>)
    requires
        parses_as_face(data@, 0),
    ensures
        r@ == cmap_glyph_mappings(data@, character),
{
    let face = ttf_parser::Face::parse(data, 0).unwrap();
    match face.tables().cmap {
        Some(table) => table.subtables.into_iter().map(|subtable| subtable.glyph_index(character as u32).map(|glyph| glyph.0)).collect(),
        None => Vec::new(),
    }
}

/// The glyph the last mapping that names a glyph other than the missing glyph `0` gives, or `0` when none does.
pub open spec fn last_nonzero(mappings: Seq<Option<u16>>) -> u16
    decreases mappings.len(),
{
    if mappings.len() == 0 {
        0
    } else {
        match mappings.last() {
            Some(glyph) => if glyph != 0 {
                glyph
            } else {
                last_nonzero(mappings.drop_last())
            },
            None => last_nonzero(mappings.drop_last()),
        }
    }
}

/// Reports whether `data` is a font the UI can use: one whose first face parses. A font file that does not is
/// skipped in favour of the next candidate.
pub fn font_data_usable(data: &[u8]) -> (r: bool)
    ensures
        r == parses_as_face(data@, 0),
{
    face_parses(data, 0)
}

/// Picks the glyph of a character from what each character map maps it to: the last mapping to a glyph other than
/// the missing glyph, as the bitmap rasterizer picks it, or the missing glyph `0`.
pub fn glyph_index_from_mappings(mappings: &[Option<u16>]) -> (r: u16)
    ensures
        r == last_nonzero(mappings@),
{
    let mut i: usize = mappings.len();
    proof {
        assert(mappings@.take(i as int) =~= mappings@);
    }
    while i > 0
        invariant
            i <= mappings@.len(),
            last_nonzero(mappings@) == last_nonzero(mappings@.take(i as int)),
        decreases i,
    {
        let ghost prefix = mappings@.take(i as int);
        proof {
            assert(prefix.drop_last() =~= mappings@.take(i - 1));
            assert(prefix.last() == mappings@[i - 1]);
        }
        match mappings[i - 1] {
            Some(glyph) => {
                if glyph != 0 {
                    return glyph;
                }
            },
            None => {},
        }
        i = i - 1;
    }
    0
}

/// Returns the glyph the font in `data` draws `character` with, or the missing glyph `0`. The font must parse.
pub fn glyph_index(data: &[u8], character: char) -> (r: u16)
    requires
        parses_as_face(data@, 0),
    ensures
        r == last_nonzero(cmap_glyph_mappings(data@, character)),
{
    let mappings = cmap_mappings(data, character);
    glyph_index_from_mappings(mappings.as_slice())
}

/// Returns the glyph the font in `data` draws `character` with, or `None` when `data` is no font the UI can use.
pub fn try_glyph_index(data: &[u8], character: char) -> (r: Option<u16>)
    ensures
        r == if parses_as_face(data@, 0) {
            Some(last_nonzero(cmap_glyph_mappings(data@, character)))
        } else {
            None
        },
{
    if font_data_usable(data) {
        Some(glyph_index(data, character))
    } else {
        None
    }
}

} // verus!
