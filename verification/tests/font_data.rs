use byte_engine::font::{font_data_usable, glyph_index, glyph_index_from_mappings, try_glyph_index};

fn push_u16(bytes: &mut Vec<u8>, value: u16) {
    bytes.extend_from_slice(&value.to_be_bytes());
}

fn push_u32(bytes: &mut Vec<u8>, value: u32) {
    bytes.extend_from_slice(&value.to_be_bytes());
}

/// A format 6 character map subtable mapping consecutive characters from `first` to `glyphs`.
fn trimmed_subtable(first: char, glyphs: &[u16]) -> Vec<u8> {
    let mut table = Vec::new();
    push_u16(&mut table, 6);
    push_u16(&mut table, (10 + 2 * glyphs.len()) as u16);
    push_u16(&mut table, 0);
    push_u16(&mut table, first as u16);
    push_u16(&mut table, glyphs.len() as u16);
    for &glyph in glyphs {
        push_u16(&mut table, glyph);
    }
    table
}

/// The smallest TrueType font the parser accepts, with a character map of two subtables: the first maps `a` to 1 and
/// `b` to 2, the second maps `a` to the missing glyph and `b` to 3.
fn tiny_font() -> Vec<u8> {
    let first = trimmed_subtable('a', &[1, 2]);
    let second = trimmed_subtable('a', &[0, 3]);
    let mut cmap = Vec::new();
    push_u16(&mut cmap, 0);
    push_u16(&mut cmap, 2);
    push_u16(&mut cmap, 0);
    push_u16(&mut cmap, 3);
    push_u32(&mut cmap, 20);
    push_u16(&mut cmap, 3);
    push_u16(&mut cmap, 1);
    push_u32(&mut cmap, (20 + first.len()) as u32);
    cmap.extend_from_slice(&first);
    cmap.extend_from_slice(&second);

    let mut head = vec![0u8; 54];
    head[18..20].copy_from_slice(&1000u16.to_be_bytes());
    let mut hhea = vec![0u8; 36];
    hhea[34..36].copy_from_slice(&1u16.to_be_bytes());
    let mut maxp = Vec::new();
    push_u32(&mut maxp, 0x0000_5000);
    push_u16(&mut maxp, 4);

    let tables: [(&[u8; 4], Vec<u8>); 4] = [(b"cmap", cmap), (b"head", head), (b"hhea", hhea), (b"maxp", maxp)];
    let mut font = Vec::new();
    push_u32(&mut font, 0x0001_0000);
    push_u16(&mut font, tables.len() as u16);
    push_u16(&mut font, 0);
    push_u16(&mut font, 0);
    push_u16(&mut font, 0);
    let mut offset = 12 + 16 * tables.len();
    for (tag, data) in &tables {
        font.extend_from_slice(*tag);
        push_u32(&mut font, 0);
        push_u32(&mut font, offset as u32);
        push_u32(&mut font, data.len() as u32);
        offset += data.len();
    }
    for (_, data) in &tables {
        font.extend_from_slice(data);
    }
    font
}

#[test]
fn a_font_that_parses_is_usable_and_anything_else_is_skipped() {
    assert!(font_data_usable(&tiny_font()));
    assert!(!font_data_usable(&[]));
    assert!(!font_data_usable(b"not a font at all"));
    let mut truncated = tiny_font();
    truncated.truncate(40);
    assert!(!font_data_usable(&truncated));
}

#[test]
fn characters_map_to_the_last_nonzero_glyph_of_the_character_maps() {
    let font = tiny_font();
    assert_eq!(glyph_index(&font, 'a'), 1);
    assert_eq!(glyph_index(&font, 'b'), 3);
    assert_eq!(glyph_index(&font, 'z'), 0);
    assert_eq!(try_glyph_index(&font, 'b'), Some(3));
    assert_eq!(try_glyph_index(b"junk", 'b'), None);
}

#[test]
fn the_last_mapping_to_a_real_glyph_wins() {
    assert_eq!(glyph_index_from_mappings(&[]), 0);
    assert_eq!(glyph_index_from_mappings(&[Some(4), None, Some(0)]), 4);
    assert_eq!(glyph_index_from_mappings(&[Some(4), Some(9), None]), 9);
    assert_eq!(glyph_index_from_mappings(&[None, Some(0)]), 0);
}
