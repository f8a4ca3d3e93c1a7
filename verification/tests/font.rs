use mcping_api::minecraft::font;
use mcping_api::minecraft::font::GlyphSource;

fn mcf(records: &[(u32, u8, u8, u8, u8, Vec<u16>)]) -> Vec<u8> {
    let mut d = b"MCF2".to_vec();
    d.extend_from_slice(&(records.len() as u32).to_le_bytes());
    for (cp, advance, width, height, ascent, rows) in records {
        d.extend_from_slice(&cp.to_le_bytes());
        d.extend_from_slice(&[*advance, *width, *height, *ascent]);
        for r in rows {
            d.extend_from_slice(&r.to_le_bytes());
        }
    }
    d
}

fn ufb(records: &[(u16, u8, Vec<u8>)]) -> Vec<u8> {
    let mut d = b"UFB1".to_vec();
    d.extend_from_slice(&(records.len() as u32).to_le_bytes());
    for (cp, cell, bitmap) in records {
        d.extend_from_slice(&cp.to_le_bytes());
        d.push(*cell);
        d.extend_from_slice(bitmap);
    }
    d
}

#[test]
fn glyphs_of_the_default_font() {
    let data = mcf(&[
        ('A' as u32, 6, 5, 2, 7, vec![0x8800, 0x0001]),
        (' ' as u32, 4, 0, 0, 0, vec![]),
        (0xD800, 1, 1, 1, 1, vec![0xFFFF]),
        (0x1F600, 9, 9, 1, 8, vec![0x8080]),
    ]);
    let map = font::parse_mcfont(&data);
    assert_eq!(map.len(), 3);
    let a = map[&('A' as u32)];
    assert_eq!((a.advance, a.width, a.height, a.ascent, a.unifont), (6, 5, 2, 7, false));
    assert!(a.pixel(0, 0) && a.pixel(4, 0));
    assert!(!a.pixel(1, 0) && !a.pixel(0, 1) && !a.pixel(15, 1) && !a.pixel(0, 2));
    assert_eq!(map[&0x1F600].advance, 9);
    assert_eq!(map[&(' ' as u32)].advance, 4);
}

#[test]
fn cut_off_fonts_keep_what_was_read() {
    let data = mcf(&[('A' as u32, 6, 5, 1, 7, vec![1]), ('B' as u32, 6, 5, 2, 7, vec![1, 2])]);
    assert_eq!(font::parse_mcfont(&data[..data.len() - 1]).len(), 1);
    assert_eq!(font::parse_mcfont(&data[..data.len() - 6]).len(), 1);
    assert_eq!(font::parse_mcfont(&data[..7]).len(), 0);
    assert_eq!(font::parse_mcfont(b"MCF1\x01\0\0\0").len(), 0);
    let again = mcf(&[('A' as u32, 6, 5, 0, 7, vec![]), ('A' as u32, 9, 5, 0, 7, vec![])]);
    assert_eq!(font::parse_mcfont(&again)[&65].advance, 9);
}

#[test]
fn cells_lose_their_empty_columns() {
    let mut narrow = vec![0u8; 16];
    narrow[3] = 0b0010_0000;
    narrow[4] = 0b0000_1000;
    let mut wide = vec![0u8; 32];
    wide[0] = 0b0100_0000;
    wide[31] = 0b0000_0001;
    let data = ufb(&[
        (0x41, 8, narrow),
        (0x4E00, 16, wide),
        (0x3000, 16, vec![0; 32]),
        (0xDC00, 8, vec![1; 16]),
    ]);
    assert!(font::unifont_is_sound(&data));
    let map = font::parse_unifont(&data);
    assert_eq!(map.len(), 3);
    let a = map[&0x41];
    assert_eq!((a.width, a.advance, a.height, a.ascent, a.unifont), (3, 2, 16, 14, true));
    assert!(a.pixel(0, 3) && a.pixel(2, 4));
    assert!(!a.pixel(1, 3) && !a.pixel(0, 4));
    let w = map[&0x4E00];
    assert_eq!((w.width, w.advance), (15, 8));
    assert!(w.pixel(0, 0) && w.pixel(14, 15));
    let space = map[&0x3000];
    assert_eq!((space.width, space.advance), (0, 8));
}

#[test]
fn unsound_fonts_are_refused() {
    let bad = ufb(&[(0x41, 17, vec![0; 32])]);
    assert!(!font::unifont_is_sound(&bad));
    assert!(font::font(&[], &bad).is_none());
    let cut = &bad[..bad.len() - 1];
    assert!(font::unifont_is_sound(cut));
    assert!(font::font(&[], cut).is_some());
    let tall = mcf(&[('A' as u32, 6, 5, 17, 7, vec![0; 17])]);
    assert!(font::font(&tall, &[]).is_none());
    let replaced = mcf(&[
        ('A' as u32, 6, 5, 17, 7, vec![0; 17]),
        ('A' as u32, 6, 5, 1, 7, vec![0]),
    ]);
    assert!(font::font(&replaced, &[]).is_some());
}

#[test]
fn the_default_font_comes_first() {
    let mut bitmap = vec![0u8; 16];
    bitmap[0] = 0xFF;
    let f = font::font(
        &mcf(&[('A' as u32, 6, 5, 1, 7, vec![0x8000])]),
        &ufb(&[(0x41, 8, bitmap.clone()), (0x42, 8, bitmap)]),
    )
    .unwrap();
    assert!(!f.glyph('A').unwrap().unifont);
    assert!(f.glyph('B').unwrap().unifont);
    assert!(f.glyph('C').is_none());
}
