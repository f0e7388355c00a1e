use psf2::Font;
use psf2::ParseError;

/// A header with the given little-endian fields, followed by `glyphs`.
fn build_font(
    headersize: u32,
    flags: u32,
    length: u32,
    charsize: u32,
    height: u32,
    width: u32,
    glyphs: &[u8],
) -> Vec<u8> {
    let mut buf = vec![0x72u8, 0xb5, 0x4a, 0x86];
    buf.extend_from_slice(&0u32.to_le_bytes());
    buf.extend_from_slice(&headersize.to_le_bytes());
    buf.extend_from_slice(&flags.to_le_bytes());
    buf.extend_from_slice(&length.to_le_bytes());
    buf.extend_from_slice(&charsize.to_le_bytes());
    buf.extend_from_slice(&height.to_le_bytes());
    buf.extend_from_slice(&width.to_le_bytes());
    buf.extend_from_slice(glyphs);
    buf
}

fn parse(buf: &[u8]) -> Font<'_> {
    match Font::new(buf) {
        Ok(font) => font,
        Err(_) => panic!("expected a valid font"),
    }
}

#[test]
fn valid_font_reports_stored_dimensions() {
    let buf = build_font(32, 0, 2, 7, 7, 5, &[0u8; 14]);
    let font = parse(&buf);
    assert_eq!(font.width(), 5);
    assert_eq!(font.height(), 7);
}

#[test]
fn short_buffer_is_unexpected_end() {
    assert!(matches!(Font::new(&[]), Err(ParseError::UnexpectedEnd)));
    let buf = build_font(32, 0, 1, 2, 2, 1, &[0x80, 0x00]);
    assert!(matches!(
        Font::new(&buf[..31]),
        Err(ParseError::UnexpectedEnd)
    ));
    // Too short wins over a wrong magic: the magic is never examined.
    let mut junk = vec![0xffu8; 31];
    junk[0] = 0;
    assert!(matches!(
        Font::new(&junk[..]),
        Err(ParseError::UnexpectedEnd)
    ));
}

#[test]
fn wrong_magic_is_bad_magic() {
    let mut buf = build_font(32, 0, 1, 2, 2, 1, &[0x80, 0x00]);
    buf[1] = 0xb6;
    assert!(matches!(Font::new(&buf[..]), Err(ParseError::BadMagic)));
}

#[test]
fn glyph_table_past_buffer_is_unexpected_end() {
    // length * charsize = 4 bytes of glyphs, but only 2 are present.
    let buf = build_font(32, 0, 2, 2, 2, 1, &[0x80, 0x00]);
    assert!(matches!(Font::new(&buf[..]), Err(ParseError::UnexpectedEnd)));
}

#[test]
fn size_overflow_is_unexpected_end() {
    // charsize * length overflows 32-bit arithmetic.
    let buf = build_font(32, 0, 0x8000_0000, 2, 2, 1, &[0x80, 0x00]);
    assert!(matches!(Font::new(&buf[..]), Err(ParseError::UnexpectedEnd)));
    // headersize + charsize * length overflows 32-bit arithmetic.
    let buf = build_font(0xffff_ffff, 0, 1, 2, 2, 1, &[0x80, 0x00]);
    assert!(matches!(Font::new(&buf[..]), Err(ParseError::UnexpectedEnd)));
}

#[test]
fn lookup_past_length_is_absence() {
    // The buffer ends exactly where the glyph table does.
    let buf = build_font(32, 0, 1, 2, 2, 1, &[0x80, 0x00]);
    let font = parse(&buf);
    assert!(font.get_index(0).is_some());
    assert!(font.get_index(1).is_none());
    assert!(font.get_index(1000).is_none());
    assert!(font.get_ascii(b'A').is_none());
}

#[test]
fn whole_decode_scenario() {
    // Magic, version 0, headersize 32, flags 0, length 1, charsize 2,
    // height 2, width 1, then one glyph: a set pixel above a clear one.
    let buf = build_font(32, 0, 1, 2, 2, 1, &[0b1000_0000, 0b0000_0000]);
    assert_eq!(buf.len(), 34);
    let font = parse(&buf);
    assert_eq!(font.width(), 1);
    assert_eq!(font.height(), 2);

    let mut glyph = font.get_index(0).expect("glyph 0 is present");
    let mut first = glyph.next().expect("first row");
    assert_eq!(first.next(), Some(true));
    assert_eq!(first.next(), None);
    let mut second = glyph.next().expect("second row");
    assert_eq!(second.next(), Some(false));
    assert_eq!(second.next(), None);
    assert!(glyph.next().is_none());

    // Glyph 1 would need bytes 34..36 of a 34-byte buffer.
    assert!(font.get_index(1).is_none());
}

#[test]
fn ascii_lookup_matches_index_lookup() {
    // Two one-byte glyphs; ASCII code 1 addresses the second.
    let buf = build_font(32, 0, 2, 1, 1, 1, &[0x80, 0x00]);
    let font = parse(&buf);
    let by_ascii = font.get_ascii(1).expect("glyph for code 1");
    let by_index = font.get_index(1).expect("glyph at index 1");
    assert_eq!(by_ascii.data(), by_index.data());
    assert_eq!(by_ascii.data(), &[0x00]);
}

#[test]
fn glyphs_start_at_headersize() {
    // Extra reserved header space: glyphs begin at offset 40, not 32.
    let mut glyphs = vec![0u8; 8];
    glyphs.extend_from_slice(&[0xab]);
    let buf = build_font(40, 0, 1, 1, 1, 1, &glyphs);
    let font = parse(&buf);
    let glyph = font.get_index(0).expect("glyph 0 is present");
    assert_eq!(glyph.data(), &[0xab]);
}
