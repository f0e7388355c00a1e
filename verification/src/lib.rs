//! Decoder for version-2 PC Screen Font (PSF) binaries: fixed-size
//! monochrome bitmap fonts whose glyphs are packed one bit per pixel.

mod bits;
mod font;
mod glyph;
mod row;

pub use font::font_wf;
pub use font::glyph_end;
pub use font::glyph_in_bounds;
pub use font::glyph_start;
pub use font::glyphs_fit;
pub use font::le32;
pub use font::lemma_lookup_past_end;
pub use font::magic_ok;
pub use font::spec_charsize;
pub use font::spec_flags;
pub use font::spec_headersize;
pub use font::spec_height;
pub use font::spec_length;
pub use font::spec_width;
pub use font::wrap32;
pub use font::Font;
pub use font::ParseError;

pub use bits::lemma_packed_pixel;
pub use bits::mask;
pub use bits::pack_byte;
pub use bits::packed_bit;
pub use bits::packed_row;
pub use bits::pixel;
pub use bits::row_bytes;
pub use glyph::lemma_rows_back_step;
pub use glyph::lemma_rows_front_step;
pub use glyph::lemma_rows_split;
pub use glyph::rows_of;
pub use glyph::Glyph;
pub use row::lemma_backward_collects_reverse;
pub use row::lemma_packed_row_round_trip;
pub use row::lemma_window_split;
pub use row::window;
pub use row::GlyphRow;
