//! The font itself: a read-only byte buffer whose 32-byte header is
//! validated once, at construction, and whose glyph bitmaps are located on
//! demand by index.

use crate::glyph::Glyph;
use vstd::arithmetic::div_mod::lemma_add_mod_noop;
use vstd::arithmetic::div_mod::lemma_small_mod;
use vstd::arithmetic::mul::lemma_mul_inequality;
use vstd::prelude::*;
use vstd::slice::slice_index_get;
use vstd::slice::slice_subrange;

verus! {

/// Why a buffer is not a valid font.
#[derive(Debug, Copy, Clone, PartialEq, Eq, Structural)]
pub enum ParseError {
    /// Input data ended prematurely.
    UnexpectedEnd,
    /// Missing magic number; probably not font data.
    BadMagic,
}

/// The little-endian 32-bit unsigned value stored at byte offset `off`.
pub open spec fn le32(s: Seq<u8>, off: int) -> u32 {
    (s[off] + s[off + 1] * 0x100 + s[off + 2] * 0x1_0000 + s[off + 3] * 0x100_0000) as u32
}

/// Whether the buffer opens with the fixed four-byte magic constant.
pub open spec fn magic_ok(s: Seq<u8>) -> bool {
    s[0] == 0x72u8 && s[1] == 0xb5u8 && s[2] == 0x4au8 && s[3] == 0x86u8
}

/// Byte offset where glyph bitmaps begin.
pub open spec fn spec_headersize(s: Seq<u8>) -> u32 {
    le32(s, 8)
}

/// Format flags; read but not interpreted here.
pub open spec fn spec_flags(s: Seq<u8>) -> u32 {
    le32(s, 12)
}

/// Number of glyphs in the table.
pub open spec fn spec_length(s: Seq<u8>) -> u32 {
    le32(s, 16)
}

/// Bytes per glyph bitmap.
pub open spec fn spec_charsize(s: Seq<u8>) -> u32 {
    le32(s, 20)
}

/// Rows per glyph.
pub open spec fn spec_height(s: Seq<u8>) -> u32 {
    le32(s, 24)
}

/// Columns per glyph.
pub open spec fn spec_width(s: Seq<u8>) -> u32 {
    le32(s, 28)
}

/// The glyph table, computed with exact integer arithmetic, stays within
/// 32-bit range and ends within the buffer.
pub open spec fn glyphs_fit(s: Seq<u8>) -> bool {
    &&& spec_charsize(s) * spec_length(s) <= u32::MAX
    &&& spec_headersize(s) + spec_charsize(s) * spec_length(s) <= u32::MAX
    &&& spec_headersize(s) + spec_charsize(s) * spec_length(s) <= s.len()
}

/// A well-formed font buffer: long enough to hold the header, opening with
/// the magic constant, and with its whole glyph table in bounds.
pub open spec fn font_wf(s: Seq<u8>) -> bool {
    &&& s.len() >= 32
    &&& magic_ok(s)
    &&& glyphs_fit(s)
}

/// `x` reduced into 32-bit range, as 32-bit unsigned arithmetic would wrap
/// it.
pub open spec fn wrap32(x: int) -> u32 {
    (x % 0x1_0000_0000) as u32
}

/// Where glyph `i`'s bitmap starts: `headersize + i * charsize`, in
/// wrapping 32-bit arithmetic.  For very large `i` this can wrap and alias
/// an unintended in-bounds range; lookup preserves that wrap rather than
/// hardening it into a failure, and the contracts state it exactly.
pub open spec fn glyph_start(s: Seq<u8>, i: u32) -> u32 {
    wrap32(spec_headersize(s) + i * spec_charsize(s))
}

/// Where glyph `i`'s bitmap ends: one `charsize` past its start, in the same
/// wrapping arithmetic.
pub open spec fn glyph_end(s: Seq<u8>, i: u32) -> u32 {
    wrap32(glyph_start(s, i) + spec_charsize(s))
}

/// Whether glyph `i`'s computed byte range is an ordered range lying inside
/// the buffer; lookup yields a glyph exactly when it is.
pub open spec fn glyph_in_bounds(s: Seq<u8>, i: u32) -> bool {
    glyph_start(s, i) <= glyph_end(s, i) && glyph_end(s, i) <= s.len()
}

/// Read the little-endian 32-bit value at byte offset `off`.
fn read_u32_le(data: &[u8], off: usize) -> (r: u32)
    requires
        off + 4 <= data@.len(),
    ensures
        r == le32(data@, off as int),
{
    let n: usize = data.len();
    assert(off + 4 <= n);
    let b0: u8 = *slice_index_get(data, off);
    let b1: u8 = *slice_index_get(data, off + 1);
    let b2: u8 = *slice_index_get(data, off + 2);
    let b3: u8 = *slice_index_get(data, off + 3);
    (b0 as u32) + (b1 as u32) * 0x100 + (b2 as u32) * 0x1_0000 + (b3 as u32) * 0x100_0000
}

/// A well-formed font over a borrowed read-only byte buffer.
///
/// Its view is the whole buffer; the well-formedness established at
/// construction never needs revisiting because nothing mutates the buffer.
#[derive(Clone, Copy)]
pub struct Font<'a> {
    data: &'a [u8],
}

impl View for Font<'_> {
    type V = Seq<u8>;

    open spec fn view(&self) -> Seq<u8> {
        self.bytes()
    }
}

impl<'a> Font<'a> {
    /// The backing buffer.
    pub closed spec fn bytes(&self) -> Seq<u8> {
        self.data@
    }

    /// The invariant construction establishes.
    pub open spec fn wf(&self) -> bool {
        font_wf(self@)
    }

    /// Try to parse `data` as a font.  Succeeds exactly on well-formed
    /// buffers; a buffer too short for the header fails with `UnexpectedEnd`
    /// before the magic is ever examined, a long-enough buffer without the
    /// magic fails with `BadMagic`, and one whose glyph table overflows
    /// 32-bit arithmetic or overruns the buffer fails with `UnexpectedEnd`.
    pub fn new(data: &'a [u8]) -> (r: Result<Font<'a>, ParseError>)
        ensures
            r is Ok <==> font_wf(data@),
            r is Ok ==> r->Ok_0@ == data@ && r->Ok_0.wf(),
            data@.len() < 32 ==> r == Err::<Font<'a>, ParseError>(ParseError::UnexpectedEnd),
            data@.len() >= 32 && !magic_ok(data@) ==> r == Err::<Font<'a>, ParseError>(
                ParseError::BadMagic,
            ),
            data@.len() >= 32 && magic_ok(data@) && !glyphs_fit(data@) ==> r == Err::<
                Font<'a>,
                ParseError,
            >(ParseError::UnexpectedEnd),
    {
        if data.len() < 32 {
            return Err(ParseError::UnexpectedEnd);
        }
        let m0: u8 = *slice_index_get(data, 0);
        let m1: u8 = *slice_index_get(data, 1);
        let m2: u8 = *slice_index_get(data, 2);
        let m3: u8 = *slice_index_get(data, 3);
        if !(m0 == 0x72 && m1 == 0xb5 && m2 == 0x4a && m3 == 0x86) {
            return Err(ParseError::BadMagic);
        }
        let charsize: u32 = read_u32_le(data, 20);
        let length: u32 = read_u32_le(data, 16);
        let headersize: u32 = read_u32_le(data, 8);
        let glyphs_size: u32 = match charsize.checked_mul(length) {
            Some(v) => v,
            None => {
                return Err(ParseError::UnexpectedEnd);
            },
        };
        let glyphs_end: u32 = match headersize.checked_add(glyphs_size) {
            Some(v) => v,
            None => {
                return Err(ParseError::UnexpectedEnd);
            },
        };
        if glyphs_end as usize > data.len() {
            return Err(ParseError::UnexpectedEnd);
        }
        Ok(Font { data })
    }

    /// Byte offset where glyph bitmaps begin.
    fn headersize(&self) -> (r: u32)
        requires
            self@.len() >= 32,
        ensures
            r == spec_headersize(self@),
    {
        read_u32_le(self.data, 8)
    }

    /// Format flags; read but not otherwise interpreted by this decoder.
    #[allow(dead_code)]
    fn flags(&self) -> (r: u32)
        requires
            self@.len() >= 32,
        ensures
            r == spec_flags(self@),
    {
        read_u32_le(self.data, 12)
    }

    /// Number of glyphs in the table.
    fn length(&self) -> (r: u32)
        requires
            self@.len() >= 32,
        ensures
            r == spec_length(self@),
    {
        read_u32_le(self.data, 16)
    }

    /// Bytes per glyph bitmap.
    fn charsize(&self) -> (r: u32)
        requires
            self@.len() >= 32,
        ensures
            r == spec_charsize(self@),
    {
        read_u32_le(self.data, 20)
    }

    /// Number of rows in a glyph: the little-endian value stored at byte
    /// offset 24.
    pub fn height(&self) -> (r: u32)
        requires
            self.wf(),
        ensures
            r == spec_height(self@),
    {
        read_u32_le(self.data, 24)
    }

    /// Number of columns in a glyph: the little-endian value stored at byte
    /// offset 28.
    pub fn width(&self) -> (r: u32)
        requires
            self.wf(),
        ensures
            r == spec_width(self@),
    {
        read_u32_le(self.data, 28)
    }

    /// The rows of the glyph bitmap for ASCII char `c`, if present.
    pub fn get_ascii(&self, c: u8) -> (r: Option<Glyph<'a>>)
        requires
            self.wf(),
        ensures
            r is Some <==> glyph_in_bounds(self@, c as u32),
            r is Some ==> {
                &&& r->0@ == self@.subrange(
                    glyph_start(self@, c as u32) as int,
                    glyph_end(self@, c as u32) as int,
                )
                &&& r->0.pix_width() == spec_width(self@) as nat
            },
    {
        self.get_index(c as u32)
    }

    /// The rows of the glyph bitmap at index `i`, if its computed byte range
    /// lies within the buffer; absence, not an error, otherwise.  An
    /// out-of-range index is a normal outcome, never a crash.
    pub fn get_index(&self, i: u32) -> (r: Option<Glyph<'a>>)
        requires
            self.wf(),
        ensures
            r is Some <==> glyph_in_bounds(self@, i),
            r is Some ==> {
                &&& r->0@ == self@.subrange(
                    glyph_start(self@, i) as int,
                    glyph_end(self@, i) as int,
                )
                &&& r->0.pix_width() == spec_width(self@) as nat
            },
    {
        let offset: u32 = self.headersize().wrapping_add(i.wrapping_mul(self.charsize()));
        let end: u32 = offset.wrapping_add(self.charsize());
        proof {
            let m: int = 0x1_0000_0000;
            let h: int = spec_headersize(self@) as int;
            let cs: int = spec_charsize(self@) as int;
            lemma_small_mod(h as nat, m as nat);
            lemma_add_mod_noop(h, (i as int) * cs, m);
            assert(offset == glyph_start(self@, i));
            assert(end == glyph_end(self@, i));
        }
        if offset as usize <= end as usize && end as usize <= self.data.len() {
            let d: &'a [u8] = slice_subrange(self.data, offset as usize, end as usize);
            let w: u32 = self.width();
            Some(Glyph::new(d, w as usize))
        } else {
            None
        }
    }
}

/// Law: on a buffer that ends exactly where its glyph table does, looking up
/// any index at or past `length` yields absence, provided the offset
/// arithmetic does not wrap.  (On a buffer with trailing bytes after the
/// table, or with `charsize` zero, such an index can still alias an
/// in-bounds range, as the wrapping original arithmetic allows.)
pub proof fn lemma_lookup_past_end(s: Seq<u8>, i: u32)
    requires
        font_wf(s),
        spec_charsize(s) > 0,
        s.len() == spec_headersize(s) + spec_charsize(s) * spec_length(s),
        i >= spec_length(s),
        spec_headersize(s) + i * spec_charsize(s) + spec_charsize(s) <= u32::MAX,
    ensures
        !glyph_in_bounds(s, i),
{
    let m: int = 0x1_0000_0000;
    let h: int = spec_headersize(s) as int;
    let cs: int = spec_charsize(s) as int;
    let n: int = spec_length(s) as int;
    lemma_mul_inequality(n, i as int, cs);
    assert(n * cs <= (i as int) * cs);
    lemma_small_mod((h + (i as int) * cs) as nat, m as nat);
    assert(glyph_start(s, i) == h + (i as int) * cs);
    lemma_small_mod((h + (i as int) * cs + cs) as nat, m as nat);
    assert(glyph_end(s, i) == h + (i as int) * cs + cs);
    assert(glyph_end(s, i) > s.len());
}

} // verus!
