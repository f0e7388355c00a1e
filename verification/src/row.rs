//! One row of a glyph: a borrowed view of the row's packed bytes together
//! with a half-open window `[lo, hi)` of pixel positions not yet consumed.
//! Forward steps advance `lo`; backward steps retract `hi`; the two
//! directions share the window, so interleaving them never produces a pixel
//! twice.

use crate::bits::bit_mask;
use crate::bits::packed_row;
use crate::bits::pixel;
use vstd::prelude::*;
use vstd::slice::slice_index_get;

verus! {

/// The pixels of `raw` at positions `lo <= i < hi`, in order.
pub open spec fn window(raw: Seq<u8>, lo: int, hi: int) -> Seq<bool> {
    Seq::new(
        if lo <= hi {
            (hi - lo) as nat
        } else {
            0
        },
        |k: int| pixel(raw, lo + k),
    )
}

/// A traversable view of the pixels in one row of a glyph.
///
/// Its view is the sequence of pixels not yet consumed from either end.
#[derive(Clone, Copy)]
pub struct GlyphRow<'a> {
    data: &'a [u8],
    bit: usize,
    width: usize,
}

impl View for GlyphRow<'_> {
    type V = Seq<bool>;

    open spec fn view(&self) -> Seq<bool> {
        window(self.raw(), self.lo(), self.hi())
    }
}

impl<'a> GlyphRow<'a> {
    /// The row's backing bytes, which never change as pixels are consumed.
    pub closed spec fn raw(&self) -> Seq<u8> {
        self.data@
    }

    /// The first pixel position not yet consumed from the front.
    pub closed spec fn lo(&self) -> int {
        self.bit as int
    }

    /// The pixel position just past the last one not yet consumed from the
    /// back; initially the row's pixel width.
    pub closed spec fn hi(&self) -> int {
        self.width as int
    }

    /// Well-formedness: the window is ordered and every position in it lies
    /// within the backing bytes.
    pub open spec fn wf(&self) -> bool {
        0 <= self.lo() <= self.hi() && self.hi() <= 8 * self.raw().len()
    }

    /// A fresh row over `data`, its window covering all `width` pixels.
    pub fn new(data: &'a [u8], width: usize) -> (r: GlyphRow<'a>)
        requires
            width <= 8 * data@.len(),
        ensures
            r.wf(),
            r.raw() == data@,
            r.lo() == 0,
            r.hi() == width as int,
            r@ == window(data@, 0, width as int),
    {
        GlyphRow { data, bit: 0, width }
    }

    /// The raw bytes of the whole row.  Only the first `width` bits are
    /// meaningful; the rest is padding.  Unlike a glyph's accessor, this
    /// always returns the full original span, however far traversal has gone.
    pub fn data(&self) -> (r: &'a [u8])
        ensures
            r@ == self.raw(),
    {
        self.data
    }

    /// How many pixels remain obtainable: by `next`'s and `next_back`'s
    /// contracts each successful step removes exactly one element of the
    /// view, and a step fails exactly when the view is empty, so this count
    /// always equals the number of further steps that can still succeed.
    pub fn len(&self) -> (r: usize)
        requires
            self.wf(),
        ensures
            r == self@.len(),
    {
        self.width - self.bit
    }

    /// Take the leftmost pixel not yet consumed, if any: the head of the
    /// view.  The window shrinks from the front; the backing bytes and the
    /// back bound stay as they were.
    pub fn next(&mut self) -> (r: Option<bool>)
        requires
            old(self).wf(),
        ensures
            final(self).wf(),
            final(self).raw() == old(self).raw(),
            final(self).hi() == old(self).hi(),
            old(self)@.len() == 0 ==> r is None && final(self).lo() == old(self).lo(),
            old(self)@.len() > 0 ==> {
                &&& r == Some(old(self)@[0])
                &&& final(self).lo() == old(self).lo() + 1
                &&& final(self)@ == old(self)@.skip(1)
            },
    {
        if self.bit >= self.width {
            return None;
        }
        proof {
            assert(self.bit / 8 < self.data@.len()) by (nonlinear_arith)
                requires
                    (self.bit as int) < 8 * self.data@.len(),
            ;
        }
        let byte: u8 = *slice_index_get(self.data, self.bit / 8);
        let result: bool = byte & bit_mask(self.bit % 8) != 0;
        self.bit = self.bit + 1;
        proof {
            assert(self@ =~= old(self)@.skip(1));
        }
        Some(result)
    }

    /// Take the rightmost pixel not yet consumed, if any: the last element
    /// of the view.  The window shrinks from the back; the backing bytes and
    /// the front bound stay as they were.
    pub fn next_back(&mut self) -> (r: Option<bool>)
        requires
            old(self).wf(),
        ensures
            final(self).wf(),
            final(self).raw() == old(self).raw(),
            final(self).lo() == old(self).lo(),
            old(self)@.len() == 0 ==> r is None && final(self).hi() == old(self).hi(),
            old(self)@.len() > 0 ==> {
                &&& r == Some(old(self)@[old(self)@.len() - 1])
                &&& final(self).hi() == old(self).hi() - 1
                &&& final(self)@ == old(self)@.take(old(self)@.len() - 1)
            },
    {
        if self.bit >= self.width {
            return None;
        }
        let b: usize = self.width - 1;
        proof {
            assert(b / 8 < self.data@.len()) by (nonlinear_arith)
                requires
                    (b as int) < 8 * self.data@.len(),
            ;
        }
        let byte: u8 = *slice_index_get(self.data, b / 8);
        let result: bool = byte & bit_mask(b % 8) != 0;
        self.width = b;
        proof {
            assert(self@ =~= old(self)@.take(old(self)@.len() - 1));
        }
        Some(result)
    }
}

/// Law: a pixel window splits cleanly at any meeting point.  When forward
/// steps have consumed `[lo, m)` and backward steps have consumed `[m, hi)`,
/// the two collections together are exactly the original window: nothing is
/// produced twice and nothing is dropped, for every interleaving of the two
/// directions.
pub proof fn lemma_window_split(raw: Seq<u8>, lo: int, m: int, hi: int)
    requires
        lo <= m <= hi,
    ensures
        window(raw, lo, hi) == window(raw, lo, m) + window(raw, m, hi),
{
    assert(window(raw, lo, hi) =~= window(raw, lo, m) + window(raw, m, hi));
}

/// Law: exhausting a row backward yields the reverse of exhausting it
/// forward.  By `next_back`'s contract the `k`-th backward step from a full
/// window yields the pixel at position `hi - 1 - k`; that sequence is the
/// reverse of the forward view.
pub proof fn lemma_backward_collects_reverse(raw: Seq<u8>, lo: int, hi: int)
    requires
        lo <= hi,
    ensures
        Seq::new((hi - lo) as nat, |k: int| pixel(raw, hi - 1 - k)) == window(
            raw,
            lo,
            hi,
        ).reverse(),
{
    assert(Seq::new((hi - lo) as nat, |k: int| pixel(raw, hi - 1 - k)) =~= window(
        raw,
        lo,
        hi,
    ).reverse());
}

/// Law: decoding reverses encoding for whole rows.  A fresh row over the
/// packed encoding of `bits`, with width `bits.len()`, has view exactly
/// `bits`: forward traversal reproduces the chosen booleans in order.
pub proof fn lemma_packed_row_round_trip(bits: Seq<bool>)
    requires
        bits.len() <= usize::MAX,
    ensures
        window(packed_row(bits), 0, bits.len() as int) == bits,
{
    let w = window(packed_row(bits), 0, bits.len() as int);
    assert forall|i: int| 0 <= i < bits.len() implies w[i] == bits[i] by {
        crate::bits::lemma_packed_pixel(bits, i);
    }
    assert(w =~= bits);
}

} // verus!
