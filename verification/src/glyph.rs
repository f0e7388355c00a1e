//! One glyph's bitmap: a borrowed span of row-major packed bytes together
//! with the glyph's pixel width.  Rows can be taken off either end; each row
//! taken physically removes its bytes from the remaining span.

use crate::bits::row_bytes;
use crate::row::window;
use crate::row::GlyphRow;
use vstd::arithmetic::div_mod::lemma_fundamental_div_mod;
use vstd::arithmetic::div_mod::lemma_hoist_over_denominator;
use vstd::prelude::*;
use vstd::slice::slice_subrange;

verus! {

/// The rows of `s` when split into consecutive chunks of `row_bytes(width)`
/// bytes; trailing bytes short of a full row belong to no row.
pub open spec fn rows_of(s: Seq<u8>, width: nat) -> Seq<Seq<u8>> {
    if row_bytes(width) > 0 {
        Seq::new(
            s.len() / row_bytes(width),
            |r: int|
                s.subrange(r * (row_bytes(width) as int), (r + 1) * (row_bytes(width) as int)),
        )
    } else {
        Seq::empty()
    }
}

/// A traversable view of the rows of one glyph's bitmap.
///
/// Its view is the span of bytes not yet consumed from either end.
#[derive(Clone, Copy)]
pub struct Glyph<'a> {
    data: &'a [u8],
    width: usize,
}

impl View for Glyph<'_> {
    type V = Seq<u8>;

    open spec fn view(&self) -> Seq<u8> {
        self.raw()
    }
}

impl<'a> Glyph<'a> {
    /// The bytes not yet consumed from either end.
    pub closed spec fn raw(&self) -> Seq<u8> {
        self.data@
    }

    /// The glyph's pixel width, fixed at creation.
    pub closed spec fn pix_width(&self) -> nat {
        self.width as nat
    }

    /// Well-formedness: the width is small enough that the padded row size
    /// can be computed without overflow.
    pub open spec fn wf(&self) -> bool {
        self.pix_width() + 7 <= usize::MAX
    }

    /// A fresh glyph view over `data`, `width` pixels per row.
    pub fn new(data: &'a [u8], width: usize) -> (r: Glyph<'a>)
        ensures
            r@ == data@,
            r.pix_width() == width as nat,
            r.wf() <==> width + 7 <= usize::MAX,
    {
        Glyph { data, width }
    }

    /// The raw bytes defining the glyph, minus any rows already taken from
    /// either end.  Initially `height` rows of `width` bits, each row padded
    /// to a whole number of bytes; the span shrinks after every step.
    pub fn data(&self) -> (r: &'a [u8])
        ensures
            r@ == self@,
    {
        self.data
    }

    /// How many whole rows remain obtainable: by `next`'s and `next_back`'s
    /// contracts each successful step removes exactly one row's bytes and a
    /// step fails exactly when fewer than one row's bytes remain, so this
    /// count always equals the number of further steps that can still
    /// succeed.
    pub fn len(&self) -> (r: usize)
        requires
            self.wf(),
            self.pix_width() > 0,
        ensures
            r == self@.len() / row_bytes(self.pix_width()),
            r == rows_of(self@, self.pix_width()).len(),
    {
        self.data.len() / ((self.width + 7) / 8)
    }

    /// Take the front row, if a whole row's bytes remain: a fresh row view
    /// over the first `row_bytes` bytes, which are removed from this glyph's
    /// remaining span.
    pub fn next(&mut self) -> (r: Option<GlyphRow<'a>>)
        requires
            old(self).wf(),
        ensures
            final(self).wf(),
            final(self).pix_width() == old(self).pix_width(),
            ({
                let adv = row_bytes(old(self).pix_width()) as int;
                &&& old(self)@.len() < adv ==> r is None && final(self)@ == old(self)@
                &&& old(self)@.len() >= adv ==> {
                    &&& r is Some
                    &&& r->0.wf()
                    &&& r->0.raw() == old(self)@.take(adv)
                    &&& r->0.lo() == 0
                    &&& r->0.hi() == old(self).pix_width() as int
                    &&& r->0@ == window(old(self)@.take(adv), 0, old(self).pix_width() as int)
                    &&& final(self)@ == old(self)@.skip(adv)
                }
            }),
    {
        let advance: usize = (self.width + 7) / 8;
        if self.data.len() < advance {
            return None;
        }
        let head: &'a [u8] = slice_subrange(self.data, 0, advance);
        let rest: &'a [u8] = slice_subrange(self.data, advance, self.data.len());
        self.data = rest;
        proof {
            lemma_fundamental_div_mod(self.width + 7, 8);
            assert(self.width <= 8 * head@.len());
            assert(head@ =~= old(self)@.take(advance as int));
            assert(self@ =~= old(self)@.skip(advance as int));
        }
        Some(GlyphRow::new(head, self.width))
    }

    /// Take the back row, if a whole row's bytes remain: a fresh row view
    /// over the last `row_bytes` bytes, which are removed from this glyph's
    /// remaining span.
    pub fn next_back(&mut self) -> (r: Option<GlyphRow<'a>>)
        requires
            old(self).wf(),
        ensures
            final(self).wf(),
            final(self).pix_width() == old(self).pix_width(),
            ({
                let adv = row_bytes(old(self).pix_width()) as int;
                &&& old(self)@.len() < adv ==> r is None && final(self)@ == old(self)@
                &&& old(self)@.len() >= adv ==> {
                    &&& r is Some
                    &&& r->0.wf()
                    &&& r->0.raw() == old(self)@.skip(old(self)@.len() - adv)
                    &&& r->0.lo() == 0
                    &&& r->0.hi() == old(self).pix_width() as int
                    &&& r->0@ == window(
                        old(self)@.skip(old(self)@.len() - adv),
                        0,
                        old(self).pix_width() as int,
                    )
                    &&& final(self)@ == old(self)@.take(old(self)@.len() - adv)
                }
            }),
    {
        let advance: usize = (self.width + 7) / 8;
        if self.data.len() < advance {
            return None;
        }
        let split: usize = self.data.len() - advance;
        let tail: &'a [u8] = slice_subrange(self.data, split, self.data.len());
        let rest: &'a [u8] = slice_subrange(self.data, 0, split);
        self.data = rest;
        proof {
            lemma_fundamental_div_mod(self.width + 7, 8);
            assert(self.width <= 8 * tail@.len());
            assert(tail@ =~= old(self)@.skip(split as int));
            assert(self@ =~= old(self)@.take(split as int));
        }
        Some(GlyphRow::new(tail, self.width))
    }
}

/// Row slot `r` of a span of `len` bytes is a whole in-bounds chunk.
proof fn lemma_row_slot_bounds(len: int, adv: int, r: int)
    requires
        adv > 0,
        0 <= r < len / adv,
    ensures
        0 <= r * adv,
        r * adv + adv <= len,
        (r + 1) * adv == r * adv + adv,
{
    assert(0 <= r * adv && r * adv + adv <= len && (r + 1) * adv == r * adv + adv)
        by (nonlinear_arith)
        requires
            adv > 0,
            0 <= r < len / adv,
    ;
}

/// Law: taking the front row removes exactly the first row.  The bytes a
/// forward step hands out are row 0 of the remaining span, and the rows of
/// what is left are the remaining rows, shifted down by one.
pub proof fn lemma_rows_front_step(s: Seq<u8>, width: nat)
    requires
        row_bytes(width) > 0,
        s.len() >= row_bytes(width),
    ensures
        rows_of(s, width).len() >= 1,
        rows_of(s, width)[0] == s.take(row_bytes(width) as int),
        rows_of(s.skip(row_bytes(width) as int), width) == rows_of(s, width).skip(1),
{
    let adv: int = row_bytes(width) as int;
    lemma_hoist_over_denominator(s.len() - adv, 1, row_bytes(width));
    assert(s.len() / row_bytes(width) >= 1);
    assert((s.len() - adv) / adv == (s.len() as int) / adv - 1);
    let left = rows_of(s.skip(adv), width);
    let right = rows_of(s, width).skip(1);
    assert forall|r: int| 0 <= r < left.len() implies left[r] == right[r] by {
        lemma_row_slot_bounds(s.len() - adv, adv, r);
        lemma_row_slot_bounds(s.len() as int, adv, r + 1);
        assert(left[r] =~= right[r]);
    }
    assert(left =~= right);
}

/// Law: on a span holding a whole number of rows, taking the back row
/// removes exactly the last row.  The bytes a backward step hands out are
/// the last row of the remaining span, and the rows of what is left are the
/// remaining rows minus the last.
pub proof fn lemma_rows_back_step(s: Seq<u8>, width: nat)
    requires
        row_bytes(width) > 0,
        s.len() >= row_bytes(width),
        s.len() % row_bytes(width) == 0,
    ensures
        rows_of(s, width).len() >= 1,
        rows_of(s, width).last() == s.skip(s.len() - row_bytes(width)),
        rows_of(s.take(s.len() - row_bytes(width)), width) == rows_of(s, width).take(
            rows_of(s, width).len() - 1,
        ),
{
    let adv: int = row_bytes(width) as int;
    let n = (s.len() as int) / adv;
    lemma_fundamental_div_mod(s.len() as int, adv);
    assert(s.len() == n * adv) by (nonlinear_arith)
        requires
            adv > 0,
            n == (s.len() as int) / adv,
            s.len() as int == adv * ((s.len() as int) / adv) + (s.len() as int) % adv,
            (s.len() as int) % adv == 0,
    ;
    lemma_hoist_over_denominator(s.len() - adv, 1, row_bytes(width));
    assert((s.len() - adv) / adv == (s.len() as int) / adv - 1);
    assert((n - 1) * adv == s.len() - adv) by (nonlinear_arith)
        requires
            s.len() == n * adv,
    ;
    assert(rows_of(s, width).last() =~= s.skip(s.len() - adv));
    let left = rows_of(s.take(s.len() - adv), width);
    let right = rows_of(s, width).take(n - 1);
    assert forall|r: int| 0 <= r < left.len() implies left[r] == right[r] by {
        lemma_row_slot_bounds(s.len() - adv, adv, r);
        assert(left[r] =~= right[r]);
    }
    assert(left =~= right);
}

/// Law: the rows of a span split cleanly at any whole-row meeting point.
/// When forward steps have consumed the first `m` rows and backward steps
/// the rest, the two collections together are exactly the original rows:
/// no row is produced twice and none is dropped, for every interleaving of
/// the two directions.
pub proof fn lemma_rows_split(s: Seq<u8>, width: nat, m: int)
    requires
        row_bytes(width) > 0,
        0 <= m,
        m * (row_bytes(width) as int) <= s.len(),
    ensures
        rows_of(s, width) == rows_of(s.take(m * (row_bytes(width) as int)), width) + rows_of(
            s.skip(m * (row_bytes(width) as int)),
            width,
        ),
{
    let adv: int = row_bytes(width) as int;
    let cut: int = m * adv;
    assert(s.take(cut).len() == cut);
    assert(cut / adv == m) by {
        lemma_hoist_over_denominator(0, m, row_bytes(width));
    }
    lemma_hoist_over_denominator(s.len() - cut, m, row_bytes(width));
    assert((s.len() - cut) / adv + m == (s.len() as int) / adv);
    let whole = rows_of(s, width);
    let front = rows_of(s.take(cut), width);
    let back = rows_of(s.skip(cut), width);
    assert(front.len() + back.len() == whole.len());
    assert forall|r: int| 0 <= r < whole.len() implies (front + back)[r] == whole[r] by {
        lemma_row_slot_bounds(s.len() as int, adv, r);
        if r < front.len() {
            lemma_row_slot_bounds(cut, adv, r);
            assert(front[r] =~= whole[r]);
        } else {
            lemma_row_slot_bounds(s.len() - cut, adv, r - m);
            assert((r - m) * adv + cut == r * adv) by (nonlinear_arith)
                requires
                    cut == m * adv,
            ;
            assert(back[r - front.len()] =~= whole[r]);
        }
    }
    assert(whole =~= front + back);
}

} // verus!
