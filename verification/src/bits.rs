//! The bit decoder: how one pixel is read out of a packed row byte, and the
//! packing discipline itself (most-significant bit first, rows padded with
//! zero bits up to a whole byte).

use vstd::prelude::*;

verus! {

/// Mask selecting bit position `p` within a byte, position 0 being the
/// most significant bit, which encodes the leftmost pixel.
pub open spec fn mask(p: int) -> u8 {
    if p == 0 {
        0x80
    } else if p == 1 {
        0x40
    } else if p == 2 {
        0x20
    } else if p == 3 {
        0x10
    } else if p == 4 {
        0x08
    } else if p == 5 {
        0x04
    } else if p == 6 {
        0x02
    } else {
        0x01
    }
}

/// Whether pixel `i` of a packed bitmap is set: bit `i % 8` (counting from
/// the most significant bit) of byte `i / 8`.
pub open spec fn pixel(data: Seq<u8>, i: int) -> bool {
    data[i / 8] & mask(i % 8) != 0
}

/// Number of bytes a row of `width` pixels occupies once padded to a whole
/// byte boundary.
pub open spec fn row_bytes(width: nat) -> nat {
    (width + 7) / 8
}

/// Executable form of [`mask`].
pub fn bit_mask(p: usize) -> (r: u8)
    requires
        p < 8,
    ensures
        r == mask(p as int),
{
    if p == 0 {
        0x80
    } else if p == 1 {
        0x40
    } else if p == 2 {
        0x20
    } else if p == 3 {
        0x10
    } else if p == 4 {
        0x08
    } else if p == 5 {
        0x04
    } else if p == 6 {
        0x02
    } else {
        0x01
    }
}

/// Pixel `i` of a row of `bits.len()` pixels, with out-of-range positions
/// reading as the zero padding the packing adds.
pub open spec fn packed_bit(bits: Seq<bool>, i: int) -> bool {
    0 <= i < bits.len() && bits[i]
}

/// Byte `j` of the packed encoding of `bits`: eight consecutive pixels,
/// most significant bit first.
pub open spec fn pack_byte(bits: Seq<bool>, j: int) -> u8 {
    (if packed_bit(bits, 8 * j) {
        0x80u8
    } else {
        0u8
    }) | (if packed_bit(bits, 8 * j + 1) {
        0x40u8
    } else {
        0u8
    }) | (if packed_bit(bits, 8 * j + 2) {
        0x20u8
    } else {
        0u8
    }) | (if packed_bit(bits, 8 * j + 3) {
        0x10u8
    } else {
        0u8
    }) | (if packed_bit(bits, 8 * j + 4) {
        0x08u8
    } else {
        0u8
    }) | (if packed_bit(bits, 8 * j + 5) {
        0x04u8
    } else {
        0u8
    }) | (if packed_bit(bits, 8 * j + 6) {
        0x02u8
    } else {
        0u8
    }) | (if packed_bit(bits, 8 * j + 7) {
        0x01u8
    } else {
        0u8
    })
}

/// The packed encoding of a row of pixels: `row_bytes` bytes, each packing
/// eight pixels most-significant-bit first, the tail padded with zero bits.
pub open spec fn packed_row(bits: Seq<bool>) -> Seq<u8> {
    Seq::new(row_bytes(bits.len()), |j: int| pack_byte(bits, j))
}

/// Reading bit `p` of a packed byte recovers the pixel that was packed there.
proof fn lemma_pack_byte_bit(bits: Seq<bool>, j: int, p: int)
    requires
        0 <= p < 8,
    ensures
        (pack_byte(bits, j) & mask(p) != 0) == packed_bit(bits, 8 * j + p),
{
    let b0 = packed_bit(bits, 8 * j);
    let b1 = packed_bit(bits, 8 * j + 1);
    let b2 = packed_bit(bits, 8 * j + 2);
    let b3 = packed_bit(bits, 8 * j + 3);
    let b4 = packed_bit(bits, 8 * j + 4);
    let b5 = packed_bit(bits, 8 * j + 5);
    let b6 = packed_bit(bits, 8 * j + 6);
    let b7 = packed_bit(bits, 8 * j + 7);
    let x: u8 = pack_byte(bits, j);
    assert(x == (if b0 {
        0x80u8
    } else {
        0u8
    }) | (if b1 {
        0x40u8
    } else {
        0u8
    }) | (if b2 {
        0x20u8
    } else {
        0u8
    }) | (if b3 {
        0x10u8
    } else {
        0u8
    }) | (if b4 {
        0x08u8
    } else {
        0u8
    }) | (if b5 {
        0x04u8
    } else {
        0u8
    }) | (if b6 {
        0x02u8
    } else {
        0u8
    }) | (if b7 {
        0x01u8
    } else {
        0u8
    }));
    assert((x & 0x80u8 != 0) == b0 && (x & 0x40u8 != 0) == b1 && (x & 0x20u8 != 0) == b2 && (x
        & 0x10u8 != 0) == b3 && (x & 0x08u8 != 0) == b4 && (x & 0x04u8 != 0) == b5 && (x & 0x02u8
        != 0) == b6 && (x & 0x01u8 != 0) == b7) by (bit_vector)
        requires
            x == (if b0 {
                0x80u8
            } else {
                0u8
            }) | (if b1 {
                0x40u8
            } else {
                0u8
            }) | (if b2 {
                0x20u8
            } else {
                0u8
            }) | (if b3 {
                0x10u8
            } else {
                0u8
            }) | (if b4 {
                0x08u8
            } else {
                0u8
            }) | (if b5 {
                0x04u8
            } else {
                0u8
            }) | (if b6 {
                0x02u8
            } else {
                0u8
            }) | (if b7 {
                0x01u8
            } else {
                0u8
            }),
    ;
}

/// Law: decoding reverses encoding, pixel by pixel.  For a row packed from a
/// chosen sequence of booleans, most-significant-bit first and zero-padded to
/// a byte boundary, reading pixel `i` of the packed bytes yields exactly the
/// `i`-th chosen boolean.
pub proof fn lemma_packed_pixel(bits: Seq<bool>, i: int)
    requires
        0 <= i < bits.len(),
    ensures
        pixel(packed_row(bits), i) == bits[i],
{
    let j: int = i / 8;
    let p: int = i % 8;
    assert(8 * j + p == i);
    assert(0 <= p < 8);
    assert(8 * row_bytes(bits.len()) >= bits.len());
    assert(0 <= j < row_bytes(bits.len()));
    assert(packed_row(bits)[j] == pack_byte(bits, j));
    lemma_pack_byte_bit(bits, j, p);
    assert(packed_bit(bits, i) == bits[i]);
}

} // verus!
