//! Morton ("Z-order") codes: two 32-bit coordinates interleaved bit by bit.
use std::cmp::Ordering;
use vstd::prelude::*;

use crate::unit_fixed::UnitFixedPoint;

verus! {

/// Mask of the code bits that carry the X coordinate (the even bits).
pub const X_MASK: u64 = 0x5555_5555_5555_5555;

/// Mask of the code bits that carry the Y coordinate (the odd bits).
pub const Y_MASK: u64 = 0xAAAA_AAAA_AAAA_AAAA;

/// Moves bit `k` of a 32-bit value to bit `2k`, leaving the odd bits clear.
#[verifier::inline]
pub open spec fn spread(v: u64) -> u64 {
    let a = (v | (v << 16u64)) & 0x0000_FFFF_0000_FFFFu64;
    let b = (a | (a << 8u64)) & 0x00FF_00FF_00FF_00FFu64;
    let c = (b | (b << 4u64)) & 0x0F0F_0F0F_0F0F_0F0Fu64;
    let d = (c | (c << 2u64)) & 0x3333_3333_3333_3333u64;
    (d | (d << 1u64)) & 0x5555_5555_5555_5555u64
}

/// The Morton code of `(x, y)`: bit `2k` is bit `k` of `x`, bit `2k + 1` is bit `k` of `y`.
pub open spec fn morton(x: u32, y: u32) -> u64 {
    spread(x as u64) | (spread(y as u64) << 1u64)
}

/// Three-way comparison of two integers.
pub open spec fn ordering(a: int, b: int) -> Ordering {
    if a < b {
        Ordering::Less
    } else if a > b {
        Ordering::Greater
    } else {
        Ordering::Equal
    }
}

/// The highest set bit of `a` lies above the highest set bit of `b`
/// (for `b == 0`: `a` has any bit set).
pub open spec fn high_bit_above(a: u32, b: u32) -> bool {
    b < a && b < (a ^ b)
}

/// The interleave invariant: bit `2k` of `morton(x, y)` is bit `k` of `x`, and
/// bit `2k + 1` is bit `k` of `y`.
pub proof fn lemma_morton_bits(x: u32, y: u32, k: u64)
    requires
        k < 32,
    ensures
        (morton(x, y) >> (2 * k)) & 1 == ((x as u64) >> k) & 1,
        (morton(x, y) >> (2 * k + 1)) & 1 == ((y as u64) >> k) & 1,
{
    let xv = x as u64;
    let yv = y as u64;
    assert(xv < 0x1_0000_0000u64 && yv < 0x1_0000_0000u64);
    assert(((spread(xv) | (spread(yv) << 1u64)) >> (2 * k)) & 1 == (xv >> k) & 1) by (bit_vector)
        requires
            xv < 0x1_0000_0000u64,
            yv < 0x1_0000_0000u64,
            k < 32,
    ;
    assert(((spread(xv) | (spread(yv) << 1u64)) >> (2 * k + 1)) & 1 == (yv >> k) & 1)
        by (bit_vector)
        requires
            xv < 0x1_0000_0000u64,
            yv < 0x1_0000_0000u64,
            k < 32,
    ;
}

/// The even bits of a code hold the spread X coordinate, the odd bits the spread Y.
proof fn lemma_morton_masks(x: u32, y: u32)
    ensures
        morton(x, y) & X_MASK == spread(x as u64),
        morton(x, y) & Y_MASK == spread(y as u64) << 1u64,
{
    let xv = x as u64;
    let yv = y as u64;
    assert((spread(xv) | (spread(yv) << 1u64)) & 0x5555_5555_5555_5555u64 == spread(xv))
        by (bit_vector);
    assert((spread(xv) | (spread(yv) << 1u64)) & 0xAAAA_AAAA_AAAA_AAAAu64 == spread(yv) << 1u64)
        by (bit_vector);
}

/// Spreading keeps the order of 32-bit values.
proof fn lemma_spread_monotone(a: u64, b: u64)
    requires
        a < b < 0x1_0000_0000u64,
    ensures
        spread(a) < spread(b),
        spread(a) << 1u64 < spread(b) << 1u64,
{
    assert(spread(a) < spread(b)) by (bit_vector)
        requires
            a < b,
            b < 0x1_0000_0000u64,
    ;
    assert(spread(a) << 1u64 < spread(b) << 1u64) by (bit_vector)
        requires
            a < b,
            b < 0x1_0000_0000u64,
    ;
}

/// Comparing the X-carrying bits of two codes is comparing their X coordinates;
/// the same holds of Y.
pub proof fn lemma_axis_agreement(x1: u32, y1: u32, x2: u32, y2: u32)
    ensures
        ordering((morton(x1, y1) & X_MASK) as int, (morton(x2, y2) & X_MASK) as int)
            == ordering(x1 as int, x2 as int),
        ordering((morton(x1, y1) & Y_MASK) as int, (morton(x2, y2) & Y_MASK) as int)
            == ordering(y1 as int, y2 as int),
{
    lemma_morton_masks(x1, y1);
    lemma_morton_masks(x2, y2);
    if x1 < x2 {
        lemma_spread_monotone(x1 as u64, x2 as u64);
    } else if x2 < x1 {
        lemma_spread_monotone(x2 as u64, x1 as u64);
    }
    if y1 < y2 {
        lemma_spread_monotone(y1 as u64, y2 as u64);
    } else if y2 < y1 {
        lemma_spread_monotone(y2 as u64, y1 as u64);
    }
}

/// Encoding is one-to-one: distinct coordinate pairs have distinct codes.
pub proof fn lemma_morton_injective(x1: u32, y1: u32, x2: u32, y2: u32)
    requires
        morton(x1, y1) == morton(x2, y2),
    ensures
        x1 == x2,
        y1 == y2,
{
    lemma_axis_agreement(x1, y1, x2, y2);
}

/// One direction of the discriminator property, on widened coordinates.
proof fn lemma_discriminator_less(a1: u64, b1: u64, a2: u64, b2: u64)
    requires
        a1 < 0x1_0000_0000u64,
        a2 < 0x1_0000_0000u64,
        b1 < 0x1_0000_0000u64,
        b2 < 0x1_0000_0000u64,
    ensures
        ((b1 ^ b2) < (a1 ^ a2) && (b1 ^ b2) < ((a1 ^ a2) ^ (b1 ^ b2)) && a1 < a2) ==> (spread(a1)
            | (spread(b1) << 1u64)) < (spread(a2) | (spread(b2) << 1u64)),
        (!((b1 ^ b2) < (a1 ^ a2) && (b1 ^ b2) < ((a1 ^ a2) ^ (b1 ^ b2))) && b1 < b2) ==> (spread(
            a1,
        ) | (spread(b1) << 1u64)) < (spread(a2) | (spread(b2) << 1u64)),
{
    assert(((b1 ^ b2) < (a1 ^ a2) && (b1 ^ b2) < ((a1 ^ a2) ^ (b1 ^ b2)) && a1 < a2) ==> (spread(
        a1,
    ) | (spread(b1) << 1u64)) < (spread(a2) | (spread(b2) << 1u64))) by (bit_vector)
        requires
            a1 < 0x1_0000_0000u64,
            a2 < 0x1_0000_0000u64,
            b1 < 0x1_0000_0000u64,
            b2 < 0x1_0000_0000u64,
    ;
    assert((!((b1 ^ b2) < (a1 ^ a2) && (b1 ^ b2) < ((a1 ^ a2) ^ (b1 ^ b2))) && b1 < b2) ==> (
    spread(a1) | (spread(b1) << 1u64)) < (spread(a2) | (spread(b2) << 1u64))) by (bit_vector)
        requires
            a1 < 0x1_0000_0000u64,
            a2 < 0x1_0000_0000u64,
            b1 < 0x1_0000_0000u64,
            b2 < 0x1_0000_0000u64,
    ;
}

/// The order of whole codes follows the coordinate whose difference has the
/// higher most significant bit; at equal height Y decides, since its bit sits
/// above X's in each pair.
pub proof fn lemma_discriminator(x1: u32, y1: u32, x2: u32, y2: u32)
    ensures
        ordering(morton(x1, y1) as int, morton(x2, y2) as int) == (if high_bit_above(
            x1 ^ x2,
            y1 ^ y2,
        ) {
            ordering(x1 as int, x2 as int)
        } else {
            ordering(y1 as int, y2 as int)
        }),
{
    let a1 = x1 as u64;
    let b1 = y1 as u64;
    let a2 = x2 as u64;
    let b2 = y2 as u64;
    let mx = x1 ^ x2;
    let my = y1 ^ y2;
    assert(high_bit_above(mx, my) == ((b1 ^ b2) < (a1 ^ a2) && (b1 ^ b2) < ((a1 ^ a2) ^ (b1
        ^ b2)))) by (bit_vector)
        requires
            a1 == x1 as u64,
            a2 == x2 as u64,
            b1 == y1 as u64,
            b2 == y2 as u64,
            mx == x1 ^ x2,
            my == y1 ^ y2,
    ;
    assert(high_bit_above(mx, my) == high_bit_above(x2 ^ x1, y2 ^ y1)) by (bit_vector)
        requires
            mx == x1 ^ x2,
            my == y1 ^ y2,
    ;
    assert((mx == 0 <==> x1 == x2) && (my == 0 <==> y1 == y2)) by (bit_vector)
        requires
            mx == x1 ^ x2,
            my == y1 ^ y2,
    ;
    assert(my == 0 ==> (high_bit_above(mx, my) <==> mx != 0)) by (bit_vector);
    lemma_discriminator_less(a1, b1, a2, b2);
    lemma_discriminator_less(a2, b2, a1, b1);
    assert(high_bit_above(x2 ^ x1, y2 ^ y1) == ((b2 ^ b1) < (a2 ^ a1) && (b2 ^ b1) < ((a2 ^ a1)
        ^ (b2 ^ b1)))) by (bit_vector)
        requires
            a1 == x1 as u64,
            a2 == x2 as u64,
            b1 == y1 as u64,
            b2 == y2 as u64,
    ;
}

/// A 64-bit Morton code.
#[derive(Debug, Copy, Clone, PartialEq, Eq, PartialOrd, Ord, Hash, Structural)]
pub struct ZValue(pub u64);

/// Interleaves two bytes into a 16-bit Morton number: bit `k` of `x` goes to
/// bit `2k`, bit `k` of `y` to bit `2k + 1`.
pub fn interleave_8(x: u8, y: u8) -> (r: u64)
    ensures
        r == morton(x as u32, y as u32),
        r < 0x1_0000,
{
    let xv = x as u64;
    let yv = y as u64;
    let mut a = (xv | (xv << 4u64)) & 0x0F0Fu64;
    a = (a | (a << 2u64)) & 0x3333u64;
    a = (a | (a << 1u64)) & 0x5555u64;
    let mut b = (yv | (yv << 4u64)) & 0x0F0Fu64;
    b = (b | (b << 2u64)) & 0x3333u64;
    b = (b | (b << 1u64)) & 0x5555u64;
    let r = a | (b << 1u64);
    assert(r == spread(xv) | (spread(yv) << 1u64) && r < 0x1_0000) by (bit_vector)
        requires
            xv < 256,
            yv < 256,
            a == (((((xv | (xv << 4u64)) & 0x0F0Fu64) | (((xv | (xv << 4u64)) & 0x0F0Fu64)
                << 2u64)) & 0x3333u64) | ((((((xv | (xv << 4u64)) & 0x0F0Fu64) | (((xv | (xv
                << 4u64)) & 0x0F0Fu64) << 2u64)) & 0x3333u64)) << 1u64)) & 0x5555u64,
            b == (((((yv | (yv << 4u64)) & 0x0F0Fu64) | (((yv | (yv << 4u64)) & 0x0F0Fu64)
                << 2u64)) & 0x3333u64) | ((((((yv | (yv << 4u64)) & 0x0F0Fu64) | (((yv | (yv
                << 4u64)) & 0x0F0Fu64) << 2u64)) & 0x3333u64)) << 1u64)) & 0x5555u64,
            r == a | (b << 1u64),
    ;
    r
}

/// The Morton code of `(x, y)` is the four byte-pair codes placed side by side.
proof fn lemma_morton_by_bytes(x: u32, y: u32)
    ensures
        morton(x, y) == morton((x & 0xFF) as u8 as u32, (y & 0xFF) as u8 as u32) | (morton(
            ((x >> 8u32) & 0xFF) as u8 as u32,
            ((y >> 8u32) & 0xFF) as u8 as u32,
        ) << 16u64) | (morton(((x >> 16u32) & 0xFF) as u8 as u32, ((y >> 16u32) & 0xFF) as u8 as u32)
            << 32u64) | (morton(((x >> 24u32) & 0xFF) as u8 as u32, ((y >> 24u32) & 0xFF) as u8 as u32)
            << 48u64),
{
    let xv = x as u64;
    let yv = y as u64;
    let x0 = (x & 0xFF) as u8 as u32 as u64;
    let x1 = ((x >> 8u32) & 0xFF) as u8 as u32 as u64;
    let x2 = ((x >> 16u32) & 0xFF) as u8 as u32 as u64;
    let x3 = ((x >> 24u32) & 0xFF) as u8 as u32 as u64;
    let y0 = (y & 0xFF) as u8 as u32 as u64;
    let y1 = ((y >> 8u32) & 0xFF) as u8 as u32 as u64;
    let y2 = ((y >> 16u32) & 0xFF) as u8 as u32 as u64;
    let y3 = ((y >> 24u32) & 0xFF) as u8 as u32 as u64;
    assert(x0 == xv & 0xFF && x1 == (xv >> 8u64) & 0xFF && x2 == (xv >> 16u64) & 0xFF && x3 == (xv
        >> 24u64) & 0xFF) by (bit_vector)
        requires
            xv == x as u64,
            x0 == (x & 0xFF) as u8 as u32 as u64,
            x1 == ((x >> 8u32) & 0xFF) as u8 as u32 as u64,
            x2 == ((x >> 16u32) & 0xFF) as u8 as u32 as u64,
            x3 == ((x >> 24u32) & 0xFF) as u8 as u32 as u64,
    ;
    assert(y0 == yv & 0xFF && y1 == (yv >> 8u64) & 0xFF && y2 == (yv >> 16u64) & 0xFF && y3 == (yv
        >> 24u64) & 0xFF) by (bit_vector)
        requires
            yv == y as u64,
            y0 == (y & 0xFF) as u8 as u32 as u64,
            y1 == ((y >> 8u32) & 0xFF) as u8 as u32 as u64,
            y2 == ((y >> 16u32) & 0xFF) as u8 as u32 as u64,
            y3 == ((y >> 24u32) & 0xFF) as u8 as u32 as u64,
    ;
    assert(spread(xv) | (spread(yv) << 1u64) == (spread(xv & 0xFF) | (spread(yv & 0xFF) << 1u64)) | (
    (spread((xv >> 8u64) & 0xFF) | (spread((yv >> 8u64) & 0xFF) << 1u64)) << 16u64) | ((spread(
        (xv >> 16u64) & 0xFF,
    ) | (spread((yv >> 16u64) & 0xFF) << 1u64)) << 32u64) | ((spread((xv >> 24u64) & 0xFF) | (
    spread((yv >> 24u64) & 0xFF) << 1u64)) << 48u64)) by (bit_vector)
        requires
            xv < 0x1_0000_0000u64,
            yv < 0x1_0000_0000u64,
    ;
}

impl ZValue {
    /// The code of two 32-bit coordinates.
    pub fn new(x: u32, y: u32) -> (r: ZValue)
        ensures
            r.0 == morton(x, y),
    {
        let x0 = (x & 0xFF) as u8;
        let x1 = ((x >> 8u32) & 0xFF) as u8;
        let x2 = ((x >> 16u32) & 0xFF) as u8;
        let x3 = ((x >> 24u32) & 0xFF) as u8;
        let y0 = (y & 0xFF) as u8;
        let y1 = ((y >> 8u32) & 0xFF) as u8;
        let y2 = ((y >> 16u32) & 0xFF) as u8;
        let y3 = ((y >> 24u32) & 0xFF) as u8;
        proof {
            lemma_morton_by_bytes(x, y);
        }
        ZValue(
            interleave_8(x0, y0) | (interleave_8(x1, y1) << 16u64) | (interleave_8(x2, y2) << 32u64)
                | (interleave_8(x3, y3) << 48u64),
        )
    }

    /// The code of two fixed-point fractions, taken as 32-bit integers.
    pub fn from_fp(x: UnitFixedPoint, y: UnitFixedPoint) -> (r: ZValue)
        ensures
            r.0 == morton(x.0, y.0),
    {
        ZValue::new(x.0, y.0)
    }

    /// A code given by its raw value.
    pub fn from_raw(v: u64) -> (r: ZValue)
        ensures
            r.0 == v,
    {
        ZValue(v)
    }

    /// The bits that carry the X coordinate.
    pub fn x_bits(self) -> (r: u64)
        ensures
            r == self.0 & X_MASK,
    {
        self.0 & X_MASK
    }

    /// The bits that carry the Y coordinate.
    pub fn y_bits(self) -> (r: u64)
        ensures
            r == self.0 & Y_MASK,
    {
        self.0 & Y_MASK
    }

    /// Compares two codes along the X axis alone.
    pub fn cmp_x(self, other: ZValue) -> (r: Ordering)
        ensures
            r == ordering((self.0 & X_MASK) as int, (other.0 & X_MASK) as int),
    {
        compare_u64(self.x_bits(), other.x_bits())
    }

    /// Compares two codes along the Y axis alone.
    pub fn cmp_y(self, other: ZValue) -> (r: Ordering)
        ensures
            r == ordering((self.0 & Y_MASK) as int, (other.0 & Y_MASK) as int),
    {
        compare_u64(self.y_bits(), other.y_bits())
    }
}

fn compare_u64(a: u64, b: u64) -> (r: Ordering)
    ensures
        r == ordering(a as int, b as int),
{
    if a < b {
        Ordering::Less
    } else if a > b {
        Ordering::Greater
    } else {
        Ordering::Equal
    }
}

} // verus!
