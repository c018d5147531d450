//! Compact per-pixel encoding of (root index, convergence fraction).
//!
//! The fraction produced by root polishing lies in [0, 1). Its IEEE 754
//! single-precision bit pattern is [sign:1][exponent:8][mantissa:23]; because
//! the value is in [0, 1), the sign is zero and the exponent is at most 126,
//! so the high five exponent bits can be reconstructed instead of stored.
//! A pixel packs [root index:4][exponent low bits:3][mantissa high bits:9]
//! into 16 bits. This module works on the raw bit patterns (`u32`), which is
//! all the packing ever inspects; turning a fraction into its bit pattern and
//! back is the caller's side of the boundary.
use vstd::prelude::*;

verus! {

/// Bits reserved for the root index: enough for 16 roots.
pub const INDEX_SIZE: u32 = 4;

/// Bits reserved for the truncated fraction representation.
pub const FRACT_SIZE: u32 = 16 - INDEX_SIZE;

/// Exponent bits kept from the fraction's bit pattern.
pub const EXP_BITS: u32 = 3;

/// How far the kept fraction bits sit above bit 0 of the bit pattern.
pub const FRACT_SHIFT: u32 = 23 - FRACT_SIZE + EXP_BITS;

/// Exponent bits reconstructed on decode: 0x78 << 23.
pub const EXP_MASK_OR: u32 = 0x3C00_0000;

/// The low `n` bits set.
pub open spec fn mask_spec(n: u32) -> u32
    recommends
        n < 32,
{
    ((1u64 << n) - 1) as u32
}

/// The low `n` bits set, as an executable value.
pub fn mask(n: u32) -> (r: u32)
    requires
        n < 32,
    ensures
        r == mask_spec(n),
{
    proof {
        assert(1u64 <= (1u64 << n) && (1u64 << n) <= 0x1_0000_0000) by (bit_vector)
            requires
                n < 32,
        ;
    }
    let p: u64 = 1u64 << n;
    (p - 1) as u32
}

/// One rendered sample: a root index and a truncated fraction in 16 bits.
#[derive(Clone, Copy, PartialEq, Eq, Structural, Debug)]
pub struct PixelData(pub u16);

/// The unpacked form of a pixel: which root, and the bit pattern of the
/// reconstructed convergence fraction.
#[derive(Clone, Copy, PartialEq, Eq, Structural, Debug)]
pub struct PixelDataDetail {
    pub root_index: usize,
    pub frac_bits: u32,
}

/// The packed 16-bit value for a root index (low four bits used) and a
/// fraction bit pattern.
pub open spec fn encode_spec(root_index: u32, frac_bits: u32) -> u16 {
    (((root_index & 0xF) << 12) | ((frac_bits >> 14) & 0xFFF)) as u16
}

/// The root index stored in a packed pixel.
pub open spec fn decode_root_spec(v: u16) -> u32 {
    (v >> 12) as u32
}

/// The fraction bit pattern reconstructed from a packed pixel.
pub open spec fn decode_frac_spec(v: u16) -> u32 {
    (((v as u32) & 0xFFF) << 14) | 0x3C00_0000
}

impl PixelData {
    /// Pack a root index and a fraction bit pattern. A root index of 16 or
    /// more is truncated to its low four bits, never rejected.
    pub fn encode(root_index: usize, frac_bits: u32) -> (r: PixelData)
        ensures
            r.0 == encode_spec((root_index % 16) as u32, frac_bits),
    {
        let idx: u32 = (root_index % 16) as u32;
        let v_root: u32 = (idx & 0xF) << 12u32;
        let v_frac: u32 = (frac_bits >> 14u32) & 0xFFF;
        proof {
            assert(((idx & 0xF) << 12u32) | ((frac_bits >> 14u32) & 0xFFF) < 0x1_0000
                && (((idx & 0xF) << 12u32) | ((frac_bits >> 14u32) & 0xFFF)) & 0xFFFF
                    == ((idx & 0xF) << 12u32) | ((frac_bits >> 14u32) & 0xFFF)) by (bit_vector)
                requires
                    idx < 16,
            ;
        }
        PixelData((v_root | v_frac) as u16)
    }

    /// Unpack a pixel. The root index always lies below 16; the fraction bit
    /// pattern always carries the reconstructed exponent prefix.
    pub fn decode(self) -> (r: PixelDataDetail)
        ensures
            r.root_index == decode_root_spec(self.0) as usize,
            r.root_index < 16,
            r.frac_bits == decode_frac_spec(self.0),
    {
        proof {
            let v = self.0;
            assert((v >> 12) < 16) by (bit_vector);
        }
        let root_index: usize = (self.0 >> 12u16) as usize;
        let frac_bits: u32 = (((self.0 as u32) & 0xFFF) << 14u32) | 0x3C00_0000;
        PixelDataDetail { root_index, frac_bits }
    }
}

impl Default for PixelData {
    /// The all-zero pixel used to fill fresh buffers.
    fn default() -> (r: Self)
        ensures
            r.0 == 0,
    {
        PixelData(0)
    }
}

/// Decoding an encoded pixel recovers the root index exactly, for every root
/// index the four-bit field can hold and every fraction bit pattern.
pub proof fn lemma_encode_decode_root(root_index: u32, frac_bits: u32)
    requires
        root_index < 16,
    ensures
        decode_root_spec(encode_spec(root_index, frac_bits)) == root_index,
{
    assert(((((root_index & 0xF) << 12) | ((frac_bits >> 14) & 0xFFF)) as u16 >> 12) as u32
        == root_index) by (bit_vector)
        requires
            root_index < 16,
    ;
}

/// Decoding an encoded pixel recovers the fraction's bit pattern up to the
/// truncated low 14 mantissa bits, whenever the fraction lies in [2^-7, 1):
/// exactly the bit patterns between 0x3C000000 and 0x3F800000. The decoded
/// pattern is the original with its low 14 bits cleared, so the decoded
/// fraction sits within one part in 2^9 below the original. Patterns below
/// 2^-7 (fractions that converged almost instantly) lose their exponent and
/// do not round-trip.
pub proof fn lemma_encode_decode_frac(root_index: u32, frac_bits: u32)
    requires
        0x3C00_0000 <= frac_bits < 0x3F80_0000,
    ensures
        decode_frac_spec(encode_spec(root_index, frac_bits)) == frac_bits & 0xFFFF_C000,
        frac_bits & 0xFFFF_C000 <= frac_bits,
        frac_bits < (frac_bits & 0xFFFF_C000) + 0x4000,
{
    assert({
        let v = (((root_index & 0xF) << 12) | ((frac_bits >> 14) & 0xFFF)) as u16;
        ((((v as u32) & 0xFFF) << 14) | 0x3C00_0000) == frac_bits & 0xFFFF_C000
    } && frac_bits & 0xFFFF_C000 <= frac_bits
        && frac_bits < (frac_bits & 0xFFFF_C000) + 0x4000) by (bit_vector)
        requires
            0x3C00_0000 <= frac_bits < 0x3F80_0000,
    ;
}

/// With k roots known (k at most 16), every pixel encoded from a root index
/// below k decodes to a root index below k: a rendered row never points
/// outside the root set.
pub proof fn lemma_decoded_index_in_root_set(root_index: u32, frac_bits: u32, k: u32)
    requires
        k <= 16,
        root_index < k,
    ensures
        decode_root_spec(encode_spec(root_index, frac_bits)) < k,
{
    lemma_encode_decode_root(root_index, frac_bits);
}

} // verus!
