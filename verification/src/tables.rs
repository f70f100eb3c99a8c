//! ITU-T G.711 conversion formulas and their mathematical model.

use vstd::arithmetic::power2::*;
use vstd::bits::{lemma_u32_pow2_no_overflow, lemma_u32_shl_is_mul};
use vstd::prelude::*;

verus! {

/// µ-law bias added and removed during segment arithmetic (G.711 §3.2).
pub const MULAW_BIAS: i32 = 0x84;

/// Sign bit (bit 7) of a codeword once the on-wire inversion is undone.
pub open spec fn sign_bit_set(c: u8) -> bool {
    c >= 128
}

/// Segment field (bits 6..4) of a codeword once the on-wire inversion is undone.
pub open spec fn segment_field(c: u8) -> nat {
    ((c / 16) % 8) as nat
}

/// Mantissa field (bits 3..0) of a codeword.
pub open spec fn mantissa_field(c: u8) -> nat {
    (c % 16) as nat
}

/// µ-law reconstruction magnitude for segment `seg`, step `mant`:
/// `(((mant << 3) + 132) << seg) - 132`.
pub open spec fn mulaw_level(seg: nat, mant: nat) -> int {
    (8 * mant + 132) * pow2(seg) - 132
}

/// The linear value the µ-law codeword `b` stands for (G.711 §3, Table 2).
/// On the wire every bit of the sign/segment/mantissa byte is complemented.
pub open spec fn mulaw_decode_spec(b: u8) -> int {
    let c = (255 - b) as u8;
    let mag = mulaw_level(segment_field(c), mantissa_field(c));
    if sign_bit_set(c) {
        -mag
    } else {
        mag
    }
}

/// A-law mask XOR'd onto every byte on the wire (bits 0, 2, 4, 6 inverted).
pub const ALAW_XOR: u8 = 0x55;

/// A-law reconstruction magnitude for segment `seg`, step `mant` (G.711 §2):
/// `(mant << 4) + 8` in segment 0, `((mant << 4) + 0x108) << (seg - 1)` above.
pub open spec fn alaw_level(seg: nat, mant: nat) -> int {
    if seg == 0 {
        (16 * mant + 8) as int
    } else {
        ((16 * mant + 264) * pow2((seg - 1) as nat)) as int
    }
}

/// The linear value the A-law codeword `b` stands for (G.711 §2, Table 1).
/// On the wire the even bits are inverted; a set sign bit means positive.
pub open spec fn alaw_decode_spec(b: u8) -> int {
    let c = b ^ ALAW_XOR;
    let mag = alaw_level(segment_field(c), mantissa_field(c));
    if sign_bit_set(c) {
        mag
    } else {
        -mag
    }
}

/// Segment of a magnitude `x` in `0..32768`: the position of its highest set
/// bit minus 7, or 0 below 256.
pub open spec fn segment_of(x: int) -> nat {
    if x < 256 {
        0
    } else if x < 512 {
        1
    } else if x < 1024 {
        2
    } else if x < 2048 {
        3
    } else if x < 4096 {
        4
    } else if x < 8192 {
        5
    } else if x < 16384 {
        6
    } else {
        7
    }
}

/// Magnitude of a sample.
pub open spec fn magnitude(s: int) -> int {
    if s < 0 {
        -s
    } else {
        s
    }
}

/// µ-law codeword for the linear sample `s` (G.711 §3.2): the magnitude is
/// clipped to 32635, biased by 132, split into segment and the four bits
/// below the segment's top bit, and the sign/segment/mantissa byte is
/// complemented for the wire.
pub open spec fn mulaw_encode_spec(s: int) -> u8 {
    let mag = magnitude(s);
    let biased = (if mag > 32635 {
        32635
    } else {
        mag
    }) + 132;
    let seg = segment_of(biased);
    let mant = (biased / (pow2(seg + 3) as int)) % 16;
    let sign: int = if s < 0 {
        128
    } else {
        0
    };
    (255 - (sign + 16 * seg + mant)) as u8
}

/// A-law codeword for the linear sample `s` (G.711 §2): the magnitude is
/// clipped to 32256, split into segment and mantissa, a non-negative sample
/// gets the sign bit, and the even bits are inverted for the wire.
pub open spec fn alaw_encode_spec(s: int) -> u8 {
    let mag = magnitude(s);
    let clipped = if mag > 32256 {
        32256
    } else {
        mag
    };
    let seg = segment_of(clipped);
    let mant = if seg == 0 {
        (clipped / 16) % 16
    } else {
        (clipped / (pow2(seg + 3) as int)) % 16
    };
    let sign: int = if s < 0 {
        0
    } else {
        128
    };
    ((sign + 16 * seg + mant) as u8) ^ ALAW_XOR
}

/// Per-segment quantisation step of A-law: the mantissa of segment `seg`
/// sits at bits `seg + 4 ..`, so adjacent values are `1 << (seg + 4)` apart.
pub fn alaw_step_bound(seg: u32) -> (r: i32)
    requires
        seg + 4 < 32,
    ensures
        r == pow2((seg + 4) as nat) as i32,
        seg + 4 < 31 ==> r == pow2((seg + 4) as nat),
{
    proof {
        lemma_u32_pow2_no_overflow((seg + 4) as nat);
        lemma_u32_shl_is_mul(1, (seg + 4) as u32);
        if seg + 4 < 30 {
            lemma_pow2_strictly_increases((seg + 4) as nat, 30);
        }
        lemma2_to64();
    }
    #[verifier::truncate]
    ((1u32 << (seg + 4)) as i32)
}

/// Per-segment quantisation step of µ-law: the mantissa of segment `seg`
/// sits at bits `seg + 3 ..`, so adjacent values are `1 << (seg + 3)` apart.
pub fn mulaw_step_bound(seg: u32) -> (r: i32)
    requires
        seg + 3 < 32,
    ensures
        r == pow2((seg + 3) as nat) as i32,
        seg + 3 < 31 ==> r == pow2((seg + 3) as nat),
{
    proof {
        lemma_u32_pow2_no_overflow((seg + 3) as nat);
        lemma_u32_shl_is_mul(1, (seg + 3) as u32);
        if seg + 3 < 30 {
            lemma_pow2_strictly_increases((seg + 3) as nat, 30);
        }
        lemma2_to64();
    }
    #[verifier::truncate]
    ((1u32 << (seg + 3)) as i32)
}

/// Segment of an encoded codeword: undo the on-wire inversion of the law
/// (XOR 0x55 for A-law, complement for µ-law) and read bits 6..4.
pub fn segment_from_byte(byte: u8, alaw_law: bool) -> (r: u32)
    ensures
        r == segment_field(
            if alaw_law {
                byte ^ ALAW_XOR
            } else {
                (255 - byte) as u8
            },
        ),
{
    let unwrapped = if alaw_law {
        byte ^ ALAW_XOR
    } else {
        !byte
    };
    proof {
        lemma_byte_fields(byte);
        lemma_byte_fields(unwrapped);
    }
    ((unwrapped >> 4) & 0x07) as u32
}

/// Bit-field extraction on a byte, in arithmetic terms.
proof fn lemma_byte_fields(b: u8)
    by (bit_vector)
    ensures
        !b == 255 - b,
        (b & 0x80) == 0 <==> b < 128,
        ((b >> 4) & 0x07) == (b / 16) % 8,
        (b & 0x0F) == b % 16,
{
}

/// Left shifts of small non-negative values by 0..8 bits.
proof fn lemma_small_shifts(x: i32, e: u32)
    by (bit_vector)
    requires
        0 <= x < 512,
        e < 8,
    ensures
        e == 0 ==> x << e == x,
        e == 1 ==> x << e == x * 2,
        e == 2 ==> x << e == x * 4,
        e == 3 ==> x << e == x * 8,
        e == 4 ==> x << e == x * 16,
        e == 5 ==> x << e == x * 32,
        e == 6 ==> x << e == x * 64,
        e == 7 ==> x << e == x * 128,
{
}

/// A left shift of a small value by `e < 8` multiplies it by `2^e`.
proof fn lemma_shl_pow2(x: i32, e: u32)
    requires
        0 <= x < 512,
        e < 8,
    ensures
        x << e == x * pow2(e as nat),
{
    lemma_small_shifts(x, e);
    lemma2_to64();
    if e == 0 {
    } else if e == 1 {
    } else if e == 2 {
    } else if e == 3 {
    } else if e == 4 {
    } else if e == 5 {
    } else if e == 6 {
    } else {
    }
}

/// Every reconstruction level lies within the S16 range: µ-law levels in
/// `0..=32124`, A-law levels in `8..=32256`.
pub proof fn lemma_levels_bounded(seg: nat, mant: nat)
    requires
        seg < 8,
        mant < 16,
    ensures
        0 <= mulaw_level(seg, mant) <= 32124,
        8 <= alaw_level(seg, mant) <= 32256,
{
    lemma2_to64();
    if seg == 0 {
    } else if seg == 1 {
        assert(pow2((seg - 1) as nat) == 1);
    } else if seg == 2 {
        assert(pow2((seg - 1) as nat) == 2);
    } else if seg == 3 {
        assert(pow2((seg - 1) as nat) == 4);
    } else if seg == 4 {
        assert(pow2((seg - 1) as nat) == 8);
    } else if seg == 5 {
        assert(pow2((seg - 1) as nat) == 16);
    } else if seg == 6 {
        assert(pow2((seg - 1) as nat) == 32);
    } else {
        assert(pow2((seg - 1) as nat) == 64);
    }
}

/// Decoded linear amplitude for µ-law byte `b`. Range: ±32124.
pub fn mulaw_decode(b: u8) -> (r: i16)
    ensures
        r == mulaw_decode_spec(b),
{
    proof {
        lemma_byte_fields(b);
        lemma_byte_fields(!b);
        lemma2_to64();
    }
    let inv = !b;
    let sign = inv & 0x80;
    let exp = ((inv >> 4) & 0x07) as u32;
    let mant = (inv & 0x0F) as i32;
    proof {
        lemma_small_shifts(mant, 3);
        lemma_shl_pow2((mant * 8 + MULAW_BIAS) as i32, exp);
    }
    let mag = (((mant << 3) + MULAW_BIAS) << exp) - MULAW_BIAS;
    proof {
        lemma_levels_bounded(exp as nat, mant as nat);
    }
    if sign == 0 {
        mag as i16
    } else {
        (-mag) as i16
    }
}

/// Decoded linear amplitude for A-law byte `b`. Range: ±32256.
pub fn alaw_decode(b: u8) -> (r: i16)
    ensures
        r == alaw_decode_spec(b),
{
    let inv = b ^ ALAW_XOR;
    proof {
        lemma_byte_fields(inv);
        lemma2_to64();
    }
    let sign = inv & 0x80;
    let exp = ((inv >> 4) & 0x07) as u32;
    let mant = (inv & 0x0F) as i32;
    proof {
        lemma_small_shifts(mant, 4);
    }
    let mag = if exp == 0 {
        (mant << 4) + 8
    } else {
        proof {
            lemma_shl_pow2((mant * 16 + 0x108) as i32, (exp - 1) as u32);
        }
        ((mant << 4) + 0x108) << (exp - 1)
    };
    proof {
        lemma_levels_bounded(exp as nat, mant as nat);
    }
    if sign != 0 {
        mag as i16
    } else {
        (-mag) as i16
    }
}

/// Testing the single bit `mask` of a value below `2 * mask` compares it
/// with `mask`; halving `mask` is a right shift.
proof fn lemma_mask_test(mag: i32, mask: i32)
    by (bit_vector)
    requires
        mask == 128 || mask == 256 || mask == 512 || mask == 1024 || mask == 2048 || mask == 4096
            || mask == 8192 || mask == 16384,
        0 <= mag < mask * 2,
    ensures
        (mag & mask) == 0 <==> mag < mask,
        mask >> 1 == mask / 2,
{
}

/// The four bits of `mag` starting at bit `sh`, in arithmetic terms.
proof fn lemma_shr_mant(mag: i32, sh: u32)
    by (bit_vector)
    requires
        0 <= mag < 32768,
        3 <= sh <= 10,
    ensures
        sh == 3 ==> (mag >> sh) & 0x0F == (mag / 8) % 16,
        sh == 4 ==> (mag >> sh) & 0x0F == (mag / 16) % 16,
        sh == 5 ==> (mag >> sh) & 0x0F == (mag / 32) % 16,
        sh == 6 ==> (mag >> sh) & 0x0F == (mag / 64) % 16,
        sh == 7 ==> (mag >> sh) & 0x0F == (mag / 128) % 16,
        sh == 8 ==> (mag >> sh) & 0x0F == (mag / 256) % 16,
        sh == 9 ==> (mag >> sh) & 0x0F == (mag / 512) % 16,
        sh == 10 ==> (mag >> sh) & 0x0F == (mag / 1024) % 16,
{
}

/// Or-ing disjoint sign, segment and mantissa fields adds them.
proof fn lemma_compose(sign_bit: u8, seg: u8, mant: u8)
    by (bit_vector)
    requires
        sign_bit == 0 || sign_bit == 0x80,
        seg < 8,
        mant < 16,
    ensures
        sign_bit | (seg << 4) | mant == sign_bit + 16 * seg + mant,
{
}

/// µ-law arithmetic encode, ITU-T G.711 §3.2.
pub fn mulaw_encode_arith(sample: i16) -> (r: u8)
    ensures
        r == mulaw_encode_spec(sample as int),
{
    let mut mag: i32 = sample as i32;
    let sign_bit: u8 = if mag < 0 {
        0x80
    } else {
        0
    };
    if mag < 0 {
        mag = -mag;
    }
    if mag > 32635 {
        mag = 32635;
    }
    mag += MULAW_BIAS;

    let mut seg: u32 = 7;
    let mut mask: i32 = 0x4000;
    proof {
        lemma2_to64();
    }
    while seg > 0 && (mag & mask) == 0
        invariant
            seg <= 7,
            mask as int == pow2((seg + 7) as nat),
            132 <= mag < 32768,
            mag < 2 * mask,
            mag == (if magnitude(sample as int) > 32635 {
                32635
            } else {
                magnitude(sample as int)
            }) + 132,
        decreases seg,
    {
        proof {
            lemma2_to64();
            assert(seg == 1 || seg == 2 || seg == 3 || seg == 4 || seg == 5 || seg == 6 || seg == 7);
            lemma_mask_test(mag, mask);
        }
        seg -= 1;
        mask >>= 1;
    }
    proof {
        assert(seg == 0 || seg == 1 || seg == 2 || seg == 3 || seg == 4 || seg == 5 || seg == 6 || seg == 7);
        lemma_mask_test(mag, mask);
        assert(seg == segment_of(mag as int));
        lemma_shr_mant(mag, (seg + 3) as u32);
    }
    let mantissa = ((mag >> (seg + 3)) & 0x0F) as u8;
    proof {
        lemma_compose(sign_bit, seg as u8, mantissa);
        lemma_byte_fields(sign_bit | ((seg as u8) << 4) | mantissa);
    }
    let byte = sign_bit | ((seg as u8) << 4) | mantissa;
    !byte
}

/// A left shift by one doubles a value below `2^16`.
proof fn lemma_double(x: i32)
    by (bit_vector)
    requires
        0 <= x < 0x10000,
    ensures
        x << 1 == x * 2,
{
}

/// A-law arithmetic encode, ITU-T G.711 §2.
pub fn alaw_encode_arith(sample: i16) -> (r: u8)
    ensures
        r == alaw_encode_spec(sample as int),
{
    let mut mag: i32 = sample as i32;
    let sign_bit: u8 = if mag < 0 {
        0x00
    } else {
        0x80
    };
    if mag < 0 {
        mag = -mag;
    }
    if mag > 32256 {
        mag = 32256;
    }
    proof {
        lemma2_to64();
    }

    let (seg, mant): (u32, u32) = if mag < 256 {
        proof {
            lemma_shr_mant(mag, 4);
        }
        (0, (mag >> 4) as u32 & 0x0F)
    } else {
        let mut seg = 1u32;
        let mut threshold: i32 = 512;
        while seg < 7 && mag >= threshold
            invariant
                1 <= seg <= 7,
                threshold as int == pow2((seg + 8) as nat),
                256 <= mag <= 32256,
                mag >= threshold / 2,
            decreases 7 - seg,
        {
            proof {
                lemma2_to64();
                assert(seg == 1 || seg == 2 || seg == 3 || seg == 4 || seg == 5 || seg == 6);
                lemma_double(threshold);
            }
            seg += 1;
            threshold <<= 1;
        }
        proof {
            assert(seg == 1 || seg == 2 || seg == 3 || seg == 4 || seg == 5 || seg == 6 || seg == 7);
            assert(seg == segment_of(mag as int));
            lemma_shr_mant(mag, (seg + 3) as u32);
        }
        let shift = seg + 3;
        let m = ((mag >> shift) & 0x0F) as u32;
        (seg, m)
    };
    proof {
        lemma_compose(sign_bit, seg as u8, mant as u8);
    }
    let byte = sign_bit | ((seg as u8) << 4) | (mant as u8);
    byte ^ ALAW_XOR
}

} // verus!
