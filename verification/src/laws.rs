//! Properties of the companding laws that hold over their whole domains:
//! sign symmetry, codeword recovery, projection, the decision intervals and
//! the quantisation error bound, monotonicity of the transfer function, the
//! reconstruction lattice and the distinctness of the decoded values, the
//! inputs of the all-zero octet, the stream round trips and cross-law
//! transcodes, and the packet order of the stream encoders.

use crate::alaw::{alaw_decoded_plane, alaw_encoded_plane};
use crate::mulaw::{mulaw_decoded_plane, mulaw_encoded_plane};
use crate::tandem::{lemma_alaw_level_is_by_cases, lemma_mulaw_level_is_by_cases};
use crate::pcm::{le_pair_roundtrip, le_sample, packet_of_frame, EncodedPacket};
use crate::tables::{
    alaw_decode_spec, alaw_encode_spec, alaw_level, lemma_levels_bounded, magnitude, mantissa_field,
    mulaw_decode_spec, mulaw_encode_spec, mulaw_level, segment_field, segment_of, sign_bit_set,
    ALAW_XOR,
};
use vstd::arithmetic::div_mod::lemma_div_is_ordered;
use vstd::arithmetic::mul::lemma_mul_inequality;
use vstd::arithmetic::power2::*;
use vstd::prelude::*;

verus! {

/// A byte is its sign bit, segment field and mantissa field put together.
pub(crate) proof fn lemma_byte_decomposition(c: u8)
    ensures
        c as int == (if sign_bit_set(c) {
            128int
        } else {
            0
        }) + 16 * segment_field(c) + mantissa_field(c),
        segment_field(c) < 8,
        mantissa_field(c) < 16,
{
}

/// The fields of a byte built from a sign, a segment and a mantissa.
pub(crate) proof fn lemma_byte_composition(neg: bool, seg: nat, mant: nat)
    requires
        seg < 8,
        mant < 16,
    ensures
        ({
            let c = ((if neg {
                128int
            } else {
                0
            }) + 16 * seg + mant) as u8;
            &&& sign_bit_set(c) == neg
            &&& segment_field(c) == seg
            &&& mantissa_field(c) == mant
            &&& c as int == (if neg {
                128int
            } else {
                0
            }) + 16 * seg + mant
        }),
{
}

/// Encoding a µ-law reconstruction level recovers its segment and mantissa.
proof fn lemma_mulaw_level_encodes(seg: nat, mant: nat)
    requires
        seg < 8,
        mant < 16,
    ensures
        segment_of(mulaw_level(seg, mant) + 132) == seg,
        ((mulaw_level(seg, mant) + 132) / (pow2(seg + 3) as int)) % 16 == mant,
{
    lemma2_to64();
    let x = mulaw_level(seg, mant) + 132;
    if seg == 0 {
        assert(x == 8 * mant + 132) by (nonlinear_arith)
            requires
                x == (8 * mant + 132) * pow2(seg) - 132 + 132,
                pow2(seg) == 1,
        ;
        assert(x / 8 == mant + 16);
    } else if seg == 1 {
        assert(x == 16 * mant + 264) by (nonlinear_arith)
            requires
                x == (8 * mant + 132) * pow2(seg) - 132 + 132,
                pow2(seg) == 2,
        ;
        assert(x / 16 == mant + 16);
    } else if seg == 2 {
        assert(x == 32 * mant + 528) by (nonlinear_arith)
            requires
                x == (8 * mant + 132) * pow2(seg) - 132 + 132,
                pow2(seg) == 4,
        ;
        assert(x / 32 == mant + 16);
    } else if seg == 3 {
        assert(x == 64 * mant + 1056) by (nonlinear_arith)
            requires
                x == (8 * mant + 132) * pow2(seg) - 132 + 132,
                pow2(seg) == 8,
        ;
        assert(x / 64 == mant + 16);
    } else if seg == 4 {
        assert(x == 128 * mant + 2112) by (nonlinear_arith)
            requires
                x == (8 * mant + 132) * pow2(seg) - 132 + 132,
                pow2(seg) == 16,
        ;
        assert(x / 128 == mant + 16);
    } else if seg == 5 {
        assert(x == 256 * mant + 4224) by (nonlinear_arith)
            requires
                x == (8 * mant + 132) * pow2(seg) - 132 + 132,
                pow2(seg) == 32,
        ;
        assert(x / 256 == mant + 16);
    } else if seg == 6 {
        assert(x == 512 * mant + 8448) by (nonlinear_arith)
            requires
                x == (8 * mant + 132) * pow2(seg) - 132 + 132,
                pow2(seg) == 64,
        ;
        assert(x / 512 == mant + 16);
    } else {
        assert(x == 1024 * mant + 16896) by (nonlinear_arith)
            requires
                x == (8 * mant + 132) * pow2(seg) - 132 + 132,
                pow2(seg) == 128,
        ;
        assert(x / 1024 == mant + 16);
    }
}

/// Decoding then encoding reproduces every µ-law codeword, except the
/// negative-zero codeword `0x7F`: it decodes to 0, which the encoder writes as
/// the positive-zero codeword `0xFF`.
pub proof fn mulaw_decode_encode_roundtrip(b: u8)
    ensures
        mulaw_encode_spec(mulaw_decode_spec(b)) == (if b == 0x7F {
            0xFFu8
        } else {
            b
        }),
{
    let c = (255 - b) as u8;
    let neg = sign_bit_set(c);
    let seg = segment_field(c);
    let mant = mantissa_field(c);
    lemma_byte_decomposition(c);
    lemma_levels_bounded(seg, mant);
    lemma_mulaw_level_encodes(seg, mant);
    let level = mulaw_level(seg, mant);
    let d = mulaw_decode_spec(b);
    assert(magnitude(d) == level);
    lemma2_to64();
    if 16 * seg + mant > 0 {
        mulaw_levels_strictly_increase(0, 0, seg, mant);
        assert(mulaw_level(0, 0) == 0);
    }
    let out_neg = d < 0;
    lemma_byte_composition(out_neg, seg, mant);
}

/// Encoding an A-law reconstruction level recovers its segment and mantissa.
proof fn lemma_alaw_level_encodes(seg: nat, mant: nat)
    requires
        seg < 8,
        mant < 16,
    ensures
        segment_of(alaw_level(seg, mant)) == seg,
        seg == 0 ==> (alaw_level(seg, mant) / 16) % 16 == mant,
        seg > 0 ==> (alaw_level(seg, mant) / (pow2(seg + 3) as int)) % 16 == mant,
{
    lemma2_to64();
    let x = alaw_level(seg, mant);
    if seg == 0 {
        assert(x / 16 == mant);
    } else if seg == 1 {
        assert(pow2((seg - 1) as nat) == 1);
        assert(x == 16 * mant + 264) by (nonlinear_arith)
            requires
                x == (16 * mant + 264) * pow2((seg - 1) as nat),
                pow2((seg - 1) as nat) == 1,
        ;
        assert(x / 16 == mant + 16);
    } else if seg == 2 {
        assert(pow2((seg - 1) as nat) == 2);
        assert(x == 32 * mant + 528) by (nonlinear_arith)
            requires
                x == (16 * mant + 264) * pow2((seg - 1) as nat),
                pow2((seg - 1) as nat) == 2,
        ;
        assert(x / 32 == mant + 16);
    } else if seg == 3 {
        assert(pow2((seg - 1) as nat) == 4);
        assert(x == 64 * mant + 1056) by (nonlinear_arith)
            requires
                x == (16 * mant + 264) * pow2((seg - 1) as nat),
                pow2((seg - 1) as nat) == 4,
        ;
        assert(x / 64 == mant + 16);
    } else if seg == 4 {
        assert(pow2((seg - 1) as nat) == 8);
        assert(x == 128 * mant + 2112) by (nonlinear_arith)
            requires
                x == (16 * mant + 264) * pow2((seg - 1) as nat),
                pow2((seg - 1) as nat) == 8,
        ;
        assert(x / 128 == mant + 16);
    } else if seg == 5 {
        assert(pow2((seg - 1) as nat) == 16);
        assert(x == 256 * mant + 4224) by (nonlinear_arith)
            requires
                x == (16 * mant + 264) * pow2((seg - 1) as nat),
                pow2((seg - 1) as nat) == 16,
        ;
        assert(x / 256 == mant + 16);
    } else if seg == 6 {
        assert(pow2((seg - 1) as nat) == 32);
        assert(x == 512 * mant + 8448) by (nonlinear_arith)
            requires
                x == (16 * mant + 264) * pow2((seg - 1) as nat),
                pow2((seg - 1) as nat) == 32,
        ;
        assert(x / 512 == mant + 16);
    } else {
        assert(pow2((seg - 1) as nat) == 64);
        assert(x == 1024 * mant + 16896) by (nonlinear_arith)
            requires
                x == (16 * mant + 264) * pow2((seg - 1) as nat),
                pow2((seg - 1) as nat) == 64,
        ;
        assert(x / 1024 == mant + 16);
    }
}

/// XOR with the A-law wire mask is an involution and commutes with flipping
/// the sign bit; flipping the sign bit adds or removes 128.
pub(crate) proof fn lemma_xor_facts(b: u8)
    by (bit_vector)
    ensures
        (b ^ 0x55) ^ 0x55 == b,
        (b ^ 0x80) ^ 0x55 == (b ^ 0x55) ^ 0x80,
        b < 128 ==> b ^ 0x80 == b + 128,
        b >= 128 ==> b ^ 0x80 == b - 128,
{
}

/// Decoding then encoding reproduces every A-law codeword.
pub proof fn alaw_decode_encode_roundtrip(b: u8)
    ensures
        alaw_encode_spec(alaw_decode_spec(b)) == b,
{
    let c = b ^ ALAW_XOR;
    let neg = !sign_bit_set(c);
    let seg = segment_field(c);
    let mant = mantissa_field(c);
    lemma_byte_decomposition(c);
    lemma_levels_bounded(seg, mant);
    lemma_alaw_level_encodes(seg, mant);
    lemma2_to64();
    let d = alaw_decode_spec(b);
    assert(magnitude(d) == alaw_level(seg, mant));
    lemma_byte_composition(!neg, seg, mant);
    lemma_xor_facts(b);
}

/// µ-law sign symmetry: a codeword and the codeword with its sign bit
/// flipped decode to exact negatives (both zero codewords decode to 0).
pub proof fn mulaw_sign_symmetry(b: u8)
    ensures
        mulaw_decode_spec(b ^ 0x80) == -mulaw_decode_spec(b),
{
    lemma_xor_facts(b);
    let c = (255 - b) as u8;
    let c2 = (255 - (b ^ 0x80)) as u8;
    lemma_byte_decomposition(c);
    lemma_byte_decomposition(c2);
}

/// A-law sign symmetry: a codeword and the codeword with its sign bit
/// flipped decode to exact negatives.
pub proof fn alaw_sign_symmetry(b: u8)
    ensures
        alaw_decode_spec(b ^ 0x80) == -alaw_decode_spec(b),
{
    lemma_xor_facts(b);
    let c = b ^ ALAW_XOR;
    lemma_xor_facts(c);
    let c2 = (b ^ 0x80) ^ ALAW_XOR;
    lemma_byte_decomposition(c);
    lemma_byte_decomposition(c2);
}

/// The clipped µ-law magnitude of a sample plus the bias: what the
/// encoder searches for a segment.
pub open spec fn mulaw_biased(s: int) -> int {
    (if magnitude(s) > 32635 {
        32635
    } else {
        magnitude(s)
    }) + 132
}

/// The µ-law reconstruction level of the quantisation interval holding the
/// biased magnitude `x`.
pub open spec fn mulaw_requantized(x: int) -> int {
    let seg = segment_of(x);
    mulaw_level(seg, ((x / (pow2(seg + 3) as int)) % 16) as nat)
}

/// µ-law decision intervals (G.711 §3, Table 2): the biased magnitudes that
/// encode to one codeword form the interval `[w * q, w * q + w)`, with
/// `w = 2^(seg + 3)` the step of the segment `seg` of `x` and `q = x / w`,
/// and the codeword's reconstruction level, biased, is the midpoint
/// `w * q + w / 2` of that interval; the error is at most `2^(seg + 2)`.
#[verifier::spinoff_prover]
pub proof fn mulaw_level_at_interval_midpoint(x: int)
    requires
        132 <= x < 32768,
    ensures
        ({
            let seg = segment_of(x);
            let w = pow2(seg + 3) as int;
            &&& w == 8 * pow2(seg)
            &&& 16 <= x / w < 32
            &&& mulaw_requantized(x) == w * (x / w) + w / 2 - 132
            &&& magnitude(mulaw_requantized(x) - (x - 132)) <= pow2(seg + 2)
        }),
{
    lemma2_to64();
    let seg = segment_of(x);
    let mant = ((x / (pow2(seg + 3) as int)) % 16) as nat;
    if seg == 0 {
        assert(pow2(seg) == 1);
        assert(pow2(seg + 3) == 8);
        let q = x / 8;
        assert(16 <= q < 32);
        assert(mant == q - 16);
        assert(mulaw_level(seg, mant) == 8 * q + 4 - 132) by (nonlinear_arith)
            requires
                pow2(seg) == 1,
                mant == q - 16,
        ;
    } else if seg == 1 {
        assert(pow2(seg) == 2);
        assert(pow2(seg + 3) == 16);
        let q = x / 16;
        assert(16 <= q < 32);
        assert(mant == q - 16);
        assert(mulaw_level(seg, mant) == 16 * q + 8 - 132) by (nonlinear_arith)
            requires
                pow2(seg) == 2,
                mant == q - 16,
        ;
    } else if seg == 2 {
        assert(pow2(seg) == 4);
        assert(pow2(seg + 3) == 32);
        let q = x / 32;
        assert(16 <= q < 32);
        assert(mant == q - 16);
        assert(mulaw_level(seg, mant) == 32 * q + 16 - 132) by (nonlinear_arith)
            requires
                pow2(seg) == 4,
                mant == q - 16,
        ;
    } else if seg == 3 {
        assert(pow2(seg) == 8);
        assert(pow2(seg + 3) == 64);
        let q = x / 64;
        assert(16 <= q < 32);
        assert(mant == q - 16);
        assert(mulaw_level(seg, mant) == 64 * q + 32 - 132) by (nonlinear_arith)
            requires
                pow2(seg) == 8,
                mant == q - 16,
        ;
    } else if seg == 4 {
        assert(pow2(seg) == 16);
        assert(pow2(seg + 3) == 128);
        let q = x / 128;
        assert(16 <= q < 32);
        assert(mant == q - 16);
        assert(mulaw_level(seg, mant) == 128 * q + 64 - 132) by (nonlinear_arith)
            requires
                pow2(seg) == 16,
                mant == q - 16,
        ;
    } else if seg == 5 {
        assert(pow2(seg) == 32);
        assert(pow2(seg + 3) == 256);
        let q = x / 256;
        assert(16 <= q < 32);
        assert(mant == q - 16);
        assert(mulaw_level(seg, mant) == 256 * q + 128 - 132) by (nonlinear_arith)
            requires
                pow2(seg) == 32,
                mant == q - 16,
        ;
    } else if seg == 6 {
        assert(pow2(seg) == 64);
        assert(pow2(seg + 3) == 512);
        let q = x / 512;
        assert(16 <= q < 32);
        assert(mant == q - 16);
        assert(mulaw_level(seg, mant) == 512 * q + 256 - 132) by (nonlinear_arith)
            requires
                pow2(seg) == 64,
                mant == q - 16,
        ;
    } else {
        assert(pow2(seg) == 128);
        assert(pow2(seg + 3) == 1024);
        let q = x / 1024;
        assert(16 <= q < 32);
        assert(mant == q - 16);
        assert(mulaw_level(seg, mant) == 1024 * q + 512 - 132) by (nonlinear_arith)
            requires
                pow2(seg) == 128,
                mant == q - 16,
        ;
    }
}

/// Encoding a sample and decoding the codeword reconstructs the sample's
/// quantisation level with the sample's sign.
pub proof fn mulaw_encode_decode_requantizes(s: int)
    ensures
        mulaw_decode_spec(mulaw_encode_spec(s)) == (if s < 0 {
            -mulaw_requantized(mulaw_biased(s))
        } else {
            mulaw_requantized(mulaw_biased(s))
        }),
{
    let x = mulaw_biased(s);
    let seg = segment_of(x);
    let mant = ((x / (pow2(seg + 3) as int)) % 16) as nat;
    lemma_byte_composition(s < 0, seg, mant);
    let v = ((if s < 0 {
        128int
    } else {
        0
    }) + 16 * seg + mant) as u8;
    assert(mulaw_encode_spec(s) == (255 - v) as u8);
    assert((255 - mulaw_encode_spec(s)) as u8 == v);
}

/// Segment widths at least double from one segment to any higher one.
proof fn lemma_width_doubles(seg1: nat, seg2: nat)
    requires
        seg1 < seg2,
    ensures
        pow2(seg2 + 3) >= 2 * pow2(seg1 + 3),
{
    lemma_pow2_unfold(seg1 + 4);
    if seg1 + 4 < seg2 + 3 {
        lemma_pow2_strictly_increases(seg1 + 4, seg2 + 3);
    }
}

/// A level `w * q + w / 2` with `16 <= q < 32` grows with `(w, q)`: the
/// reconstruction levels of two quantisation intervals keep the intervals'
/// order.
proof fn lemma_interval_levels_ordered(w1: int, q1: int, w2: int, q2: int)
    requires
        8 <= w1 <= w2,
        w1 == w2 ==> q1 <= q2,
        w1 < w2 ==> w2 >= 2 * w1 && q2 >= 16,
        0 <= q1 < 32,
        0 <= q2 < 32,
    ensures
        w1 * q1 + w1 / 2 <= w2 * q2 + w2 / 2,
{
    if w1 == w2 {
        lemma_mul_inequality(q1, q2, w1);
    } else {
        lemma_mul_inequality(q1, 31, w1);
        lemma_mul_inequality(16, q2, w2);
    }
}

/// µ-law requantisation is monotone in the biased magnitude.
#[verifier::spinoff_prover]
pub(crate) proof fn lemma_mulaw_requantized_monotone(x1: int, x2: int)
    requires
        132 <= x1 <= x2 < 32768,
    ensures
        0 <= mulaw_requantized(x1) <= mulaw_requantized(x2),
{
    mulaw_level_at_interval_midpoint(x1);
    mulaw_level_at_interval_midpoint(x2);
    let seg1 = segment_of(x1);
    let seg2 = segment_of(x2);
    let w1 = pow2(seg1 + 3) as int;
    let w2 = pow2(seg2 + 3) as int;
    lemma2_to64();
    lemma_pow2_pos(seg1);
    if seg1 == seg2 {
        lemma_div_is_ordered(x1, x2, w1);
    } else {
        lemma_width_doubles(seg1, seg2);
    }
    lemma_interval_levels_ordered(w1, x1 / w1, w2, x2 / w2);
    lemma_mul_inequality(16, x1 / w1, w1);
    assert(w1 >= 8);
    assert(mulaw_requantized(x1) >= 16 * w1 + w1 / 2 - 132);
}

/// µ-law quantisation error (G.711 §3): within the clip range a sample is
/// reconstructed within half an interval of its segment, `2^(seg + 2)`, where
/// `seg` is the segment of its biased magnitude; beyond the clip range
/// (|s| > 32635) it is reconstructed at the peak level ±32124.
pub proof fn mulaw_quantization_error(s: i16)
    ensures
        magnitude(s as int) <= 32635 ==> magnitude(
            mulaw_decode_spec(mulaw_encode_spec(s as int)) - s,
        ) <= pow2(segment_of(magnitude(s as int) + 132) + 2),
        magnitude(s as int) > 32635 ==> magnitude(mulaw_decode_spec(mulaw_encode_spec(s as int)) - s)
            == magnitude(s as int) - 32124,
{
    mulaw_encode_decode_requantizes(s as int);
    mulaw_level_at_interval_midpoint(mulaw_biased(s as int));
    lemma2_to64();
    if magnitude(s as int) > 32635 {
        assert(mulaw_biased(s as int) == 32767);
        assert(segment_of(32767) == 7);
        assert(pow2(segment_of(32767) + 3) == 1024);
        let w = pow2(segment_of(32767) + 3) as int;
        assert(w * (32767int / w) == 31744) by (nonlinear_arith)
            requires
                w == 1024,
        ;
        assert(mulaw_requantized(32767) == 32124);
    }
}

/// The µ-law transfer function, decode after encode, is monotone over the
/// whole S16 range.
pub proof fn mulaw_transfer_monotone(s1: i16, s2: i16)
    requires
        s1 <= s2,
    ensures
        mulaw_decode_spec(mulaw_encode_spec(s1 as int)) <= mulaw_decode_spec(
            mulaw_encode_spec(s2 as int),
        ),
{
    mulaw_encode_decode_requantizes(s1 as int);
    mulaw_encode_decode_requantizes(s2 as int);
    let x1 = mulaw_biased(s1 as int);
    let x2 = mulaw_biased(s2 as int);
    if x1 <= x2 {
        lemma_mulaw_requantized_monotone(x1, x2);
    } else {
        lemma_mulaw_requantized_monotone(x2, x1);
    }
}

/// Re-encoding a reconstructed µ-law sample reproduces its codeword, except
/// that a sample quantised to negative zero (`0x7F`) re-encodes as positive
/// zero (`0xFF`); either way the reconstruction is unchanged, so
/// encode-decode is a projection.
pub proof fn mulaw_requantization_idempotent(s: i16)
    ensures
        mulaw_encode_spec(mulaw_decode_spec(mulaw_encode_spec(s as int))) == (if mulaw_encode_spec(
            s as int,
        ) == 0x7F {
            0xFFu8
        } else {
            mulaw_encode_spec(s as int)
        }),
        mulaw_decode_spec(mulaw_encode_spec(mulaw_decode_spec(mulaw_encode_spec(s as int))))
            == mulaw_decode_spec(mulaw_encode_spec(s as int)),
{
    mulaw_decode_encode_roundtrip(mulaw_encode_spec(s as int));
    lemma2_to64();
    assert(segment_field(128) == 0 && mantissa_field(128) == 0 && sign_bit_set(128));
    assert(segment_field(0) == 0 && mantissa_field(0) == 0 && !sign_bit_set(0));
    assert(mulaw_level(0, 0) == 0);
    assert(mulaw_decode_spec(0x7F) == 0);
    assert(mulaw_decode_spec(0xFF) == 0);
}

/// The µ-law encoder produces the all-zero octet exactly for the samples
/// `-32768 ..= -31612` (sign negative, segment 7, mantissa 15).
pub proof fn mulaw_all_zero_octet_inputs(s: i16)
    ensures
        (mulaw_encode_spec(s as int) == 0) <==> s <= -31612,
{
    let x = mulaw_biased(s as int);
    let seg = segment_of(x);
    let mant = ((x / (pow2(seg + 3) as int)) % 16) as nat;
    mulaw_level_at_interval_midpoint(x);
    lemma_byte_composition(s < 0, seg, mant);
    lemma2_to64();
    let v = (if s < 0 {
        128int
    } else {
        0
    }) + 16 * seg + mant;
    assert(mulaw_encode_spec(s as int) == (255 - v) as u8);
    assert((mulaw_encode_spec(s as int) == 0) <==> v == 255);
    assert(v == 255 <==> (s < 0 && seg == 7 && mant == 15));
    if seg == 7 {
        assert(pow2(seg + 3) == 1024);
        assert(mant == x / 1024 - 16);
    }
    if s <= -31612 {
        assert(x >= 31744);
        assert(seg == 7);
    }
}

/// The clipped A-law magnitude of a sample: what the encoder searches for
/// a segment.
pub open spec fn alaw_clipped(s: int) -> int {
    if magnitude(s) > 32256 {
        32256
    } else {
        magnitude(s)
    }
}

/// Width of the A-law quantisation intervals in segment `seg`: 16 in the
/// two lowest segments, doubling in each segment above.
pub open spec fn alaw_width(seg: nat) -> int {
    if seg == 0 {
        16
    } else {
        pow2(seg + 3) as int
    }
}

/// The A-law reconstruction level of the quantisation interval holding the
/// magnitude `m`.
pub open spec fn alaw_requantized(m: int) -> int {
    let seg = segment_of(m);
    alaw_level(seg, ((m / alaw_width(seg)) % 16) as nat)
}

/// A-law decision intervals (G.711 §2, Table 1): the magnitudes that encode
/// to one codeword form the interval `[w * q, w * q + w)`, with `w` the step
/// of the segment of `m` (16 in the two lowest segments, `2^(seg + 3)`
/// above) and `q = m / w`, and the codeword's reconstruction level is the
/// midpoint `w * q + w / 2` of that interval.
#[verifier::spinoff_prover]
pub proof fn alaw_level_at_interval_midpoint(m: int)
    requires
        0 <= m < 32768,
    ensures
        ({
            let seg = segment_of(m);
            let w = alaw_width(seg);
            &&& seg == 0 ==> w == 16 && 0 <= m / w < 16
            &&& seg > 0 ==> w == pow2(seg + 3) && 16 <= m / w < 32
            &&& alaw_requantized(m) == w * (m / w) + w / 2
            &&& magnitude(alaw_requantized(m) - m) <= w / 2
        }),
{
    lemma2_to64();
    let seg = segment_of(m);
    let mant = ((m / alaw_width(seg)) % 16) as nat;
    if seg == 0 {
        assert(alaw_level(seg, mant) == 16 * (m / 16) + 8);
    } else if seg == 1 {
        assert(pow2(seg + 3) == 16);
        assert(pow2((seg - 1) as nat) == 1);
        let q = m / 16;
        assert(16 <= q < 32);
        assert(mant == q - 16);
        assert(alaw_level(seg, mant) == 16 * q + 8) by (nonlinear_arith)
            requires
                alaw_level(seg, mant) == (16 * mant + 264) * pow2((seg - 1) as nat),
                pow2((seg - 1) as nat) == 1,
                mant == q - 16,
        ;
    } else if seg == 2 {
        assert(pow2(seg + 3) == 32);
        assert(pow2((seg - 1) as nat) == 2);
        let q = m / 32;
        assert(16 <= q < 32);
        assert(mant == q - 16);
        assert(alaw_level(seg, mant) == 32 * q + 16) by (nonlinear_arith)
            requires
                alaw_level(seg, mant) == (16 * mant + 264) * pow2((seg - 1) as nat),
                pow2((seg - 1) as nat) == 2,
                mant == q - 16,
        ;
    } else if seg == 3 {
        assert(pow2(seg + 3) == 64);
        assert(pow2((seg - 1) as nat) == 4);
        let q = m / 64;
        assert(16 <= q < 32);
        assert(mant == q - 16);
        assert(alaw_level(seg, mant) == 64 * q + 32) by (nonlinear_arith)
            requires
                alaw_level(seg, mant) == (16 * mant + 264) * pow2((seg - 1) as nat),
                pow2((seg - 1) as nat) == 4,
                mant == q - 16,
        ;
    } else if seg == 4 {
        assert(pow2(seg + 3) == 128);
        assert(pow2((seg - 1) as nat) == 8);
        let q = m / 128;
        assert(16 <= q < 32);
        assert(mant == q - 16);
        assert(alaw_level(seg, mant) == 128 * q + 64) by (nonlinear_arith)
            requires
                alaw_level(seg, mant) == (16 * mant + 264) * pow2((seg - 1) as nat),
                pow2((seg - 1) as nat) == 8,
                mant == q - 16,
        ;
    } else if seg == 5 {
        assert(pow2(seg + 3) == 256);
        assert(pow2((seg - 1) as nat) == 16);
        let q = m / 256;
        assert(16 <= q < 32);
        assert(mant == q - 16);
        assert(alaw_level(seg, mant) == 256 * q + 128) by (nonlinear_arith)
            requires
                alaw_level(seg, mant) == (16 * mant + 264) * pow2((seg - 1) as nat),
                pow2((seg - 1) as nat) == 16,
                mant == q - 16,
        ;
    } else if seg == 6 {
        assert(pow2(seg + 3) == 512);
        assert(pow2((seg - 1) as nat) == 32);
        let q = m / 512;
        assert(16 <= q < 32);
        assert(mant == q - 16);
        assert(alaw_level(seg, mant) == 512 * q + 256) by (nonlinear_arith)
            requires
                alaw_level(seg, mant) == (16 * mant + 264) * pow2((seg - 1) as nat),
                pow2((seg - 1) as nat) == 32,
                mant == q - 16,
        ;
    } else {
        assert(pow2(seg + 3) == 1024);
        assert(pow2((seg - 1) as nat) == 64);
        let q = m / 1024;
        assert(16 <= q < 32);
        assert(mant == q - 16);
        assert(alaw_level(seg, mant) == 1024 * q + 512) by (nonlinear_arith)
            requires
                alaw_level(seg, mant) == (16 * mant + 264) * pow2((seg - 1) as nat),
                pow2((seg - 1) as nat) == 64,
                mant == q - 16,
        ;
    }
}

/// Encoding a sample and decoding the codeword reconstructs the sample's
/// quantisation level with the sample's sign.
pub proof fn alaw_encode_decode_requantizes(s: int)
    ensures
        alaw_decode_spec(alaw_encode_spec(s)) == (if s < 0 {
            -alaw_requantized(alaw_clipped(s))
        } else {
            alaw_requantized(alaw_clipped(s))
        }),
{
    let m = alaw_clipped(s);
    let seg = segment_of(m);
    let mant = ((m / alaw_width(seg)) % 16) as nat;
    lemma_byte_composition(s >= 0, seg, mant);
    let v = ((if s >= 0 {
        128int
    } else {
        0
    }) + 16 * seg + mant) as u8;
    lemma_xor_facts(v);
    assert(alaw_encode_spec(s) == v ^ ALAW_XOR);
}

/// A-law requantisation is monotone in the magnitude and never below 8.
pub(crate) proof fn lemma_alaw_requantized_monotone(m1: int, m2: int)
    requires
        0 <= m1 <= m2 < 32768,
    ensures
        8 <= alaw_requantized(m1) <= alaw_requantized(m2),
{
    alaw_level_at_interval_midpoint(m1);
    alaw_level_at_interval_midpoint(m2);
    let seg1 = segment_of(m1);
    let seg2 = segment_of(m2);
    let w1 = alaw_width(seg1);
    let w2 = alaw_width(seg2);
    lemma2_to64();
    if w1 == w2 {
        lemma_div_is_ordered(m1, m2, w1);
    } else {
        if seg1 == 0 {
            assert(seg2 >= 2);
            lemma_pow2_strictly_increases(4, seg2 + 3);
        } else {
            lemma_width_doubles(seg1, seg2);
        }
    }
    lemma_interval_levels_ordered(w1, m1 / w1, w2, m2 / w2);
    lemma_mul_inequality(0, m1 / w1, w1);
}

/// A-law quantisation error (G.711 §2): within the clip range a sample is
/// reconstructed within half an interval of its segment (8 in segment 0,
/// `2^(seg + 2)` above); beyond it (|s| > 32256) at the peak level ±32256.
pub proof fn alaw_quantization_error(s: i16)
    ensures
        magnitude(s as int) <= 32256 ==> magnitude(alaw_decode_spec(alaw_encode_spec(s as int)) - s)
            <= (if segment_of(magnitude(s as int)) == 0 {
            8
        } else {
            pow2(segment_of(magnitude(s as int)) + 2) as int
        }),
        magnitude(s as int) > 32256 ==> magnitude(alaw_decode_spec(alaw_encode_spec(s as int)) - s)
            == magnitude(s as int) - 32256,
{
    alaw_encode_decode_requantizes(s as int);
    alaw_level_at_interval_midpoint(alaw_clipped(s as int));
    lemma2_to64();
    let seg = segment_of(magnitude(s as int));
    if magnitude(s as int) <= 32256 && seg > 0 {
        lemma_pow2_unfold(seg + 3);
        lemma_pow2_unfold(seg + 2);
    }
    if magnitude(s as int) > 32256 {
        assert(segment_of(32256) == 7);
        assert(pow2(segment_of(32256) + 3) == 1024);
        let w = alaw_width(7);
        assert(w * (32256int / w) == 31744) by (nonlinear_arith)
            requires
                w == 1024,
        ;
        assert(alaw_requantized(32256) == 32256);
    }
}

/// The A-law transfer function, decode after encode, is monotone over the
/// whole S16 range.
pub proof fn alaw_transfer_monotone(s1: i16, s2: i16)
    requires
        s1 <= s2,
    ensures
        alaw_decode_spec(alaw_encode_spec(s1 as int)) <= alaw_decode_spec(
            alaw_encode_spec(s2 as int),
        ),
{
    alaw_encode_decode_requantizes(s1 as int);
    alaw_encode_decode_requantizes(s2 as int);
    let m1 = alaw_clipped(s1 as int);
    let m2 = alaw_clipped(s2 as int);
    if m1 <= m2 {
        lemma_alaw_requantized_monotone(m1, m2);
    } else {
        lemma_alaw_requantized_monotone(m2, m1);
    }
}

/// Re-encoding a reconstructed A-law sample reproduces its codeword:
/// encode-decode-encode equals encode for every sample.
pub proof fn alaw_requantization_idempotent(s: i16)
    ensures
        alaw_encode_spec(alaw_decode_spec(alaw_encode_spec(s as int))) == alaw_encode_spec(s as int),
{
    alaw_decode_encode_roundtrip(alaw_encode_spec(s as int));
}

/// Every µ-law codeword decodes into `-32124 ..= 32124`, and the two
/// extreme codewords reach the peaks.
pub proof fn mulaw_decode_range(b: u8)
    ensures
        -32124 <= mulaw_decode_spec(b) <= 32124,
        mulaw_decode_spec(0x80) == 32124,
        mulaw_decode_spec(0x00) == -32124,
{
    let c = (255 - b) as u8;
    lemma_byte_decomposition(c);
    lemma_levels_bounded(segment_field(c), mantissa_field(c));
    lemma2_to64();
    assert(segment_field(127) == 7 && mantissa_field(127) == 15 && !sign_bit_set(127));
    assert(segment_field(255) == 7 && mantissa_field(255) == 15 && sign_bit_set(255));
    assert(mulaw_level(7, 15) == 32124);
}

/// Every A-law codeword decodes into `8 ..= 32256` in magnitude (A-law has
/// no zero level), and the two extreme codewords reach the peaks.
pub proof fn alaw_decode_range(b: u8)
    ensures
        8 <= magnitude(alaw_decode_spec(b)) <= 32256,
        alaw_decode_spec(0xAA) == 32256,
        alaw_decode_spec(0x2A) == -32256,
{
    let c = b ^ ALAW_XOR;
    lemma_byte_decomposition(c);
    lemma_levels_bounded(segment_field(c), mantissa_field(c));
    lemma2_to64();
    lemma_xor_facts(0xAA);
    lemma_xor_facts(0x2A);
    assert(0xAAu8 ^ 0x55u8 == 0xFFu8) by (bit_vector);
    assert(0x2Au8 ^ 0x55u8 == 0x7Fu8) by (bit_vector);
    assert(segment_field(0xFF) == 7 && mantissa_field(0xFF) == 15 && sign_bit_set(0xFF));
    assert(segment_field(0x7F) == 7 && mantissa_field(0x7F) == 15 && !sign_bit_set(0x7F));
    assert(pow2((7 - 1) as nat) == 64);
    assert(alaw_level(7, 15) == 32256);
}

/// A µ-law stream round trip, encoder then decoder, reconstructs each
/// interleaved sample exactly as `decode(encode(sample))` does: framing adds
/// nothing and couples no samples.
pub proof fn mulaw_stream_roundtrip(pcm: Seq<u8>)
    requires
        pcm.len() % 2 == 0,
    ensures
        mulaw_decoded_plane(mulaw_encoded_plane(pcm)).len() == pcm.len(),
        forall|i: int|
            0 <= i < pcm.len() / 2 ==> le_sample(
                #[trigger] mulaw_decoded_plane(mulaw_encoded_plane(pcm))[2 * i],
                mulaw_decoded_plane(mulaw_encoded_plane(pcm))[2 * i + 1],
            ) == mulaw_decode_spec(mulaw_encode_spec(le_sample(pcm[2 * i], pcm[2 * i + 1]))),
{
    let out = mulaw_decoded_plane(mulaw_encoded_plane(pcm));
    assert forall|i: int| 0 <= i < pcm.len() / 2 implies le_sample(
        #[trigger] out[2 * i],
        out[2 * i + 1],
    ) == mulaw_decode_spec(mulaw_encode_spec(le_sample(pcm[2 * i], pcm[2 * i + 1]))) by {
        let v = mulaw_decode_spec(mulaw_encoded_plane(pcm)[i]);
        mulaw_decode_range(mulaw_encoded_plane(pcm)[i]);
        le_pair_roundtrip(v);
        assert((2 * i) / 2 == i && (2 * i + 1) / 2 == i);
    }
}

/// An A-law stream round trip, encoder then decoder, reconstructs each
/// interleaved sample exactly as `decode(encode(sample))` does.
pub proof fn alaw_stream_roundtrip(pcm: Seq<u8>)
    requires
        pcm.len() % 2 == 0,
    ensures
        alaw_decoded_plane(alaw_encoded_plane(pcm)).len() == pcm.len(),
        forall|i: int|
            0 <= i < pcm.len() / 2 ==> le_sample(
                #[trigger] alaw_decoded_plane(alaw_encoded_plane(pcm))[2 * i],
                alaw_decoded_plane(alaw_encoded_plane(pcm))[2 * i + 1],
            ) == alaw_decode_spec(alaw_encode_spec(le_sample(pcm[2 * i], pcm[2 * i + 1]))),
{
    let out = alaw_decoded_plane(alaw_encoded_plane(pcm));
    assert forall|i: int| 0 <= i < pcm.len() / 2 implies le_sample(
        #[trigger] out[2 * i],
        out[2 * i + 1],
    ) == alaw_decode_spec(alaw_encode_spec(le_sample(pcm[2 * i], pcm[2 * i + 1]))) by {
        let v = alaw_decode_spec(alaw_encoded_plane(pcm)[i]);
        alaw_decode_range(alaw_encoded_plane(pcm)[i]);
        le_pair_roundtrip(v);
        assert((2 * i) / 2 == i && (2 * i + 1) / 2 == i);
    }
}

/// Cross-law transcoding through the streams, µ-law decoder then A-law
/// encoder, equals the per-codeword conversion `A-encode(µ-decode(b))`.
pub proof fn mulaw_to_alaw_stream_transcode(d: Seq<u8>)
    ensures
        alaw_encoded_plane(mulaw_decoded_plane(d)) == Seq::new(
            d.len(),
            |i: int| alaw_encode_spec(mulaw_decode_spec(d[i])),
        ),
{
    let p = mulaw_decoded_plane(d);
    assert forall|i: int| 0 <= i < d.len() implies #[trigger] alaw_encoded_plane(p)[i]
        == alaw_encode_spec(mulaw_decode_spec(d[i])) by {
        mulaw_decode_range(d[i]);
        le_pair_roundtrip(mulaw_decode_spec(d[i]));
        assert((2 * i) / 2 == i && (2 * i + 1) / 2 == i);
    }
    assert(alaw_encoded_plane(p) =~= Seq::new(
        d.len(),
        |i: int| alaw_encode_spec(mulaw_decode_spec(d[i])),
    ));
}

/// Cross-law transcoding through the streams, A-law decoder then µ-law
/// encoder, equals the per-codeword conversion `µ-encode(A-decode(b))`.
pub proof fn alaw_to_mulaw_stream_transcode(d: Seq<u8>)
    ensures
        mulaw_encoded_plane(alaw_decoded_plane(d)) == Seq::new(
            d.len(),
            |i: int| mulaw_encode_spec(alaw_decode_spec(d[i])),
        ),
{
    let p = alaw_decoded_plane(d);
    assert forall|i: int| 0 <= i < d.len() implies #[trigger] mulaw_encoded_plane(p)[i]
        == mulaw_encode_spec(alaw_decode_spec(d[i])) by {
        alaw_decode_range(d[i]);
        le_pair_roundtrip(alaw_decode_spec(d[i]));
        assert((2 * i) / 2 == i && (2 * i + 1) / 2 == i);
    }
    assert(mulaw_encoded_plane(p) =~= Seq::new(
        d.len(),
        |i: int| mulaw_encode_spec(alaw_decode_spec(d[i])),
    ));
}

/// The µ-law reconstruction lattice: segment `seg` starts at
/// `132 * 2^seg - 132`, its sixteen levels are `2^(seg + 3)` apart, and it
/// ends below the start of the next segment.
pub proof fn mulaw_lattice(seg: nat, mant: nat)
    requires
        seg < 8,
        mant < 15,
    ensures
        mulaw_level(seg, 0) == 132 * pow2(seg) - 132,
        mulaw_level(seg, mant + 1) - mulaw_level(seg, mant) == pow2(seg + 3),
        seg < 7 ==> mulaw_level(seg, 15) < mulaw_level(seg + 1, 0),
{
    lemma_pow2_adds(seg, 3);
    lemma2_to64();
    lemma_pow2_unfold(seg + 1);
    let p = pow2(seg) as int;
    assert((8 * (mant + 1) + 132) * p - (8 * mant + 132) * p == 8 * p) by (nonlinear_arith);
    lemma_pow2_pos(seg);
    assert(mulaw_level(seg, 15) == 252 * p - 132);
    assert(mulaw_level(seg + 1, 0) == 132 * (2 * p) - 132);
}

/// The A-law reconstruction lattice: segment 0 starts at 8 with levels 16
/// apart; segment `seg > 0` starts at `0x108 * 2^(seg - 1)` with levels
/// `2^(seg + 3)` apart; each segment ends below the start of the next.
pub proof fn alaw_lattice(seg: nat, mant: nat)
    requires
        seg < 8,
        mant < 15,
    ensures
        seg == 0 ==> alaw_level(seg, 0) == 8 && alaw_level(seg, mant + 1) - alaw_level(seg, mant)
            == 16,
        seg > 0 ==> alaw_level(seg, 0) == 0x108 * pow2((seg - 1) as nat) && alaw_level(
            seg,
            mant + 1,
        ) - alaw_level(seg, mant) == pow2(seg + 3),
        seg < 7 ==> alaw_level(seg, 15) < alaw_level(seg + 1, 0),
{
    lemma2_to64();
    if seg > 0 {
        let p = pow2((seg - 1) as nat) as int;
        lemma_pow2_adds((seg - 1) as nat, 4);
        assert((seg - 1) as nat + 4 == seg + 3);
        assert((16 * (mant + 1) + 264) * p - (16 * mant + 264) * p == 16 * p) by (nonlinear_arith);
        lemma_pow2_unfold(seg);
        lemma_pow2_pos((seg - 1) as nat);
        assert(504 * p < 264 * (2 * p)) by (nonlinear_arith)
            requires
                p > 0,
        ;
    } else {
        assert(pow2((1 - 1) as nat) == 1);
    }
}

/// Every sample round-trips through µ-law within one quantisation step of
/// the segment its codeword names, `2^(seg + 3)`, plus up to 644 in the
/// saturation band beyond ±32635.
pub proof fn mulaw_error_within_codeword_step(s: i16)
    ensures
        magnitude(mulaw_decode_spec(mulaw_encode_spec(s as int)) - s) <= pow2(
            segment_field((255 - mulaw_encode_spec(s as int)) as u8) + 3,
        ) + (if magnitude(s as int) > 32635 {
            644int
        } else {
            0
        }),
{
    let x = mulaw_biased(s as int);
    let seg = segment_of(x);
    let mant = ((x / (pow2(seg + 3) as int)) % 16) as nat;
    mulaw_level_at_interval_midpoint(x);
    lemma_byte_composition(s < 0, seg, mant);
    mulaw_quantization_error(s);
    lemma_pow2_unfold(seg + 3);
    lemma_pow2_pos(seg + 3);
    assert((255 - mulaw_encode_spec(s as int)) as u8 == ((if s < 0 {
        128int
    } else {
        0
    }) + 16 * seg + mant) as u8);
}

/// Every sample round-trips through A-law within one quantisation step of
/// the segment its codeword names, `2^(seg + 4)`, plus up to 512 in the
/// saturation band beyond ±32256.
pub proof fn alaw_error_within_codeword_step(s: i16)
    ensures
        magnitude(alaw_decode_spec(alaw_encode_spec(s as int)) - s) <= pow2(
            segment_field(alaw_encode_spec(s as int) ^ ALAW_XOR) + 4,
        ) + (if magnitude(s as int) > 32256 {
            512int
        } else {
            0
        }),
{
    let m = alaw_clipped(s as int);
    let seg = segment_of(m);
    let mant = ((m / alaw_width(seg)) % 16) as nat;
    let v = ((if s >= 0 {
        128int
    } else {
        0
    }) + 16 * seg + mant) as u8;
    alaw_level_at_interval_midpoint(m);
    lemma_byte_composition(s >= 0, seg, mant);
    lemma_xor_facts(v);
    assert(alaw_encode_spec(s as int) ^ ALAW_XOR == v);
    alaw_quantization_error(s);
    lemma2_to64();
    lemma_pow2_unfold(seg + 4);
    lemma_pow2_unfold(seg + 3);
    lemma_pow2_pos(seg + 2);
}

/// One accepted frame: the encoder queue `queues[k + 1]` is `queues[k]` with
/// the packet of frame `k` (codewords, samples per channel, timestamp) added
/// at the back, as `send_frame` ensures.
pub open spec fn send_step(
    queues: Seq<Seq<EncodedPacket>>,
    frames: Seq<(Seq<u8>, u32, Option<i64>)>,
    k: int,
) -> bool {
    &&& queues[k + 1].len() == queues[k].len() + 1
    &&& queues[k + 1].drop_last() == queues[k]
    &&& packet_of_frame(queues[k + 1].last(), frames[k].0, frames[k].1, frames[k].2)
}

/// One successful receive: `received[j]` is the front of the encoder queue
/// `drained[j]`, and `drained[j + 1]` is the rest, as `receive_packet`
/// ensures.
pub open spec fn receive_step(
    drained: Seq<Seq<EncodedPacket>>,
    received: Seq<EncodedPacket>,
    j: int,
) -> bool {
    &&& drained[j].len() > 0
    &&& received[j] == drained[j][0]
    &&& drained[j + 1] == drained[j].drop_first()
}

/// After `i` accepted frames the queue holds exactly their packets, in order.
proof fn lemma_queue_after_sends(
    queues: Seq<Seq<EncodedPacket>>,
    frames: Seq<(Seq<u8>, u32, Option<i64>)>,
    i: int,
)
    requires
        queues.len() == frames.len() + 1,
        queues[0].len() == 0,
        forall|k: int| 0 <= k < frames.len() ==> #[trigger] send_step(queues, frames, k),
        0 <= i <= frames.len(),
    ensures
        queues[i].len() == i,
        forall|k: int|
            0 <= k < i ==> packet_of_frame(
                #[trigger] queues[i][k],
                frames[k].0,
                frames[k].1,
                frames[k].2,
            ),
    decreases i,
{
    if i > 0 {
        lemma_queue_after_sends(queues, frames, i - 1);
        let prev = queues[i - 1];
        let cur = queues[i];
        assert(send_step(queues, frames, i - 1));
        assert(queues[(i - 1) + 1] == cur);
        assert forall|k: int| 0 <= k < i implies packet_of_frame(
            #[trigger] cur[k],
            frames[k].0,
            frames[k].1,
            frames[k].2,
        ) by {
            if k < i - 1 {
                assert(cur.drop_last()[k] == cur[k]);
                assert(prev[k] == cur[k]);
            }
        }
    }
}

/// After `j` successful receives the queue is what is left after the first
/// `j` packets, and those were returned in order.
proof fn lemma_queue_after_receives(
    start: Seq<EncodedPacket>,
    drained: Seq<Seq<EncodedPacket>>,
    received: Seq<EncodedPacket>,
    j: int,
)
    requires
        drained.len() == received.len() + 1,
        drained[0] == start,
        forall|m: int| 0 <= m < received.len() ==> #[trigger] receive_step(drained, received, m),
        0 <= j <= received.len(),
    ensures
        j <= start.len(),
        drained[j] == start.subrange(j, start.len() as int),
        forall|m: int| 0 <= m < j ==> #[trigger] received[m] == start[m],
    decreases j,
{
    if j > 0 {
        lemma_queue_after_receives(start, drained, received, j - 1);
        assert(receive_step(drained, received, j - 1));
        assert(drained[(j - 1) + 1] == drained[j - 1].drop_first());
        assert(drained[j] =~= start.subrange(j, start.len() as int));
    }
}

/// Encoder packet order: frames accepted one after another by an encoder
/// whose queue was empty come back from `receive_packet` in the order they
/// were sent, one packet per frame, none lost or repeated, and the queue is
/// empty once all of them have been received. `queues[i]` is the queue after
/// `i` accepted frames, `frames[i]` the codewords, samples per channel and
/// timestamp of frame `i`; `drained[j]` is the queue after `j` successful
/// `receive_packet` calls and `received[j]` the packet the call returned.
/// Each step is the one that `send_frame` and `receive_packet` ensure.
pub proof fn encoder_packets_fifo(
    queues: Seq<Seq<EncodedPacket>>,
    frames: Seq<(Seq<u8>, u32, Option<i64>)>,
    drained: Seq<Seq<EncodedPacket>>,
    received: Seq<EncodedPacket>,
)
    requires
        queues.len() == frames.len() + 1,
        queues[0].len() == 0,
        forall|i: int| 0 <= i < frames.len() ==> #[trigger] send_step(queues, frames, i),
        drained.len() == received.len() + 1,
        drained[0] == queues.last(),
        forall|j: int| 0 <= j < received.len() ==> #[trigger] receive_step(drained, received, j),
    ensures
        received.len() <= frames.len(),
        forall|j: int|
            0 <= j < received.len() ==> packet_of_frame(
                #[trigger] received[j],
                frames[j].0,
                frames[j].1,
                frames[j].2,
            ),
        forall|j: int|
            0 <= j < received.len() ==> {
                &&& (#[trigger] received[j]).data@ == frames[j].0
                &&& received[j].pts == frames[j].2
                &&& received[j].duration == Some(frames[j].1 as i64)
            },
        received.len() == frames.len() ==> drained.last().len() == 0,
{
    let n = frames.len() as int;
    lemma_queue_after_sends(queues, frames, n);
    let q = queues[n];
    assert(queues.last() == q);
    lemma_queue_after_receives(q, drained, received, received.len() as int);
    assert forall|j: int| 0 <= j < received.len() implies packet_of_frame(
        #[trigger] received[j],
        frames[j].0,
        frames[j].1,
        frames[j].2,
    ) by {
        assert(received[j] == q[j]);
    }
}

/// µ-law reconstruction levels in code order (G.711 Table 2): the 128
/// magnitudes `mulaw_level(seg, mant)`, taken in the order of the 7-bit code
/// `16 * seg + mant`, strictly increase, so all 128 are distinct.
pub proof fn mulaw_levels_strictly_increase(seg1: nat, mant1: nat, seg2: nat, mant2: nat)
    requires
        seg1 < 8,
        mant1 < 16,
        seg2 < 8,
        mant2 < 16,
        16 * seg1 + mant1 < 16 * seg2 + mant2,
    ensures
        mulaw_level(seg1, mant1) < mulaw_level(seg2, mant2),
{
    lemma_mulaw_level_is_by_cases(seg1, mant1);
    lemma_mulaw_level_is_by_cases(seg2, mant2);
}

/// A-law reconstruction levels in code order (G.711 Table 1): the 128
/// magnitudes `alaw_level(seg, mant)`, taken in the order of the 7-bit code
/// `16 * seg + mant`, strictly increase, so all 128 are distinct.
pub proof fn alaw_levels_strictly_increase(seg1: nat, mant1: nat, seg2: nat, mant2: nat)
    requires
        seg1 < 8,
        mant1 < 16,
        seg2 < 8,
        mant2 < 16,
        16 * seg1 + mant1 < 16 * seg2 + mant2,
    ensures
        alaw_level(seg1, mant1) < alaw_level(seg2, mant2),
{
    lemma_alaw_level_is_by_cases(seg1, mant1);
    lemma_alaw_level_is_by_cases(seg2, mant2);
}

/// Two different µ-law codewords decode to different values, except the two
/// codewords of digital zero, `0x7F` and `0xFF`, which both decode to 0.
pub proof fn mulaw_decode_distinct(b1: u8, b2: u8)
    requires
        b1 != b2,
    ensures
        mulaw_decode_spec(b1) == mulaw_decode_spec(b2) <==> (b1 == 0x7F && b2 == 0xFF) || (b1
            == 0xFF && b2 == 0x7F),
{
    let c1 = (255 - b1) as u8;
    let c2 = (255 - b2) as u8;
    lemma_byte_decomposition(c1);
    lemma_byte_decomposition(c2);
    let (s1, m1) = (segment_field(c1), mantissa_field(c1));
    let (s2, m2) = (segment_field(c2), mantissa_field(c2));
    lemma_levels_bounded(s1, m1);
    lemma_levels_bounded(s2, m2);
    if 16 * s1 + m1 < 16 * s2 + m2 {
        mulaw_levels_strictly_increase(s1, m1, s2, m2);
    } else if 16 * s2 + m2 < 16 * s1 + m1 {
        mulaw_levels_strictly_increase(s2, m2, s1, m1);
    }
    if 16 * s1 + m1 > 0 {
        mulaw_levels_strictly_increase(0, 0, s1, m1);
    }
    if 16 * s2 + m2 > 0 {
        mulaw_levels_strictly_increase(0, 0, s2, m2);
    }
    lemma2_to64();
    assert(mulaw_level(0, 0) == 0);
}

/// All 256 A-law codewords decode to pairwise different values, none of
/// them 0.
pub proof fn alaw_decode_distinct(b1: u8, b2: u8)
    ensures
        alaw_decode_spec(b1) != 0,
        b1 != b2 ==> alaw_decode_spec(b1) != alaw_decode_spec(b2),
{
    let c1 = b1 ^ ALAW_XOR;
    let c2 = b2 ^ ALAW_XOR;
    lemma_xor_facts(b1);
    lemma_xor_facts(b2);
    lemma_byte_decomposition(c1);
    lemma_byte_decomposition(c2);
    let (s1, m1) = (segment_field(c1), mantissa_field(c1));
    let (s2, m2) = (segment_field(c2), mantissa_field(c2));
    lemma_levels_bounded(s1, m1);
    lemma_levels_bounded(s2, m2);
    if 16 * s1 + m1 < 16 * s2 + m2 {
        alaw_levels_strictly_increase(s1, m1, s2, m2);
    } else if 16 * s2 + m2 < 16 * s1 + m1 {
        alaw_levels_strictly_increase(s2, m2, s1, m1);
    }
}

} // verus!
