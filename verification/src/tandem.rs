//! Tandem µ ↔ A conversion: which codewords a round trip across the law
//! boundary changes, and that a further crossing lands on the same codeword.

use crate::laws::{
    alaw_clipped, alaw_encode_decode_requantizes, alaw_level_at_interval_midpoint,
    alaw_requantized, alaw_width, lemma_byte_decomposition, lemma_xor_facts, mulaw_biased,
    mulaw_encode_decode_requantizes, mulaw_level_at_interval_midpoint, mulaw_requantized,
};
use crate::tables::{
    alaw_decode_spec, alaw_encode_spec, alaw_level, lemma_levels_bounded, magnitude,
    mantissa_field, mulaw_decode_spec, mulaw_encode_spec, mulaw_level, segment_field,
    segment_of, sign_bit_set, ALAW_XOR,
};
use vstd::arithmetic::power2::*;
use vstd::prelude::*;

verus! {

/// µ-law requantisation of a biased magnitude, segment by segment.
spec fn mulaw_requantized_by_cases(x: int) -> int {
    if x < 256 {
        8 * (x / 8) + 4 - 132
    } else if x < 512 {
        16 * (x / 16) + 8 - 132
    } else if x < 1024 {
        32 * (x / 32) + 16 - 132
    } else if x < 2048 {
        64 * (x / 64) + 32 - 132
    } else if x < 4096 {
        128 * (x / 128) + 64 - 132
    } else if x < 8192 {
        256 * (x / 256) + 128 - 132
    } else if x < 16384 {
        512 * (x / 512) + 256 - 132
    } else {
        1024 * (x / 1024) + 512 - 132
    }
}

/// Segment and mantissa of the µ-law codeword of a biased magnitude, as the
/// number `16 * seg + mant`.
spec fn mulaw_code_by_cases(x: int) -> int {
    if x < 256 {
        0 + x / 8 - 16
    } else if x < 512 {
        16 + x / 16 - 16
    } else if x < 1024 {
        32 + x / 32 - 16
    } else if x < 2048 {
        48 + x / 64 - 16
    } else if x < 4096 {
        64 + x / 128 - 16
    } else if x < 8192 {
        80 + x / 256 - 16
    } else if x < 16384 {
        96 + x / 512 - 16
    } else {
        112 + x / 1024 - 16
    }
}

/// A-law requantisation of a magnitude, segment by segment.
spec fn alaw_requantized_by_cases(m: int) -> int {
    if m < 256 {
        16 * (m / 16) + 8
    } else if m < 512 {
        16 * (m / 16) + 8
    } else if m < 1024 {
        32 * (m / 32) + 16
    } else if m < 2048 {
        64 * (m / 64) + 32
    } else if m < 4096 {
        128 * (m / 128) + 64
    } else if m < 8192 {
        256 * (m / 256) + 128
    } else if m < 16384 {
        512 * (m / 512) + 256
    } else {
        1024 * (m / 1024) + 512
    }
}

/// Segment and mantissa of the A-law codeword of a magnitude, as the number
/// `16 * seg + mant`.
spec fn alaw_code_by_cases(m: int) -> int {
    if m < 256 {
        m / 16
    } else if m < 512 {
        16 + m / 16 - 16
    } else if m < 1024 {
        32 + m / 32 - 16
    } else if m < 2048 {
        48 + m / 64 - 16
    } else if m < 4096 {
        64 + m / 128 - 16
    } else if m < 8192 {
        80 + m / 256 - 16
    } else if m < 16384 {
        96 + m / 512 - 16
    } else {
        112 + m / 1024 - 16
    }
}

proof fn lemma_mulaw_by_cases(x: int)
    requires
        132 <= x < 32768,
    ensures
        mulaw_requantized(x) == mulaw_requantized_by_cases(x),
        16 * segment_of(x) + (x / (pow2(segment_of(x) + 3) as int)) % 16 == mulaw_code_by_cases(x),
{
    mulaw_level_at_interval_midpoint(x);
    lemma2_to64();
    let seg = segment_of(x);
    let w = pow2(seg + 3) as int;
    if seg == 0 {
        assert(w == 8);
        assert(w * (x / w) == 8 * (x / 8)) by (nonlinear_arith)
            requires
                w == 8,
        ;
    } else if seg == 1 {
        assert(w == 16);
        assert(w * (x / w) == 16 * (x / 16)) by (nonlinear_arith)
            requires
                w == 16,
        ;
    } else if seg == 2 {
        assert(w == 32);
        assert(w * (x / w) == 32 * (x / 32)) by (nonlinear_arith)
            requires
                w == 32,
        ;
    } else if seg == 3 {
        assert(w == 64);
        assert(w * (x / w) == 64 * (x / 64)) by (nonlinear_arith)
            requires
                w == 64,
        ;
    } else if seg == 4 {
        assert(w == 128);
        assert(w * (x / w) == 128 * (x / 128)) by (nonlinear_arith)
            requires
                w == 128,
        ;
    } else if seg == 5 {
        assert(w == 256);
        assert(w * (x / w) == 256 * (x / 256)) by (nonlinear_arith)
            requires
                w == 256,
        ;
    } else if seg == 6 {
        assert(w == 512);
        assert(w * (x / w) == 512 * (x / 512)) by (nonlinear_arith)
            requires
                w == 512,
        ;
    } else {
        assert(w == 1024);
        assert(w * (x / w) == 1024 * (x / 1024)) by (nonlinear_arith)
            requires
                w == 1024,
        ;
    }
}

proof fn lemma_alaw_by_cases(m: int)
    requires
        0 <= m < 32768,
    ensures
        alaw_requantized(m) == alaw_requantized_by_cases(m),
        16 * segment_of(m) + (m / alaw_width(segment_of(m))) % 16 == alaw_code_by_cases(m),
{
    alaw_level_at_interval_midpoint(m);
    lemma2_to64();
    let seg = segment_of(m);
    let w = alaw_width(seg);
    if seg == 0 {
        assert(w == 16);
        assert(w * (m / w) == 16 * (m / 16)) by (nonlinear_arith)
            requires
                w == 16,
        ;
    } else if seg == 1 {
        assert(w == 16);
        assert(w * (m / w) == 16 * (m / 16)) by (nonlinear_arith)
            requires
                w == 16,
        ;
    } else if seg == 2 {
        assert(w == 32);
        assert(w * (m / w) == 32 * (m / 32)) by (nonlinear_arith)
            requires
                w == 32,
        ;
    } else if seg == 3 {
        assert(w == 64);
        assert(w * (m / w) == 64 * (m / 64)) by (nonlinear_arith)
            requires
                w == 64,
        ;
    } else if seg == 4 {
        assert(w == 128);
        assert(w * (m / w) == 128 * (m / 128)) by (nonlinear_arith)
            requires
                w == 128,
        ;
    } else if seg == 5 {
        assert(w == 256);
        assert(w * (m / w) == 256 * (m / 256)) by (nonlinear_arith)
            requires
                w == 256,
        ;
    } else if seg == 6 {
        assert(w == 512);
        assert(w * (m / w) == 512 * (m / 512)) by (nonlinear_arith)
            requires
                w == 512,
        ;
    } else {
        assert(w == 1024);
        assert(w * (m / w) == 1024 * (m / 1024)) by (nonlinear_arith)
            requires
                w == 1024,
        ;
    }
}

/// µ-law reconstruction magnitude of segment `k`, step `mant`, written out
/// segment by segment: `(8 * mant + 132) * 2^k - 132`.
pub(crate) open spec fn mulaw_level_by_cases(k: nat, mant: int) -> int {
    if k == 0 {
        8 * mant
    } else if k == 1 {
        16 * mant + 132
    } else if k == 2 {
        32 * mant + 396
    } else if k == 3 {
        64 * mant + 924
    } else if k == 4 {
        128 * mant + 1980
    } else if k == 5 {
        256 * mant + 4092
    } else if k == 6 {
        512 * mant + 8316
    } else {
        1024 * mant + 16764
    }
}

/// A µ-law level taken through the A-law quantiser and back through the
/// µ-law quantiser keeps its A-law code.
proof fn lemma_mulaw_level_tandem(k: nat, mant: int)
    requires
        k < 8,
        0 <= mant < 16,
    ensures
        ({
            let l = mulaw_level_by_cases(k, mant);
            let y = alaw_requantized_by_cases(l);
            let z = mulaw_requantized_by_cases(y + 132);
            &&& 8 <= y <= 32256
            &&& 8 <= z <= 32124
            &&& alaw_code_by_cases(z) == alaw_code_by_cases(l)
        }),
{
    if k == 0 {
    } else if k == 1 {
    } else if k == 2 {
    } else if k == 3 {
    } else if k == 4 {
    } else if k == 5 {
    } else if k == 6 {
    } else {
    }
}

/// A-law reconstruction magnitude of segment `k`, step `mant`, written out
/// segment by segment: `16 * mant + 8`, then `(16 * mant + 264) * 2^(k - 1)`.
pub(crate) open spec fn alaw_level_by_cases(k: nat, mant: int) -> int {
    if k == 0 {
        16 * mant + 8
    } else if k == 1 {
        16 * mant + 264
    } else if k == 2 {
        32 * mant + 528
    } else if k == 3 {
        64 * mant + 1056
    } else if k == 4 {
        128 * mant + 2112
    } else if k == 5 {
        256 * mant + 4224
    } else if k == 6 {
        512 * mant + 8448
    } else {
        1024 * mant + 16896
    }
}

/// An A-law level taken through the µ-law quantiser and back through the
/// A-law quantiser keeps its µ-law code.
proof fn lemma_alaw_level_tandem(k: nat, mant: int)
    requires
        k < 8,
        0 <= mant < 16,
    ensures
        ({
            let p = alaw_level_by_cases(k, mant);
            let w = mulaw_requantized_by_cases(p + 132);
            &&& 8 <= w <= 32124
            &&& 8 <= alaw_requantized_by_cases(w) <= 32256
            &&& mulaw_code_by_cases(alaw_requantized_by_cases(w) + 132)
                == mulaw_code_by_cases(p + 132)
        }),
{
    if k == 0 {
    } else if k == 1 {
    } else if k == 2 {
    } else if k == 3 {
    } else if k == 4 {
    } else if k == 5 {
    } else if k == 6 {
    } else {
    }
}

pub(crate) proof fn lemma_mulaw_level_is_by_cases(k: nat, mant: nat)
    requires
        k < 8,
        mant < 16,
    ensures
        mulaw_level(k, mant) == mulaw_level_by_cases(k, mant as int),
{
    lemma2_to64();
    let p = pow2(k) as int;
    assert(mulaw_level(k, mant) == (8 * mant + 132) * p - 132);
    if k == 0 {
        assert((8 * mant + 132) * p == 8 * mant + 132) by (nonlinear_arith) requires p == 1;
    } else if k == 1 {
        assert((8 * mant + 132) * p == 16 * mant + 264) by (nonlinear_arith) requires p == 2;
    } else if k == 2 {
        assert((8 * mant + 132) * p == 32 * mant + 528) by (nonlinear_arith) requires p == 4;
    } else if k == 3 {
        assert((8 * mant + 132) * p == 64 * mant + 1056) by (nonlinear_arith) requires p == 8;
    } else if k == 4 {
        assert((8 * mant + 132) * p == 128 * mant + 2112) by (nonlinear_arith) requires p == 16;
    } else if k == 5 {
        assert((8 * mant + 132) * p == 256 * mant + 4224) by (nonlinear_arith) requires p == 32;
    } else if k == 6 {
        assert((8 * mant + 132) * p == 512 * mant + 8448) by (nonlinear_arith) requires p == 64;
    } else {
        assert((8 * mant + 132) * p == 1024 * mant + 16896) by (nonlinear_arith) requires p == 128;
    }
}

pub(crate) proof fn lemma_alaw_level_is_by_cases(k: nat, mant: nat)
    requires
        k < 8,
        mant < 16,
    ensures
        alaw_level(k, mant) == alaw_level_by_cases(k, mant as int),
{
    lemma2_to64();
    if k > 0 {
        let p = pow2((k - 1) as nat) as int;
        assert(alaw_level(k, mant) == (16 * mant + 264) * p);
        if k == 1 {
            assert((16 * mant + 264) * p == 16 * mant + 264) by (nonlinear_arith) requires p == 1;
        } else if k == 2 {
            assert((16 * mant + 264) * p == 32 * mant + 528) by (nonlinear_arith) requires p == 2;
        } else if k == 3 {
            assert((16 * mant + 264) * p == 64 * mant + 1056) by (nonlinear_arith) requires p == 4;
        } else if k == 4 {
            assert((16 * mant + 264) * p == 128 * mant + 2112) by (nonlinear_arith) requires p == 8;
        } else if k == 5 {
            assert((16 * mant + 264) * p == 256 * mant + 4224) by (nonlinear_arith) requires p == 16;
        } else if k == 6 {
            assert((16 * mant + 264) * p == 512 * mant + 8448) by (nonlinear_arith) requires p == 32;
        } else {
            assert((16 * mant + 264) * p == 1024 * mant + 16896) by (nonlinear_arith) requires p == 64;
        }
    }
}

/// The A-law codeword of a sample is its sign bit and the code of its
/// clipped magnitude, with the even bits inverted.
proof fn lemma_alaw_encode_by_code(v: int)
    ensures
        alaw_encode_spec(v) == (((if v < 0 {
            0int
        } else {
            128
        }) + alaw_code_by_cases(alaw_clipped(v))) as u8) ^ ALAW_XOR,
{
    lemma_alaw_by_cases(alaw_clipped(v));
}

/// The µ-law codeword of a sample is the complement of its sign bit and the
/// code of its biased magnitude.
proof fn lemma_mulaw_encode_by_code(v: int)
    ensures
        mulaw_encode_spec(v) == (255 - ((if v < 0 {
            128int
        } else {
            0
        }) + mulaw_code_by_cases(mulaw_biased(v)))) as u8,
{
    lemma_mulaw_by_cases(mulaw_biased(v));
}

/// Tandem µ → A → µ → A: once a µ-law codeword has been converted to A-law,
/// converting that codeword to µ-law and back to A-law gives the same A-law
/// codeword again. Each conversion decodes to linear and re-encodes.
pub proof fn mulaw_alaw_tandem_settles(b: u8)
    ensures
        alaw_encode_spec(
            mulaw_decode_spec(
                mulaw_encode_spec(alaw_decode_spec(alaw_encode_spec(mulaw_decode_spec(b)))),
            ),
        ) == alaw_encode_spec(mulaw_decode_spec(b)),
{
    let c = (255 - b) as u8;
    let k = segment_field(c);
    let mant = mantissa_field(c);
    lemma_byte_decomposition(c);
    lemma_levels_bounded(k, mant);
    lemma_mulaw_level_is_by_cases(k, mant);
    lemma_mulaw_level_tandem(k, mant as int);
    let l = mulaw_level(k, mant);
    let s = mulaw_decode_spec(b);
    assert(magnitude(s) == l);
    assert(alaw_clipped(s) == l);
    let a1 = alaw_encode_spec(s);
    alaw_encode_decode_requantizes(s);
    lemma_alaw_by_cases(l);
    let y = alaw_requantized(l);
    let t = alaw_decode_spec(a1);
    assert(t == (if s < 0 {
        -y
    } else {
        y
    }));
    let g1 = mulaw_encode_spec(t);
    mulaw_encode_decode_requantizes(t);
    assert(mulaw_biased(t) == y + 132);
    lemma_mulaw_by_cases(y + 132);
    let z = mulaw_requantized(y + 132);
    let u = mulaw_decode_spec(g1);
    assert(u == (if s < 0 {
        -z
    } else {
        z
    }));
    assert(alaw_clipped(u) == z);
    lemma_alaw_encode_by_code(s);
    lemma_alaw_encode_by_code(u);
}

/// Tandem A → µ → A → µ: once an A-law codeword has been converted to µ-law,
/// converting that codeword to A-law and back to µ-law gives the same µ-law
/// codeword again. Each conversion decodes to linear and re-encodes.
pub proof fn alaw_mulaw_tandem_settles(a: u8)
    ensures
        mulaw_encode_spec(
            alaw_decode_spec(
                alaw_encode_spec(mulaw_decode_spec(mulaw_encode_spec(alaw_decode_spec(a)))),
            ),
        ) == mulaw_encode_spec(alaw_decode_spec(a)),
{
    let c = a ^ ALAW_XOR;
    let k = segment_field(c);
    let mant = mantissa_field(c);
    lemma_byte_decomposition(c);
    lemma_levels_bounded(k, mant);
    lemma_alaw_level_is_by_cases(k, mant);
    lemma_alaw_level_tandem(k, mant as int);
    let p = alaw_level(k, mant);
    let t = alaw_decode_spec(a);
    assert(magnitude(t) == p);
    assert(mulaw_biased(t) == p + 132);
    let m1 = mulaw_encode_spec(t);
    mulaw_encode_decode_requantizes(t);
    lemma_mulaw_by_cases(p + 132);
    let w = mulaw_requantized(p + 132);
    let u = mulaw_decode_spec(m1);
    assert(u == (if t < 0 {
        -w
    } else {
        w
    }));
    assert(alaw_clipped(u) == w);
    let a2 = alaw_encode_spec(u);
    alaw_encode_decode_requantizes(u);
    lemma_alaw_by_cases(w);
    let v = alaw_decode_spec(a2);
    let r = alaw_requantized(w);
    assert(v == (if t < 0 {
        -r
    } else {
        r
    }));
    assert(mulaw_biased(v) == r + 132);
    lemma_mulaw_by_cases(r + 132);
    lemma_mulaw_encode_by_code(t);
    lemma_mulaw_encode_by_code(v);
}

/// A-law value number `n` (1 to 128, as in G.711 Table 1) after the A → µ → A
/// conversion of the equipment option (§3.6): value numbers 26, 28, 30, 32,
/// 46, 48 and 64 move one down, 96 moves one up, all others are kept.
pub open spec fn alaw_tandem_value_number(n: int) -> int {
    if n == 96 {
        97
    } else if n == 26 || n == 28 || n == 30 || n == 32 || n == 46 || n == 48 || n == 64 {
        n - 1
    } else {
        n
    }
}

/// µ-law value number `v` (0 to 127, as in G.711 Table 2) after the µ → A → µ
/// conversion of the equipment option (§3.6): the even value numbers 0 to 14
/// move one up, all others are kept.
pub open spec fn mulaw_tandem_value_number(v: int) -> int {
    if 0 <= v < 16 && v % 2 == 0 {
        v + 1
    } else {
        v
    }
}

/// An A-law level taken through the µ-law quantiser lands in the A-law
/// interval of the level's tandem value number.
proof fn lemma_alaw_level_round_trip(k: nat, mant: int)
    requires
        k < 8,
        0 <= mant < 16,
    ensures
        alaw_code_by_cases(mulaw_requantized_by_cases(alaw_level_by_cases(k, mant) + 132)) + 1
            == alaw_tandem_value_number(16 * k + mant + 1),
{
    if k == 0 {
    } else if k == 1 {
    } else if k == 2 {
    } else if k == 3 {
    } else if k == 4 {
    } else if k == 5 {
    } else if k == 6 {
    } else {
    }
}

/// A µ-law level taken through the A-law quantiser lands in the µ-law
/// interval of the level's tandem value number.
proof fn lemma_mulaw_level_round_trip(k: nat, mant: int)
    requires
        k < 8,
        0 <= mant < 16,
    ensures
        mulaw_code_by_cases(alaw_requantized_by_cases(mulaw_level_by_cases(k, mant)) + 132)
            == mulaw_tandem_value_number(16 * k + mant),
{
    if k == 0 {
    } else if k == 1 {
    } else if k == 2 {
    } else if k == 3 {
    } else if k == 4 {
    } else if k == 5 {
    } else if k == 6 {
    } else {
    }
}

/// A → µ → A change set (G.711 §3.6 equipment option, against Tables 3 and
/// 4): converting an A-law codeword to µ-law and back keeps its sign, and
/// moves its value number exactly as [`alaw_tandem_value_number`] says; every
/// other codeword comes back unchanged.
pub proof fn alaw_mulaw_alaw_change_set(a: u8)
    ensures
        ({
            let c = a ^ ALAW_XOR;
            let r = alaw_encode_spec(mulaw_decode_spec(mulaw_encode_spec(alaw_decode_spec(a))))
                ^ ALAW_XOR;
            &&& sign_bit_set(r) == sign_bit_set(c)
            &&& r % 128 + 1 == alaw_tandem_value_number(c % 128 + 1)
        }),
{
    let c = a ^ ALAW_XOR;
    let k = segment_field(c);
    let mant = mantissa_field(c);
    lemma_byte_decomposition(c);
    let t = alaw_decode_spec(a);
    let u = mulaw_decode_spec(mulaw_encode_spec(t));
    let w = lemma_alaw_to_mulaw_level(a);
    assert(u == (if sign_bit_set(c) {
        w
    } else {
        -w
    }));
    lemma_alaw_level_round_trip(k, mant as int);
    lemma_alaw_by_cases(w);
    let code = alaw_code_by_cases(w);
    assert(code + 1 == alaw_tandem_value_number(c % 128 + 1));
    assert(alaw_clipped(u) == w);
    lemma_alaw_encode_by_code(u);
    lemma_signed_code_byte(u < 0, code);
    let v = ((if u < 0 {
        0int
    } else {
        128
    }) + code) as u8;
    lemma_xor_facts(v);
}

/// The sign and magnitude an A-law codeword comes back with from the µ-law
/// quantiser; the magnitude is returned.
proof fn lemma_alaw_to_mulaw_level(a: u8) -> (w: int)
    ensures
        ({
            let c = a ^ ALAW_XOR;
            let k = segment_field(c);
            let mant = mantissa_field(c);
            &&& 8 <= w <= 32124
            &&& w == mulaw_requantized_by_cases(alaw_level_by_cases(k, mant as int) + 132)
            &&& mulaw_decode_spec(mulaw_encode_spec(alaw_decode_spec(a))) == (if sign_bit_set(c) {
                w
            } else {
                -w
            })
        }),
{
    let c = a ^ ALAW_XOR;
    let k = segment_field(c);
    let mant = mantissa_field(c);
    lemma_byte_decomposition(c);
    lemma_levels_bounded(k, mant);
    lemma_alaw_level_is_by_cases(k, mant);
    lemma_alaw_level_tandem(k, mant as int);
    let p = alaw_level(k, mant);
    let t = alaw_decode_spec(a);
    assert(magnitude(t) == p);
    assert(mulaw_biased(t) == p + 132);
    mulaw_encode_decode_requantizes(t);
    lemma_mulaw_by_cases(p + 132);
    mulaw_requantized(p + 132)
}

/// A sign and a 7-bit code put together as a byte.
proof fn lemma_signed_code_byte(neg: bool, code: int)
    requires
        0 <= code < 128,
    ensures
        ({
            let v = ((if neg {
                0int
            } else {
                128
            }) + code) as u8;
            &&& sign_bit_set(v) == !neg
            &&& v % 128 == code
        }),
{
}

/// µ → A → µ change set (G.711 §3.6 equipment option, against Tables 3 and
/// 4): converting a µ-law codeword to A-law and back moves its value number
/// exactly as [`mulaw_tandem_value_number`] says and keeps its sign, except
/// that negative zero comes back positive; every other codeword comes back
/// unchanged.
pub proof fn mulaw_alaw_mulaw_change_set(b: u8)
    ensures
        ({
            let c = (255 - b) as u8;
            let r = (255 - mulaw_encode_spec(
                alaw_decode_spec(alaw_encode_spec(mulaw_decode_spec(b))),
            )) as u8;
            &&& sign_bit_set(r) == (sign_bit_set(c) && c != 0x80)
            &&& r % 128 == mulaw_tandem_value_number((c % 128) as int)
        }),
{
    let c = (255 - b) as u8;
    let k = segment_field(c);
    let mant = mantissa_field(c);
    lemma_byte_decomposition(c);
    let t = alaw_decode_spec(alaw_encode_spec(mulaw_decode_spec(b)));
    let y = lemma_mulaw_to_alaw_level(b);
    lemma_mulaw_level_round_trip(k, mant as int);
    assert(mulaw_biased(t) == y + 132);
    lemma_mulaw_by_cases(y + 132);
    let code = mulaw_code_by_cases(y + 132);
    assert(code == mulaw_tandem_value_number((c % 128) as int));
    assert(0 <= code < 128);
    lemma_mulaw_encode_by_code(t);
    let neg = t < 0;
    assert(neg == (sign_bit_set(c) && c != 0x80));
    lemma_signed_code_byte(!neg, code);
}

/// The sign and magnitude a µ-law codeword comes back with from the A-law
/// quantiser; the magnitude is returned.
proof fn lemma_mulaw_to_alaw_level(b: u8) -> (y: int)
    ensures
        ({
            let c = (255 - b) as u8;
            let k = segment_field(c);
            let mant = mantissa_field(c);
            &&& 8 <= y <= 32256
            &&& y == alaw_requantized_by_cases(mulaw_level_by_cases(k, mant as int))
            &&& alaw_decode_spec(alaw_encode_spec(mulaw_decode_spec(b))) == (if sign_bit_set(c)
                && c != 0x80 {
                -y
            } else {
                y
            })
        }),
{
    let c = (255 - b) as u8;
    let k = segment_field(c);
    let mant = mantissa_field(c);
    lemma_byte_decomposition(c);
    lemma_levels_bounded(k, mant);
    lemma_mulaw_level_is_by_cases(k, mant);
    lemma_mulaw_level_tandem(k, mant as int);
    let l = mulaw_level(k, mant);
    let s = mulaw_decode_spec(b);
    assert(magnitude(s) == l);
    assert(alaw_clipped(s) == l);
    alaw_encode_decode_requantizes(s);
    lemma_alaw_by_cases(l);
    assert(l == 0 <==> (k == 0 && mant == 0));
    alaw_requantized(l)
}

} // verus!
