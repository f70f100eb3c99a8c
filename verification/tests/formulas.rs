//! Exact values of the companding formulas, the little-endian helpers and
//! each proved law on concrete inputs.

use oxideav_g711::pcm::{sample_from_le, sample_to_le};
use oxideav_g711::pipeline::expected_decode;
use oxideav_g711::tables::{
    alaw_decode, alaw_encode_arith, alaw_step_bound, mulaw_decode, mulaw_encode_arith,
    mulaw_step_bound, segment_from_byte,
};
use oxideav_g711::{alaw, mulaw};

#[test]
fn mulaw_formula_values() {
    assert_eq!(mulaw_encode_arith(0), 0xFF);
    assert_eq!(mulaw_encode_arith(-1), 0x7F);
    assert_eq!(mulaw_encode_arith(32767), 0x80);
    assert_eq!(mulaw_encode_arith(-32768), 0x00);
    assert_eq!(mulaw_encode_arith(1000), 0xCE);
    assert_eq!(mulaw_decode(0xCE), 988);
    assert_eq!(mulaw_decode(0x8F), 16764);
    assert_eq!(mulaw::encode_sample_arith(1000), mulaw::encode_sample(1000));
}

#[test]
fn alaw_formula_values() {
    assert_eq!(alaw_encode_arith(0), 0xD5);
    assert_eq!(alaw_encode_arith(-1), 0x55);
    assert_eq!(alaw_encode_arith(32767), 0xAA);
    assert_eq!(alaw_encode_arith(-32768), 0x2A);
    assert_eq!(alaw_encode_arith(1000), 0xFA);
    assert_eq!(alaw_decode(0xFA), 1008);
    assert_eq!(alaw_decode(0xAA), 32256);
    assert_eq!(alaw::encode_sample_arith(1000), alaw::encode_sample(1000));
}

#[test]
fn le_helpers_match_std() {
    for v in [i16::MIN, -256, -1, 0, 1, 255, 256, i16::MAX] {
        let (lo, hi) = sample_to_le(v);
        assert_eq!([lo, hi], v.to_le_bytes());
        assert_eq!(sample_from_le(lo, hi), v);
    }
}

#[test]
fn sign_symmetry_examples() {
    assert_eq!(mulaw_decode(0x8F), -mulaw_decode(0x0F));
    assert_eq!(alaw_decode(0xFA), -alaw_decode(0x7A));
}

#[test]
fn decode_encode_recovers_codewords_examples() {
    assert_eq!(mulaw_encode_arith(mulaw_decode(0x7F)), 0xFF);
    assert_eq!(mulaw_encode_arith(mulaw_decode(0x12)), 0x12);
    assert_eq!(alaw_encode_arith(alaw_decode(0x12)), 0x12);
}

#[test]
fn quantisation_error_examples() {
    // µ-law: 1000 + 132 = 1132 lies in segment 3, half interval 32.
    assert_eq!(mulaw_decode(mulaw_encode_arith(1000)), 988);
    assert!((988 - 1000i32).abs() <= 32);
    // Saturation: 32767 reconstructs at the peak.
    assert_eq!(mulaw_decode(mulaw_encode_arith(32767)), 32124);
    // A-law: 1000 lies in segment 2, half interval 16.
    assert_eq!(alaw_decode(alaw_encode_arith(1000)), 1008);
    assert_eq!(alaw_decode(alaw_encode_arith(-32768)), -32256);
}

#[test]
fn transfer_is_monotone_examples() {
    let mut prev_mu = i32::MIN;
    let mut prev_a = i32::MIN;
    for s in (i16::MIN..=i16::MAX).step_by(7) {
        let mu = mulaw_decode(mulaw_encode_arith(s)) as i32;
        let a = alaw_decode(alaw_encode_arith(s)) as i32;
        assert!(mu >= prev_mu && a >= prev_a, "not monotone at {s}");
        prev_mu = mu;
        prev_a = a;
    }
}

#[test]
fn requantisation_is_idempotent_examples() {
    let b = mulaw_encode_arith(-3);
    assert_eq!(b, 0x7F);
    assert_eq!(mulaw_encode_arith(mulaw_decode(b)), 0xFF);
    let b = alaw_encode_arith(-3);
    assert_eq!(alaw_encode_arith(alaw_decode(b)), b);
}

#[test]
fn all_zero_octet_boundary() {
    assert_eq!(mulaw_encode_arith(-31612), 0x00);
    assert_eq!(mulaw_encode_arith(-31611), 0x01);
    assert_eq!(mulaw::encode_sample_zero_suppress(-31612), 0x02);
    assert_eq!(mulaw::encode_sample_zero_suppress(-31611), 0x01);
}

#[test]
fn decode_range_peaks() {
    assert_eq!(mulaw_decode(0x80), 32124);
    assert_eq!(mulaw_decode(0x00), -32124);
    assert_eq!(alaw_decode(0xAA), 32256);
    assert_eq!(alaw_decode(0x2A), -32256);
    assert_eq!(alaw_decode(0xD5), 8);
}

#[test]
fn cross_law_slices_equal_per_codeword_conversion() {
    let codewords: Vec<u8> = (0u8..=255).collect();
    let mut pcm = vec![0u8; 512];
    mulaw::decode_slice_to_le_bytes(&codewords, &mut pcm);
    let mut out = vec![0u8; 256];
    alaw::encode_slice_from_le_bytes(&pcm, &mut out);
    for (i, &b) in codewords.iter().enumerate() {
        assert_eq!(out[i], alaw::encode_sample(mulaw::decode_sample(b)));
    }
}

#[test]
fn step_bounds_and_codeword_segments() {
    assert_eq!(mulaw_step_bound(0), 8);
    assert_eq!(mulaw_step_bound(7), 1024);
    assert_eq!(alaw_step_bound(0), 16);
    assert_eq!(alaw_step_bound(7), 2048);
    assert_eq!(alaw_step_bound(26), 1 << 30);
    assert_eq!(segment_from_byte(0x00, false), 7);
    assert_eq!(segment_from_byte(0xFF, false), 0);
    assert_eq!(segment_from_byte(0xAA, true), 7);
    assert_eq!(segment_from_byte(0xD5, true), 0);
}

#[test]
fn error_within_codeword_step_examples() {
    for s in [i16::MIN, -32636, -20000, -1000, -1, 0, 1, 255, 256, 4000, 32256, 32257, i16::MAX] {
        let b = mulaw_encode_arith(s);
        let err = (mulaw_decode(b) as i32 - s as i32).abs();
        let slack = if (s as i32).abs() > 32635 { 644 } else { 0 };
        assert!(err <= mulaw_step_bound(segment_from_byte(b, false)) + slack);
        let a = alaw_encode_arith(s);
        let err = (alaw_decode(a) as i32 - s as i32).abs();
        let slack = if (s as i32).abs() > 32256 { 512 } else { 0 };
        assert!(err <= alaw_step_bound(segment_from_byte(a, true)) + slack);
    }
}

#[test]
fn expected_decode_requantises_each_sample_pair() {
    // 1000, -1000, 0, 32767, -32768 as little-endian pairs, plus a stray byte.
    let mut pcm: Vec<u8> = Vec::new();
    for s in [1000i16, -1000, 0, 32767, -32768] {
        pcm.extend_from_slice(&s.to_le_bytes());
    }
    pcm.push(0x7f);
    assert_eq!(
        expected_decode(&pcm, false),
        vec![988i16, -988, 0, 32124, -32124]
    );
    assert_eq!(
        expected_decode(&pcm, true),
        vec![1008i16, -1008, 8, 32256, -32256]
    );
    assert!(expected_decode(&[], true).is_empty());
    assert!(expected_decode(&[0x12], false).is_empty());
}

#[test]
fn tandem_conversion_settles_after_one_crossing() {
    let mu_to_a = |b: u8| alaw::encode_sample(mulaw::decode_sample(b));
    let a_to_mu = |a: u8| mulaw::encode_sample(alaw::decode_sample(a));
    for b in 0..=255u8 {
        assert_eq!(mu_to_a(a_to_mu(mu_to_a(b))), mu_to_a(b), "µ-law byte {b:#04x}");
        assert_eq!(a_to_mu(mu_to_a(a_to_mu(b))), a_to_mu(b), "A-law byte {b:#04x}");
    }
}

#[test]
fn decoded_values_are_distinct_but_for_mulaw_zero() {
    for b1 in 0..=255u8 {
        assert_ne!(alaw::decode_sample(b1), 0);
        for b2 in 0..=255u8 {
            if b1 != b2 {
                assert_ne!(alaw::decode_sample(b1), alaw::decode_sample(b2));
                let zero_pair = (b1 == 0x7F && b2 == 0xFF) || (b1 == 0xFF && b2 == 0x7F);
                assert_eq!(
                    mulaw::decode_sample(b1) == mulaw::decode_sample(b2),
                    zero_pair,
                    "µ-law bytes {b1:#04x} {b2:#04x}"
                );
            }
        }
    }
}

#[test]
fn tandem_change_sets_both_signs() {
    // A → µ → A: value numbers 26, 28, 30, 32, 46, 48, 64 move down one,
    // 96 moves up one, for both signs.
    for a in 0..=255u8 {
        let c = a ^ 0x55;
        let r = alaw::encode_sample(mulaw::decode_sample(mulaw::encode_sample(alaw::decode_sample(a)))) ^ 0x55;
        let n = (c & 0x7F) as i32 + 1;
        let expected = match n {
            96 => 97,
            26 | 28 | 30 | 32 | 46 | 48 | 64 => n - 1,
            _ => n,
        };
        assert_eq!(r & 0x80, c & 0x80, "A-law byte {a:#04x}");
        assert_eq!((r & 0x7F) as i32 + 1, expected, "A-law byte {a:#04x}");
    }
    // µ → A → µ: even value numbers 0..=14 move up one; negative zero
    // comes back positive.
    for b in 0..=255u8 {
        let c = 255 - b;
        let r = 255 - mulaw::encode_sample(alaw::decode_sample(alaw::encode_sample(mulaw::decode_sample(b))));
        let v = c & 0x7F;
        let expected = if v < 16 && v % 2 == 0 { v + 1 } else { v };
        assert_eq!(r & 0x7F, expected, "µ-law byte {b:#04x}");
        assert_eq!(r & 0x80 != 0, c & 0x80 != 0 && c != 0x80, "µ-law byte {b:#04x}");
    }
}

#[test]
fn levels_increase_in_code_order() {
    // Positive µ-law codewords 0xFF down to 0x80 carry codes 0..=127;
    // positive A-law codewords carry code (b ^ 0x55) & 0x7F.
    let mu: Vec<i16> = (0..128u8).map(|code| mulaw::decode_sample(0xFF - code)).collect();
    let a: Vec<i16> = (0..128u8).map(|code| alaw::decode_sample((0x80 | code) ^ 0x55)).collect();
    for k in 1..128 {
        assert!(mu[k - 1] < mu[k]);
        assert!(a[k - 1] < a[k]);
    }
    assert_eq!((mu[0], mu[127], a[0], a[127]), (0, 32124, 8, 32256));
}
