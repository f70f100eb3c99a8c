//! Whole-buffer pipelines built from the per-sample conversions.

use crate::pcm::{le_sample, sample_from_le};
use crate::tables::{alaw_decode_spec, alaw_encode_spec, mulaw_decode_spec, mulaw_encode_spec};
use crate::{alaw, mulaw};
use vstd::prelude::*;

verus! {

/// The sample a decoder gives back for the codeword the encoder made of the
/// S16 sample `s`, under A-law when `use_alaw` and µ-law otherwise.
pub open spec fn law_requantized(s: int, use_alaw: bool) -> int {
    if use_alaw {
        alaw_decode_spec(alaw_encode_spec(s))
    } else {
        mulaw_decode_spec(mulaw_encode_spec(s))
    }
}

/// The S16 samples a stream encoder and decoder of one law give back for
/// little-endian S16 PCM: each complete byte pair is encoded and decoded
/// again; a trailing odd byte is ignored.
pub fn expected_decode(pcm_bytes: &[u8], use_alaw: bool) -> (out: Vec<i16>)
    ensures
        out@.len() == pcm_bytes@.len() / 2,
        forall|i: int|
            0 <= i < out@.len() ==> #[trigger] out@[i] == law_requantized(
                le_sample(pcm_bytes@[2 * i], pcm_bytes@[2 * i + 1]),
                use_alaw,
            ),
{
    let total = pcm_bytes.len();
    let n = total / 2;
    let mut out: Vec<i16> = Vec::with_capacity(n);
    for i in 0..n
        invariant
            total == pcm_bytes@.len(),
            n == total / 2,
            out@.len() == i,
            forall|j: int|
                0 <= j < i ==> #[trigger] out@[j] == law_requantized(
                    le_sample(pcm_bytes@[2 * j], pcm_bytes@[2 * j + 1]),
                    use_alaw,
                ),
    {
        let s = sample_from_le(pcm_bytes[2 * i], pcm_bytes[2 * i + 1]);
        let b = if use_alaw {
            alaw::encode_sample(s)
        } else {
            mulaw::encode_sample(s)
        };
        let d = if use_alaw {
            alaw::decode_sample(b)
        } else {
            mulaw::decode_sample(b)
        };
        out.push(d);
    }
    out
}

} // verus!
