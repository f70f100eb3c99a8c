//! µ-law (ITU-T G.711 §3): single-sample conversions, slice conversions and
//! the stream decoder / encoder. Each encoded byte carries one S16 sample.

use crate::pcm::{
    le_high_byte, le_low_byte, le_sample, packet_of_frame, sample_from_le, sample_to_le,
    CodecError, DecodedFrame, EncodedPacket, PcmFormat, PendingPacket,
};
use crate::tables::{mulaw_decode, mulaw_decode_spec, mulaw_encode_arith, mulaw_encode_spec};
use std::collections::VecDeque;
use vstd::prelude::*;

verus! {

/// Decode one µ-law byte to a linear S16 sample.
pub fn decode_sample(byte: u8) -> (r: i16)
    ensures
        r == mulaw_decode_spec(byte),
{
    mulaw_decode(byte)
}

/// Encode one S16 sample as a µ-law byte (ITU-T G.711 §3).
pub fn encode_sample(sample: i16) -> (r: u8)
    ensures
        r == mulaw_encode_spec(sample as int),
{
    mulaw_encode_arith(sample)
}

/// The µ-law wire codeword that all-zero suppression replaces (G.711 §3.2).
pub const MULAW_ZERO_CODEWORD: u8 = 0x00;

/// Replacement for [`MULAW_ZERO_CODEWORD`] under §3.2 all-zero suppression:
/// the literal `00000010` of the Recommendation.
pub const MULAW_ZERO_SUPPRESS_CODEWORD: u8 = 0x02;

/// µ-law codeword of `s` on a link that forbids the all-zero octet: the plain
/// codeword, with `00000000` rewritten to `00000010`.
pub open spec fn mulaw_encode_zero_suppress_spec(s: int) -> u8 {
    let b = mulaw_encode_spec(s);
    if b == MULAW_ZERO_CODEWORD {
        MULAW_ZERO_SUPPRESS_CODEWORD
    } else {
        b
    }
}

/// Encode one S16 sample as a µ-law byte with all-zero suppression
/// (G.711 §3.2): identical to [`encode_sample`] except that the codeword
/// `00000000` is sent as `00000010`.
pub fn encode_sample_zero_suppress(sample: i16) -> (r: u8)
    ensures
        r == mulaw_encode_zero_suppress_spec(sample as int),
        r != MULAW_ZERO_CODEWORD,
{
    let b = mulaw_encode_arith(sample);
    if b == MULAW_ZERO_CODEWORD {
        MULAW_ZERO_SUPPRESS_CODEWORD
    } else {
        b
    }
}

/// Arithmetic µ-law encode (G.711 §3.2), the formula behind [`encode_sample`].
pub fn encode_sample_arith(sample: i16) -> (r: u8)
    ensures
        r == mulaw_encode_spec(sample as int),
{
    mulaw_encode_arith(sample)
}

/// Decode a slice of µ-law bytes into a caller-provided S16 buffer:
/// `output[i]` is [`decode_sample`]`(input[i])`.
pub fn decode_slice(input: &[u8], output: &mut [i16])
    requires
        old(output)@.len() == input@.len(),
    ensures
        final(output)@.len() == input@.len(),
        forall|i: int|
            0 <= i < input@.len() ==> final(output)@[i] == mulaw_decode_spec(#[trigger] input@[i]),
{
    let n = input.len();
    for i in 0..n
        invariant
            n == input@.len(),
            output@.len() == n,
            forall|j: int| 0 <= j < i ==> output@[j] == mulaw_decode_spec(#[trigger] input@[j]),
    {
        output[i] = mulaw_decode(input[i]);
    }
}

/// Decode a slice of µ-law bytes into little-endian S16 byte pairs:
/// `output[2*i..2*i+2]` holds [`decode_sample`]`(input[i])`.
pub fn decode_slice_to_le_bytes(input: &[u8], output: &mut [u8])
    requires
        old(output)@.len() == 2 * input@.len(),
    ensures
        final(output)@.len() == 2 * input@.len(),
        forall|i: int|
            0 <= i < input@.len() ==> {
                &&& final(output)@[2 * i] == le_low_byte(mulaw_decode_spec(#[trigger] input@[i]))
                &&& final(output)@[2 * i + 1] == le_high_byte(mulaw_decode_spec(input@[i]))
            },
{
    let n = input.len();
    let total = output.len();
    for i in 0..n
        invariant
            n == input@.len(),
            total == 2 * n,
            output@.len() == 2 * n,
            forall|j: int|
                0 <= j < i ==> {
                    &&& output@[2 * j] == le_low_byte(mulaw_decode_spec(#[trigger] input@[j]))
                    &&& output@[2 * j + 1] == le_high_byte(mulaw_decode_spec(input@[j]))
                },
    {
        let (lo, hi) = sample_to_le(mulaw_decode(input[i]));
        output[2 * i] = lo;
        output[2 * i + 1] = hi;
    }
}

/// Encode a slice of S16 samples into µ-law bytes: `output[i]` is
/// [`encode_sample`]`(input[i])`.
pub fn encode_slice(input: &[i16], output: &mut [u8])
    requires
        old(output)@.len() == input@.len(),
    ensures
        final(output)@.len() == input@.len(),
        forall|i: int|
            0 <= i < input@.len() ==> final(output)@[i] == mulaw_encode_spec(
                #[trigger] input@[i] as int,
            ),
{
    let n = input.len();
    for i in 0..n
        invariant
            n == input@.len(),
            output@.len() == n,
            forall|j: int|
                0 <= j < i ==> output@[j] == mulaw_encode_spec(#[trigger] input@[j] as int),
    {
        output[i] = mulaw_encode_arith(input[i]);
    }
}

/// Encode little-endian S16 byte pairs into µ-law bytes: `output[i]` is
/// [`encode_sample`] of the sample in `input[2*i..2*i+2]`.
pub fn encode_slice_from_le_bytes(input: &[u8], output: &mut [u8])
    requires
        input@.len() == 2 * old(output)@.len(),
    ensures
        final(output)@.len() == old(output)@.len(),
        forall|i: int|
            0 <= i < final(output)@.len() ==> #[trigger] final(output)@[i] == mulaw_encode_spec(
                le_sample(input@[2 * i], input@[2 * i + 1]),
            ),
{
    let n = output.len();
    let total = input.len();
    for i in 0..n
        invariant
            n == output@.len(),
            total == 2 * n,
            input@.len() == 2 * n,
            forall|j: int|
                0 <= j < i ==> #[trigger] output@[j] == mulaw_encode_spec(
                    le_sample(input@[2 * j], input@[2 * j + 1]),
                ),
    {
        let s = sample_from_le(input[2 * i], input[2 * i + 1]);
        output[i] = mulaw_encode_arith(s);
    }
}

/// Encode a slice of S16 samples into µ-law bytes with all-zero suppression:
/// `output[i]` is [`encode_sample_zero_suppress`]`(input[i])`.
pub fn encode_slice_zero_suppress(input: &[i16], output: &mut [u8])
    requires
        old(output)@.len() == input@.len(),
    ensures
        final(output)@.len() == input@.len(),
        forall|i: int|
            0 <= i < input@.len() ==> final(output)@[i] == mulaw_encode_zero_suppress_spec(
                #[trigger] input@[i] as int,
            ),
{
    let n = input.len();
    for i in 0..n
        invariant
            n == input@.len(),
            output@.len() == n,
            forall|j: int|
                0 <= j < i ==> output@[j] == mulaw_encode_zero_suppress_spec(
                    #[trigger] input@[j] as int,
                ),
    {
        output[i] = encode_sample_zero_suppress(input[i]);
    }
}

// -------------- stream decoder --------------

/// The little-endian S16 bytes the µ-law decoder emits for the codewords `d`.
pub open spec fn mulaw_decoded_plane(d: Seq<u8>) -> Seq<u8> {
    Seq::new(
        2 * d.len(),
        |k: int|
            (if k % 2 == 0 {
                le_low_byte(mulaw_decode_spec(d[k / 2]))
            } else {
                le_high_byte(mulaw_decode_spec(d[k / 2]))
            }) as u8,
    )
}

/// The µ-law codewords the encoder emits for the little-endian S16 bytes `pcm`.
pub open spec fn mulaw_encoded_plane(pcm: Seq<u8>) -> Seq<u8> {
    Seq::new(pcm.len() / 2, |i: int| mulaw_encode_spec(le_sample(pcm[2 * i], pcm[2 * i + 1])))
}

/// Stream decoder for G.711 µ-law: accepts one packet of interleaved
/// codewords at a time and returns it as interleaved S16 PCM.
pub struct UlawDecoder {
    channels: u16,
    pending: Option<PendingPacket>,
    eof: bool,
}

impl UlawDecoder {
    /// The decoder's invariant: at least one channel, and room to decode the
    /// pending packet.
    #[verifier::type_invariant]
    spec fn well_formed(self) -> bool {
        &&& self.channels >= 1
        &&& self.pending matches Some(p) ==> 2 * p.data@.len() <= usize::MAX
    }

    /// Number of interleaved channels.
    pub closed spec fn channel_count(&self) -> nat {
        self.channels as nat
    }

    /// The packet accepted and not yet decoded, as codewords and timestamp.
    pub closed spec fn pending_packet(&self) -> Option<(Seq<u8>, Option<i64>)> {
        match self.pending {
            Some(p) => Some((p.data@, p.pts)),
            None => None,
        }
    }

    /// Whether the end of the stream has been signalled.
    pub closed spec fn at_end(&self) -> bool {
        self.eof
    }

    /// Number of interleaved channels; every decoder serves at least one, so
    /// a non-empty packet of whole frames decodes to at least one sample per
    /// channel.
    pub fn channels(&self) -> (r: u16)
        ensures
            r == self.channel_count(),
            r >= 1,
    {
        proof {
            use_type_invariant(self);
        }
        self.channels
    }

    /// Feed one packet of codewords. Refused while the previous packet has
    /// not been received.
    pub fn send_packet(&mut self, data: Vec<u8>, pts: Option<i64>) -> (r: Result<(), CodecError>)
        requires
            2 * data@.len() <= usize::MAX,
        ensures
            final(self).channel_count() >= 1,
            final(self).channel_count() == old(self).channel_count(),
            final(self).at_end() == old(self).at_end(),
            old(self).pending_packet() is Some ==> r == Err::<(), CodecError>(
                CodecError::PacketPending,
            ) && final(self).pending_packet() == old(self).pending_packet(),
            old(self).pending_packet() is None ==> r is Ok && final(self).pending_packet() == Some(
                (data@, pts),
            ),
    {
        proof {
            use_type_invariant(&*self);
        }
        if self.pending.is_some() {
            return Err(CodecError::PacketPending);
        }
        self.pending = Some(PendingPacket { data, pts });
        Ok(())
    }

    /// Decode the pending packet into one frame of interleaved S16 PCM.
    pub fn receive_frame(&mut self) -> (r: Result<DecodedFrame, CodecError>)
        ensures
            old(self).channel_count() >= 1,
            final(self).channel_count() >= 1,
            final(self).channel_count() == old(self).channel_count(),
            final(self).at_end() == old(self).at_end(),
            final(self).pending_packet() is None,
            old(self).pending_packet() is None ==> r == Err::<DecodedFrame, CodecError>(
                if old(self).at_end() {
                    CodecError::EndOfStream
                } else {
                    CodecError::NeedMore
                },
            ),
            old(self).pending_packet() matches Some((d, pts)) ==> {
                &&& d.len() == 0 ==> (r matches Ok(f) && f.samples == 0 && f.pts == pts
                    && f.data@.len() == 0)
                &&& d.len() != 0 && d.len() % old(self).channel_count() != 0 ==> r == Err::<
                    DecodedFrame,
                    CodecError,
                >(
                    CodecError::PartialChannelPacket {
                        len: d.len() as usize,
                        channels: old(self).channel_count() as u16,
                    },
                )
                &&& d.len() != 0 && d.len() % old(self).channel_count() == 0 ==> (r matches Ok(f)
                    && f.samples == (d.len() / old(self).channel_count()) as u32 && f.pts == pts
                    && f.data@ == mulaw_decoded_plane(d))
            },
    {
        proof {
            use_type_invariant(&*self);
        }
        let mut pending = None;
        std::mem::swap(&mut pending, &mut self.pending);
        let pkt = match pending {
            Some(p) => p,
            None => {
                return if self.eof {
                    Err(CodecError::EndOfStream)
                } else {
                    Err(CodecError::NeedMore)
                };
            },
        };
        let len = pkt.data.len();
        if len == 0 {
            return Ok(DecodedFrame { samples: 0, pts: pkt.pts, data: Vec::new() });
        }
        let ch = self.channels as usize;
        if len % ch != 0 {
            return Err(CodecError::PartialChannelPacket { len, channels: self.channels });
        }
        let samples_per_channel = len / ch;
        let mut out = vec![0u8; len * 2];
        decode_slice_to_le_bytes(pkt.data.as_slice(), out.as_mut_slice());
        assert(out@ =~= mulaw_decoded_plane(pkt.data@));
        Ok(DecodedFrame {
            samples: #[verifier::truncate]
            (samples_per_channel as u32),
            pts: pkt.pts,
            data: out,
        })
    }

    /// Signal the end of the stream.
    pub fn flush(&mut self)
        ensures
            final(self).channel_count() >= 1,
            final(self).channel_count() == old(self).channel_count(),
            final(self).pending_packet() == old(self).pending_packet(),
            final(self).at_end(),
    {
        proof {
            use_type_invariant(&*self);
        }
        self.eof = true;
    }
}

/// Build a µ-law stream decoder for `channels` interleaved channels (one when
/// unset). Zero channels are refused.
pub fn make_decoder(channels: Option<u16>) -> (r: Result<UlawDecoder, CodecError>)
    ensures
        channels == Some(0u16) ==> r == Err::<UlawDecoder, CodecError>(CodecError::ZeroChannels),
        channels != Some(0u16) ==> (r matches Ok(d) && d.channel_count() == (match channels {
            Some(c) => c,
            None => 1u16,
        }) && d.channel_count() >= 1 && d.pending_packet() is None && !d.at_end()),
{
    let channels = match channels {
        Some(c) => c,
        None => 1,
    };
    if channels == 0 {
        return Err(CodecError::ZeroChannels);
    }
    Ok(UlawDecoder { channels, pending: None, eof: false })
}

// -------------- stream encoder --------------

/// Stream encoder for G.711 µ-law: turns frames of interleaved S16 PCM into
/// packets holding one codeword per sample, queued in order.
pub struct UlawEncoder {
    channels: u16,
    sample_rate: u32,
    queue: VecDeque<EncodedPacket>,
}

impl UlawEncoder {
    /// Number of interleaved channels of the stream.
    pub closed spec fn channel_count(&self) -> nat {
        self.channels as nat
    }

    /// Sample rate of the stream.
    pub closed spec fn rate(&self) -> nat {
        self.sample_rate as nat
    }

    /// Encoded packets waiting to be received, oldest first.
    pub closed spec fn queued(&self) -> Seq<EncodedPacket> {
        self.queue@
    }

    /// Number of interleaved channels of the stream.
    pub fn channels(&self) -> (r: u16)
        ensures
            r == self.channel_count(),
    {
        self.channels
    }

    /// Sample rate of the stream.
    pub fn sample_rate(&self) -> (r: u32)
        ensures
            r == self.rate(),
    {
        self.sample_rate
    }

    /// Encode one frame: `samples` per channel, presentation time `pts`, and
    /// `planes`, of which the first holds interleaved little-endian S16 PCM.
    /// A frame with no plane or an empty first plane is refused. The packet
    /// goes to the back of the queue.
    pub fn send_frame(&mut self, samples: u32, pts: Option<i64>, planes: &Vec<Vec<u8>>) -> (r:
        Result<(), CodecError>)
        ensures
            final(self).channel_count() == old(self).channel_count(),
            final(self).rate() == old(self).rate(),
            (planes@.len() == 0 || planes@[0]@.len() == 0) ==> r == Err::<(), CodecError>(
                CodecError::EmptyFrame,
            ) && final(self).queued() == old(self).queued(),
            planes@.len() > 0 && planes@[0]@.len() % 2 != 0 ==> r == Err::<(), CodecError>(
                CodecError::OddByteCount,
            ) && final(self).queued() == old(self).queued(),
            planes@.len() > 0 && planes@[0]@.len() != 0 && planes@[0]@.len() % 2 == 0 ==> {
                let q = final(self).queued();
                &&& r is Ok
                &&& q.len() == old(self).queued().len() + 1
                &&& q.drop_last() == old(self).queued()
                &&& packet_of_frame(q.last(), mulaw_encoded_plane(planes@[0]@), samples, pts)
                &&& q.last().data@ == mulaw_encoded_plane(planes@[0]@)
                &&& q.last().data@.len() == planes@[0]@.len() / 2
                &&& q.last().pts == pts
                &&& q.last().dts == pts
                &&& q.last().duration == Some(samples as i64)
                &&& q.last().keyframe
            },
    {
        if planes.len() == 0 {
            return Err(CodecError::EmptyFrame);
        }
        let bytes = &planes[0];
        if bytes.len() == 0 {
            return Err(CodecError::EmptyFrame);
        }
        if bytes.len() % 2 != 0 {
            return Err(CodecError::OddByteCount);
        }
        let n = bytes.len() / 2;
        let mut out = vec![0u8; n];
        encode_slice_from_le_bytes(bytes.as_slice(), out.as_mut_slice());
        assert(out@ =~= mulaw_encoded_plane(bytes@));
        let pkt = EncodedPacket {
            data: out,
            pts,
            dts: pts,
            duration: Some(samples as i64),
            keyframe: true,
        };
        self.queue.push_back(pkt);
        assert(self.queue@.drop_last() =~= old(self).queue@);
        Ok(())
    }

    /// Take the oldest encoded packet.
    pub fn receive_packet(&mut self) -> (r: Result<EncodedPacket, CodecError>)
        ensures
            final(self).channel_count() == old(self).channel_count(),
            final(self).rate() == old(self).rate(),
            old(self).queued().len() == 0 ==> r == Err::<EncodedPacket, CodecError>(
                CodecError::NeedMore,
            ) && final(self).queued() == old(self).queued(),
            old(self).queued().len() > 0 ==> r == Ok::<EncodedPacket, CodecError>(
                old(self).queued()[0],
            ) && final(self).queued() == old(self).queued().drop_first(),
    {
        match self.queue.pop_front() {
            Some(p) => Ok(p),
            None => Err(CodecError::NeedMore),
        }
    }
}

/// Build a µ-law stream encoder: `channels` interleaved channels (one when
/// unset), input `sample_format` (S16 when unset) and `sample_rate` (8000 Hz
/// when unset or zero). Zero channels are refused first, then any input other than
/// S16.
pub fn make_encoder(channels: Option<u16>, sample_format: Option<PcmFormat>, sample_rate: Option<
    u32,
>) -> (r: Result<UlawEncoder, CodecError>)
    ensures
        channels == Some(0u16) ==> r == Err::<UlawEncoder, CodecError>(CodecError::ZeroChannels),
        channels != Some(0u16) && sample_format == Some(PcmFormat::Other) ==> r == Err::<
            UlawEncoder,
            CodecError,
        >(CodecError::UnsupportedSampleFormat),
        channels != Some(0u16) && sample_format != Some(PcmFormat::Other) ==> (r matches Ok(e)
            && e.channel_count() == (match channels {
            Some(c) => c,
            None => 1u16,
        }) && e.rate() == (match sample_rate {
            Some(sr) if sr != 0 => sr,
            _ => 8000u32,
        }) && e.queued().len() == 0),
{
    let channels = match channels {
        Some(c) => c,
        None => 1,
    };
    if channels == 0 {
        return Err(CodecError::ZeroChannels);
    }
    let sample_format = match sample_format {
        Some(f) => f,
        None => PcmFormat::S16,
    };
    if sample_format != PcmFormat::S16 {
        return Err(CodecError::UnsupportedSampleFormat);
    }
    let sample_rate = match sample_rate {
        Some(sr) if sr != 0 => sr,
        _ => 8_000,
    };
    Ok(UlawEncoder { channels, sample_rate, queue: VecDeque::new() })
}

} // verus!
