//! Plain values exchanged with the stream codecs: little-endian S16 byte
//! pairs, decoded frames, encoded packets and the errors of the codecs.

use vstd::prelude::*;

verus! {

/// The S16 sample reinterpreted as an unsigned 16-bit word (two's complement).
pub open spec fn twos_complement(v: int) -> int {
    if v < 0 {
        v + 65536
    } else {
        v
    }
}

/// Low byte of the little-endian encoding of the S16 sample `v`.
pub open spec fn le_low_byte(v: int) -> int {
    twos_complement(v) % 256
}

/// High byte of the little-endian encoding of the S16 sample `v`.
pub open spec fn le_high_byte(v: int) -> int {
    twos_complement(v) / 256
}

/// The S16 sample whose little-endian encoding is the pair `lo`, `hi`.
pub open spec fn le_sample(lo: u8, hi: u8) -> int {
    let u = lo + 256 * hi;
    if u >= 32768 {
        u - 65536
    } else {
        u
    }
}

/// Splits an S16 sample into its little-endian byte pair.
pub fn sample_to_le(v: i16) -> (r: (u8, u8))
    ensures
        r.0 == le_low_byte(v as int),
        r.1 == le_high_byte(v as int),
{
    let u: u32 = if v < 0 {
        (v as i32 + 65536) as u32
    } else {
        v as u32
    };
    ((u % 256) as u8, (u / 256) as u8)
}

/// Joins a little-endian byte pair into an S16 sample.
pub fn sample_from_le(lo: u8, hi: u8) -> (r: i16)
    ensures
        r == le_sample(lo, hi),
{
    let u: i32 = lo as i32 + 256 * hi as i32;
    if u >= 32768 {
        (u - 65536) as i16
    } else {
        u as i16
    }
}

/// Splitting an S16 value into its little-endian pair and joining the pair
/// gives the value back.
pub proof fn le_pair_roundtrip(v: int)
    requires
        -32768 <= v < 32768,
    ensures
        0 <= le_low_byte(v) < 256,
        0 <= le_high_byte(v) < 256,
        le_sample(le_low_byte(v) as u8, le_high_byte(v) as u8) == v,
{
}

/// Sample format of the PCM an encoder is asked to consume.
#[derive(Clone, Copy, Debug, PartialEq, Eq, Structural)]
pub enum PcmFormat {
    /// Interleaved signed 16-bit little-endian samples.
    S16,
    /// Any other sample layout.
    Other,
}

/// Why a codec call was refused.
#[derive(Clone, Copy, Debug, PartialEq, Eq, Structural)]
pub enum CodecError {
    /// The stream was configured with zero channels.
    ZeroChannels,
    /// The encoder input is not S16 PCM.
    UnsupportedSampleFormat,
    /// A packet was sent while the previous one had not been received yet.
    PacketPending,
    /// No packet or frame is waiting; feed more input.
    NeedMore,
    /// The decoder was flushed and holds nothing more.
    EndOfStream,
    /// The packet length is not a whole number of interleaved frames.
    PartialChannelPacket { len: usize, channels: u16 },
    /// The frame carries no sample plane, or its sample plane is empty.
    EmptyFrame,
    /// The S16 plane has an odd number of bytes.
    OddByteCount,
}

/// A decoded frame: interleaved S16 PCM as little-endian byte pairs.
pub struct DecodedFrame {
    /// Samples per channel.
    pub samples: u32,
    /// Presentation timestamp carried over from the packet.
    pub pts: Option<i64>,
    /// Interleaved little-endian S16 bytes.
    pub data: Vec<u8>,
}

/// An encoded packet: one codeword per input sample.
pub struct EncodedPacket {
    /// Codewords, interleaved as the input samples were.
    pub data: Vec<u8>,
    /// Presentation timestamp of the source frame.
    pub pts: Option<i64>,
    /// Decode timestamp (equal to the presentation timestamp).
    pub dts: Option<i64>,
    /// Duration in samples per channel.
    pub duration: Option<i64>,
    /// Every G.711 packet stands alone.
    pub keyframe: bool,
}

/// `p` is the packet an encoder makes of a frame of `samples` samples per
/// channel at presentation time `pts` whose codewords are `data`.
pub open spec fn packet_of_frame(p: EncodedPacket, data: Seq<u8>, samples: u32, pts: Option<i64>) -> bool {
    &&& p.data@ == data
    &&& p.pts == pts
    &&& p.dts == pts
    &&& p.duration == Some(samples as i64)
    &&& p.keyframe
}

/// The packet of a frame carries the frame's codewords and timestamp, and
/// its duration is the frame's sample count per channel, whatever the
/// number of codewords (that is, of channels) in it.
pub proof fn packet_of_frame_fields(p: EncodedPacket, data: Seq<u8>, samples: u32, pts: Option<i64>)
    requires
        packet_of_frame(p, data, samples, pts),
    ensures
        p.data@ == data,
        p.pts == pts,
        p.dts == pts,
        p.duration == Some(samples as i64),
        p.keyframe,
{
}

/// A packet accepted by a decoder and not yet decoded.
pub struct PendingPacket {
    /// Codewords.
    pub data: Vec<u8>,
    /// Presentation timestamp.
    pub pts: Option<i64>,
}

} // verus!
