//! The fixed RTP header, the outbound packetizer and the plain inbound stream.
use crate::wire::{
    be16_at, be16_bytes, be32_at, be32_bytes, lemma_be16_round_trip, lemma_be32_round_trip,
    read_be16, read_be32, write_be16, write_be32,
};
use vstd::prelude::*;
use vstd::slice::{slice_subrange, slice_to_vec};

verus! {

/// Largest audio payload of one packet, so that a packet stays under a
/// 1500-byte path MTU.
pub const JITTERS_MAX_PACKET_SIZE: usize = 1388;

/// The one sample rate carried (16-bit linear PCM).
pub const JITTERS_SAMPLE_RATE: u32 = 44100;

/// Size of the fixed RTP header on the wire.
pub const RTP_HEADER_SIZE: usize = 12;

/// Why a packet or a stream was refused.
#[derive(Clone, Copy, Debug, PartialEq, Eq, Structural)]
pub enum RtpError {
    /// Shorter than the fixed header.
    Malformed,
    /// The payload type is neither mono nor stereo 16-bit linear PCM.
    UnsupportedPayload,
    /// Payload type, flags or SSRC differ from the stream's first packet.
    ForeignStream,
}

/// The fixed 12-byte RTP header.
#[derive(Clone, Copy, Debug, PartialEq, Eq, Structural)]
pub struct RtpHeader {
    /// Version, padding, extension, CSRC count, marker bit and payload type.
    pub flags: u16,
    pub sequence: u16,
    pub timestamp: u32,
    pub ssrc: u32,
}

/// The header's wire form: the four fields in order, each big-endian.
pub open spec fn header_bytes(h: RtpHeader) -> Seq<u8> {
    be16_bytes(h.flags) + be16_bytes(h.sequence) + be32_bytes(h.timestamp) + be32_bytes(h.ssrc)
}

/// The header held in the first twelve bytes of `s`.
pub open spec fn header_at(s: Seq<u8>) -> RtpHeader {
    RtpHeader {
        flags: be16_at(s, 0),
        sequence: be16_at(s, 2),
        timestamp: be32_at(s, 4),
        ssrc: be32_at(s, 8),
    }
}

/// A packet split into its header and its payload; `None` when it is shorter
/// than the header.
pub open spec fn parse_packet(s: Seq<u8>) -> Option<(RtpHeader, Seq<u8>)> {
    if s.len() < RTP_HEADER_SIZE {
        None
    } else {
        Some((header_at(s), s.skip(RTP_HEADER_SIZE as int)))
    }
}

/// Decoding an encoded header followed by any payload gives back the header
/// and the payload, byte for byte.
pub proof fn lemma_header_round_trip(h: RtpHeader, payload: Seq<u8>)
    ensures
        header_bytes(h).len() == RTP_HEADER_SIZE,
        parse_packet(header_bytes(h) + payload) == Some((h, payload)),
{
    let s = header_bytes(h) + payload;
    assert(s.subrange(0, 2) =~= be16_bytes(h.flags));
    assert(s.subrange(2, 4) =~= be16_bytes(h.sequence));
    assert(s.subrange(4, 8) =~= be32_bytes(h.timestamp));
    assert(s.subrange(8, 12) =~= be32_bytes(h.ssrc));
    lemma_be16_round_trip(h.flags, s, 0);
    lemma_be16_round_trip(h.sequence, s, 2);
    lemma_be32_round_trip(h.timestamp, s, 4);
    lemma_be32_round_trip(h.ssrc, s, 8);
    assert(s.skip(12) =~= payload);
}

impl RtpHeader {
    /// The header in its 12-byte wire form.
    pub fn encode(&self) -> (r: Vec<u8>)
        ensures
            r@ == header_bytes(*self),
    {
        let mut r: Vec<u8> = vec![0u8; RTP_HEADER_SIZE];
        write_be16(&mut r, 0, self.flags);
        write_be16(&mut r, 2, self.sequence);
        write_be32(&mut r, 4, self.timestamp);
        write_be32(&mut r, 8, self.ssrc);
        assert(r@ =~= header_bytes(*self));
        r
    }

    /// The header followed by `payload`.
    pub fn to_packet(&self, payload: &[u8]) -> (r: Vec<u8>)
        ensures
            r@ == header_bytes(*self) + payload@,
    {
        let mut r = self.encode();
        let mut i: usize = 0;
        while i < payload.len()
            invariant
                i <= payload@.len(),
                r@ == header_bytes(*self) + payload@.subrange(0, i as int),
            decreases payload@.len() - i,
        {
            r.push(payload[i]);
            i = i + 1;
            assert(r@ =~= header_bytes(*self) + payload@.subrange(0, i as int));
        }
        assert(payload@.subrange(0, i as int) =~= payload@);
        r
    }

    /// Splits a packet into its header and an owned copy of its payload.
    /// A packet shorter than the header is `Malformed`; an empty payload is
    /// no error.
    pub fn from_buf(buf: &[u8]) -> (r: Result<(RtpHeader, Vec<u8>), RtpError>)
        ensures
            match r {
                Ok((h, p)) => parse_packet(buf@) == Some((h, p@)),
                Err(e) => parse_packet(buf@) is None && e == RtpError::Malformed,
            },
    {
        if buf.len() < RTP_HEADER_SIZE {
            return Err(RtpError::Malformed);
        }
        let h = RtpHeader {
            flags: read_be16(buf, 0),
            sequence: read_be16(buf, 2),
            timestamp: read_be32(buf, 4),
            ssrc: read_be32(buf, 8),
        };
        let payload = slice_to_vec(slice_subrange(buf, RTP_HEADER_SIZE, buf.len()));
        assert(payload@ =~= buf@.skip(12));
        Ok((h, payload))
    }
}

/// Flags of a mono stream: version 2, payload type 11 (L16 mono).
pub const MONO_FLAGS: u16 = 0b10_0_0_0000_0_0001011;

/// Flags of a stereo stream: version 2, payload type 10 (L16 stereo).
pub const STEREO_FLAGS: u16 = 0b10_0_0_0000_0_0001010;

/// The marker bit, set on the last packet of a stream.
pub const MARKER_BIT: u16 = 0b1_0000000;

/// Whether `flags` has the marker bit set.
pub open spec fn marker_set(flags: u16) -> bool {
    flags & MARKER_BIT != 0
}

/// The flags an outbound stream of `channels` channels sends.
pub open spec fn flags_for_channels(channels: u16) -> u16 {
    if channels == 1 {
        MONO_FLAGS
    } else {
        STEREO_FLAGS
    }
}

/// The sender's state after one more packet: the sequence number advances by
/// one modulo 2^16, the timestamp by `delta` modulo 2^32.
pub open spec fn advanced(h: RtpHeader, delta: u32) -> RtpHeader {
    RtpHeader {
        sequence: ((h.sequence + 1) % 0x1_0000) as u16,
        timestamp: ((h.timestamp + delta) % 0x1_0000_0000) as u32,
        ..h
    }
}

/// The sender's state after packets whose timestamp steps were `deltas`, in
/// order, starting from `h`.
pub open spec fn after_packets(h: RtpHeader, deltas: Seq<u32>) -> RtpHeader
    decreases deltas.len(),
{
    if deltas.len() == 0 {
        h
    } else {
        advanced(after_packets(h, deltas.drop_last()), deltas.last())
    }
}

/// After `deltas.len()` packets the sequence number has advanced by that
/// many, modulo 2^16; flags and SSRC are unchanged.
pub proof fn lemma_after_packets(h: RtpHeader, deltas: Seq<u32>)
    ensures
        after_packets(h, deltas).sequence == (h.sequence + deltas.len()) % 0x1_0000,
        after_packets(h, deltas).flags == h.flags,
        after_packets(h, deltas).ssrc == h.ssrc,
    decreases deltas.len(),
{
    if deltas.len() > 0 {
        lemma_after_packets(h, deltas.drop_last());
    }
}

/// Successive packets of an outbound stream carry consecutive sequence
/// numbers modulo 2^16: the packet sent after `k` others carries the first
/// one's number plus `k`, so no two among 65536 successive packets share a
/// number. Flags and SSRC never change.
pub proof fn lemma_sequence_consecutive(h: RtpHeader, deltas: Seq<u32>)
    ensures
        forall|k: int|
            0 <= k <= deltas.len() ==> {
                let hk = #[trigger] after_packets(h, deltas.take(k));
                &&& hk.sequence == (h.sequence + k) % 0x1_0000
                &&& hk.flags == h.flags
                &&& hk.ssrc == h.ssrc
            },
        forall|j: int, k: int|
            0 <= j < k <= deltas.len() && k - j < 0x1_0000 ==> #[trigger] after_packets(
                h,
                deltas.take(j),
            ).sequence != #[trigger] after_packets(h, deltas.take(k)).sequence,
{
    assert forall|k: int| 0 <= k <= deltas.len() implies {
        let hk = #[trigger] after_packets(h, deltas.take(k));
        &&& hk.sequence == (h.sequence + k) % 0x1_0000
        &&& hk.flags == h.flags
        &&& hk.ssrc == h.ssrc
    } by {
        lemma_after_packets(h, deltas.take(k));
    }
    assert forall|j: int, k: int|
        0 <= j < k <= deltas.len() && k - j < 0x1_0000 implies #[trigger] after_packets(
        h,
        deltas.take(j),
    ).sequence != #[trigger] after_packets(h, deltas.take(k)).sequence by {
        lemma_after_packets(h, deltas.take(j));
        lemma_after_packets(h, deltas.take(k));
    }
}

/// The header with its marker bit set.
pub open spec fn with_marker(h: RtpHeader) -> RtpHeader {
    RtpHeader { flags: h.flags | MARKER_BIT, ..h }
}

/// The sending side of one stream. Its state is the header of the next packet.
pub struct RtpOutStream {
    flags: u16,
    sequence: u16,
    timestamp: u32,
    ssrc: u32,
}

impl View for RtpOutStream {
    type V = RtpHeader;

    closed spec fn view(&self) -> RtpHeader {
        RtpHeader {
            flags: self.flags,
            sequence: self.sequence,
            timestamp: self.timestamp,
            ssrc: self.ssrc,
        }
    }
}

impl RtpOutStream {
    /// The flags are those of a mono or a stereo stream, marker bit clear.
    pub open spec fn wf(&self) -> bool {
        self@.flags == MONO_FLAGS || self@.flags == STEREO_FLAGS
    }

    /// A stream of `channels` channels whose first packet carries the given
    /// sequence number, timestamp and SSRC.
    pub fn with_offsets(channels: u16, sequence: u16, timestamp: u32, ssrc: u32) -> (r: Self)
        requires
            channels == 1 || channels == 2,
        ensures
            r.wf(),
            r@ == (RtpHeader { flags: flags_for_channels(channels), sequence, timestamp, ssrc }),
    {
        let flags: u16 = if channels == 1 {
            MONO_FLAGS
        } else {
            STEREO_FLAGS
        };
        RtpOutStream { flags, sequence, timestamp, ssrc }
    }

    /// A stream of `channels` channels with a random SSRC and random initial
    /// sequence number and timestamp, both multiples of four so that long clips
    /// have headroom before they wrap.
    pub fn new(channels: u16) -> (r: Self)
        requires
            channels == 1 || channels == 2,
        ensures
            r.wf(),
            r@.flags == flags_for_channels(channels),
            r@.sequence % 4 == 0,
            r@.timestamp % 4 == 0,
    {
        let s: u16 = rand::random::<u16>();
        let t: u32 = rand::random::<u32>();
        let ssrc: u32 = rand::random::<u32>();
        let sequence: u16 = s << 2u16;
        let timestamp: u32 = t << 2u32;
        assert((s << 2u16) % 4 == 0) by (bit_vector);
        assert((t << 2u32) % 4 == 0) by (bit_vector);
        Self::with_offsets(channels, sequence, timestamp, ssrc)
    }

    /// The packet for `audio_slice`, after which the sequence number advances
    /// by one and the timestamp by `timestamp_delta`. Its marker bit is clear.
    pub fn next_packet(&mut self, audio_slice: &[u8], timestamp_delta: u32) -> (r: Vec<u8>)
        requires
            old(self).wf(),
            audio_slice@.len() <= JITTERS_MAX_PACKET_SIZE,
        ensures
            final(self).wf(),
            r@ == header_bytes(old(self)@) + audio_slice@,
            parse_packet(r@) == Some((old(self)@, audio_slice@)),
            !marker_set(old(self)@.flags),
            final(self)@ == advanced(old(self)@, timestamp_delta),
    {
        let hdr = self.construct_header();
        let r = hdr.to_packet(audio_slice);
        self.increment(timestamp_delta);
        proof {
            lemma_header_round_trip(hdr, audio_slice@);
        }
        assert(0b10_0_0_0000_0_0001011u16 & 0b1_0000000u16 == 0 && 0b10_0_0_0000_0_0001010u16
            & 0b1_0000000u16 == 0) by (bit_vector);
        r
    }

    /// The stream's final packet, for `audio_slice`, with the marker bit set.
    /// The stream's state stays as it was.
    pub fn last_packet(&mut self, audio_slice: &[u8]) -> (r: Vec<u8>)
        requires
            old(self).wf(),
            audio_slice@.len() <= JITTERS_MAX_PACKET_SIZE,
        ensures
            *final(self) == *old(self),
            r@ == header_bytes(with_marker(old(self)@)) + audio_slice@,
            parse_packet(r@) == Some((with_marker(old(self)@), audio_slice@)),
            marker_set(with_marker(old(self)@).flags),
    {
        let mut hdr = self.construct_header();
        let g: u16 = hdr.flags;
        hdr.flags = g | MARKER_BIT;
        let f: u16 = hdr.flags;
        assert(f & 0b1_0000000u16 != 0) by (bit_vector)
            requires
                f == g | 0b1_0000000u16,
        ;
        proof {
            lemma_header_round_trip(hdr, audio_slice@);
        }
        hdr.to_packet(audio_slice)
    }

    fn increment(&mut self, timestamp_delta: u32)
        ensures
            final(self)@ == advanced(old(self)@, timestamp_delta),
    {
        self.timestamp = self.timestamp.wrapping_add(timestamp_delta);
        self.sequence = self.sequence.wrapping_add(1);
    }

    fn construct_header(&self) -> (r: RtpHeader)
        ensures
            r == self@,
    {
        RtpHeader {
            flags: self.flags,
            ssrc: self.ssrc,
            timestamp: self.timestamp,
            sequence: self.sequence,
        }
    }
}

/// Payload type bits of the flags.
pub const PAYLOAD_TYPE_MASK: u16 = 0b1111111;

/// Every flag bit but the marker: what later packets of a stream must share
/// with its first.
pub const STREAM_FLAGS_MASK: u16 = 0b11111111_0_1111111;

/// The channel count that the payload type in `flags` announces, if it is
/// one of the two known ones.
pub open spec fn channels_of(flags: u16) -> Option<u16> {
    if flags & PAYLOAD_TYPE_MASK == 0b1011 {
        Some(1)
    } else if flags & PAYLOAD_TYPE_MASK == 0b1010 {
        Some(2)
    } else {
        None
    }
}

/// Whether `h` belongs to the stream that `first` opened: same flags but for
/// the marker bit, same SSRC.
pub open spec fn same_stream(first: RtpHeader, h: RtpHeader) -> bool {
    h.flags & STREAM_FLAGS_MASK == first.flags & STREAM_FLAGS_MASK && h.ssrc == first.ssrc
}

/// One audio slice: payload, sequence number and timestamp, both relative to
/// the stream's first packet.
pub type SliceView = (Seq<u8>, u16, u32);

/// The slice that a packet with header `h` and payload `payload` gives in the
/// stream that `first` opened (wrapping differences).
pub open spec fn slice_of(first: RtpHeader, h: RtpHeader, payload: Seq<u8>) -> SliceView {
    (payload, h.sequence.wrapping_sub(first.sequence), h.timestamp.wrapping_sub(first.timestamp))
}

/// The slices held, with each payload as a sequence of bytes.
pub open spec fn slices_view(v: Seq<(Vec<u8>, u16, u32)>) -> Seq<SliceView> {
    v.map_values(|e: (Vec<u8>, u16, u32)| (e.0@, e.1, e.2))
}

/// What a first packet gives: its header and payload, or why no stream can
/// start from it.
pub open spec fn first_packet_outcome(s: Seq<u8>) -> Result<(RtpHeader, Seq<u8>), RtpError> {
    match parse_packet(s) {
        None => Err(RtpError::Malformed),
        Some((h, p)) => if channels_of(h.flags) is Some {
            Ok((h, p))
        } else {
            Err(RtpError::UnsupportedPayload)
        },
    }
}

/// What a later packet gives in the stream that `first` opened: its header
/// and payload, or why it is refused.
pub open spec fn next_packet_outcome(first: RtpHeader, s: Seq<u8>) -> Result<
    (RtpHeader, Seq<u8>),
    RtpError,
> {
    match parse_packet(s) {
        None => Err(RtpError::Malformed),
        Some((h, p)) => if same_stream(first, h) {
            Ok((h, p))
        } else {
            Err(RtpError::ForeignStream)
        },
    }
}

/// Decodes a first packet and reads its channel count.
pub(crate) fn open_first(packet: &[u8]) -> (r: Result<(RtpHeader, u16, Vec<u8>), RtpError>)
    ensures
        match (r, first_packet_outcome(packet@)) {
            (Ok((h, c, p)), Ok((h2, p2))) => h == h2 && p@ == p2 && channels_of(h.flags) == Some(
                c,
            ),
            (Err(e), Err(e2)) => e == e2,
            _ => false,
        },
{
    let (h, p) = RtpHeader::from_buf(packet)?;
    let pt: u16 = h.flags & PAYLOAD_TYPE_MASK;
    if pt == 0b1011 {
        Ok((h, 1, p))
    } else if pt == 0b1010 {
        Ok((h, 2, p))
    } else {
        Err(RtpError::UnsupportedPayload)
    }
}

/// Decodes a later packet and checks that it belongs to the stream that
/// `first` opened; returns the slice it gives and its header.
pub(crate) fn accept_next(first: &RtpHeader, packet: &[u8]) -> (r: Result<
    ((Vec<u8>, u16, u32), RtpHeader),
    RtpError,
>)
    ensures
        match (r, next_packet_outcome(*first, packet@)) {
            (Ok((e, h)), Ok((h2, p2))) => h == h2 && (e.0@, e.1, e.2) == slice_of(*first, h, p2),
            (Err(e), Err(e2)) => e == e2,
            _ => false,
        },
{
    let (h, p) = RtpHeader::from_buf(packet)?;
    if (h.flags & STREAM_FLAGS_MASK) != (first.flags & STREAM_FLAGS_MASK) || h.ssrc != first.ssrc {
        return Err(RtpError::ForeignStream);
    }
    let seq: u16 = h.sequence.wrapping_sub(first.sequence);
    let ts: u32 = h.timestamp.wrapping_sub(first.timestamp);
    Ok(((p, seq, ts), h))
}

/// Whether the marker bit of `flags` is set.
pub(crate) fn has_marker(flags: u16) -> (r: bool)
    ensures
        r == marker_set(flags),
{
    flags & MARKER_BIT != 0
}

/// The receiving side of one stream, without reordering: slices are kept in
/// arrival order.
pub struct RtpInStream {
    first_header: RtpHeader,
    pub channels: u16,
    pub audio_slices: Vec<(Vec<u8>, u16, u32)>,
    ended: bool,
}

impl RtpInStream {
    /// The header of the packet that opened the stream.
    pub closed spec fn first(&self) -> RtpHeader {
        self.first_header
    }

    /// Whether a packet with the marker bit set has been seen.
    pub closed spec fn is_ended(&self) -> bool {
        self.ended
    }

    /// The value of the public `channels` field.
    pub closed spec fn channel_count(&self) -> u16 {
        self.channels
    }

    /// The public `audio_slices` field, payloads as byte sequences.
    pub closed spec fn slices(&self) -> Seq<SliceView> {
        slices_view(self.audio_slices@)
    }

    /// Opens a stream from its first packet: one slice at relative sequence 0
    /// and timestamp 0; ended already if that packet carries the marker bit.
    pub fn new(first_packet: &[u8]) -> (r: Result<Self, RtpError>)
        ensures
            match (r, first_packet_outcome(first_packet@)) {
                (Ok(st), Ok((h, p))) => {
                    &&& st.first() == h
                    &&& channels_of(h.flags) == Some(st.channel_count())
                    &&& st.slices() == seq![(p, 0u16, 0u32)]
                    &&& st.is_ended() == marker_set(h.flags)
                },
                (Err(e), Err(e2)) => e == e2,
                _ => false,
            },
    {
        let (first_header, channels, first_audio) = open_first(first_packet)?;
        let ended = has_marker(first_header.flags);
        let mut audio_slices: Vec<(Vec<u8>, u16, u32)> = Vec::new();
        audio_slices.push((first_audio, 0u16, 0u32));
        let r = RtpInStream { first_header, channels, audio_slices, ended };
        assert(slices_view(r.audio_slices@) =~= seq![(first_audio@, 0u16, 0u32)]);
        Ok(r)
    }

    /// Appends the slice of a later packet of the stream. A refused packet
    /// leaves the stream as it was. Once ended, the stream stays ended.
    pub fn next_packet(&mut self, next_packet: &[u8]) -> (r: Result<(), RtpError>)
        ensures
            match next_packet_outcome(old(self).first(), next_packet@) {
                Ok((h, p)) => {
                    &&& r is Ok
                    &&& final(self).first() == old(self).first()
                    &&& final(self).channel_count() == old(self).channel_count()
                    &&& final(self).slices() == old(self).slices().push(
                        slice_of(old(self).first(), h, p),
                    )
                    &&& final(self).is_ended() == (old(self).is_ended() || marker_set(h.flags))
                },
                Err(e) => r == Err::<(), RtpError>(e) && *final(self) == *old(self),
            },
    {
        let (entry, h) = match accept_next(&self.first_header, next_packet) {
            Ok(v) => v,
            Err(e) => return Err(e),
        };
        let ghost old_slices = self.audio_slices@;
        self.audio_slices.push(entry);
        assert(slices_view(self.audio_slices@) =~= slices_view(old_slices).push(
            (entry.0@, entry.1, entry.2),
        ));
        self.ended = self.ended || has_marker(h.flags);
        Ok(())
    }

    /// Whether a packet with the marker bit set has been seen.
    pub fn ended(&self) -> (r: bool)
        ensures
            r == self.is_ended(),
    {
        self.ended
    }
}

/// Relies on `rand::random` (`thread_rng().gen()`): nothing is promised of the
/// value it draws.
pub assume_specification<T>[ rand::random::<T> ]() -> (r: T)
    where
        rand::distributions::Standard: rand::distributions::Distribution<T>,
;

} // verus!
