use jitters::rtp::{RtpHeader, RtpInStream, RtpOutStream, MARKER_BIT, RTP_HEADER_SIZE};
use jitters::{RtpError, JITTERS_MAX_PACKET_SIZE, JITTERS_SAMPLE_RATE};
use std::mem::size_of;

fn header_of(packet: &[u8]) -> RtpHeader {
    RtpHeader::from_buf(packet).unwrap().0
}

#[test]
fn lib_test_max_packet_size() {
    assert_eq!(JITTERS_MAX_PACKET_SIZE, 1388);
}

#[test]
fn rtp_test_max_packet_size() {
    assert_eq!(JITTERS_MAX_PACKET_SIZE, 1388);
}

#[test]
fn lib_test_size_of() {
    assert_eq!(size_of::<RtpHeader>(), 12);
}

#[test]
fn rtp_test_size_of() {
    assert_eq!(size_of::<RtpHeader>(), size_of::<RtpHeader>());
}

#[test]
fn lib_test_offset_of() {
    let h = RtpHeader { flags: 0x0102, sequence: 0x0304, timestamp: 0x05060708, ssrc: 0x090a0b0c };
    let bytes = h.encode();
    assert_eq!(bytes[0..2], [0x01, 0x02]);
    assert_eq!(bytes[2..4], [0x03, 0x04]);
    assert_eq!(bytes[4..8], [0x05, 0x06, 0x07, 0x08]);
    assert_eq!(bytes[8..12], [0x09, 0x0a, 0x0b, 0x0c]);
}

#[test]
fn rtp_test_offset_of() {
    let packet = RtpOutStream::with_offsets(1, 0xabcd, 0x11223344, 0x55667788).next_packet(&[9u8], 4);
    assert_eq!(packet[0..2], [0x80, 0x0b]);
    assert_eq!(packet[2..4], [0xab, 0xcd]);
    assert_eq!(packet[4..8], [0x11, 0x22, 0x33, 0x44]);
    assert_eq!(packet[8..12], [0x55, 0x66, 0x77, 0x88]);
}

#[test]
fn lib_test_out_stream_packets() {
    let mut rtp_stream = RtpOutStream::new(1);

    let test_data_1 = vec![1u8, 3u8, 5u8, 7u8];
    let test_data_2 = vec![2u8, 4u8, 6u8, 8u8];

    let packet_1 = rtp_stream.next_packet(&test_data_1, 1);
    let packet_2 = rtp_stream.next_packet(&test_data_2, 2);

    println!("packet 1: {:#?}", packet_1);
    println!("packet 2: {:#?}", packet_2);
}

#[test]
fn rtp_test_out_stream_packets() {
    let mut rtp_stream = RtpOutStream::new(1);

    let test_data_1 = vec![1u8, 3u8, 5u8, 7u8];
    let test_data_2 = vec![2u8, 4u8, 6u8, 8u8];

    let packet_1 = rtp_stream.next_packet(&test_data_1, test_data_1.len() as u32);
    let packet_2 = rtp_stream.next_packet(&test_data_2, test_data_2.len() as u32);

    println!("packet 1: {:#?}", packet_1);
    println!("packet 2: {:#?}", packet_2);
}

#[test]
fn sample_rate_is_cd_quality() {
    assert_eq!(JITTERS_SAMPLE_RATE, 44100);
    assert_eq!(RTP_HEADER_SIZE, 12);
}

#[test]
fn header_encodes_big_endian() {
    let h = RtpHeader { flags: 0x800b, sequence: 0x1234, timestamp: 0xdeadbeef, ssrc: 0x01020304 };
    assert_eq!(
        h.encode(),
        vec![0x80, 0x0b, 0x12, 0x34, 0xde, 0xad, 0xbe, 0xef, 0x01, 0x02, 0x03, 0x04]
    );
}

#[test]
fn header_round_trip_keeps_payload() {
    let h = RtpHeader { flags: 0x808a, sequence: 65535, timestamp: 7, ssrc: 0xffff_fffe };
    let packet = h.to_packet(&[5, 0, 255, 42]);
    assert_eq!(packet.len(), 16);
    let (back, payload) = RtpHeader::from_buf(&packet).unwrap();
    assert_eq!(back, h);
    assert_eq!(payload, vec![5, 0, 255, 42]);
}

#[test]
fn header_round_trip_empty_payload() {
    let h = RtpHeader { flags: 1, sequence: 2, timestamp: 3, ssrc: 4 };
    let (back, payload) = RtpHeader::from_buf(&h.encode()).unwrap();
    assert_eq!(back, h);
    assert!(payload.is_empty());
}

#[test]
fn short_buffer_is_malformed() {
    assert_eq!(RtpHeader::from_buf(&[0u8; 11]), Err(RtpError::Malformed));
    assert_eq!(RtpHeader::from_buf(&[]), Err(RtpError::Malformed));
}

#[test]
fn new_stream_offsets_leave_headroom() {
    let mut s = RtpOutStream::new(2);
    let h = header_of(&s.next_packet(&[], 0));
    assert_eq!(h.flags, 0x800a);
    assert_eq!(h.sequence % 4, 0);
    assert_eq!(h.timestamp % 4, 0);
}

#[test]
fn sequence_numbers_are_consecutive_and_wrap() {
    let mut s = RtpOutStream::with_offsets(1, 65533, 4294967290, 99);
    let mut seqs = Vec::new();
    let mut stamps = Vec::new();
    for _ in 0..5 {
        let h = header_of(&s.next_packet(&[1, 2, 3, 4], 4));
        seqs.push(h.sequence);
        stamps.push(h.timestamp);
        assert_eq!(h.ssrc, 99);
        assert_eq!(h.flags, 0x800b);
    }
    assert_eq!(seqs, vec![65533, 65534, 65535, 0, 1]);
    assert_eq!(stamps, vec![4294967290, 4294967294, 2, 6, 10]);
}

#[test]
fn only_last_packet_sets_marker() {
    let mut s = RtpOutStream::with_offsets(2, 10, 20, 30);
    let p = s.next_packet(&[1, 1], 2);
    assert_eq!(header_of(&p).flags & MARKER_BIT, 0);
    let last = s.last_packet(&[2, 2]);
    let h = header_of(&last);
    assert_ne!(h.flags & MARKER_BIT, 0);
    assert_eq!(h.flags, 0x808a);
    assert_eq!(h.sequence, 11);
    assert_eq!(h.timestamp, 22);
    // the final packet does not advance the stream
    let again = header_of(&s.next_packet(&[3, 3], 2));
    assert_eq!(again.sequence, 11);
    assert_eq!(again.flags & MARKER_BIT, 0);
}

#[test]
fn packet_carries_payload_verbatim() {
    let mut s = RtpOutStream::with_offsets(1, 0, 0, 0);
    let audio: Vec<u8> = (0..JITTERS_MAX_PACKET_SIZE).map(|i| (i % 251) as u8).collect();
    let p = s.next_packet(&audio, 694);
    assert_eq!(p.len(), RTP_HEADER_SIZE + JITTERS_MAX_PACKET_SIZE);
    assert_eq!(p[RTP_HEADER_SIZE..], audio[..]);
}

#[test]
fn in_stream_keeps_arrival_order() {
    let mut out = RtpOutStream::with_offsets(1, 100, 1000, 5);
    let p1 = out.next_packet(&[1], 10);
    let p2 = out.next_packet(&[2], 10);
    let p3 = out.next_packet(&[3], 10);
    let mut s = RtpInStream::new(&p1).unwrap();
    assert_eq!(s.channels, 1);
    s.next_packet(&p3).unwrap();
    s.next_packet(&p2).unwrap();
    assert_eq!(s.audio_slices, vec![(vec![1], 0, 0), (vec![3], 2, 20), (vec![2], 1, 10)]);
    assert!(!s.ended());
}

#[test]
fn in_stream_relative_values_wrap() {
    let mut out = RtpOutStream::with_offsets(2, 65535, 4294967295, 5);
    let p1 = out.next_packet(&[1], 3);
    let p2 = out.next_packet(&[2], 3);
    let mut s = RtpInStream::new(&p1).unwrap();
    assert_eq!(s.channels, 2);
    s.next_packet(&p2).unwrap();
    assert_eq!(s.audio_slices[1], (vec![2], 1, 3));
}

#[test]
fn in_stream_rejects_foreign_packets() {
    let mut a = RtpOutStream::with_offsets(1, 0, 0, 1);
    let mut b = RtpOutStream::with_offsets(1, 0, 0, 2);
    let mut stereo = RtpOutStream::with_offsets(2, 0, 0, 1);
    let mut s = RtpInStream::new(&a.next_packet(&[1], 1)).unwrap();
    assert_eq!(s.next_packet(&b.next_packet(&[2], 1)), Err(RtpError::ForeignStream));
    assert_eq!(s.next_packet(&stereo.next_packet(&[2], 1)), Err(RtpError::ForeignStream));
    assert_eq!(s.next_packet(&[0x80, 0x0b]), Err(RtpError::Malformed));
    assert_eq!(s.audio_slices, vec![(vec![1], 0, 0)]);
}

#[test]
fn in_stream_rejects_unknown_payload_type() {
    let h = RtpHeader { flags: 0x8000, sequence: 0, timestamp: 0, ssrc: 0 };
    assert!(matches!(RtpInStream::new(&h.encode()), Err(RtpError::UnsupportedPayload)));
    assert!(matches!(RtpInStream::new(&[1, 2, 3]), Err(RtpError::Malformed)));
}

#[test]
fn in_stream_stays_ended() {
    let mut out = RtpOutStream::with_offsets(1, 0, 0, 1);
    let p1 = out.next_packet(&[1], 1);
    let last = out.last_packet(&[2]);
    let mut s = RtpInStream::new(&p1).unwrap();
    s.next_packet(&last).unwrap();
    assert!(s.ended());
    s.next_packet(&p1).unwrap();
    assert!(s.ended());
}
