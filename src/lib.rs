//! A minimal RTP stream of linear PCM audio: the fixed header codec, an
//! outbound packetizer, and inbound reconstructors that restore packet order
//! and conceal lost packets.
pub mod rtp;
pub mod rtp_jitter;
pub mod wire;

pub use rtp::{RtpError, RtpHeader, RtpOutStream, JITTERS_MAX_PACKET_SIZE, JITTERS_SAMPLE_RATE};
