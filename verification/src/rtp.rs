//! The RTP datagram codecs: the standard RTP header for audio and timing
//! packets, and the fixed 20-byte control-port layout.

use vstd::prelude::*;
use crate::stream::{ReadStream, be16_at, be32_at};

verus! {

/// A parsed RTP datagram: the payload type and the payload bytes.
#[derive(Debug)]
pub struct RtpPacket {
    pub payload_type: u8,
    pub payload: Vec<u8>,
}

/// A parsed control-port packet: a 4-byte RTP header followed by four
/// 32-bit big-endian fields.
#[derive(Debug)]
pub struct RtpControlPacket {
    pub timestamp: u32,
    pub current_time_seconds: u32,
    pub current_time_fraction: u32,
    pub next_timestamp: u32,
}

/// A datagram whose RTP version is not 2; the session treats this as fatal.
#[derive(Clone, Copy, Debug, PartialEq, Eq, Structural)]
pub enum RtpError {
    UnsupportedVersion,
}

pub open spec fn rtp_version(b: Seq<u8>) -> int {
    (b[0] as int) / 64
}

pub open spec fn rtp_csrc_count(b: Seq<u8>) -> int {
    (b[0] as int) % 16
}

pub open spec fn rtp_has_extension(b: Seq<u8>) -> bool {
    ((b[0] as int) / 16) % 2 == 1
}

pub open spec fn rtp_has_padding(b: Seq<u8>) -> bool {
    ((b[0] as int) / 32) % 2 == 1
}

pub open spec fn rtp_payload_type(b: Seq<u8>) -> u8 {
    ((b[1] as int) % 128) as u8
}

/// The fixed header plus the contributing-source list.
pub open spec fn rtp_csrc_end(b: Seq<u8>) -> int {
    12 + 4 * rtp_csrc_count(b)
}

/// Where the payload starts: after the header, the sources, and the
/// extension block when one is present.
pub open spec fn rtp_payload_offset(b: Seq<u8>) -> int {
    if rtp_has_extension(b) {
        rtp_csrc_end(b) + 4 + 4 * be16_at(b, rtp_csrc_end(b) + 2)
    } else {
        rtp_csrc_end(b)
    }
}

/// The padding length: the last byte of the datagram when the padding flag
/// is set, zero otherwise.
pub open spec fn rtp_padding(b: Seq<u8>) -> int {
    if rtp_has_padding(b) {
        b[b.len() - 1] as int
    } else {
        0
    }
}

/// A datagram parses when it holds the whole header, its extension block if
/// flagged, and a payload after valid padding.
pub open spec fn rtp_complete(b: Seq<u8>) -> bool {
    &&& b.len() >= 12
    &&& rtp_version(b) == 2
    &&& rtp_csrc_end(b) + (if rtp_has_extension(b) {
        4int
    } else {
        0int
    }) <= b.len()
    &&& rtp_payload_offset(b) <= b.len() - rtp_padding(b)
    &&& (rtp_has_padding(b) ==> rtp_padding(b) >= 1)
}

/// The payload: everything between the payload offset and the padding.
pub open spec fn rtp_payload(b: Seq<u8>) -> Seq<u8> {
    b.subrange(rtp_payload_offset(b), b.len() - rtp_padding(b))
}

/// The audio and timing RTP codec, datagram oriented.
pub struct RtpCodec {}

impl RtpCodec {
    /// Parses one datagram.  `Ok(None)` means the datagram is truncated or
    /// its padding is invalid and it is skipped; a version other than 2 is a
    /// fatal error.  On success the consumed count equals the datagram
    /// length minus the padding.
    pub fn decode(&mut self, src: &Vec<u8>) -> (r: Result<
        Option<(RtpPacket, usize)>,
        RtpError,
    >)
        ensures
            r matches Ok(Some(p)) ==> ({
                &&& rtp_complete(src@)
                &&& p.0.payload_type == rtp_payload_type(src@)
                &&& p.0.payload@ == rtp_payload(src@)
                &&& p.1 == rtp_payload_offset(src@) + rtp_payload(src@).len()
                &&& p.1 == src@.len() - rtp_padding(src@)
            }),
            r matches Ok(None) ==> !rtp_complete(src@) && (src@.len() >= 12 ==> rtp_version(
                src@,
            ) == 2),
            r matches Err(_) ==> src@.len() >= 12 && rtp_version(src@) != 2,
    {
        if src.len() < 12 {
            return Ok(None);
        }
        let b0 = src[0];
        if b0 / 64 != 2 {
            return Err(RtpError::UnsupportedVersion);
        }
        let csrc_end: usize = 12 + 4 * ((b0 % 16) as usize);
        let has_extension = (b0 / 16) % 2 == 1;
        let has_padding = (b0 / 32) % 2 == 1;
        let payload_offset: usize = if has_extension {
            if csrc_end + 4 > src.len() {
                return Ok(None);
            }
            let mut stream = ReadStream::with_cursor(src.as_slice(), csrc_end + 2);
            let words = stream.read_u16();
            csrc_end + 4 + 4 * (words as usize)
        } else {
            csrc_end
        };
        let padding: usize = if has_padding {
            let p = src[src.len() - 1] as usize;
            if p < 1 {
                return Ok(None);
            }
            p
        } else {
            0
        };
        if padding > src.len() || payload_offset > src.len() - padding {
            return Ok(None);
        }
        let mut stream = ReadStream::with_cursor(src.as_slice(), payload_offset);
        let payload = stream.read(src.len() - padding - payload_offset);
        let packet = RtpPacket { payload_type: src[1] % 128, payload };
        Ok(Some((packet, src.len() - padding)))
    }
}

/// The control-port codec: a fixed 20-byte layout, like an RTP packet
/// without the synchronization-source part.
pub struct RtpControlCodec {}

impl RtpControlCodec {
    /// Parses one control packet; `None` when the datagram is shorter than
    /// 20 bytes.
    pub fn decode(&mut self, src: &Vec<u8>) -> (r: Option<(RtpControlPacket, usize)>)
        ensures
            src@.len() >= 20 ==> (r matches Some(p) && {
                &&& p.0.timestamp == be32_at(src@, 4)
                &&& p.0.current_time_seconds == be32_at(src@, 8)
                &&& p.0.current_time_fraction == be32_at(src@, 12)
                &&& p.0.next_timestamp == be32_at(src@, 16)
                &&& p.1 == 20
            }),
            src@.len() < 20 ==> r is None,
    {
        if src.len() < 20 {
            return None;
        }
        let mut stream = ReadStream::with_cursor(src.as_slice(), 4);
        let timestamp = stream.read_u32();
        let current_time_seconds = stream.read_u32();
        let current_time_fraction = stream.read_u32();
        let next_timestamp = stream.read_u32();
        Some(
            (
                RtpControlPacket {
                    timestamp,
                    current_time_seconds,
                    current_time_fraction,
                    next_timestamp,
                },
                20,
            ),
        )
    }
}

} // verus!
