//! An AirPlay 1 (RAOP) audio receiver library.
//!
//! The crate holds the verified core of the receiver: the RTSP and RTP wire
//! codecs, the SDP subset used by ANNOUNCE, the Apple challenge and the
//! AES-CBC stream cipher, the audio decoder selection, the session state
//! machine, and the mDNS packet codec and responder.  Network and audio I/O
//! live outside the library and hand it plain values.

pub mod b64;
pub mod cipher;
pub mod decoder;
pub mod mdns_packet;
pub mod mdns_responder;
pub mod mdns_service;
pub mod rtp;
pub mod rtsp;
pub mod sdp;
pub mod session;
pub mod sink;
pub mod stream;
pub mod text;
