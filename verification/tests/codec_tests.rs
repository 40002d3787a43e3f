use ras::rtp::{RtpCodec, RtpControlCodec, RtpError};
use ras::rtsp::{HeaderMap, RtspCodec, RtspResponse, RtspStatusCode};

#[test]
fn test_control() {
    let data = vec![
        0x90u8, 0xd4, 0x00, 0x04, 0x76, 0xc4, 0x5c, 0x94, 0x83, 0xac, 0xce, 0x14, 0x57, 0xfc,
        0x53, 0x13, 0x76, 0xc5, 0x8a, 0x0b,
    ];

    let mut codec = RtpControlCodec {};
    let (req, consumed) = codec.decode(&data).unwrap();

    assert_eq!(req.timestamp, 1992580244);
    assert_eq!(req.current_time_seconds, 2209140244);
    assert_eq!(req.current_time_fraction, 1476154131);
    assert_eq!(req.next_timestamp, 1992657419);
    assert_eq!(consumed, 20);
}

#[test]
fn control_too_short_waits() {
    let mut codec = RtpControlCodec {};
    assert!(codec.decode(&vec![0x90u8, 0xd4, 0x00]).is_none());
}

#[test]
fn test_simple_request() {
    let data = b"GET /info RTSP/1.0\r\nX-Apple-ProtocolVersion: 1\r\nCSeq: 0\r\n\r\n".to_vec();

    let mut codec = RtspCodec {};
    let (req, consumed) = codec.decode(&data).unwrap().unwrap();

    assert_eq!(req.method, "GET");
    assert_eq!(req.path, "/info");
    assert_eq!(req.headers.get("CSeq").unwrap(), "0");
    assert_eq!(req.headers.get("X-Apple-ProtocolVersion").unwrap(), "1");
    assert_eq!(consumed, data.len());
}

#[test]
fn test_simple_response() {
    let mut headers = HeaderMap::new();
    headers.insert("Test".to_string(), "Test".to_string());
    let response = RtspResponse::with_headers(RtspStatusCode::Okay, headers);

    let mut codec = RtspCodec {};
    let mut bytes: Vec<u8> = Vec::new();
    codec.encode(response, &mut bytes);

    assert_eq!(std::str::from_utf8(&bytes).unwrap(), "RTSP/1.0 200 OK\r\nTest: Test\r\n\r\n");
}

#[test]
fn request_with_body_round_trips() {
    let mut data = b"ANNOUNCE rtsp://x RTSP/1.0\r\nCSeq: 3\r\nContent-Length: 5\r\n\r\nhello".to_vec();
    data.extend_from_slice(b"GET");
    let mut codec = RtspCodec {};
    let (req, consumed) = codec.decode(&data).unwrap().unwrap();
    assert_eq!(req.method, "ANNOUNCE");
    assert_eq!(req.content, b"hello".to_vec());
    assert_eq!(consumed, data.len() - 3);
}

#[test]
fn partial_request_is_incomplete() {
    let data = b"GET /info RTSP/1.0\r\nCSeq: 0".to_vec();
    let mut codec = RtspCodec {};
    assert!(codec.decode(&data).unwrap().is_none());
}

#[test]
fn header_without_colon_is_bad_frame() {
    let data = b"GET /info RTSP/1.0\r\nnocolonhere\r\n\r\n".to_vec();
    let mut codec = RtspCodec {};
    assert!(codec.decode(&data).is_err());
}

#[test]
fn rtp_payload_offset_and_padding() {
    // version 2, no padding, payload type 96, 2-byte payload
    let plain = vec![0x80u8, 0x60, 0x00, 0x01, 0, 0, 0, 0, 0, 0, 0, 0, 0xAA, 0xBB];
    let mut codec = RtpCodec {};
    let (packet, consumed) = codec.decode(&plain).unwrap().unwrap();
    assert_eq!(packet.payload_type, 96);
    assert_eq!(packet.payload, vec![0xAA, 0xBB]);
    assert_eq!(consumed, 14);

    // version 2 with padding flag and two bytes of padding
    let padded = vec![
        0xA0u8, 0x60, 0x00, 0x01, 0, 0, 0, 0, 0, 0, 0, 0, 0xAA, 0xBB, 0x00, 0x02,
    ];
    let (packet, consumed) = codec.decode(&padded).unwrap().unwrap();
    assert_eq!(packet.payload, vec![0xAA, 0xBB]);
    assert_eq!(consumed, padded.len() - 2);
}

#[test]
fn rtp_wrong_version_is_fatal() {
    let data = vec![0x40u8, 0x60, 0, 1, 0, 0, 0, 0, 0, 0, 0, 0];
    let mut codec = RtpCodec {};
    assert_eq!(codec.decode(&data).unwrap_err(), RtpError::UnsupportedVersion);
}

#[test]
fn rtp_truncated_is_skipped() {
    let data = vec![0x80u8, 0x60, 0, 1];
    let mut codec = RtpCodec {};
    assert!(codec.decode(&data).unwrap().is_none());
}

#[test]
fn header_map_insert_replaces_first_match() {
    let mut headers = HeaderMap::new();
    headers.insert("CSeq".to_string(), "1".to_string());
    headers.insert("Other".to_string(), "x".to_string());
    headers.insert("CSeq".to_string(), "2".to_string());
    assert_eq!(headers.get("CSeq").unwrap(), "2");
    assert_eq!(headers.get("Other").unwrap(), "x");
    assert!(headers.get("Missing").is_none());
    assert_eq!(headers.entries.len(), 2);
}

#[test]
fn non_utf8_header_is_bad_frame() {
    let data = vec![0xFFu8, 0xFE, 13, 10, 13, 10];
    let mut codec = RtspCodec {};
    assert!(codec.decode(&data).is_err());
}

#[test]
fn status_codes_and_reasons() {
    assert_eq!(RtspStatusCode::Okay.code(), 200);
    assert_eq!(RtspStatusCode::BadRequest.code(), 400);
    assert_eq!(RtspStatusCode::NotFound.code(), 404);
    assert_eq!(RtspStatusCode::MethodNotAllowed.code(), 405);
    assert_eq!(RtspStatusCode::InternalServerError.code(), 500);
    assert_eq!(RtspStatusCode::MethodNotAllowed.as_string(), "Method Not Allowed");
}
