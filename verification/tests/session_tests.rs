use ras::mdns_packet::{Class, Header, Name, Packet, Question, ResourceRecordData, ResourceType,
    U16be};
use ras::mdns_responder::MdnsServer;
use ras::mdns_service::Service;
use ras::rtp::RtpPacket;
use ras::rtsp::{HeaderMap, RtspRequest, RtspStatusCode};
use ras::sdp::parse_sdp;
use ras::session::{PacketDrop, RtspSession, SessionState};
use ras::sink::DummyAudioSink;

fn request(method: &str, headers: Vec<(&str, &str)>, content: Vec<u8>) -> RtspRequest {
    let mut map = HeaderMap::new();
    for (k, v) in headers {
        map.insert(k.to_string(), v.to_string());
    }
    RtspRequest {
        method: method.to_string(),
        path: "*".to_string(),
        headers: map,
        content,
    }
}

fn new_session() -> RtspSession<DummyAudioSink> {
    RtspSession::new(
        7,
        5100,
        5101,
        5102,
        "not a real key",
        &vec![192u8, 168, 1, 1],
        &vec![0u8, 0x11, 0x22, 0x33, 0x44, 0x55],
        DummyAudioSink::new(),
    )
}

const L16_SDP: &[u8] = b"v=0\r\no=x 0 0 IN IP4 127.0.0.1\r\ns=x\r\nm=audio 0 RTP/AVP 96\r\na=rtpmap:96 L16/44100/2\r\n";

#[test]
fn cseq_and_server_are_echoed() {
    let mut session = new_session();
    let req = request("OPTIONS", vec![("CSeq", "17")], Vec::new());
    let resp = session.handle_rtsp(&req).unwrap();
    assert!(resp.status == RtspStatusCode::Okay);
    assert_eq!(resp.headers.get("CSeq").unwrap(), "17");
    assert_eq!(resp.headers.get("Server").unwrap(), "ras/0.1");
    assert!(resp.headers.get("Public").unwrap().contains("ANNOUNCE"));
}

#[test]
fn unknown_method_is_405_and_get_is_404() {
    let mut session = new_session();
    let resp = session.handle_rtsp(&request("BREW", vec![], Vec::new())).unwrap();
    assert!(resp.status == RtspStatusCode::MethodNotAllowed);
    let resp = session.handle_rtsp(&request("GET", vec![], Vec::new())).unwrap();
    assert!(resp.status == RtspStatusCode::NotFound);
    let resp = session.handle_rtsp(&request("POST", vec![], Vec::new())).unwrap();
    assert!(resp.status == RtspStatusCode::NotFound);
}

#[test]
fn setup_before_announce_is_400() {
    let mut session = new_session();
    let resp = session
        .handle_rtsp(&request("SETUP", vec![("Transport", "RTP/AVP/UDP;unicast")], Vec::new()))
        .unwrap();
    assert!(resp.status == RtspStatusCode::BadRequest);
}

#[test]
fn announce_setup_record_flow() {
    let mut session = new_session();

    let resp = session
        .handle_rtsp(&request("ANNOUNCE", vec![("CSeq", "1")], L16_SDP.to_vec()))
        .unwrap();
    assert!(resp.status == RtspStatusCode::Okay);
    assert!(session.state == SessionState::Announced);

    let resp = session
        .handle_rtsp(&request(
            "SETUP",
            vec![("CSeq", "2"), ("Transport", "RTP/AVP/UDP;unicast;mode=record")],
            Vec::new(),
        ))
        .unwrap();
    assert!(resp.status == RtspStatusCode::Okay);
    assert_eq!(
        resp.headers.get("Transport").unwrap(),
        "RTP/AVP/UDP;unicast;mode=record;server_port=5100;control_port=5101;timing_port=5102"
    );
    assert_eq!(resp.headers.get("Session").unwrap(), "7");
    assert!(session.state == SessionState::Setup);

    let resp = session
        .handle_rtsp(&request("RECORD", vec![("CSeq", "3")], Vec::new()))
        .unwrap();
    assert!(resp.status == RtspStatusCode::Okay);
    assert!(session.state == SessionState::Recording);

    let resp = session
        .handle_rtsp(&request("TEARDOWN", vec![("CSeq", "4")], Vec::new()))
        .unwrap();
    assert!(resp.status == RtspStatusCode::Okay);
    assert!(session.state == SessionState::Closed);
}

#[test]
fn announce_with_bad_sdp_is_400() {
    let mut session = new_session();
    let resp = session
        .handle_rtsp(&request("ANNOUNCE", vec![], b"not sdp at all".to_vec()))
        .unwrap();
    assert!(resp.status == RtspStatusCode::BadRequest);
}

#[test]
fn announce_with_unknown_codec_is_fatal() {
    let mut session = new_session();
    let body = b"v=0\r\nm=audio 0 RTP/AVP 96\r\na=rtpmap:96 Opus/48000/2\r\n".to_vec();
    assert!(session.handle_rtsp(&request("ANNOUNCE", vec![], body)).is_err());
}

#[test]
fn rtp_accepted_once_after_announce() {
    let mut session = new_session();
    session
        .handle_rtsp(&request("ANNOUNCE", vec![], L16_SDP.to_vec()))
        .unwrap();

    // before any stream no packet is accepted
    let mut fresh = new_session();
    let packet = RtpPacket { payload_type: 96, payload: vec![1, 2, 3, 4] };
    assert_eq!(fresh.handle_rtp(&packet).unwrap_err(), PacketDrop::NoStream);

    // a matching packet is accepted, a mismatched payload type is dropped
    assert!(session.handle_rtp(&packet).is_ok());
    let wrong = RtpPacket { payload_type: 97, payload: vec![1, 2, 3, 4] };
    assert_eq!(session.handle_rtp(&wrong).unwrap_err(), PacketDrop::WrongPayloadType);
}

#[test]
fn sdp_subset_parses_attributes() {
    let body = b"v=0\r\nm=audio 0 RTP/AVP 96\r\na=rtpmap:96 AppleLossless\r\na=fmtp:96 352 0 16 40 10 14 2 255 0 0 44100\r\na=rsaaeskey:QUJD\r\na=aesiv:REVG\r\n".to_vec();
    let info = parse_sdp(&body).unwrap();
    assert_eq!(info.codec_name, "AppleLossless");
    assert_eq!(info.fmtp.as_deref(), Some("352 0 16 40 10 14 2 255 0 0 44100"));
    assert_eq!(info.rsaaeskey.as_deref(), Some("QUJD"));
    assert_eq!(info.aesiv.as_deref(), Some("REVG"));

    let l16 = parse_sdp(&L16_SDP.to_vec()).unwrap();
    assert_eq!(l16.codec_name, "L16");
    assert_eq!(l16.clock_rate, 44100);
    assert_eq!(l16.encoding_parameters, "2");

    // two media sections are refused
    let two = b"m=audio 0 RTP/AVP 96\r\nm=video 0 RTP/AVP 97\r\na=rtpmap:96 L16/44100/2\r\n".to_vec();
    assert!(parse_sdp(&two).is_err());
}

#[test]
fn responder_answers_matching_ptr_query() {
    let service = Service::new(
        "_raop._tcp",
        "001122334455@ras",
        7000,
        vec!["txtvers=1".to_string(), "ch=2".to_string()],
    );
    let server = MdnsServer::new(
        vec![service],
        "player.local".to_string(),
        vec![((192u32 << 24) | (168 << 16) | (1 << 8), 24)],
    )
    .unwrap();

    let query = Packet {
        header: Header {
            id: U16be::new(9),
            flags: U16be::new(0),
            qd_count: U16be::new(1),
            an_count: U16be::new(0),
            ns_count: U16be::new(0),
            ar_count: U16be::new(0),
        },
        questions: vec![Question {
            name: Name::new("_raop._tcp.local"),
            rtype: ResourceType::PTR,
            class: Class::IN,
            unicast: true,
        }],
        answers: Vec::new(),
        nameservers: Vec::new(),
        additionals: Vec::new(),
    };
    let bytes = query.write();
    let origin = (192u32 << 24) | (168 << 16) | (1 << 8) | 50;
    let (unicast, multicast) = server.handle_packet(&bytes, origin).unwrap();
    assert!(multicast.is_none());
    let response = Packet::parse(unicast.unwrap().as_slice()).unwrap();
    assert!(!response.header.is_query());
    assert_eq!(response.header.id.get(), 9);
    assert_eq!(response.answers.len(), 1);
    assert!(response.answers[0].name.equals("_raop._tcp.local"));
    assert!(matches!(response.answers[0].data, ResourceRecordData::PTR(_)));
    assert_eq!(response.additionals.len(), 3);
    match &response.additionals[0].data {
        ResourceRecordData::SRV { port, target, .. } => {
            assert_eq!(*port, 7000);
            assert!(target.equals("player.local"));
        },
        _ => panic!("expected SRV record"),
    }
    match &response.additionals[1].data {
        ResourceRecordData::TXT(items) => {
            assert_eq!(items, &vec!["txtvers=1".to_string(), "ch=2".to_string()]);
        },
        _ => panic!("expected TXT record"),
    }
    match &response.additionals[2].data {
        ResourceRecordData::A(ip) => {
            assert_eq!(*ip, (192u32 << 24) | (168 << 16) | (1 << 8));
        },
        _ => panic!("expected A record"),
    }

    // a query from an unknown subnet is suppressed
    let other = (10u32 << 24) | 1;
    assert!(server.handle_packet(&bytes, other).is_none());

    // a non-matching type gets an empty pair
    let mut other_query = query;
    other_query.questions[0].name = Name::new("_airplay._tcp.local");
    let bytes = other_query.write();
    let (u, m) = server.handle_packet(&bytes, origin).unwrap();
    assert!(u.is_none());
    assert!(m.is_none());
}

#[test]
fn responder_refuses_oversized_labels() {
    let long_label = "x".repeat(64);
    let service = Service::new(&long_label, "name", 1, Vec::new());
    assert!(
        MdnsServer::new(vec![service], "host.local".to_string(), Vec::new()).is_err()
    );
}

const ALAC_SDP: &[u8] = b"v=0\r\nm=audio 0 RTP/AVP 96\r\na=rtpmap:96 AppleLossless\r\na=fmtp:96 352 0 16 40 10 14 2 255 0 0 44100\r\n";

#[test]
fn alac_announce_and_crafted_frame_is_dropped() {
    let mut session = new_session();
    let resp = session
        .handle_rtsp(&request("ANNOUNCE", vec![], ALAC_SDP.to_vec()))
        .unwrap();
    assert!(resp.status == RtspStatusCode::Okay);

    // an uncompressed stereo element full of zeros decodes
    let mut good = vec![0x20u8, 0x00, 0x02];
    good.extend_from_slice(&vec![0u8; 1500]);
    let packet = RtpPacket { payload_type: 96, payload: good };
    assert!(session.handle_rtp(&packet).is_ok());

    // a partial-frame element announcing a huge sample count is dropped,
    // not decoded
    let mut evil = vec![0x20u8, 0x00, 0x0B, 0xFF, 0xFF, 0xFF, 0xFF];
    evil.extend_from_slice(&vec![0u8; 64]);
    let packet = RtpPacket { payload_type: 96, payload: evil };
    assert_eq!(session.handle_rtp(&packet).unwrap_err(), PacketDrop::DecodeFailed);

    // a frame led by a fill element is conservatively dropped
    let filler = vec![0xC0u8, 0, 0, 0, 0, 0, 0, 0];
    let packet = RtpPacket { payload_type: 96, payload: filler };
    assert_eq!(session.handle_rtp(&packet).unwrap_err(), PacketDrop::DecodeFailed);
}

#[test]
fn alac_fmtp_out_of_bounds_is_rejected() {
    let d = ras::decoder::AppleLoselessDecoder::new("352 0 16 40 10 14 2 255 0 0 44100").unwrap();
    assert_eq!(d.channels, 2);
    assert_eq!(d.sample_rate, 44100);
    assert_eq!(d.frame_length, 352);

    // three channels, an oversized rice modifier, a 32-bit depth, and a
    // tiny frame are all outside the decoder's bounds
    assert!(ras::decoder::AppleLoselessDecoder::new("352 0 16 40 10 14 3 255 0 0 44100").is_err());
    assert!(ras::decoder::AppleLoselessDecoder::new("352 0 16 200 10 14 2 255 0 0 44100").is_err());
    assert!(ras::decoder::AppleLoselessDecoder::new("352 0 32 40 10 14 2 255 0 0 44100").is_err());
    assert!(ras::decoder::AppleLoselessDecoder::new("352 0 31 40 10 14 2 255 0 0 44100").is_err());
    assert!(ras::decoder::AppleLoselessDecoder::new("16 0 16 40 10 14 2 255 0 0 44100").is_err());
    assert!(ras::decoder::AppleLoselessDecoder::new("not numbers at all").is_err());
}
