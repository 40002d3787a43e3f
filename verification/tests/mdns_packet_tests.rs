use ras::mdns_packet::{Class, Header, Name, Packet, Question, ResourceRecord,
    ResourceRecordData, ResourceType, U16be};

#[test]
fn parse_simple_query() {
    let query = b"\x06%\x01\x00\x00\x01\x00\x00\x00\x00\x00\x00\x07example\x03com\x00\x00\x01\x80\x01";
    let packet = Packet::parse(query).unwrap();

    assert_eq!(packet.header.id.get(), 1573);
    assert!(packet.header.is_query());
    assert_eq!(packet.header.qd_count.get(), 1);
    assert_eq!(packet.header.an_count.get(), 0);
    assert_eq!(packet.header.ns_count.get(), 0);
    assert_eq!(packet.header.ar_count.get(), 0);

    assert_eq!(packet.questions.len(), 1);
    assert_eq!(packet.questions[0].name.labels.len(), 2);
    assert_eq!(packet.questions[0].name.labels[0], "example");
    assert_eq!(packet.questions[0].name.labels[1], "com");
    assert!(packet.questions[0].rtype == ResourceType::A);
    assert!(packet.questions[0].class == Class::IN);

    let new_packet = packet.write();

    assert_eq!(new_packet.len(), query.len());
    assert_eq!(new_packet.as_slice(), &query[..]);
}

#[test]
fn parse_simple_response() {
    let response = b"\x06%\x81\x80\x00\x01\x00\x01\x00\x00\x00\x00\x07example\x03com\x00\x00\x01\x80\x01\x07example\x03com\x00\x00\x01\x80\x01\x00\x00\x04\xf8\x00\x04]\xb8\xd8\"";
    let packet = Packet::parse(response).unwrap();

    assert_eq!(packet.header.id.get(), 1573);
    assert!(!packet.header.is_query());
    assert_eq!(packet.header.qd_count.get(), 1);
    assert_eq!(packet.header.an_count.get(), 1);
    assert_eq!(packet.header.ns_count.get(), 0);
    assert_eq!(packet.header.ar_count.get(), 0);

    assert_eq!(packet.questions.len(), 1);
    assert_eq!(packet.questions[0].name.labels.len(), 2);
    assert_eq!(packet.questions[0].name.labels[0], "example");
    assert_eq!(packet.questions[0].name.labels[1], "com");
    assert!(packet.questions[0].rtype == ResourceType::A);
    assert!(packet.questions[0].class == Class::IN);

    assert_eq!(packet.answers.len(), 1);
    assert_eq!(packet.answers[0].name.labels.len(), 2);
    assert_eq!(packet.answers[0].name.labels[0], "example");
    assert_eq!(packet.answers[0].name.labels[1], "com");
    assert!(matches!(packet.answers[0].data, ResourceRecordData::A(_)));
    assert!(packet.answers[0].class == Class::IN);

    let new_packet = packet.write();

    assert_eq!(new_packet.len(), response.len());
    assert_eq!(new_packet.as_slice(), &response[..]);
}

#[test]
fn parse_simple_response_with_name_pointer() {
    let response = b"\x06%\x81\x80\x00\x01\x00\x01\x00\x00\x00\x00\x07example\x03com\x00\x00\x01\x00\x01\xc0\x0c\x00\x01\x00\x01\x00\x00\x04\xf8\x00\x04]\xb8\xd8\"";
    let packet = Packet::parse(response).unwrap();

    assert_eq!(packet.header.id.get(), 1573);
    assert!(!packet.header.is_query());
    assert_eq!(packet.header.qd_count.get(), 1);
    assert_eq!(packet.header.an_count.get(), 1);
    assert_eq!(packet.header.ns_count.get(), 0);
    assert_eq!(packet.header.ar_count.get(), 0);

    assert_eq!(packet.questions.len(), 1);
    assert_eq!(packet.questions[0].name.labels.len(), 2);
    assert_eq!(packet.questions[0].name.labels[0], "example");
    assert_eq!(packet.questions[0].name.labels[1], "com");
    assert!(packet.questions[0].rtype == ResourceType::A);
    assert!(packet.questions[0].class == Class::IN);

    assert_eq!(packet.answers.len(), 1);
    assert_eq!(packet.answers[0].name.labels.len(), 2);
    assert_eq!(packet.answers[0].name.labels[0], "example");
    assert_eq!(packet.answers[0].name.labels[1], "com");
    assert!(matches!(packet.answers[0].data, ResourceRecordData::A(_)));
    assert!(packet.answers[0].class == Class::IN);
}

#[test]
fn parse_mdns_query() {
    let query = b"\x00\x00\x00\x00\x00\x05\x00\x00\x00\x00\x00\x00\x0f_companion-link\x04_tcp\x05local\x00\x00\x0c\x80\x01\x08_homekit\xc0\x1c\x00\x0c\x80\x01\x08_airplay\xc0\x1c\x00\x0c\x80\x01\x05_raop\xc0\x1c\x00\x0c\x80\x01\x0c_sleep-proxy\x04_udp\xc0!\x00\x0c\x80\x01";
    let packet = Packet::parse(query).unwrap();

    assert_eq!(packet.header.id.get(), 0);
    assert!(packet.header.is_query());
    assert_eq!(packet.header.qd_count.get(), 5);
    assert_eq!(packet.header.an_count.get(), 0);
    assert_eq!(packet.header.ns_count.get(), 0);
    assert_eq!(packet.header.ar_count.get(), 0);
}

#[test]
fn write_and_parse() {
    let hostname = "hostname.local";
    let ip: u32 = (192u32 << 24) | (168u32 << 16) | (1u32 << 8) | 1u32;

    let answer = ResourceRecord::new(
        "_raop._tcp.local",
        3600,
        ResourceRecordData::PTR(Name::new("test")),
    );

    let srv = ResourceRecord::new(
        "test",
        3600,
        ResourceRecordData::SRV {
            priority: 0,
            weight: 0,
            port: 1234,
            target: Name::new(hostname),
        },
    );

    let txt = ResourceRecord::new(
        "test",
        3600,
        ResourceRecordData::TXT(vec!["test".to_string(), "test1".to_string()]),
    );

    let a = ResourceRecord::new(hostname, 3600, ResourceRecordData::A(ip));

    let packet = Packet::new_response(1234, Vec::new(), vec![answer], Vec::new(), vec![srv, txt, a]);

    let bytes = packet.write();
    let packet2 = Packet::parse(bytes.as_slice()).unwrap();

    assert_eq!(packet.header.id.get(), packet2.header.id.get());
    assert_eq!(packet.header.qd_count.get(), packet2.header.qd_count.get());
    assert_eq!(packet.header.an_count.get(), packet2.header.an_count.get());
    assert_eq!(packet.header.ns_count.get(), packet2.header.ns_count.get());
    assert_eq!(packet.header.ar_count.get(), packet2.header.ar_count.get());
}

#[test]
fn round_trip_preserves_record_contents() {
    let srv = ResourceRecord::new(
        "svc.local",
        120,
        ResourceRecordData::SRV {
            priority: 7,
            weight: 9,
            port: 7000,
            target: Name::new("player.local"),
        },
    );
    let aaaa = ResourceRecord::new("player.local", 120, ResourceRecordData::AAAA(0x20010db8_0000_0000_0000_0000_0000_0001));
    let packet = Packet::new_response(77, Vec::new(), vec![srv], Vec::new(), vec![aaaa]);
    let parsed = Packet::parse(packet.write().as_slice()).unwrap();
    assert_eq!(parsed.answers.len(), 1);
    match &parsed.answers[0].data {
        ResourceRecordData::SRV { priority, weight, port, target } => {
            assert_eq!(*priority, 7);
            assert_eq!(*weight, 9);
            assert_eq!(*port, 7000);
            assert_eq!(target.labels, vec!["player".to_string(), "local".to_string()]);
        },
        _ => panic!("expected SRV data"),
    }
    match &parsed.additionals[0].data {
        ResourceRecordData::AAAA(v) => {
            assert_eq!(*v, 0x20010db8_0000_0000_0000_0000_0000_0001);
        },
        _ => panic!("expected AAAA data"),
    }
}

#[test]
fn truncated_packet_is_malformed() {
    let bytes = b"\x06%\x01\x00\x00\x01";
    assert!(Packet::parse(&bytes[..]).is_err());
}

#[test]
fn u16be_round_trip() {
    let v = U16be::new(1573);
    assert_eq!(v.get(), 1573);
    let h = Header {
        id: U16be::new(3),
        flags: U16be::new(0x8000),
        qd_count: U16be::new(0),
        an_count: U16be::new(0),
        ns_count: U16be::new(0),
        ar_count: U16be::new(0),
    };
    assert!(!h.is_query());
    assert_eq!(h.id(), 3);
}

#[test]
fn name_equals_splits_on_dots() {
    let n = Name::new("_raop._tcp.local");
    assert!(n.equals("_raop._tcp.local"));
    assert!(!n.equals("_airplay._tcp.local"));
    assert_eq!(n.labels, vec!["_raop".to_string(), "_tcp".to_string(), "local".to_string()]);
    let q = Question {
        name: n,
        rtype: ResourceType::PTR,
        class: Class::IN,
        unicast: true,
    };
    assert!(q.rtype == ResourceType::PTR);
}
