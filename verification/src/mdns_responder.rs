//! The mDNS responder: answers PTR queries for the configured services with
//! a PTR answer and SRV/TXT/A additionals, choosing the A record address
//! from the interface whose prefix contains the querying host.

use vstd::prelude::*;
use vstd::utf8::encode_utf8;
use crate::mdns_packet::{Name, Packet, PacketError, Question, ResourceRecord,
    ResourceRecordData, ResourceType, RecordModel, RdataModel, PacketModel, enc_packet,
    enc_name, enc_labels, labels_bytes, split_dot_chars, wf_labels, wf_record,
    wf_packet_sections, parse_packet_bytes, packet_parse_ok, lemma_enc_labels_push,
    Class,
};
use crate::mdns_service::Service;

verus! {

/// A configuration the responder cannot advertise: a name with an empty or
/// oversized label, or record data that does not fit its length field.
#[derive(Clone, Copy, Debug, PartialEq, Eq, Structural)]
pub enum ResponderError {
    BadService,
}

/// The byte labels of a dotted name.
pub open spec fn dotted_labels(s: Seq<char>) -> Seq<Seq<u8>> {
    split_dot_chars(s).map_values(|t: Seq<char>| encode_utf8(t))
}

/// A name built from a dotted string carries exactly its byte labels.
pub proof fn lemma_name_model_from_texts(n: Name)
    ensures
        n.model() == n.texts().map_values(|t: Seq<char>| encode_utf8(t)),
{
    assert(n.model() =~= n.texts().map_values(|t: Seq<char>| encode_utf8(t)));
}

/// Byte labels match a dotted string exactly when the character labels
/// match its split.
pub proof fn lemma_dotted_match_iff(n: Name, t: Seq<char>)
    ensures
        (n.model() == dotted_labels(t)) <==> (n.texts() == split_dot_chars(t)),
{
    broadcast use vstd::utf8::encode_utf8_decode_utf8;

    lemma_name_model_from_texts(n);
    if n.model() == dotted_labels(t) {
        let a = n.texts();
        let b = split_dot_chars(t);
        assert(n.model().len() == a.len());
        assert(dotted_labels(t).len() == b.len());
        assert forall|i: int| 0 <= i < a.len() implies a[i] == b[i] by {
            assert(encode_utf8(a[i]) == n.model()[i]);
            assert(encode_utf8(b[i]) == dotted_labels(t)[i]);
            lemma_encode_injective(a[i], b[i]);
        }
        assert(a =~= b);
    }
    if n.texts() == split_dot_chars(t) {
        assert(n.model() =~= dotted_labels(t));
    }
}

/// Helper: two character strings with equal encodings are equal.
pub open spec fn decode_utf8_pair(a: Seq<char>, b: Seq<char>) -> bool {
    encode_utf8(a) == encode_utf8(b) ==> a == b
}

pub proof fn lemma_encode_injective(a: Seq<char>, b: Seq<char>)
    ensures
        decode_utf8_pair(a, b),
{
    broadcast use vstd::utf8::encode_utf8_decode_utf8;

    if encode_utf8(a) == encode_utf8(b) {
        assert(vstd::utf8::decode_utf8(encode_utf8(a)) == vstd::utf8::decode_utf8(
            encode_utf8(b),
        ));
    }
}

/// Whether a prefix of the given width contains an address.
pub open spec fn prefix_contains(p: (u32, u8), addr: u32) -> bool {
    if p.1 == 0 {
        true
    } else if p.1 >= 32 {
        addr == p.0
    } else {
        addr >> ((32 - p.1) as u32) == p.0 >> ((32 - p.1) as u32)
    }
}

/// The address of the first interface whose prefix contains the host.
pub open spec fn find_ip(prefixes: Seq<(u32, u8)>, addr: u32) -> Option<u32>
    decreases prefixes.len(),
{
    if prefixes.len() == 0 {
        None
    } else if prefix_contains(prefixes[0], addr) {
        Some(prefixes[0].0)
    } else {
        find_ip(prefixes.drop_first(), addr)
    }
}

/// What the responder requires of one service: every name writable and
/// every record payload within its length field.
pub open spec fn service_ok(s: Service) -> bool {
    &&& wf_labels(dotted_labels(s.service_type@))
    &&& wf_labels(dotted_labels(s.name@))
    &&& enc_name(dotted_labels(s.name@)).len() <= 0xffff
    &&& forall|i: int| 0 <= i < s.txt@.len() ==> encode_utf8((#[trigger] s.txt@[i])@).len()
        <= 255
    &&& enc_labels(labels_bytes(s.txt@)).len() <= 0xffff
}

/// The mDNS responder configuration.
pub struct MdnsServer {
    pub services: Vec<Service>,
    pub hostname: String,
    pub prefixes: Vec<(u32, u8)>,
}

impl MdnsServer {
    pub open spec fn wf(self) -> bool {
        &&& forall|i: int| 0 <= i < self.services@.len() ==> service_ok(
            #[trigger] self.services@[i],
        )
        &&& wf_labels(dotted_labels(self.hostname@))
        &&& 6 + enc_name(dotted_labels(self.hostname@)).len() <= 0xffff
    }
}

/// The wire length of an uncompressed name, refused above the record data
/// cap.
fn name_wire_len(n: &Name) -> (r: Option<usize>)
    ensures
        r matches Some(v) ==> v == enc_name(n.model()).len() && v <= 0xffff,
        r is None ==> enc_name(n.model()).len() > 0xffff,
{
    let ghost nv = n.model();
    let mut total: usize = 0;
    let mut i: usize = 0;
    while i < n.labels.len()
        invariant
            i <= n.labels@.len(),
            nv == n.model(),
            total == enc_labels(nv.take(i as int)).len(),
            total <= 0xffff,
        decreases n.labels@.len() - i,
    {
        let blen = n.labels[i].as_str().as_bytes().len();
        proof {
            lemma_enc_labels_push(nv.take(i as int), nv[i as int]);
            assert(nv.take(i + 1) =~= nv.take(i as int).push(nv[i as int]));
            assert(nv[i as int].len() == blen);
        }
        if blen >= 0xffff || total > 0xffff - 1 - blen {
            proof {
                lemma_enc_labels_prefix_len(nv, i + 1);
            }
            return None;
        }
        total = total + 1 + blen;
        i = i + 1;
    }
    proof {
        assert(nv.take(nv.len() as int) =~= nv);
    }
    if total == 0xffff {
        return None;
    }
    Some(total + 1)
}

/// A longer label prefix never encodes shorter.
proof fn lemma_enc_labels_prefix_len(nv: Seq<Seq<u8>>, i: int)
    requires
        0 <= i <= nv.len(),
    ensures
        enc_labels(nv).len() >= enc_labels(nv.take(i)).len(),
    decreases nv.len() - i,
{
    if i < nv.len() {
        lemma_enc_labels_push(nv.take(i), nv[i]);
        assert(nv.take(i + 1) =~= nv.take(i).push(nv[i]));
        lemma_enc_labels_prefix_len(nv, i + 1);
    } else {
        assert(nv.take(i) =~= nv);
    }
}

/// The wire length of a TXT payload, refused above the record data cap.
fn txt_wire_len(items: &Vec<String>) -> (r: Option<usize>)
    ensures
        r matches Some(v) ==> v == enc_labels(labels_bytes(items@)).len() && v <= 0xffff
            && (forall|i: int| 0 <= i < items@.len() ==> encode_utf8(
            (#[trigger] items@[i])@,
        ).len() <= 255),
        r is None ==> enc_labels(labels_bytes(items@)).len() > 0xffff || (exists|i: int|
            0 <= i < items@.len() && encode_utf8((#[trigger] items@[i])@).len() > 255),
{
    let ghost tv = labels_bytes(items@);
    let mut total: usize = 0;
    let mut i: usize = 0;
    while i < items.len()
        invariant
            i <= items@.len(),
            tv == labels_bytes(items@),
            total == enc_labels(tv.take(i as int)).len(),
            total <= 0xffff,
            forall|k: int| 0 <= k < i ==> encode_utf8((#[trigger] items@[k])@).len() <= 255,
        decreases items@.len() - i,
    {
        let blen = items[i].as_str().as_bytes().len();
        proof {
            lemma_enc_labels_push(tv.take(i as int), tv[i as int]);
            assert(tv.take(i + 1) =~= tv.take(i as int).push(tv[i as int]));
            assert(tv[i as int].len() == blen);
        }
        if blen > 255 {
            return None;
        }
        if total > 0xffff - 1 - blen {
            proof {
                lemma_enc_labels_prefix_len(tv, i + 1);
            }
            return None;
        }
        total = total + 1 + blen;
        i = i + 1;
    }
    proof {
        assert(tv.take(tv.len() as int) =~= tv);
    }
    Some(total)
}


/// The PTR answer of one service's answer group.
pub open spec fn group_answers(s: Service) -> Seq<RecordModel> {
    seq![
        RecordModel {
            name: dotted_labels(s.service_type@),
            class: Class::IN,
            ttl: 3600,
            data: RdataModel::PTR(dotted_labels(s.name@)),
        },
    ]
}

/// The additionals of one service's answer group: SRV, TXT when any
/// strings are configured, and the interface-appropriate A record.
pub open spec fn group_additionals(s: Service, hostname: Seq<char>, ip: u32) -> Seq<
    RecordModel,
> {
    seq![
        RecordModel {
            name: dotted_labels(s.name@),
            class: Class::IN,
            ttl: 3600,
            data: RdataModel::SRV {
                priority: 0,
                weight: 0,
                port: s.port,
                target: dotted_labels(hostname),
            },
        },
    ] + (if s.txt@.len() > 0 {
        seq![
            RecordModel {
                name: dotted_labels(s.name@),
                class: Class::IN,
                ttl: 3600,
                data: RdataModel::TXT(labels_bytes(s.txt@)),
            },
        ]
    } else {
        Seq::empty()
    }) + seq![
        RecordModel {
            name: dotted_labels(hostname),
            class: Class::IN,
            ttl: 3600,
            data: RdataModel::A(ip),
        },
    ]
}

/// A question that asks for this service: a PTR query for its type.
pub open spec fn q_hits(q: crate::mdns_packet::QuestionModel, s: Service) -> bool {
    q.rtype == ResourceType::PTR && q.name == dotted_labels(s.service_type@)
}

/// The answers accumulated for one response side, walking questions in
/// order and services in order within each question, from position
/// (qi, sj) on.
pub open spec fn gather_ans(
    m: PacketModel,
    services: Seq<Service>,
    side: bool,
    qi: int,
    sj: int,
) -> Seq<RecordModel>
    decreases m.questions.len() - qi, services.len() - sj,
{
    if qi < 0 || sj < 0 || qi >= m.questions.len() || sj > services.len() {
        Seq::empty()
    } else if sj == services.len() {
        gather_ans(m, services, side, qi + 1, 0)
    } else {
        (if q_hits(m.questions[qi], services[sj]) && m.questions[qi].unicast == side {
            group_answers(services[sj])
        } else {
            Seq::empty()
        }) + gather_ans(m, services, side, qi, sj + 1)
    }
}

/// The additionals accumulated for one response side, in the same order.
pub open spec fn gather_add(
    m: PacketModel,
    services: Seq<Service>,
    hostname: Seq<char>,
    ip: u32,
    side: bool,
    qi: int,
    sj: int,
) -> Seq<RecordModel>
    decreases m.questions.len() - qi, services.len() - sj,
{
    if qi < 0 || sj < 0 || qi >= m.questions.len() || sj > services.len() {
        Seq::empty()
    } else if sj == services.len() {
        gather_add(m, services, hostname, ip, side, qi + 1, 0)
    } else {
        (if q_hits(m.questions[qi], services[sj]) && m.questions[qi].unicast == side {
            group_additionals(services[sj], hostname, ip)
        } else {
            Seq::empty()
        }) + gather_add(m, services, hostname, ip, side, qi, sj + 1)
    }
}

impl MdnsServer {
    /// Takes the services, the hostname (`.local` appended when missing),
    /// and the interface prefixes; refuses a configuration whose names or
    /// payloads cannot be written.
    pub fn new(services: Vec<Service>, hostname: String, prefixes: Vec<(u32, u8)>) -> (r:
        Result<MdnsServer, ResponderError>)
        ensures
            r matches Ok(s) ==> s.wf() && s.services == services && s.prefixes == prefixes
                && s.hostname == hostname,
    {
        let mut i: usize = 0;
        while i < services.len()
            invariant
                i <= services@.len(),
                forall|k: int| 0 <= k < i ==> service_ok(#[trigger] services@[k]),
            decreases services@.len() - i,
        {
            let tn = Name::new(services[i].service_type.as_str());
            proof {
                lemma_name_model_from_texts(tn);
                assert(tn.model() =~= dotted_labels(services@[i as int].service_type@));
            }
            if !tn.is_wf() {
                return Err(ResponderError::BadService);
            }
            let nn = Name::new(services[i].name.as_str());
            proof {
                lemma_name_model_from_texts(nn);
                assert(nn.model() =~= dotted_labels(services@[i as int].name@));
            }
            if !nn.is_wf() {
                return Err(ResponderError::BadService);
            }
            if name_wire_len(&nn).is_none() {
                return Err(ResponderError::BadService);
            }
            if txt_wire_len(&services[i].txt).is_none() {
                return Err(ResponderError::BadService);
            }
            i = i + 1;
        }
        let hn = Name::new(hostname.as_str());
        proof {
            lemma_name_model_from_texts(hn);
            assert(hn.model() =~= dotted_labels(hostname@));
        }
        if !hn.is_wf() {
            return Err(ResponderError::BadService);
        }
        match name_wire_len(&hn) {
            Some(v) => {
                if v > 0xffff - 6 {
                    return Err(ResponderError::BadService);
                }
            },
            None => {
                return Err(ResponderError::BadService);
            },
        }
        Ok(MdnsServer { services, hostname, prefixes })
    }

    /// The first configured prefix containing the remote address gives the
    /// local address for the A record.
    pub fn find_local_ip(&self, remote_addr: u32) -> (r: Option<u32>)
        ensures
            r == find_ip(self.prefixes@, remote_addr),
    {
        let mut i: usize = 0;
        proof {
            assert(self.prefixes@.skip(0) =~= self.prefixes@);
        }
        while i < self.prefixes.len()
            invariant
                i <= self.prefixes@.len(),
                find_ip(self.prefixes@, remote_addr) == find_ip(
                    self.prefixes@.skip(i as int),
                    remote_addr,
                ),
            decreases self.prefixes@.len() - i,
        {
            proof {
                assert(self.prefixes@.skip(i as int)[0] == self.prefixes@[i as int]);
                assert(self.prefixes@.skip(i as int).drop_first() =~= self.prefixes@.skip(
                    i + 1,
                ));
            }
            let p = self.prefixes[i];
            let contains = if p.1 == 0 {
                true
            } else if p.1 >= 32 {
                remote_addr == p.0
            } else {
                remote_addr >> ((32 - p.1) as u32) == p.0 >> ((32 - p.1) as u32)
            };
            if contains {
                return Some(p.0);
            }
            i = i + 1;
        }
        proof {
            assert(self.prefixes@.skip(i as int) =~= Seq::<(u32, u8)>::empty());
        }
        None
    }

    /// The answer group for one service: a PTR answer, and SRV, TXT (when
    /// any strings are configured) and A additionals in that order.
    pub fn create_response(&self, index: usize, ip: u32) -> (r: (
        Vec<ResourceRecord>,
        Vec<ResourceRecord>,
    ))
        requires
            self.wf(),
            index < self.services@.len(),
        ensures
            ({
                let s = self.services@[index as int];
                &&& r.0@.map_values(|x: ResourceRecord| x.model()) == group_answers(s)
                &&& r.1@.map_values(|x: ResourceRecord| x.model()) == group_additionals(
                    s,
                    self.hostname@,
                    ip,
                )
                &&& forall|k: int| 0 <= k < r.0@.len() ==> wf_record(
                    (#[trigger] r.0@[k]).model(),
                )
                &&& forall|k: int| 0 <= k < r.1@.len() ==> wf_record(
                    (#[trigger] r.1@[k]).model(),
                )
            }),
    {
        let service = &self.services[index];
        let ghost s = self.services@[index as int];
        let ptr_name = Name::new(service.name.as_str());
        proof {
            lemma_name_model_from_texts(ptr_name);
            assert(ptr_name.model() =~= dotted_labels(s.name@));
        }
        let answer = ResourceRecord::new(
            service.service_type.as_str(),
            3600,
            ResourceRecordData::PTR(ptr_name),
        );
        proof {
            lemma_name_model_from_texts(answer.name);
            assert(answer.name.model() =~= dotted_labels(s.service_type@));
        }
        let mut answers: Vec<ResourceRecord> = Vec::new();
        answers.push(answer);
        let target = Name::new(self.hostname.as_str());
        proof {
            lemma_name_model_from_texts(target);
            assert(target.model() =~= dotted_labels(self.hostname@));
        }
        let srv = ResourceRecord::new(
            service.name.as_str(),
            3600,
            ResourceRecordData::SRV { priority: 0, weight: 0, port: service.port, target },
        );
        proof {
            lemma_name_model_from_texts(srv.name);
            assert(srv.name.model() =~= dotted_labels(s.name@));
        }
        let mut additionals: Vec<ResourceRecord> = Vec::new();
        additionals.push(srv);
        if service.txt.len() > 0 {
            let mut txt_items: Vec<String> = Vec::new();
            let mut k: usize = 0;
            while k < service.txt.len()
                invariant
                    k <= service.txt@.len(),
                    txt_items@.len() == k,
                    forall|j: int| 0 <= j < k ==> (#[trigger] txt_items@[j])@ == service.txt@[
                        j
                    ]@,
                decreases service.txt@.len() - k,
            {
                txt_items.push(String::from_str(service.txt[k].as_str()));
                k = k + 1;
            }
            proof {
                assert(labels_bytes(txt_items@) =~= labels_bytes(s.txt@));
            }
            let txt = ResourceRecord::new(
                service.name.as_str(),
                3600,
                ResourceRecordData::TXT(txt_items),
            );
            proof {
                lemma_name_model_from_texts(txt.name);
                assert(txt.name.model() =~= dotted_labels(s.name@));
            }
            additionals.push(txt);
        }
        let a = ResourceRecord::new(self.hostname.as_str(), 3600, ResourceRecordData::A(ip));
        proof {
            lemma_name_model_from_texts(a.name);
            assert(a.name.model() =~= dotted_labels(self.hostname@));
        }
        additionals.push(a);
        proof {
            assert(answers@.map_values(|x: ResourceRecord| x.model()) =~= group_answers(s));
            assert(additionals@.map_values(|x: ResourceRecord| x.model())
                =~= group_additionals(s, self.hostname@, ip));
        }
        (answers, additionals)
    }
}


/// A question asking for the pointer records of a service type.
pub open spec fn type_match(q: crate::mdns_packet::QuestionModel, t: Seq<char>) -> bool {
    q.rtype == ResourceType::PTR && q.name == dotted_labels(t)
}

/// Some question asks for some configured service.
pub open spec fn any_match(m: PacketModel, services: Seq<Service>) -> bool {
    exists|i: int, j: int|
        0 <= i < m.questions.len() && 0 <= j < services.len() && type_match(
            #[trigger] m.questions[i],
            (#[trigger] services[j]).service_type@,
        )
}

/// A well-formed response datagram: the encoding of a packet with the
/// query's id, the response flag, and only answers and additionals.
pub open spec fn response_bytes_ok(bytes: Seq<u8>, id: u16) -> bool {
    exists|pm: PacketModel|
        {
            &&& wf_packet_sections(pm)
            &&& bytes == #[trigger] enc_packet(pm)
            &&& pm.id == id
            &&& pm.flags == 0x8000
            &&& pm.questions.len() == 0
            &&& pm.nameservers.len() == 0
        }
}

impl MdnsServer {
    /// Handles one received datagram.  A query whose questions ask for a
    /// configured service yields up to two response datagrams: one to send
    /// back unicast, one to multicast, split by the unicast-response bit of
    /// each question.  A query from a host on no configured prefix is
    /// suppressed.
    #[verifier::rlimit(100)]
    #[verifier::rlimit(100)]
    pub fn handle_packet(&self, data: &Vec<u8>, origin_ip: u32) -> (r: Option<
        (Option<Vec<u8>>, Option<Vec<u8>>),
    >)
        requires
            self.wf(),
        ensures
            r matches Some(pair) ==> ({
                let m = parse_packet_bytes(data@).unwrap();
                let uip = find_ip(self.prefixes@, origin_ip).unwrap();
                let ua = gather_ans(m, self.services@, true, 0, 0);
                let ud = gather_add(m, self.services@, self.hostname@, uip, true, 0, 0);
                let ma = gather_ans(m, self.services@, false, 0, 0);
                let md = gather_add(m, self.services@, self.hostname@, uip, false, 0, 0);
                &&& parse_packet_bytes(data@) is Some && m.flags < 0x8000
                &&& (any_match(m, self.services@) ==> find_ip(self.prefixes@, origin_ip)
                    is Some)
                &&& ((pair.0 is Some) <==> ua.len() + ud.len() > 0)
                &&& ((pair.1 is Some) <==> ma.len() + md.len() > 0)
                &&& (pair.0 matches Some(bytes) ==> bytes@ == enc_packet(
                    PacketModel {
                        id: m.id,
                        flags: 0x8000,
                        questions: Seq::empty(),
                        answers: ua,
                        nameservers: Seq::empty(),
                        additionals: ud,
                    },
                ))
                &&& (pair.1 matches Some(bytes) ==> bytes@ == enc_packet(
                    PacketModel {
                        id: m.id,
                        flags: 0x8000,
                        questions: Seq::empty(),
                        answers: ma,
                        nameservers: Seq::empty(),
                        additionals: md,
                    },
                ))
                &&& (match pair.0 {
                    Some(bytes) => response_bytes_ok(bytes@, m.id),
                    None => true,
                })
                &&& (match pair.1 {
                    Some(bytes) => response_bytes_ok(bytes@, m.id),
                    None => true,
                })
            }),
            (packet_parse_ok(data@) && (parse_packet_bytes(data@) matches Some(m) && m.flags
                < 0x8000 && any_match(m, self.services@) && find_ip(self.prefixes@, origin_ip)
                is Some && m.questions.len() * self.services@.len() <= 0x3fff)) ==> (r matches
                Some(pair) && (pair.0 is Some || pair.1 is Some)),
    {
        let packet = match Packet::parse(data.as_slice()) {
            Ok(p) => p,
            Err(_) => {
                return None;
            },
        };
        let ghost m = packet.model();
        if !packet.header.is_query() {
            return None;
        }
        let mut uni_ans: Vec<ResourceRecord> = Vec::new();
        let mut uni_add: Vec<ResourceRecord> = Vec::new();
        let mut multi_ans: Vec<ResourceRecord> = Vec::new();
        let mut multi_add: Vec<ResourceRecord> = Vec::new();
        let mut found = false;
        let nq = packet.questions.len();
        let ns = self.services.len();
        let ghost sv = self.services@;
        let ghost hn = self.hostname@;
        let ghost uip = find_ip(self.prefixes@, origin_ip).unwrap();
        let mut qi: usize = 0;
        proof {
            assert(uni_ans@.map_values(|x: ResourceRecord| x.model()) + gather_ans(
                m,
                sv,
                true,
                0,
                0,
            ) =~= gather_ans(m, sv, true, 0, 0));
            assert(uni_add@.map_values(|x: ResourceRecord| x.model()) + gather_add(
                m,
                sv,
                hn,
                uip,
                true,
                0,
                0,
            ) =~= gather_add(m, sv, hn, uip, true, 0, 0));
            assert(multi_ans@.map_values(|x: ResourceRecord| x.model()) + gather_ans(
                m,
                sv,
                false,
                0,
                0,
            ) =~= gather_ans(m, sv, false, 0, 0));
            assert(multi_add@.map_values(|x: ResourceRecord| x.model()) + gather_add(
                m,
                sv,
                hn,
                uip,
                false,
                0,
                0,
            ) =~= gather_add(m, sv, hn, uip, false, 0, 0));
        }
        while qi < nq
            invariant
                self.wf(),
                qi <= nq,
                nq == packet.questions@.len(),
                ns == self.services@.len(),
                sv == self.services@,
                hn == self.hostname@,
                uip == find_ip(self.prefixes@, origin_ip).unwrap(),
                m == packet.model(),
                m.questions.len() == nq,
                forall|i: int, j: int|
                    0 <= i < qi && 0 <= j < ns && type_match(
                        #[trigger] m.questions[i],
                        (#[trigger] self.services@[j]).service_type@,
                    ) ==> found,
                found ==> uni_ans@.len() + multi_ans@.len() >= 1,
                found ==> find_ip(self.prefixes@, origin_ip) is Some,
                gather_ans(m, sv, true, 0, 0) == uni_ans@.map_values(
                    |x: ResourceRecord| x.model(),
                ) + gather_ans(m, sv, true, qi as int, 0),
                gather_add(m, sv, hn, uip, true, 0, 0) == uni_add@.map_values(
                    |x: ResourceRecord| x.model(),
                ) + gather_add(m, sv, hn, uip, true, qi as int, 0),
                gather_ans(m, sv, false, 0, 0) == multi_ans@.map_values(
                    |x: ResourceRecord| x.model(),
                ) + gather_ans(m, sv, false, qi as int, 0),
                gather_add(m, sv, hn, uip, false, 0, 0) == multi_add@.map_values(
                    |x: ResourceRecord| x.model(),
                ) + gather_add(m, sv, hn, uip, false, qi as int, 0),
                uni_ans@.len() <= qi * ns,
                multi_ans@.len() <= qi * ns,
                uni_add@.len() <= 3 * (qi * ns),
                multi_add@.len() <= 3 * (qi * ns),
                forall|k: int| 0 <= k < uni_ans@.len() ==> wf_record(
                    (#[trigger] uni_ans@[k]).model(),
                ),
                forall|k: int| 0 <= k < uni_add@.len() ==> wf_record(
                    (#[trigger] uni_add@[k]).model(),
                ),
                forall|k: int| 0 <= k < multi_ans@.len() ==> wf_record(
                    (#[trigger] multi_ans@[k]).model(),
                ),
                forall|k: int| 0 <= k < multi_add@.len() ==> wf_record(
                    (#[trigger] multi_add@[k]).model(),
                ),
            decreases nq - qi,
        {
            let mut sj: usize = 0;
            while sj < ns
                invariant
                    self.wf(),
                    sj <= ns,
                    qi < nq,
                    nq == packet.questions@.len(),
                    ns == self.services@.len(),
                    sv == self.services@,
                    hn == self.hostname@,
                    uip == find_ip(self.prefixes@, origin_ip).unwrap(),
                    m == packet.model(),
                    m.questions.len() == nq,
                    forall|i: int, j: int|
                        0 <= i < qi && 0 <= j < ns && type_match(
                            #[trigger] m.questions[i],
                            (#[trigger] self.services@[j]).service_type@,
                        ) ==> found,
                    forall|j: int|
                        0 <= j < sj && type_match(
                            m.questions[qi as int],
                            (#[trigger] self.services@[j]).service_type@,
                        ) ==> found,
                    found ==> uni_ans@.len() + multi_ans@.len() >= 1,
                    found ==> find_ip(self.prefixes@, origin_ip) is Some,
                    gather_ans(m, sv, true, 0, 0) == uni_ans@.map_values(
                        |x: ResourceRecord| x.model(),
                    ) + gather_ans(m, sv, true, qi as int, sj as int),
                    gather_add(m, sv, hn, uip, true, 0, 0) == uni_add@.map_values(
                        |x: ResourceRecord| x.model(),
                    ) + gather_add(m, sv, hn, uip, true, qi as int, sj as int),
                    gather_ans(m, sv, false, 0, 0) == multi_ans@.map_values(
                        |x: ResourceRecord| x.model(),
                    ) + gather_ans(m, sv, false, qi as int, sj as int),
                    gather_add(m, sv, hn, uip, false, 0, 0) == multi_add@.map_values(
                        |x: ResourceRecord| x.model(),
                    ) + gather_add(m, sv, hn, uip, false, qi as int, sj as int),
                    uni_ans@.len() <= qi * ns + sj,
                    multi_ans@.len() <= qi * ns + sj,
                    uni_add@.len() <= 3 * (qi * ns + sj),
                    multi_add@.len() <= 3 * (qi * ns + sj),
                    forall|k: int| 0 <= k < uni_ans@.len() ==> wf_record(
                        (#[trigger] uni_ans@[k]).model(),
                    ),
                    forall|k: int| 0 <= k < uni_add@.len() ==> wf_record(
                        (#[trigger] uni_add@[k]).model(),
                    ),
                    forall|k: int| 0 <= k < multi_ans@.len() ==> wf_record(
                        (#[trigger] multi_ans@[k]).model(),
                    ),
                    forall|k: int| 0 <= k < multi_add@.len() ==> wf_record(
                        (#[trigger] multi_add@[k]).model(),
                    ),
                decreases ns - sj,
            {
                let question = &packet.questions[qi];
                proof {
                    assert(m.questions[qi as int] == packet.questions@[qi as int].model());
                }
                let is_ptr = question.rtype == ResourceType::PTR;
                let name_hits = question.name.equals(
                    self.services[sj].service_type.as_str(),
                );
                proof {
                    lemma_dotted_match_iff(
                        packet.questions@[qi as int].name,
                        self.services@[sj as int].service_type@,
                    );
                }
                let ghost hit = q_hits(m.questions[qi as int], sv[sj as int]);
                proof {
                    assert(hit == (is_ptr && name_hits));
                }
                if is_ptr && name_hits {
                    let ip = match self.find_local_ip(origin_ip) {
                        Some(v) => v,
                        None => {
                            return None;
                        },
                    };
                    proof {
                        assert(ip == uip);
                    }
                    let (mut ans, mut add) = self.create_response(sj, ip);
                    let ghost ga = group_answers(sv[sj as int]);
                    let ghost gd = group_additionals(sv[sj as int], hn, uip);
                    proof {
                        assert(ans@.map_values(|x: ResourceRecord| x.model()).len()
                            == ans@.len());
                        assert(add@.map_values(|x: ResourceRecord| x.model()).len()
                            == add@.len());
                        assert(ans@.len() == 1);
                        assert(add@.len() <= 3);
                    }
                    let ghost old_ua = uni_ans@;
                    let ghost old_ud = uni_add@;
                    let ghost old_ma = multi_ans@;
                    let ghost old_md = multi_add@;
                    if question.unicast {
                        uni_ans.append(&mut ans);
                        uni_add.append(&mut add);
                        proof {
                            assert(m.questions[qi as int].unicast);
                            assert(uni_ans@.map_values(|x: ResourceRecord| x.model())
                                =~= old_ua.map_values(|x: ResourceRecord| x.model()) + ga);
                            assert(uni_add@.map_values(|x: ResourceRecord| x.model())
                                =~= old_ud.map_values(|x: ResourceRecord| x.model()) + gd);
                            assert(gather_ans(m, sv, true, qi as int, sj as int) == ga
                                + gather_ans(m, sv, true, qi as int, sj + 1));
                            assert(gather_add(m, sv, hn, uip, true, qi as int, sj as int)
                                == gd + gather_add(m, sv, hn, uip, true, qi as int, sj + 1));
                            assert(gather_ans(m, sv, false, qi as int, sj as int)
                                == Seq::<RecordModel>::empty() + gather_ans(
                                m,
                                sv,
                                false,
                                qi as int,
                                sj + 1,
                            ));
                            assert(Seq::<RecordModel>::empty() + gather_ans(
                                m,
                                sv,
                                false,
                                qi as int,
                                sj + 1,
                            ) =~= gather_ans(m, sv, false, qi as int, sj + 1));
                            assert(gather_add(m, sv, hn, uip, false, qi as int, sj as int)
                                == Seq::<RecordModel>::empty() + gather_add(
                                m,
                                sv,
                                hn,
                                uip,
                                false,
                                qi as int,
                                sj + 1,
                            ));
                            assert(Seq::<RecordModel>::empty() + gather_add(
                                m,
                                sv,
                                hn,
                                uip,
                                false,
                                qi as int,
                                sj + 1,
                            ) =~= gather_add(m, sv, hn, uip, false, qi as int, sj + 1));
                            assert(gather_ans(m, sv, true, 0, 0) =~= uni_ans@.map_values(
                                |x: ResourceRecord| x.model(),
                            ) + gather_ans(m, sv, true, qi as int, sj + 1));
                            assert(gather_add(m, sv, hn, uip, true, 0, 0)
                                =~= uni_add@.map_values(|x: ResourceRecord| x.model())
                                + gather_add(m, sv, hn, uip, true, qi as int, sj + 1));
                        }
                    } else {
                        multi_ans.append(&mut ans);
                        multi_add.append(&mut add);
                        proof {
                            assert(!m.questions[qi as int].unicast);
                            assert(multi_ans@.map_values(|x: ResourceRecord| x.model())
                                =~= old_ma.map_values(|x: ResourceRecord| x.model()) + ga);
                            assert(multi_add@.map_values(|x: ResourceRecord| x.model())
                                =~= old_md.map_values(|x: ResourceRecord| x.model()) + gd);
                            assert(gather_ans(m, sv, false, qi as int, sj as int) == ga
                                + gather_ans(m, sv, false, qi as int, sj + 1));
                            assert(gather_add(m, sv, hn, uip, false, qi as int, sj as int)
                                == gd + gather_add(m, sv, hn, uip, false, qi as int, sj + 1));
                            assert(gather_ans(m, sv, true, qi as int, sj as int)
                                == Seq::<RecordModel>::empty() + gather_ans(
                                m,
                                sv,
                                true,
                                qi as int,
                                sj + 1,
                            ));
                            assert(Seq::<RecordModel>::empty() + gather_ans(
                                m,
                                sv,
                                true,
                                qi as int,
                                sj + 1,
                            ) =~= gather_ans(m, sv, true, qi as int, sj + 1));
                            assert(gather_add(m, sv, hn, uip, true, qi as int, sj as int)
                                == Seq::<RecordModel>::empty() + gather_add(
                                m,
                                sv,
                                hn,
                                uip,
                                true,
                                qi as int,
                                sj + 1,
                            ));
                            assert(Seq::<RecordModel>::empty() + gather_add(
                                m,
                                sv,
                                hn,
                                uip,
                                true,
                                qi as int,
                                sj + 1,
                            ) =~= gather_add(m, sv, hn, uip, true, qi as int, sj + 1));
                            assert(gather_ans(m, sv, false, 0, 0) =~= multi_ans@.map_values(
                                |x: ResourceRecord| x.model(),
                            ) + gather_ans(m, sv, false, qi as int, sj + 1));
                            assert(gather_add(m, sv, hn, uip, false, 0, 0)
                                =~= multi_add@.map_values(|x: ResourceRecord| x.model())
                                + gather_add(m, sv, hn, uip, false, qi as int, sj + 1));
                        }
                    }
                    found = true;
                } else {
                    proof {
                        assert(gather_ans(m, sv, true, qi as int, sj as int)
                            =~= Seq::<RecordModel>::empty() + gather_ans(
                            m,
                            sv,
                            true,
                            qi as int,
                            sj + 1,
                        ));
                        assert(Seq::<RecordModel>::empty() + gather_ans(
                            m,
                            sv,
                            true,
                            qi as int,
                            sj + 1,
                        ) =~= gather_ans(m, sv, true, qi as int, sj + 1));
                        assert(gather_add(m, sv, hn, uip, true, qi as int, sj as int)
                            =~= gather_add(m, sv, hn, uip, true, qi as int, sj + 1));
                        assert(gather_ans(m, sv, false, qi as int, sj as int) =~= gather_ans(
                            m,
                            sv,
                            false,
                            qi as int,
                            sj + 1,
                        ));
                        assert(gather_add(m, sv, hn, uip, false, qi as int, sj as int)
                            =~= gather_add(m, sv, hn, uip, false, qi as int, sj + 1));
                    }
                }
                sj = sj + 1;
            }
            proof {
                assert((qi + 1) * ns == qi * ns + ns) by (nonlinear_arith);
                assert(3 * ((qi + 1) * ns) == 3 * (qi * ns) + 3 * ns) by (nonlinear_arith);
                assert(gather_ans(m, sv, true, qi as int, ns as int) == gather_ans(
                    m,
                    sv,
                    true,
                    qi + 1,
                    0,
                ));
                assert(gather_add(m, sv, hn, uip, true, qi as int, ns as int) == gather_add(
                    m,
                    sv,
                    hn,
                    uip,
                    true,
                    qi + 1,
                    0,
                ));
                assert(gather_ans(m, sv, false, qi as int, ns as int) == gather_ans(
                    m,
                    sv,
                    false,
                    qi + 1,
                    0,
                ));
                assert(gather_add(m, sv, hn, uip, false, qi as int, ns as int) == gather_add(
                    m,
                    sv,
                    hn,
                    uip,
                    false,
                    qi + 1,
                    0,
                ));
            }
            qi = qi + 1;
        }
        proof {
            assert(gather_ans(m, sv, true, nq as int, 0) =~= Seq::<RecordModel>::empty());
            assert(gather_add(m, sv, hn, uip, true, nq as int, 0)
                =~= Seq::<RecordModel>::empty());
            assert(gather_ans(m, sv, false, nq as int, 0) =~= Seq::<RecordModel>::empty());
            assert(gather_add(m, sv, hn, uip, false, nq as int, 0)
                =~= Seq::<RecordModel>::empty());
            assert(gather_ans(m, sv, true, 0, 0) =~= uni_ans@.map_values(
                |x: ResourceRecord| x.model(),
            ));
            assert(gather_add(m, sv, hn, uip, true, 0, 0) =~= uni_add@.map_values(
                |x: ResourceRecord| x.model(),
            ));
            assert(gather_ans(m, sv, false, 0, 0) =~= multi_ans@.map_values(
                |x: ResourceRecord| x.model(),
            ));
            assert(gather_add(m, sv, hn, uip, false, 0, 0) =~= multi_add@.map_values(
                |x: ResourceRecord| x.model(),
            ));
        }
        if uni_ans.len() > 0xffff || uni_add.len() > 0xffff || multi_ans.len() > 0xffff
            || multi_add.len() > 0xffff {
            return None;
        }
        let id = packet.header.id();
        let unicast: Option<Vec<u8>> = if uni_ans.len() > 0 || uni_add.len() > 0 {
            let ghost target = PacketModel {
                id: m.id,
                flags: 0x8000,
                questions: Seq::empty(),
                answers: gather_ans(m, sv, true, 0, 0),
                nameservers: Seq::empty(),
                additionals: gather_add(m, sv, hn, uip, true, 0, 0),
            };
            let p = Packet::new_response(id, Vec::new(), uni_ans, Vec::new(), uni_add);
            proof {
                assert(p.model().questions =~= Seq::<crate::mdns_packet::QuestionModel>::empty());
                assert(p.model().nameservers =~= Seq::<RecordModel>::empty());
                assert(wf_packet_sections(p.model()));
                assert(p.model() == target);
            }
            let bytes = p.write();
            proof {
                assert(response_bytes_ok(bytes@, m.id)) by {
                    assert(wf_packet_sections(p.model()) && bytes@ == enc_packet(p.model())
                        && p.model().id == m.id && p.model().flags == 0x8000
                        && p.model().questions.len() == 0 && p.model().nameservers.len()
                        == 0);
                }
            }
            Some(bytes)
        } else {
            None
        };
        let multicast: Option<Vec<u8>> = if multi_ans.len() > 0 || multi_add.len() > 0 {
            let ghost target = PacketModel {
                id: m.id,
                flags: 0x8000,
                questions: Seq::empty(),
                answers: gather_ans(m, sv, false, 0, 0),
                nameservers: Seq::empty(),
                additionals: gather_add(m, sv, hn, uip, false, 0, 0),
            };
            let p = Packet::new_response(id, Vec::new(), multi_ans, Vec::new(), multi_add);
            proof {
                assert(p.model().questions =~= Seq::<crate::mdns_packet::QuestionModel>::empty());
                assert(p.model().nameservers =~= Seq::<RecordModel>::empty());
                assert(wf_packet_sections(p.model()));
                assert(p.model() == target);
            }
            let bytes = p.write();
            proof {
                assert(response_bytes_ok(bytes@, m.id)) by {
                    assert(wf_packet_sections(p.model()) && bytes@ == enc_packet(p.model())
                        && p.model().id == m.id && p.model().flags == 0x8000
                        && p.model().questions.len() == 0 && p.model().nameservers.len()
                        == 0);
                }
            }
            Some(bytes)
        } else {
            None
        };
        Some((unicast, multicast))
    }
}

} // verus!
