//! The mDNS wire codec: RFC 1035 packets over UDP.  Parsing supports
//! name-pointer decompression; emission writes names without compression and
//! sets the cache-flush bit on record classes.

use vstd::prelude::*;
use vstd::utf8::{valid_utf8, decode_utf8, encode_utf8};
use crate::stream::{ReadStream, WriteStream, be16_at, be32_at, be128_at, enc16, enc32, enc128, lemma_enc16_value, lemma_enc32_value};

verus! {

broadcast use vstd::utf8::encode_utf8_valid_utf8, vstd::utf8::decode_utf8_encode_utf8,
    vstd::utf8::encode_utf8_decode_utf8;

/// A datagram that does not parse: truncated, an exhausted pointer budget, a
/// label that is not UTF-8, or a malformed section.
#[derive(Clone, Copy, Debug, PartialEq, Eq, Structural)]
pub enum PacketError {
    Malformed,
}

/// A 16-bit value kept in big-endian byte order, as it sits on the wire.
#[derive(Clone)]
pub struct U16be {
    pub raw: [u8; 2],
}

impl U16be {
    pub open spec fn value(self) -> u16 {
        be16_at(self.raw@, 0) as u16
    }

    pub fn new(value: u16) -> (r: Self)
        ensures
            r.raw@ == enc16(value),
            r.value() == value,
    {
        let raw = [(value / 256) as u8, (value % 256) as u8];
        proof {
            assert(raw@ =~= enc16(value));
        }
        U16be { raw }
    }

    pub fn get(&self) -> (r: u16)
        ensures
            r == self.value(),
    {
        (self.raw[0] as u16) * 256 + (self.raw[1] as u16)
    }
}

/// The 12-byte packet header: id, flags, and the four section counts.
#[derive(Clone)]
pub struct Header {
    pub id: U16be,
    pub flags: U16be,
    pub qd_count: U16be,
    pub an_count: U16be,
    pub ns_count: U16be,
    pub ar_count: U16be,
}

/// The bytes of a header as they appear on the wire.
pub open spec fn enc_header(h: Header) -> Seq<u8> {
    h.id.raw@ + h.flags.raw@ + h.qd_count.raw@ + h.an_count.raw@ + h.ns_count.raw@
        + h.ar_count.raw@
}

impl Header {
    /// A packet is a query when the QR bit (the top bit of the flags) is
    /// clear.
    pub open spec fn spec_is_query(self) -> bool {
        self.flags.value() < 0x8000
    }

    pub fn is_query(&self) -> (r: bool)
        ensures
            r == self.spec_is_query(),
    {
        self.flags.get() < 0x8000
    }

    pub fn id(&self) -> (r: u16)
        ensures
            r == self.id.value(),
    {
        self.id.get()
    }

    pub fn parse(stream: &mut ReadStream) -> (r: Header)
        requires
            old(stream).cursor + 12 <= old(stream).buffer@.len(),
        ensures
            final(stream).buffer@ == old(stream).buffer@,
            final(stream).cursor == old(stream).cursor + 12,
            enc_header(r) == old(stream).buffer@.subrange(
                old(stream).cursor as int,
                old(stream).cursor + 12,
            ),
    {
        let b = stream.read(12);
        let r = Header {
            id: U16be { raw: [b[0], b[1]] },
            flags: U16be { raw: [b[2], b[3]] },
            qd_count: U16be { raw: [b[4], b[5]] },
            an_count: U16be { raw: [b[6], b[7]] },
            ns_count: U16be { raw: [b[8], b[9]] },
            ar_count: U16be { raw: [b[10], b[11]] },
        };
        proof {
            assert(enc_header(r) =~= old(stream).buffer@.subrange(
                old(stream).cursor as int,
                old(stream).cursor + 12,
            ));
        }
        r
    }

    pub fn write(&self, stream: &mut WriteStream)
        ensures
            final(stream).buffer@ == old(stream).buffer@ + enc_header(*self),
    {
        stream.write_u8(self.id.raw[0]);
        stream.write_u8(self.id.raw[1]);
        stream.write_u8(self.flags.raw[0]);
        stream.write_u8(self.flags.raw[1]);
        stream.write_u8(self.qd_count.raw[0]);
        stream.write_u8(self.qd_count.raw[1]);
        stream.write_u8(self.an_count.raw[0]);
        stream.write_u8(self.an_count.raw[1]);
        stream.write_u8(self.ns_count.raw[0]);
        stream.write_u8(self.ns_count.raw[1]);
        stream.write_u8(self.ar_count.raw[0]);
        stream.write_u8(self.ar_count.raw[1]);
        proof {
            assert(final(stream).buffer@ =~= old(stream).buffer@ + enc_header(*self));
        }
    }
}

/// A resource type; values other than the five supported ones are preserved
/// numerically.
#[derive(Clone, Copy, Debug, PartialEq, Eq, Structural)]
pub enum ResourceType {
    A,
    PTR,
    TXT,
    AAAA,
    SRV,
    Unknown(u16),
}

pub open spec fn rtype_of(raw: u16) -> ResourceType {
    if raw == 1 {
        ResourceType::A
    } else if raw == 12 {
        ResourceType::PTR
    } else if raw == 16 {
        ResourceType::TXT
    } else if raw == 28 {
        ResourceType::AAAA
    } else if raw == 33 {
        ResourceType::SRV
    } else {
        ResourceType::Unknown(raw)
    }
}

pub open spec fn rtype_code(t: ResourceType) -> u16 {
    match t {
        ResourceType::A => 1,
        ResourceType::PTR => 12,
        ResourceType::TXT => 16,
        ResourceType::AAAA => 28,
        ResourceType::SRV => 33,
        ResourceType::Unknown(x) => x,
    }
}

impl ResourceType {
    pub fn parse(raw: u16) -> (r: Self)
        ensures
            r == rtype_of(raw),
    {
        match raw {
            1u16 => ResourceType::A,
            12u16 => ResourceType::PTR,
            16u16 => ResourceType::TXT,
            28u16 => ResourceType::AAAA,
            33u16 => ResourceType::SRV,
            x => ResourceType::Unknown(x),
        }
    }

    pub fn write(&self, stream: &mut WriteStream)
        requires
            !(*self is Unknown),
        ensures
            final(stream).buffer@ == old(stream).buffer@ + enc16(rtype_code(*self)),
    {
        match self {
            ResourceType::A => stream.write_u16(1),
            ResourceType::PTR => stream.write_u16(12),
            ResourceType::TXT => stream.write_u16(16),
            ResourceType::AAAA => stream.write_u16(28),
            ResourceType::SRV => stream.write_u16(33),
            ResourceType::Unknown(_) => {
                proof {
                    assert(false);
                }
            },
        }
    }
}

/// A record class; only IN is supported, and responses carry the cache-flush
/// bit, so IN is written as 0x8001.
#[derive(Clone, Copy, Debug, PartialEq, Eq, Structural)]
pub enum Class {
    IN,
    Unknown(u16),
}

pub open spec fn class_of(raw: u16) -> Class {
    if raw % 0x8000 == 1 {
        Class::IN
    } else {
        Class::Unknown((raw % 0x8000) as u16)
    }
}

impl Class {
    pub fn parse(raw: u16) -> (r: Self)
        ensures
            r == class_of(raw),
    {
        let low = raw % 0x8000;
        if low == 1 {
            Class::IN
        } else {
            Class::Unknown(low)
        }
    }

    pub fn write(&self, stream: &mut WriteStream)
        requires
            *self is IN,
        ensures
            final(stream).buffer@ == old(stream).buffer@ + enc16(0x8001),
    {
        stream.write_u16(0x8001);
    }
}

/// A domain name: a sequence of labels.
pub struct Name {
    pub labels: Vec<String>,
}

/// The labels of a name as byte strings.
pub open spec fn labels_bytes(ls: Seq<String>) -> Seq<Seq<u8>> {
    ls.map_values(|l: String| encode_utf8(l@))
}

/// A name can be written when every label fits in one length byte that is
/// not a pointer tag: between 1 and 63 bytes.
pub open spec fn wf_labels(nv: Seq<Seq<u8>>) -> bool {
    forall|i: int| 0 <= i < nv.len() ==> 1 <= (#[trigger] nv[i]).len() <= 63
}

/// The uncompressed label section of a name, without the terminating zero.
pub open spec fn enc_labels(nv: Seq<Seq<u8>>) -> Seq<u8>
    decreases nv.len(),
{
    if nv.len() == 0 {
        Seq::empty()
    } else {
        seq![nv[0].len() as u8] + nv[0] + enc_labels(nv.drop_first())
    }
}

/// The wire form of an uncompressed name.
pub open spec fn enc_name(nv: Seq<Seq<u8>>) -> Seq<u8> {
    enc_labels(nv) + seq![0u8]
}

/// The name parser over raw packet bytes.  A length byte of zero ends the
/// name; a byte with both top bits set is a 14-bit pointer into the packet,
/// followed with a bounded jump budget; any other byte introduces a label of
/// that length.
pub open spec fn parse_name_at(buf: Seq<u8>, c: int, jumps: nat) -> Option<(Seq<Seq<u8>>, int)>
    decreases jumps, buf.len() - c,
{
    if c < 0 || c >= buf.len() {
        None
    } else {
        let len = buf[c] as int;
        if len == 0 {
            Some((Seq::empty(), c + 1))
        } else if len >= 192 {
            if c + 2 > buf.len() {
                None
            } else {
                let off = (len - 192) * 256 + buf[c + 1];
                if off >= buf.len() {
                    None
                } else if jumps == 0 {
                    None
                } else {
                    match parse_name_at(buf, off, (jumps - 1) as nat) {
                        Some((ls, _)) => Some((ls, c + 2)),
                        None => None,
                    }
                }
            }
        } else {
            if c + 1 + len > buf.len() {
                None
            } else {
                match parse_name_at(buf, c + 1 + len, jumps) {
                    Some((ls, e)) => Some((seq![buf.subrange(c + 1, c + 1 + len)] + ls, e)),
                    None => None,
                }
            }
        }
    }
}

/// Every label in the sequence is valid UTF-8.
pub open spec fn all_utf8(ls: Seq<Seq<u8>>) -> bool {
    forall|i: int| 0 <= i < ls.len() ==> valid_utf8(#[trigger] ls[i])
}

/// A name parses into text when the byte parser succeeds and every label is
/// valid UTF-8.
pub open spec fn name_parse_ok(buf: Seq<u8>, c: int, jumps: nat) -> bool {
    match parse_name_at(buf, c, jumps) {
        Some((ls, _)) => all_utf8(ls),
        None => false,
    }
}

/// The pointer budget granted to the top-level name parser.
pub const MAX_NAME_JUMPS: u32 = 128;

/// Reads a name starting at `start`, following at most `jumps` pointers.
pub fn parse_name_bytes(buffer: &[u8], start: usize, jumps: u32) -> (r: Result<
    (Vec<String>, usize),
    PacketError,
>)
    ensures
        r matches Ok(p) ==> parse_name_at(buffer@, start as int, jumps as nat) == Some(
            (labels_bytes(p.0@), p.1 as int),
        ) && p.1 <= buffer@.len(),
        r matches Err(_) ==> !name_parse_ok(buffer@, start as int, jumps as nat),
    decreases jumps,
{
    let ghost full = buffer@;
    let mut labels: Vec<String> = Vec::new();
    let mut c: usize = start;
    proof {
        match parse_name_at(full, start as int, jumps as nat) {
            Some((ls, e)) => {
                assert(labels_bytes(labels@) + ls =~= ls);
            },
            None => {},
        }
    }
    loop
        invariant
            buffer@ == full,
            c >= start,
            (match parse_name_at(full, c as int, jumps as nat) {
                Some((ls, e)) => parse_name_at(full, start as int, jumps as nat) == Some(
                    (labels_bytes(labels@) + ls, e),
                ),
                None => parse_name_at(full, start as int, jumps as nat) is None,
            }),
        decreases full.len() - c,
    {
        if c >= buffer.len() {
            proof {
                assert(parse_name_at(full, c as int, jumps as nat) is None);
            }
            return Err(PacketError::Malformed);
        }
        let len = buffer[c];
        if len == 0 {
            proof {
                assert(labels_bytes(labels@) + Seq::<Seq<u8>>::empty() =~= labels_bytes(
                    labels@,
                ));
            }
            return Ok((labels, c + 1));
        }
        if len >= 192 {
            if c + 1 >= buffer.len() {
                return Err(PacketError::Malformed);
            }
            let off = (len as usize - 192) * 256 + buffer[c + 1] as usize;
            if off >= buffer.len() {
                return Err(PacketError::Malformed);
            }
            if jumps == 0 {
                return Err(PacketError::Malformed);
            }
            match parse_name_bytes(buffer, off, jumps - 1) {
                Ok((mut rest, _)) => {
                    let ghost lb = labels_bytes(labels@);
                    let ghost rb = labels_bytes(rest@);
                    labels.append(&mut rest);
                    proof {
                        assert(labels_bytes(labels@) =~= lb + rb);
                    }
                    return Ok((labels, c + 2));
                },
                Err(e) => {
                    proof {
                        match parse_name_at(full, off as int, (jumps - 1) as nat) {
                            Some((ls, _)) => {
                                assert(parse_name_at(full, c as int, jumps as nat) == Some(
                                    (ls, c + 2),
                                ));
                                let whole = labels_bytes(labels@) + ls;
                                assert(!name_parse_ok(full, off as int, (jumps - 1) as nat));
                                assert(!all_utf8(ls));
                                let i = choose|i: int|
                                    0 <= i < ls.len() && !valid_utf8(#[trigger] ls[i]);
                                assert(whole[labels_bytes(labels@).len() + i] == ls[i]);
                                assert(parse_name_at(full, start as int, jumps as nat)
                                    == Some((whole, c + 2)));
                                assert(!valid_utf8(whole[labels_bytes(labels@).len() + i]));
                                if all_utf8(whole) {
                                    assert(valid_utf8(
                                        whole[labels_bytes(labels@).len() + i],
                                    ));
                                }
                                assert(!all_utf8(whole));
                            },
                            None => {
                                assert(parse_name_at(full, c as int, jumps as nat) is None);
                            },
                        }
                    }
                    return Err(e);
                },
            }
        }
        let llen = len as usize;
        if llen > buffer.len() - (c + 1) {
            proof {
                assert(parse_name_at(full, c as int, jumps as nat) is None);
            }
            return Err(PacketError::Malformed);
        }
        let mut seg_stream = ReadStream::with_cursor(buffer, c + 1);
        let seg = seg_stream.read(llen);
        let ghost seg_bytes = seg@;
        match crate::text::bytes_to_string(seg) {
            Some(s) => {
                let ghost lb = labels_bytes(labels@);
                labels.push(s);
                proof {
                    assert(encode_utf8(s@) == seg_bytes);
                    assert(labels_bytes(labels@) =~= lb + seq![seg_bytes]);
                    match parse_name_at(full, c + 1 + llen, jumps as nat) {
                        Some((ls2, e2)) => {
                            assert(parse_name_at(full, c as int, jumps as nat) == Some(
                                ((seq![seg_bytes] + ls2), e2),
                            ));
                            assert((lb + (seq![seg_bytes] + ls2)) =~= (labels_bytes(labels@)
                                + ls2));
                        },
                        None => {},
                    }
                }
                c = c + 1 + llen;
            },
            None => {
                proof {
                    assert(seg_bytes == full.subrange(c + 1, c + 1 + llen));
                    match parse_name_at(full, c + 1 + llen, jumps as nat) {
                        Some((ls2, e2)) => {
                            let ls = seq![seg_bytes] + ls2;
                            assert(parse_name_at(full, c as int, jumps as nat) == Some(
                                (ls, e2),
                            ));
                            let whole = labels_bytes(labels@) + ls;
                            assert(whole[labels_bytes(labels@).len() as int] == seg_bytes);
                            assert(!valid_utf8(seg_bytes));
                            assert(parse_name_at(full, start as int, jumps as nat)
                                == Some((whole, e2)));
                            if all_utf8(whole) {
                                assert(valid_utf8(
                                    whole[labels_bytes(labels@).len() as int],
                                ));
                            }
                            assert(!all_utf8(whole));
                        },
                        None => {
                            assert(parse_name_at(full, c as int, jumps as nat) is None);
                        },
                    }
                }
                return Err(PacketError::Malformed);
            },
        }
    }
}

impl Name {
    /// The labels of this name as byte strings.
    pub open spec fn model(self) -> Seq<Seq<u8>> {
        labels_bytes(self.labels@)
    }

    /// Every label fits a length byte: this name can be written.
    pub open spec fn spec_wf(self) -> bool {
        wf_labels(self.model())
    }

    pub fn parse(stream: &mut ReadStream) -> (r: Result<Name, PacketError>)
        ensures
            r matches Ok(n) ==> ({
                &&& final(stream).buffer@ == old(stream).buffer@
                &&& parse_name_at(
                    old(stream).buffer@,
                    old(stream).cursor as int,
                    MAX_NAME_JUMPS as nat,
                ) == Some((n.model(), final(stream).cursor as int))
                &&& final(stream).cursor <= final(stream).buffer@.len()
            }),
            r matches Err(_) ==> !name_parse_ok(
                old(stream).buffer@,
                old(stream).cursor as int,
                MAX_NAME_JUMPS as nat,
            ) && *final(stream) == *old(stream),
    {
        match parse_name_bytes(stream.buffer, stream.cursor, MAX_NAME_JUMPS) {
            Ok((labels, end)) => {
                stream.cursor = end;
                Ok(Name { labels })
            },
            Err(e) => Err(e),
        }
    }

    /// Writes the name without pointer compression.
    pub fn write(&self, stream: &mut WriteStream)
        requires
            self.spec_wf(),
        ensures
            final(stream).buffer@ == old(stream).buffer@ + enc_name(self.model()),
    {
        let ghost nv = self.model();
        let mut i: usize = 0;
        while i < self.labels.len()
            invariant
                i <= self.labels@.len(),
                nv == self.model(),
                wf_labels(nv),
                stream.buffer@ == old(stream).buffer@ + enc_labels(nv.take(i as int)),
            decreases self.labels@.len() - i,
        {
            let bytes = self.labels[i].as_str().as_bytes();
            proof {
                assert(bytes@ == nv[i as int]);
            }
            stream.write_u8(bytes.len() as u8);
            stream.write(bytes);
            proof {
                lemma_enc_labels_push(nv.take(i as int), nv[i as int]);
                assert(nv.take(i + 1) =~= nv.take(i as int).push(nv[i as int]));
                assert(stream.buffer@ =~= old(stream).buffer@ + enc_labels(nv.take(i + 1)));
            }
            i = i + 1;
        }
        stream.write_u8(0);
        proof {
            assert(nv.take(nv.len() as int) =~= nv);
            assert(stream.buffer@ =~= old(stream).buffer@ + enc_name(nv));
        }
    }
}

/// Appending one label to the label section appends its length byte and its
/// bytes.
pub proof fn lemma_enc_labels_push(nv: Seq<Seq<u8>>, l: Seq<u8>)
    ensures
        enc_labels(nv.push(l)) == enc_labels(nv) + seq![l.len() as u8] + l,
    decreases nv.len(),
{
    if nv.len() == 0 {
        assert(nv.push(l)[0] == l);
        assert(nv.push(l).drop_first() =~= Seq::<Seq<u8>>::empty());
        assert(enc_labels(nv.push(l)) == seq![l.len() as u8] + l + enc_labels(
            nv.push(l).drop_first(),
        ));
        assert(enc_labels(nv.push(l)) =~= enc_labels(nv) + seq![l.len() as u8] + l);
    } else {
        assert(nv.push(l)[0] == nv[0]);
        assert(nv.push(l).drop_first() =~= nv.drop_first().push(l));
        lemma_enc_labels_push(nv.drop_first(), l);
        assert(enc_labels(nv.push(l)) == seq![nv[0].len() as u8] + nv[0] + enc_labels(
            nv.drop_first().push(l),
        ));
        assert(enc_labels(nv.push(l)) =~= enc_labels(nv) + seq![l.len() as u8] + l);
    }
}

/// Parsing an uncompressed name written at `c` in any surrounding buffer
/// recovers exactly the labels that were written, whatever the jump budget.
pub proof fn lemma_name_round_trip(nv: Seq<Seq<u8>>, buf: Seq<u8>, c: int, jumps: nat)
    requires
        wf_labels(nv),
        0 <= c,
        c + enc_name(nv).len() <= buf.len(),
        buf.subrange(c, c + enc_name(nv).len()) == enc_name(nv),
    ensures
        parse_name_at(buf, c, jumps) == Some((nv, c + enc_name(nv).len())),
    decreases nv.len(),
{
    let e = enc_name(nv);
    assert forall|k: int| 0 <= k < e.len() implies #[trigger] buf[c + k] == e[k] by {
        assert(buf.subrange(c, c + e.len())[k] == buf[c + k]);
    }
    if nv.len() == 0 {
        assert(e =~= seq![0u8]);
        assert(buf[c + 0] == e[0]);
        assert(parse_name_at(buf, c, jumps) == Some((Seq::<Seq<u8>>::empty(), c + 1)));
        assert(Seq::<Seq<u8>>::empty() =~= nv);
    } else {
        let l0 = nv[0];
        let rest = nv.drop_first();
        let e2 = enc_name(rest);
        assert(e =~= seq![l0.len() as u8] + l0 + e2) by {
            assert(enc_labels(nv) == seq![l0.len() as u8] + l0 + enc_labels(rest));
            assert((seq![l0.len() as u8] + l0 + enc_labels(rest)) + seq![0u8] =~= seq![
                l0.len() as u8,
            ] + l0 + (enc_labels(rest) + seq![0u8]));
        }
        assert(1 <= l0.len() <= 63);
        assert(buf[c + 0] == e[0]);
        assert(e[0] == l0.len() as u8);
        let c2 = c + 1 + l0.len();
        assert(buf.subrange(c + 1, c2) =~= l0) by {
            assert forall|k: int| 0 <= k < l0.len() implies buf.subrange(c + 1, c2)[k]
                == l0[k] by {
                assert(buf[c + (1 + k)] == e[1 + k]);
                assert(e[1 + k] == l0[k]);
            }
        }
        assert(buf.subrange(c2, c2 + e2.len()) =~= e2) by {
            assert forall|k: int| 0 <= k < e2.len() implies buf.subrange(c2, c2 + e2.len())[k]
                == e2[k] by {
                assert(buf[c + (1 + l0.len() + k)] == e[1 + l0.len() + k]);
                assert(e[1 + l0.len() + k] == e2[k]);
            }
        }
        assert(wf_labels(rest)) by {
            assert(forall|i: int| 0 <= i < rest.len() ==> #[trigger] rest[i] == nv[i + 1]);
        }
        lemma_name_round_trip(rest, buf, c2, jumps);
        assert(parse_name_at(buf, c, jumps) == Some((seq![l0] + rest, c2 + e2.len())));
        assert(seq![l0] + rest =~= nv);
    }
}

/// A name read through a compression pointer equals the name read at the
/// pointer's target: decompression and the explicit expansion of the same
/// labels agree.
pub proof fn lemma_pointer_matches_expansion(nv: Seq<Seq<u8>>, buf: Seq<u8>, c: int, jumps: nat)
    requires
        wf_labels(nv),
        0 <= c,
        c + 2 <= buf.len(),
        buf[c] >= 192,
        jumps >= 1,
        ({
            let off = (buf[c] - 192) * 256 + buf[c + 1];
            &&& off + enc_name(nv).len() <= buf.len()
            &&& buf.subrange(off, off + enc_name(nv).len()) == enc_name(nv)
        }),
    ensures
        parse_name_at(buf, c, jumps) == Some((nv, c + 2)),
{
    let off = (buf[c] - 192) * 256 + buf[c + 1];
    lemma_name_round_trip(nv, buf, off, (jumps - 1) as nat);
}


/// The value-level model of a question.
pub ghost struct QuestionModel {
    pub name: Seq<Seq<u8>>,
    pub rtype: ResourceType,
    pub class: Class,
    pub unicast: bool,
}

/// The value-level model of a record payload.
pub ghost enum RdataModel {
    A(u32),
    AAAA(u128),
    PTR(Seq<Seq<u8>>),
    TXT(Seq<Seq<u8>>),
    SRV { priority: u16, weight: u16, port: u16, target: Seq<Seq<u8>> },
    Unknown { rtype: ResourceType, data: Seq<u8> },
}

/// The value-level model of a resource record.
pub ghost struct RecordModel {
    pub name: Seq<Seq<u8>>,
    pub class: Class,
    pub ttl: u32,
    pub data: RdataModel,
}

/// The value-level model of a packet.
pub ghost struct PacketModel {
    pub id: u16,
    pub flags: u16,
    pub questions: Seq<QuestionModel>,
    pub answers: Seq<RecordModel>,
    pub nameservers: Seq<RecordModel>,
    pub additionals: Seq<RecordModel>,
}

/// A question on the wire: a name, a type, a class whose top bit asks for a
/// unicast response.
pub struct Question {
    pub name: Name,
    pub rtype: ResourceType,
    pub class: Class,
    pub unicast: bool,
}

/// A record payload.  Unknown types carry their bytes verbatim.
pub enum ResourceRecordData {
    A(u32),
    AAAA(u128),
    PTR(Name),
    TXT(Vec<String>),
    SRV { priority: u16, weight: u16, port: u16, target: Name },
    Unknown { rtype: ResourceType, data: Vec<u8> },
}

/// A resource record: name, class, time to live, payload.
pub struct ResourceRecord {
    pub name: Name,
    pub class: Class,
    pub ttl: u32,
    pub data: ResourceRecordData,
}

/// A whole packet: header plus the four record sections.
pub struct Packet {
    pub header: Header,
    pub questions: Vec<Question>,
    pub answers: Vec<ResourceRecord>,
    pub nameservers: Vec<ResourceRecord>,
    pub additionals: Vec<ResourceRecord>,
}

impl Question {
    pub open spec fn model(self) -> QuestionModel {
        QuestionModel {
            name: self.name.model(),
            rtype: self.rtype,
            class: self.class,
            unicast: self.unicast,
        }
    }
}

impl ResourceRecordData {
    pub open spec fn model(self) -> RdataModel {
        match self {
            ResourceRecordData::A(x) => RdataModel::A(x),
            ResourceRecordData::AAAA(x) => RdataModel::AAAA(x),
            ResourceRecordData::PTR(n) => RdataModel::PTR(n.model()),
            ResourceRecordData::TXT(ts) => RdataModel::TXT(labels_bytes(ts@)),
            ResourceRecordData::SRV { priority, weight, port, target } => RdataModel::SRV {
                priority,
                weight,
                port,
                target: target.model(),
            },
            ResourceRecordData::Unknown { rtype, data } => RdataModel::Unknown {
                rtype,
                data: data@,
            },
        }
    }
}

impl ResourceRecord {
    pub open spec fn model(self) -> RecordModel {
        RecordModel {
            name: self.name.model(),
            class: self.class,
            ttl: self.ttl,
            data: self.data.model(),
        }
    }
}

impl Packet {
    pub open spec fn model(self) -> PacketModel {
        PacketModel {
            id: self.header.id.value(),
            flags: self.header.flags.value(),
            questions: self.questions@.map_values(|q: Question| q.model()),
            answers: self.answers@.map_values(|r: ResourceRecord| r.model()),
            nameservers: self.nameservers@.map_values(|r: ResourceRecord| r.model()),
            additionals: self.additionals@.map_values(|r: ResourceRecord| r.model()),
        }
    }

    /// The header counts agree with the section lengths and every section
    /// entry can be written.
    pub open spec fn spec_wf(self) -> bool {
        &&& self.header.qd_count.value() == self.questions@.len()
        &&& self.header.an_count.value() == self.answers@.len()
        &&& self.header.ns_count.value() == self.nameservers@.len()
        &&& self.header.ar_count.value() == self.additionals@.len()
        &&& wf_packet_sections(self.model())
    }
}

// ------------------------------------------------------------------
// Wire encodings of the models.
// ------------------------------------------------------------------

pub open spec fn enc_question(q: QuestionModel) -> Seq<u8> {
    enc_name(q.name) + enc16(rtype_code(q.rtype)) + enc16(0x8001)
}

pub open spec fn rdata_rtype(d: RdataModel) -> ResourceType {
    match d {
        RdataModel::A(_) => ResourceType::A,
        RdataModel::AAAA(_) => ResourceType::AAAA,
        RdataModel::PTR(_) => ResourceType::PTR,
        RdataModel::TXT(_) => ResourceType::TXT,
        RdataModel::SRV { .. } => ResourceType::SRV,
        RdataModel::Unknown { rtype, .. } => rtype,
    }
}

pub open spec fn enc_rdata_body(d: RdataModel) -> Seq<u8> {
    match d {
        RdataModel::A(x) => enc32(x),
        RdataModel::AAAA(x) => enc128(x),
        RdataModel::PTR(n) => enc_name(n),
        RdataModel::TXT(ts) => enc_labels(ts),
        RdataModel::SRV { priority, weight, port, target } => enc16(priority) + enc16(weight)
            + enc16(port) + enc_name(target),
        RdataModel::Unknown { data, .. } => data,
    }
}

pub open spec fn enc_rdata(d: RdataModel) -> Seq<u8> {
    enc16(enc_rdata_body(d).len() as u16) + enc_rdata_body(d)
}

pub open spec fn enc_record(r: RecordModel) -> Seq<u8> {
    enc_name(r.name) + enc16(rtype_code(rdata_rtype(r.data))) + enc16(0x8001) + enc32(r.ttl)
        + enc_rdata(r.data)
}

pub open spec fn enc_questions(qs: Seq<QuestionModel>) -> Seq<u8>
    decreases qs.len(),
{
    if qs.len() == 0 {
        Seq::empty()
    } else {
        enc_question(qs[0]) + enc_questions(qs.drop_first())
    }
}

pub open spec fn enc_records(rs: Seq<RecordModel>) -> Seq<u8>
    decreases rs.len(),
{
    if rs.len() == 0 {
        Seq::empty()
    } else {
        enc_record(rs[0]) + enc_records(rs.drop_first())
    }
}

pub open spec fn enc_packet(m: PacketModel) -> Seq<u8> {
    enc16(m.id) + enc16(m.flags) + enc16(m.questions.len() as u16) + enc16(
        m.answers.len() as u16,
    ) + enc16(m.nameservers.len() as u16) + enc16(m.additionals.len() as u16) + enc_questions(
        m.questions,
    ) + enc_records(m.answers) + enc_records(m.nameservers) + enc_records(m.additionals)
}

// ------------------------------------------------------------------
// Well-formedness: what the emitter can write faithfully.
// ------------------------------------------------------------------

pub open spec fn wf_question(q: QuestionModel) -> bool {
    &&& wf_labels(q.name)
    &&& q.class == Class::IN
    &&& !(q.rtype is Unknown)
    &&& q.unicast
}

pub open spec fn wf_rdata(d: RdataModel) -> bool {
    &&& match d {
        RdataModel::A(_) => true,
        RdataModel::AAAA(_) => true,
        RdataModel::PTR(n) => wf_labels(n),
        RdataModel::TXT(ts) => forall|i: int|
            0 <= i < ts.len() ==> (#[trigger] ts[i]).len() <= 255,
        RdataModel::SRV { target, .. } => wf_labels(target),
        RdataModel::Unknown { .. } => false,
    }
    &&& enc_rdata_body(d).len() <= 0xffff
}

pub open spec fn wf_record(r: RecordModel) -> bool {
    &&& wf_labels(r.name)
    &&& r.class == Class::IN
    &&& wf_rdata(r.data)
}

pub open spec fn wf_packet_sections(m: PacketModel) -> bool {
    &&& m.questions.len() <= 0xffff
    &&& m.answers.len() <= 0xffff
    &&& m.nameservers.len() <= 0xffff
    &&& m.additionals.len() <= 0xffff
    &&& forall|i: int| 0 <= i < m.questions.len() ==> wf_question(#[trigger] m.questions[i])
    &&& forall|i: int| 0 <= i < m.answers.len() ==> wf_record(#[trigger] m.answers[i])
    &&& forall|i: int| 0 <= i < m.nameservers.len() ==> wf_record(#[trigger] m.nameservers[i])
    &&& forall|i: int| 0 <= i < m.additionals.len() ==> wf_record(#[trigger] m.additionals[i])
}

// ------------------------------------------------------------------
// Text decodability: what the parser can hand back as strings.
// ------------------------------------------------------------------

pub open spec fn q_utf8(q: QuestionModel) -> bool {
    all_utf8(q.name)
}

pub open spec fn rdata_utf8(d: RdataModel) -> bool {
    match d {
        RdataModel::PTR(n) => all_utf8(n),
        RdataModel::TXT(ts) => all_utf8(ts),
        RdataModel::SRV { target, .. } => all_utf8(target),
        _ => true,
    }
}

pub open spec fn record_utf8(r: RecordModel) -> bool {
    all_utf8(r.name) && rdata_utf8(r.data)
}

pub open spec fn packet_utf8(m: PacketModel) -> bool {
    &&& all_q_utf8(m.questions)
    &&& all_r_utf8(m.answers)
    &&& all_r_utf8(m.nameservers)
    &&& all_r_utf8(m.additionals)
}

// ------------------------------------------------------------------
// The wire parser, at the specification level.
// ------------------------------------------------------------------

pub open spec fn parse_question_at(buf: Seq<u8>, c: int) -> Option<(QuestionModel, int)> {
    match parse_name_at(buf, c, MAX_NAME_JUMPS as nat) {
        Some((name, c1)) => if c1 + 4 > buf.len() {
            None
        } else {
            let t = be16_at(buf, c1);
            let cl = be16_at(buf, c1 + 2);
            Some(
                (
                    QuestionModel {
                        name,
                        rtype: rtype_of(t as u16),
                        class: class_of(cl as u16),
                        unicast: cl >= 0x8000,
                    },
                    c1 + 4,
                ),
            )
        },
        None => None,
    }
}

pub open spec fn parse_txt_at(buf: Seq<u8>, c: int, end: int) -> Option<Seq<Seq<u8>>>
    decreases end - c,
{
    if c < 0 || end > buf.len() || c > end {
        None
    } else if c == end {
        Some(Seq::empty())
    } else {
        let l = buf[c] as int;
        if c + 1 + l > end {
            None
        } else {
            match parse_txt_at(buf, c + 1 + l, end) {
                Some(ts) => Some(seq![buf.subrange(c + 1, c + 1 + l)] + ts),
                None => None,
            }
        }
    }
}

pub open spec fn parse_rdata_at(buf: Seq<u8>, c: int, t: ResourceType) -> Option<
    (RdataModel, int),
> {
    if c < 0 || c + 2 > buf.len() {
        None
    } else {
        let len = be16_at(buf, c);
        let c1 = c + 2;
        match t {
            ResourceType::A => if c1 + 4 <= buf.len() {
                Some((RdataModel::A(be32_at(buf, c1) as u32), c1 + 4))
            } else {
                None
            },
            ResourceType::AAAA => if c1 + 16 <= buf.len() {
                Some((RdataModel::AAAA(be128_at(buf, c1) as u128), c1 + 16))
            } else {
                None
            },
            ResourceType::PTR => match parse_name_at(buf, c1, MAX_NAME_JUMPS as nat) {
                Some((n, e)) => Some((RdataModel::PTR(n), e)),
                None => None,
            },
            ResourceType::TXT => if c1 + len <= buf.len() {
                match parse_txt_at(buf, c1, c1 + len) {
                    Some(ts) => Some((RdataModel::TXT(ts), c1 + len)),
                    None => None,
                }
            } else {
                None
            },
            ResourceType::SRV => if c1 + 6 <= buf.len() {
                match parse_name_at(buf, c1 + 6, MAX_NAME_JUMPS as nat) {
                    Some((n, e)) => Some(
                        (
                            RdataModel::SRV {
                                priority: be16_at(buf, c1) as u16,
                                weight: be16_at(buf, c1 + 2) as u16,
                                port: be16_at(buf, c1 + 4) as u16,
                                target: n,
                            },
                            e,
                        ),
                    ),
                    None => None,
                }
            } else {
                None
            },
            ResourceType::Unknown(_) => if c1 + len <= buf.len() {
                Some(
                    (
                        RdataModel::Unknown { rtype: t, data: buf.subrange(c1, c1 + len) },
                        c1 + len,
                    ),
                )
            } else {
                None
            },
        }
    }
}

pub open spec fn parse_record_at(buf: Seq<u8>, c: int) -> Option<(RecordModel, int)> {
    match parse_name_at(buf, c, MAX_NAME_JUMPS as nat) {
        Some((name, c1)) => if c1 + 8 > buf.len() {
            None
        } else {
            let t = rtype_of(be16_at(buf, c1) as u16);
            let cl = class_of(be16_at(buf, c1 + 2) as u16);
            let ttl = be32_at(buf, c1 + 4) as u32;
            match parse_rdata_at(buf, c1 + 8, t) {
                Some((d, e)) => Some((RecordModel { name, class: cl, ttl, data: d }, e)),
                None => None,
            }
        },
        None => None,
    }
}

pub open spec fn parse_questions_at(buf: Seq<u8>, c: int, n: nat) -> Option<
    (Seq<QuestionModel>, int),
>
    decreases n,
{
    if n == 0 {
        Some((Seq::empty(), c))
    } else {
        match parse_question_at(buf, c) {
            Some((q, c1)) => match parse_questions_at(buf, c1, (n - 1) as nat) {
                Some((qs, e)) => Some((seq![q] + qs, e)),
                None => None,
            },
            None => None,
        }
    }
}

pub open spec fn parse_records_at(buf: Seq<u8>, c: int, n: nat) -> Option<
    (Seq<RecordModel>, int),
>
    decreases n,
{
    if n == 0 {
        Some((Seq::empty(), c))
    } else {
        match parse_record_at(buf, c) {
            Some((r, c1)) => match parse_records_at(buf, c1, (n - 1) as nat) {
                Some((rs, e)) => Some((seq![r] + rs, e)),
                None => None,
            },
            None => None,
        }
    }
}

pub open spec fn parse_packet_bytes(buf: Seq<u8>) -> Option<PacketModel> {
    if buf.len() < 12 {
        None
    } else {
        let qd = be16_at(buf, 4) as nat;
        let an = be16_at(buf, 6) as nat;
        let ns = be16_at(buf, 8) as nat;
        let ar = be16_at(buf, 10) as nat;
        match parse_questions_at(buf, 12, qd) {
            Some((qs, c1)) => match parse_records_at(buf, c1, an) {
                Some((ans, c2)) => match parse_records_at(buf, c2, ns) {
                    Some((nss, c3)) => match parse_records_at(buf, c3, ar) {
                        Some((ars, _)) => Some(
                            PacketModel {
                                id: be16_at(buf, 0) as u16,
                                flags: be16_at(buf, 2) as u16,
                                questions: qs,
                                answers: ans,
                                nameservers: nss,
                                additionals: ars,
                            },
                        ),
                        None => None,
                    },
                    None => None,
                },
                None => None,
            },
            None => None,
        }
    }
}

/// A packet parses into text form when the byte parser succeeds and every
/// name label and TXT string is valid UTF-8.
pub open spec fn packet_parse_ok(buf: Seq<u8>) -> bool {
    match parse_packet_bytes(buf) {
        Some(m) => packet_utf8(m),
        None => false,
    }
}


/// A question parses into text form when its bytes parse and its name is
/// valid UTF-8.
pub open spec fn q_parse_ok(buf: Seq<u8>, c: int) -> bool {
    match parse_question_at(buf, c) {
        Some((q, _)) => q_utf8(q),
        None => false,
    }
}

pub open spec fn txt_parse_ok(buf: Seq<u8>, c: int, end: int) -> bool {
    match parse_txt_at(buf, c, end) {
        Some(ts) => all_utf8(ts),
        None => false,
    }
}

pub open spec fn rdata_parse_ok(buf: Seq<u8>, c: int, t: ResourceType) -> bool {
    match parse_rdata_at(buf, c, t) {
        Some((d, _)) => rdata_utf8(d),
        None => false,
    }
}

pub open spec fn record_parse_ok(buf: Seq<u8>, c: int) -> bool {
    match parse_record_at(buf, c) {
        Some((r, _)) => record_utf8(r),
        None => false,
    }
}

pub open spec fn all_q_utf8(qs: Seq<QuestionModel>) -> bool {
    forall|i: int| 0 <= i < qs.len() ==> q_utf8(#[trigger] qs[i])
}

pub open spec fn all_r_utf8(rs: Seq<RecordModel>) -> bool {
    forall|i: int| 0 <= i < rs.len() ==> record_utf8(#[trigger] rs[i])
}

pub open spec fn questions_parse_ok(buf: Seq<u8>, c: int, n: nat) -> bool {
    match parse_questions_at(buf, c, n) {
        Some((qs, _)) => all_q_utf8(qs),
        None => false,
    }
}

pub open spec fn records_parse_ok(buf: Seq<u8>, c: int, n: nat) -> bool {
    match parse_records_at(buf, c, n) {
        Some((rs, _)) => all_r_utf8(rs),
        None => false,
    }
}

impl Question {
    pub fn parse(stream: &mut ReadStream) -> (r: Result<Question, PacketError>)
        requires
            old(stream).cursor <= old(stream).buffer@.len(),
        ensures
            final(stream).buffer@ == old(stream).buffer@,
            r matches Ok(q) ==> parse_question_at(old(stream).buffer@, old(stream).cursor as int)
                == Some((q.model(), final(stream).cursor as int)) && final(stream).cursor <= final(stream).buffer@.len(),
            r matches Err(_) ==> !q_parse_ok(old(stream).buffer@, old(stream).cursor as int),
    {
        let ghost buf = old(stream).buffer@;
        let ghost c0 = old(stream).cursor as int;
        let name = match Name::parse(stream) {
            Ok(n) => n,
            Err(e) => {
                proof {
                    match parse_name_at(buf, c0, MAX_NAME_JUMPS as nat) {
                        Some((nm, c1)) => {
                            assert(!all_utf8(nm));
                        },
                        None => {},
                    }
                }
                return Err(e);
            },
        };
        if stream.remaining() < 4 {
            return Err(PacketError::Malformed);
        }
        let t = stream.read_u16();
        let cl = stream.read_u16();
        let q = Question {
            name,
            rtype: ResourceType::parse(t),
            class: Class::parse(cl),
            unicast: cl >= 0x8000,
        };
        Ok(q)
    }

    pub fn write(&self, stream: &mut WriteStream)
        requires
            wf_question(self.model()),
        ensures
            final(stream).buffer@ == old(stream).buffer@ + enc_question(self.model()),
    {
        self.name.write(stream);
        self.rtype.write(stream);
        self.class.write(stream);
        proof {
            assert(final(stream).buffer@ =~= old(stream).buffer@ + enc_question(self.model()));
        }
    }
}

/// Reads length-prefixed strings from `start` up to exactly `end`.
fn parse_txt_strings(buffer: &[u8], start: usize, end: usize) -> (r: Result<
    Vec<String>,
    PacketError,
>)
    requires
        start <= end <= buffer@.len(),
    ensures
        r matches Ok(ts) ==> parse_txt_at(buffer@, start as int, end as int) == Some(
            labels_bytes(ts@),
        ),
        r matches Err(_) ==> !txt_parse_ok(buffer@, start as int, end as int),
{
    let ghost full = buffer@;
    let mut items: Vec<String> = Vec::new();
    let mut c: usize = start;
    proof {
        match parse_txt_at(full, start as int, end as int) {
            Some(ts) => {
                assert(labels_bytes(items@) + ts =~= ts);
            },
            None => {},
        }
    }
    while c < end
        invariant
            start <= c <= end <= full.len(),
            buffer@ == full,
            (match parse_txt_at(full, c as int, end as int) {
                Some(ts) => parse_txt_at(full, start as int, end as int) == Some(
                    labels_bytes(items@) + ts,
                ),
                None => parse_txt_at(full, start as int, end as int) is None,
            }),
        decreases end - c,
    {
        let len = buffer[c] as usize;
        if len > end - (c + 1) {
            proof {
                assert(parse_txt_at(full, c as int, end as int) is None);
            }
            return Err(PacketError::Malformed);
        }
        let mut seg_stream = ReadStream::with_cursor(buffer, c + 1);
        let seg = seg_stream.read(len);
        let ghost seg_bytes = seg@;
        match crate::text::bytes_to_string(seg) {
            Some(s) => {
                let ghost lb = labels_bytes(items@);
                items.push(s);
                proof {
                    assert(encode_utf8(s@) == seg_bytes);
                    assert(labels_bytes(items@) =~= lb + seq![seg_bytes]);
                    match parse_txt_at(full, c + 1 + len, end as int) {
                        Some(ts2) => {
                            assert(parse_txt_at(full, c as int, end as int) == Some(
                                seq![seg_bytes] + ts2,
                            ));
                            assert((lb + (seq![seg_bytes] + ts2)) =~= (labels_bytes(items@)
                                + ts2));
                        },
                        None => {},
                    }
                }
                c = c + 1 + len;
            },
            None => {
                proof {
                    assert(seg_bytes == full.subrange(c + 1, c + 1 + len));
                    match parse_txt_at(full, c + 1 + len, end as int) {
                        Some(ts2) => {
                            let ts = seq![seg_bytes] + ts2;
                            assert(parse_txt_at(full, c as int, end as int) == Some(ts));
                            let whole = labels_bytes(items@) + ts;
                            assert(parse_txt_at(full, start as int, end as int) == Some(whole));
                            assert(whole[labels_bytes(items@).len() as int] == seg_bytes);
                            assert(!valid_utf8(seg_bytes));
                            if all_utf8(whole) {
                                assert(valid_utf8(whole[labels_bytes(items@).len() as int]));
                            }
                            assert(!all_utf8(whole));
                        },
                        None => {
                            assert(parse_txt_at(full, c as int, end as int) is None);
                        },
                    }
                }
                return Err(PacketError::Malformed);
            },
        }
    }
    proof {
        assert(parse_txt_at(full, c as int, end as int) == Some(Seq::<Seq<u8>>::empty()));
        assert(labels_bytes(items@) + Seq::<Seq<u8>>::empty() =~= labels_bytes(items@));
    }
    Ok(items)
}

impl ResourceRecordData {
    /// The resource type that this payload belongs to.
    pub fn rtype(&self) -> (r: ResourceType)
        ensures
            r == rdata_rtype(self.model()),
    {
        match self {
            ResourceRecordData::A(_) => ResourceType::A,
            ResourceRecordData::AAAA(_) => ResourceType::AAAA,
            ResourceRecordData::PTR(_) => ResourceType::PTR,
            ResourceRecordData::TXT(_) => ResourceType::TXT,
            ResourceRecordData::SRV { .. } => ResourceType::SRV,
            ResourceRecordData::Unknown { rtype, .. } => *rtype,
        }
    }

    pub fn parse(rtype: ResourceType, stream: &mut ReadStream) -> (r: Result<
        ResourceRecordData,
        PacketError,
    >)
        requires
            old(stream).cursor <= old(stream).buffer@.len(),
        ensures
            final(stream).buffer@ == old(stream).buffer@,
            r matches Ok(d) ==> parse_rdata_at(
                old(stream).buffer@,
                old(stream).cursor as int,
                rtype,
            ) == Some((d.model(), final(stream).cursor as int)) && final(stream).cursor <= final(stream).buffer@.len(),
            r matches Err(_) ==> !rdata_parse_ok(
                old(stream).buffer@,
                old(stream).cursor as int,
                rtype,
            ),
    {
        let ghost buf = old(stream).buffer@;
        let ghost c0 = old(stream).cursor as int;
        if stream.remaining() < 2 {
            return Err(PacketError::Malformed);
        }
        let length = stream.read_u16() as usize;
        let ghost c1 = stream.cursor as int;
        match rtype {
            ResourceType::A => {
                if stream.remaining() < 4 {
                    return Err(PacketError::Malformed);
                }
                Ok(ResourceRecordData::A(stream.read_u32()))
            },
            ResourceType::AAAA => {
                if stream.remaining() < 16 {
                    return Err(PacketError::Malformed);
                }
                Ok(ResourceRecordData::AAAA(stream.read_u128()))
            },
            ResourceType::PTR => {
                match Name::parse(stream) {
                    Ok(n) => Ok(ResourceRecordData::PTR(n)),
                    Err(e) => {
                        proof {
                            match parse_name_at(buf, c1, MAX_NAME_JUMPS as nat) {
                                Some((nm, _)) => {
                                    assert(!all_utf8(nm));
                                },
                                None => {},
                            }
                        }
                        Err(e)
                    },
                }
            },
            ResourceType::TXT => {
                if length > stream.remaining() {
                    return Err(PacketError::Malformed);
                }
                let blen = stream.buffer.len();
                proof {
                    assert(stream.cursor + length <= blen);
                }
                let end = stream.cursor + length;
                match parse_txt_strings(stream.buffer, stream.cursor, end) {
                    Ok(ts) => {
                        stream.cursor = end;
                        Ok(ResourceRecordData::TXT(ts))
                    },
                    Err(e) => Err(e),
                }
            },
            ResourceType::SRV => {
                if stream.remaining() < 6 {
                    return Err(PacketError::Malformed);
                }
                let priority = stream.read_u16();
                let weight = stream.read_u16();
                let port = stream.read_u16();
                match Name::parse(stream) {
                    Ok(n) => Ok(
                        ResourceRecordData::SRV { priority, weight, port, target: n },
                    ),
                    Err(e) => {
                        proof {
                            match parse_name_at(buf, c1 + 6, MAX_NAME_JUMPS as nat) {
                                Some((nm, _)) => {
                                    assert(!all_utf8(nm));
                                },
                                None => {},
                            }
                        }
                        Err(e)
                    },
                }
            },
            ResourceType::Unknown(x) => {
                if length > stream.remaining() {
                    return Err(PacketError::Malformed);
                }
                let data = stream.read(length);
                Ok(ResourceRecordData::Unknown { rtype: ResourceType::Unknown(x), data })
            },
        }
    }

    pub fn write(&self, stream: &mut WriteStream)
        requires
            wf_rdata(self.model()),
        ensures
            final(stream).buffer@ == old(stream).buffer@ + enc_rdata(self.model()),
    {
        let mut inner = WriteStream::new();
        match self {
            ResourceRecordData::A(x) => {
                inner.write_u32(*x);
            },
            ResourceRecordData::AAAA(x) => {
                inner.write_u128(*x);
            },
            ResourceRecordData::PTR(n) => {
                n.write(&mut inner);
            },
            ResourceRecordData::TXT(ts) => {
                let ghost tv = labels_bytes(ts@);
                let mut i: usize = 0;
                while i < ts.len()
                    invariant
                        i <= ts@.len(),
                        tv == labels_bytes(ts@),
                        forall|k: int| 0 <= k < tv.len() ==> (#[trigger] tv[k]).len() <= 255,
                        inner.buffer@ == enc_labels(tv.take(i as int)),
                    decreases ts@.len() - i,
                {
                    let bytes = ts[i].as_str().as_bytes();
                    proof {
                        assert(bytes@ == tv[i as int]);
                    }
                    inner.write_u8(bytes.len() as u8);
                    inner.write(bytes);
                    proof {
                        lemma_enc_labels_push(tv.take(i as int), tv[i as int]);
                        assert(tv.take(i + 1) =~= tv.take(i as int).push(tv[i as int]));
                        assert(inner.buffer@ =~= enc_labels(tv.take(i + 1)));
                    }
                    i = i + 1;
                }
                proof {
                    assert(tv.take(tv.len() as int) =~= tv);
                }
            },
            ResourceRecordData::SRV { priority, weight, port, target } => {
                inner.write_u16(*priority);
                inner.write_u16(*weight);
                inner.write_u16(*port);
                target.write(&mut inner);
            },
            ResourceRecordData::Unknown { .. } => {
                proof {
                    assert(false);
                }
            },
        }
        proof {
            assert(inner.buffer@ =~= enc_rdata_body(self.model()));
        }
        stream.write_u16(inner.buffer.len() as u16);
        stream.write(inner.buffer.as_slice());
        proof {
            assert(final(stream).buffer@ =~= old(stream).buffer@ + enc_rdata(self.model()));
        }
    }
}

impl ResourceRecord {
    pub fn parse(stream: &mut ReadStream) -> (r: Result<ResourceRecord, PacketError>)
        requires
            old(stream).cursor <= old(stream).buffer@.len(),
        ensures
            final(stream).buffer@ == old(stream).buffer@,
            r matches Ok(rec) ==> parse_record_at(old(stream).buffer@, old(stream).cursor as int)
                == Some((rec.model(), final(stream).cursor as int)) && final(stream).cursor
                <= final(stream).buffer@.len(),
            r matches Err(_) ==> !record_parse_ok(old(stream).buffer@, old(stream).cursor as int),
    {
        let ghost buf = old(stream).buffer@;
        let ghost c0 = old(stream).cursor as int;
        let name = match Name::parse(stream) {
            Ok(n) => n,
            Err(e) => {
                proof {
                    match parse_name_at(buf, c0, MAX_NAME_JUMPS as nat) {
                        Some((nm, _)) => {
                            assert(!all_utf8(nm));
                        },
                        None => {},
                    }
                }
                return Err(e);
            },
        };
        if stream.remaining() < 8 {
            return Err(PacketError::Malformed);
        }
        let t = stream.read_u16();
        let cl = stream.read_u16();
        let ttl = stream.read_u32();
        let rtype = ResourceType::parse(t);
        match ResourceRecordData::parse(rtype, stream) {
            Ok(data) => Ok(ResourceRecord { name, class: Class::parse(cl), ttl, data }),
            Err(e) => Err(e),
        }
    }

    pub fn write(&self, stream: &mut WriteStream)
        requires
            wf_record(self.model()),
        ensures
            final(stream).buffer@ == old(stream).buffer@ + enc_record(self.model()),
    {
        self.name.write(stream);
        let t = self.data.rtype();
        t.write(stream);
        self.class.write(stream);
        stream.write_u32(self.ttl);
        self.data.write(stream);
        proof {
            assert(final(stream).buffer@ =~= old(stream).buffer@ + enc_record(self.model()));
        }
    }
}


/// Parses `n` consecutive questions.
fn parse_question_section(stream: &mut ReadStream, n: u16) -> (r: Result<
    Vec<Question>,
    PacketError,
>)
    requires
        old(stream).cursor <= old(stream).buffer@.len(),
    ensures
        final(stream).buffer@ == old(stream).buffer@,
        r matches Ok(qs) ==> parse_questions_at(
            old(stream).buffer@,
            old(stream).cursor as int,
            n as nat,
        ) == Some((qs@.map_values(|q: Question| q.model()), final(stream).cursor as int))
            && final(stream).cursor <= final(stream).buffer@.len() && qs@.len() == n,
        r matches Err(_) ==> !questions_parse_ok(
            old(stream).buffer@,
            old(stream).cursor as int,
            n as nat,
        ),
{
    let ghost buf = old(stream).buffer@;
    let ghost c0 = old(stream).cursor as int;
    let mut items: Vec<Question> = Vec::new();
    let mut k: u16 = 0;
    proof {
        match parse_questions_at(buf, c0, n as nat) {
            Some((qs, e)) => {
                assert(items@.map_values(|q: Question| q.model()) + qs =~= qs);
            },
            None => {},
        }
    }
    while k < n
        invariant
            k <= n,
            items@.len() == k,
            buf == old(stream).buffer@,
            c0 == old(stream).cursor as int,
            stream.buffer@ == buf,
            stream.cursor <= buf.len(),
            (match parse_questions_at(buf, stream.cursor as int, (n - k) as nat) {
                Some((qs, e)) => parse_questions_at(buf, c0, n as nat) == Some(
                    (items@.map_values(|q: Question| q.model()) + qs, e),
                ),
                None => parse_questions_at(buf, c0, n as nat) is None,
            }),
        decreases n - k,
    {
        let ghost c_cur = stream.cursor as int;
        let ghost acc = items@.map_values(|q: Question| q.model());
        match Question::parse(stream) {
            Ok(q) => {
                items.push(q);
                proof {
                    assert(items@.map_values(|q: Question| q.model()) =~= acc + seq![
                        q.model(),
                    ]);
                    match parse_questions_at(buf, stream.cursor as int, (n - k - 1) as nat) {
                        Some((qs2, e2)) => {
                            assert(parse_questions_at(buf, c_cur, (n - k) as nat) == Some(
                                (seq![q.model()] + qs2, e2),
                            ));
                            assert((acc + (seq![q.model()] + qs2)) =~= (
                            items@.map_values(|q: Question| q.model()) + qs2));
                        },
                        None => {},
                    }
                }
                k = k + 1;
            },
            Err(e) => {
                proof {
                    match parse_question_at(buf, c_cur) {
                        Some((qm, c1)) => {
                            assert(!q_utf8(qm));
                            match parse_questions_at(buf, c1, (n - k - 1) as nat) {
                                Some((qs2, e2)) => {
                                    assert(parse_questions_at(buf, c_cur, (n - k) as nat)
                                        == Some((seq![qm] + qs2, e2)));
                                    let whole = acc + (seq![qm] + qs2);
                                    assert(whole[acc.len() as int] == qm);
                                    if all_q_utf8(whole) {
                                        assert(q_utf8(whole[acc.len() as int]));
                                    }
                                    assert(!all_q_utf8(whole));
                                },
                                None => {
                                    assert(parse_questions_at(buf, c_cur, (n - k) as nat)
                                        is None);
                                },
                            }
                        },
                        None => {
                            assert(parse_questions_at(buf, c_cur, (n - k) as nat) is None);
                        },
                    }
                }
                return Err(e);
            },
        }
    }
    proof {
        assert(parse_questions_at(buf, stream.cursor as int, 0) == Some(
            (Seq::<QuestionModel>::empty(), stream.cursor as int),
        ));
        assert(items@.map_values(|q: Question| q.model()) + Seq::<QuestionModel>::empty()
            =~= items@.map_values(|q: Question| q.model()));
    }
    Ok(items)
}

/// Parses `n` consecutive resource records.
fn parse_record_section(stream: &mut ReadStream, n: u16) -> (r: Result<
    Vec<ResourceRecord>,
    PacketError,
>)
    requires
        old(stream).cursor <= old(stream).buffer@.len(),
    ensures
        final(stream).buffer@ == old(stream).buffer@,
        r matches Ok(rs) ==> parse_records_at(
            old(stream).buffer@,
            old(stream).cursor as int,
            n as nat,
        ) == Some((rs@.map_values(|x: ResourceRecord| x.model()), final(stream).cursor as int))
            && final(stream).cursor <= final(stream).buffer@.len() && rs@.len() == n,
        r matches Err(_) ==> !records_parse_ok(
            old(stream).buffer@,
            old(stream).cursor as int,
            n as nat,
        ),
{
    let ghost buf = old(stream).buffer@;
    let ghost c0 = old(stream).cursor as int;
    let mut items: Vec<ResourceRecord> = Vec::new();
    let mut k: u16 = 0;
    proof {
        match parse_records_at(buf, c0, n as nat) {
            Some((rs, e)) => {
                assert(items@.map_values(|x: ResourceRecord| x.model()) + rs =~= rs);
            },
            None => {},
        }
    }
    while k < n
        invariant
            k <= n,
            items@.len() == k,
            buf == old(stream).buffer@,
            c0 == old(stream).cursor as int,
            stream.buffer@ == buf,
            stream.cursor <= buf.len(),
            (match parse_records_at(buf, stream.cursor as int, (n - k) as nat) {
                Some((rs, e)) => parse_records_at(buf, c0, n as nat) == Some(
                    (items@.map_values(|x: ResourceRecord| x.model()) + rs, e),
                ),
                None => parse_records_at(buf, c0, n as nat) is None,
            }),
        decreases n - k,
    {
        let ghost c_cur = stream.cursor as int;
        let ghost acc = items@.map_values(|x: ResourceRecord| x.model());
        match ResourceRecord::parse(stream) {
            Ok(rec) => {
                items.push(rec);
                proof {
                    assert(items@.map_values(|x: ResourceRecord| x.model()) =~= acc + seq![
                        rec.model(),
                    ]);
                    match parse_records_at(buf, stream.cursor as int, (n - k - 1) as nat) {
                        Some((rs2, e2)) => {
                            assert(parse_records_at(buf, c_cur, (n - k) as nat) == Some(
                                (seq![rec.model()] + rs2, e2),
                            ));
                            assert((acc + (seq![rec.model()] + rs2)) =~= (
                            items@.map_values(|x: ResourceRecord| x.model()) + rs2));
                        },
                        None => {},
                    }
                }
                k = k + 1;
            },
            Err(e) => {
                proof {
                    match parse_record_at(buf, c_cur) {
                        Some((rm, c1)) => {
                            assert(!record_utf8(rm));
                            match parse_records_at(buf, c1, (n - k - 1) as nat) {
                                Some((rs2, e2)) => {
                                    assert(parse_records_at(buf, c_cur, (n - k) as nat)
                                        == Some((seq![rm] + rs2, e2)));
                                    let whole = acc + (seq![rm] + rs2);
                                    assert(whole[acc.len() as int] == rm);
                                    if all_r_utf8(whole) {
                                        assert(record_utf8(whole[acc.len() as int]));
                                    }
                                    assert(!all_r_utf8(whole));
                                },
                                None => {
                                    assert(parse_records_at(buf, c_cur, (n - k) as nat)
                                        is None);
                                },
                            }
                        },
                        None => {
                            assert(parse_records_at(buf, c_cur, (n - k) as nat) is None);
                        },
                    }
                }
                return Err(e);
            },
        }
    }
    proof {
        assert(parse_records_at(buf, stream.cursor as int, 0) == Some(
            (Seq::<RecordModel>::empty(), stream.cursor as int),
        ));
        assert(items@.map_values(|x: ResourceRecord| x.model()) + Seq::<RecordModel>::empty()
            =~= items@.map_values(|x: ResourceRecord| x.model()));
    }
    Ok(items)
}

impl Packet {
    /// Builds a response packet around the given sections; the header counts
    /// are taken from the section lengths and the response bit is set.
    pub fn new_response(
        id: u16,
        questions: Vec<Question>,
        answers: Vec<ResourceRecord>,
        nameservers: Vec<ResourceRecord>,
        additionals: Vec<ResourceRecord>,
    ) -> (r: Packet)
        requires
            questions@.len() <= 0xffff,
            answers@.len() <= 0xffff,
            nameservers@.len() <= 0xffff,
            additionals@.len() <= 0xffff,
        ensures
            r.header.id.value() == id,
            r.header.flags.value() == 0x8000,
            r.header.qd_count.value() == questions@.len(),
            r.header.an_count.value() == answers@.len(),
            r.header.ns_count.value() == nameservers@.len(),
            r.header.ar_count.value() == additionals@.len(),
            r.questions == questions,
            r.answers == answers,
            r.nameservers == nameservers,
            r.additionals == additionals,
    {
        let header = Header {
            id: U16be::new(id),
            flags: U16be::new(0x8000),
            qd_count: U16be::new(questions.len() as u16),
            an_count: U16be::new(answers.len() as u16),
            ns_count: U16be::new(nameservers.len() as u16),
            ar_count: U16be::new(additionals.len() as u16),
        };
        Packet { header, questions, answers, nameservers, additionals }
    }

    pub fn parse(raw: &[u8]) -> (r: Result<Packet, PacketError>)
        ensures
            r matches Ok(p) ==> parse_packet_bytes(raw@) == Some(p.model()) && p.header.qd_count.value()
                == p.questions@.len() && p.header.an_count.value() == p.answers@.len()
                && p.header.ns_count.value() == p.nameservers@.len() && p.header.ar_count.value()
                == p.additionals@.len(),
            r matches Err(_) ==> !packet_parse_ok(raw@),
    {
        if raw.len() < 12 {
            return Err(PacketError::Malformed);
        }
        let mut stream = ReadStream::new(raw);
        let header = Header::parse(&mut stream);
        proof {
            assert(enc_header(header)[4] == raw@[4]);
            assert(enc_header(header)[5] == raw@[5]);
            assert(enc_header(header)[6] == raw@[6]);
            assert(enc_header(header)[7] == raw@[7]);
            assert(enc_header(header)[8] == raw@[8]);
            assert(enc_header(header)[9] == raw@[9]);
            assert(enc_header(header)[10] == raw@[10]);
            assert(enc_header(header)[11] == raw@[11]);
            assert(enc_header(header)[0] == raw@[0]);
            assert(enc_header(header)[1] == raw@[1]);
            assert(enc_header(header)[2] == raw@[2]);
            assert(enc_header(header)[3] == raw@[3]);
            assert(header.qd_count.value() == be16_at(raw@, 4));
            assert(header.an_count.value() == be16_at(raw@, 6));
            assert(header.ns_count.value() == be16_at(raw@, 8));
            assert(header.ar_count.value() == be16_at(raw@, 10));
            assert(header.id.value() == be16_at(raw@, 0));
            assert(header.flags.value() == be16_at(raw@, 2));
        }
        let qd = header.qd_count.get();
        let an = header.an_count.get();
        let ns = header.ns_count.get();
        let ar = header.ar_count.get();
        let questions = match parse_question_section(&mut stream, qd) {
            Ok(x) => x,
            Err(e) => {
                proof {
                    if packet_parse_ok(raw@) {
                        lemma_packet_ok_chain(raw@);
                    }
                }
                return Err(e);
            },
        };
        let answers = match parse_record_section(&mut stream, an) {
            Ok(x) => x,
            Err(e) => {
                proof {
                    if packet_parse_ok(raw@) {
                        lemma_packet_ok_chain(raw@);
                    }
                }
                return Err(e);
            },
        };
        let nameservers = match parse_record_section(&mut stream, ns) {
            Ok(x) => x,
            Err(e) => {
                proof {
                    if packet_parse_ok(raw@) {
                        lemma_packet_ok_chain(raw@);
                    }
                }
                return Err(e);
            },
        };
        let additionals = match parse_record_section(&mut stream, ar) {
            Ok(x) => x,
            Err(e) => {
                proof {
                    if packet_parse_ok(raw@) {
                        lemma_packet_ok_chain(raw@);
                    }
                }
                return Err(e);
            },
        };
        Ok(Packet { header, questions, answers, nameservers, additionals })
    }

    /// Writes the packet in a single pass: header, questions, answers,
    /// nameservers, additionals.
    pub fn write(&self) -> (r: Vec<u8>)
        requires
            self.spec_wf(),
        ensures
            r@ == enc_packet(self.model()),
    {
        let mut stream = WriteStream::new();
        self.header.write(&mut stream);
        proof {
            assert(self.header.id.raw@ =~= enc16(self.header.id.value()));
            assert(self.header.flags.raw@ =~= enc16(self.header.flags.value()));
            assert(self.header.qd_count.raw@ =~= enc16(self.header.qd_count.value()));
            assert(self.header.an_count.raw@ =~= enc16(self.header.an_count.value()));
            assert(self.header.ns_count.raw@ =~= enc16(self.header.ns_count.value()));
            assert(self.header.ar_count.raw@ =~= enc16(self.header.ar_count.value()));
        }
        let ghost m = self.model();
        let ghost hdr_bytes = enc16(m.id) + enc16(m.flags) + enc16(m.questions.len() as u16)
            + enc16(m.answers.len() as u16) + enc16(m.nameservers.len() as u16) + enc16(
            m.additionals.len() as u16,
        );
        proof {
            assert(stream.buffer@ =~= hdr_bytes);
        }
        let mut i: usize = 0;
        while i < self.questions.len()
            invariant
                i <= self.questions@.len(),
                self.spec_wf(),
                m == self.model(),
                hdr_bytes == enc16(m.id) + enc16(m.flags) + enc16(m.questions.len() as u16)
                    + enc16(m.answers.len() as u16) + enc16(m.nameservers.len() as u16) + enc16(
                    m.additionals.len() as u16,
                ),
                stream.buffer@ == hdr_bytes + enc_questions(m.questions.take(i as int)),
            decreases self.questions@.len() - i,
        {
            proof {
                assert(wf_question(m.questions[i as int]));
            }
            self.questions[i].write(&mut stream);
            proof {
                lemma_enc_questions_push(m.questions.take(i as int), m.questions[i as int]);
                assert(m.questions.take(i + 1) =~= m.questions.take(i as int).push(
                    m.questions[i as int],
                ));
                assert(stream.buffer@ =~= hdr_bytes + enc_questions(m.questions.take(i + 1)));
            }
            i = i + 1;
        }
        proof {
            assert(m.questions.take(m.questions.len() as int) =~= m.questions);
        }
        let ghost base1 = hdr_bytes + enc_questions(m.questions);
        proof {
            assert forall|k: int| 0 <= k < self.answers@.len() implies wf_record(
                (#[trigger] self.answers@[k]).model(),
            ) by {
                assert(m.answers[k] == self.answers@[k].model());
            }
            assert forall|k: int| 0 <= k < self.nameservers@.len() implies wf_record(
                (#[trigger] self.nameservers@[k]).model(),
            ) by {
                assert(m.nameservers[k] == self.nameservers@[k].model());
            }
            assert forall|k: int| 0 <= k < self.additionals@.len() implies wf_record(
                (#[trigger] self.additionals@[k]).model(),
            ) by {
                assert(m.additionals[k] == self.additionals@[k].model());
            }
        }
        write_record_section(&self.answers, &mut stream);
        let ghost base2 = base1 + enc_records(m.answers);
        write_record_section(&self.nameservers, &mut stream);
        let ghost base3 = base2 + enc_records(m.nameservers);
        write_record_section(&self.additionals, &mut stream);
        proof {
            assert(stream.buffer@ =~= enc_packet(m));
        }
        stream.buffer
    }
}

/// Writes one record section in order.
fn write_record_section(records: &Vec<ResourceRecord>, stream: &mut WriteStream)
    requires
        forall|i: int|
            0 <= i < records@.len() ==> wf_record(
                (#[trigger] records@[i]).model(),
            ),
    ensures
        final(stream).buffer@ == old(stream).buffer@ + enc_records(
            records@.map_values(|x: ResourceRecord| x.model()),
        ),
{
    let ghost rv = records@.map_values(|x: ResourceRecord| x.model());
    proof {
        assert(old(stream).buffer@ + enc_records(rv.take(0)) =~= old(stream).buffer@);
    }
    let mut i: usize = 0;
    while i < records.len()
        invariant
            i <= records@.len(),
            rv == records@.map_values(|x: ResourceRecord| x.model()),
            forall|k: int|
                0 <= k < records@.len() ==> wf_record((#[trigger] records@[k]).model()),
            stream.buffer@ == old(stream).buffer@ + enc_records(rv.take(i as int)),
        decreases records@.len() - i,
    {
        proof {
            assert(records@[i as int].model() == rv[i as int]);
        }
        records[i].write(stream);
        proof {
            lemma_enc_records_push(rv.take(i as int), rv[i as int]);
            assert(rv.take(i + 1) =~= rv.take(i as int).push(rv[i as int]));
            assert(stream.buffer@ =~= old(stream).buffer@ + enc_records(rv.take(i + 1)));
        }
        i = i + 1;
    }
    proof {
        assert(rv.take(rv.len() as int) =~= rv);
    }
}


/// Unrolls `packet_parse_ok` into the per-section conditions, so that a
/// failing section refutes the whole packet.
proof fn lemma_packet_ok_chain(buf: Seq<u8>)
    requires
        buf.len() >= 12,
        packet_parse_ok(buf),
    ensures
        questions_parse_ok(buf, 12, be16_at(buf, 4) as nat),
        match parse_questions_at(buf, 12, be16_at(buf, 4) as nat) {
            Some((qs, c1)) => records_parse_ok(buf, c1, be16_at(buf, 6) as nat) && (
            match parse_records_at(buf, c1, be16_at(buf, 6) as nat) {
                Some((rs, c2)) => records_parse_ok(buf, c2, be16_at(buf, 8) as nat) && (
                match parse_records_at(buf, c2, be16_at(buf, 8) as nat) {
                    Some((xs, c3)) => records_parse_ok(buf, c3, be16_at(buf, 10) as nat),
                    None => true,
                }),
                None => true,
            }),
            None => true,
        },
{
    let m = parse_packet_bytes(buf);
    assert(m is Some);
}

/// Appending one question to a section appends its encoding.
pub proof fn lemma_enc_questions_push(qs: Seq<QuestionModel>, q: QuestionModel)
    ensures
        enc_questions(qs.push(q)) == enc_questions(qs) + enc_question(q),
    decreases qs.len(),
{
    if qs.len() == 0 {
        assert(qs.push(q)[0] == q);
        assert(qs.push(q).drop_first() =~= Seq::<QuestionModel>::empty());
        assert(enc_questions(qs.push(q)) == enc_question(q) + enc_questions(
            qs.push(q).drop_first(),
        ));
        assert(enc_questions(qs.push(q)) =~= enc_questions(qs) + enc_question(q));
    } else {
        assert(qs.push(q)[0] == qs[0]);
        assert(qs.push(q).drop_first() =~= qs.drop_first().push(q));
        lemma_enc_questions_push(qs.drop_first(), q);
        assert(enc_questions(qs.push(q)) == enc_question(qs[0]) + enc_questions(
            qs.drop_first().push(q),
        ));
        assert(enc_questions(qs.push(q)) =~= enc_questions(qs) + enc_question(q));
    }
}

/// Appending one record to a section appends its encoding.
pub proof fn lemma_enc_records_push(rs: Seq<RecordModel>, r: RecordModel)
    ensures
        enc_records(rs.push(r)) == enc_records(rs) + enc_record(r),
    decreases rs.len(),
{
    if rs.len() == 0 {
        assert(rs.push(r)[0] == r);
        assert(rs.push(r).drop_first() =~= Seq::<RecordModel>::empty());
        assert(enc_records(rs.push(r)) == enc_record(r) + enc_records(
            rs.push(r).drop_first(),
        ));
        assert(enc_records(rs.push(r)) =~= enc_records(rs) + enc_record(r));
    } else {
        assert(rs.push(r)[0] == rs[0]);
        assert(rs.push(r).drop_first() =~= rs.drop_first().push(r));
        lemma_enc_records_push(rs.drop_first(), r);
        assert(enc_records(rs.push(r)) == enc_record(rs[0]) + enc_records(
            rs.drop_first().push(r),
        ));
        assert(enc_records(rs.push(r)) =~= enc_records(rs) + enc_record(r));
    }
}


/// Helper: the bytes of `sub` laid down at `c` inside `buf` are found there.
proof fn lemma_subrange_find(buf: Seq<u8>, c: int, whole: Seq<u8>, lo: int, hi: int)
    requires
        0 <= c,
        c + whole.len() <= buf.len(),
        buf.subrange(c, c + whole.len()) == whole,
        0 <= lo <= hi <= whole.len(),
    ensures
        buf.subrange(c + lo, c + hi) == whole.subrange(lo, hi),
{
    assert forall|k: int| 0 <= k < hi - lo implies buf.subrange(c + lo, c + hi)[k]
        == whole.subrange(lo, hi)[k] by {
        assert(buf.subrange(c, c + whole.len())[lo + k] == buf[c + (lo + k)]);
    }
    assert(buf.subrange(c + lo, c + hi) =~= whole.subrange(lo, hi));
}

/// Parsing a written question recovers it.
pub proof fn lemma_question_round_trip(q: QuestionModel, buf: Seq<u8>, c: int)
    requires
        wf_question(q),
        0 <= c,
        c + enc_question(q).len() <= buf.len(),
        buf.subrange(c, c + enc_question(q).len()) == enc_question(q),
    ensures
        parse_question_at(buf, c) == Some((q, c + enc_question(q).len())),
{
    let e = enc_question(q);
    let en = enc_name(q.name);
    let c1 = c + en.len();
    lemma_subrange_find(buf, c, e, 0, en.len() as int);
    assert(e.subrange(0, en.len() as int) =~= en);
    lemma_name_round_trip(q.name, buf, c, MAX_NAME_JUMPS as nat);
    lemma_subrange_find(buf, c, e, en.len() as int, en.len() as int + 2);
    assert(e.subrange(en.len() as int, en.len() as int + 2) =~= enc16(rtype_code(q.rtype)));
    lemma_enc16_value(rtype_code(q.rtype), buf, c1);
    lemma_subrange_find(buf, c, e, en.len() as int + 2, en.len() as int + 4);
    assert(e.subrange(en.len() as int + 2, en.len() as int + 4) =~= enc16(0x8001));
    lemma_enc16_value(0x8001, buf, c1 + 2);
    assert(rtype_of(rtype_code(q.rtype)) == q.rtype);
    assert(class_of(0x8001) == Class::IN);
}

/// Parsing written TXT strings recovers them.
pub proof fn lemma_txt_round_trip(ts: Seq<Seq<u8>>, buf: Seq<u8>, c: int)
    requires
        forall|i: int| 0 <= i < ts.len() ==> (#[trigger] ts[i]).len() <= 255,
        0 <= c,
        c + enc_labels(ts).len() <= buf.len(),
        buf.subrange(c, c + enc_labels(ts).len()) == enc_labels(ts),
    ensures
        parse_txt_at(buf, c, c + enc_labels(ts).len()) == Some(ts),
    decreases ts.len(),
{
    let e = enc_labels(ts);
    if ts.len() == 0 {
        assert(Seq::<Seq<u8>>::empty() =~= ts);
    } else {
        let t0 = ts[0];
        let rest = ts.drop_first();
        let e2 = enc_labels(rest);
        assert(e == seq![t0.len() as u8] + t0 + e2);
        assert(buf[c + 0] == e[0]) by {
            assert(buf.subrange(c, c + e.len())[0] == buf[c + 0]);
        }
        assert(e[0] == t0.len() as u8);
        let c2 = c + 1 + t0.len();
        lemma_subrange_find(buf, c, e, 1, 1 + t0.len() as int);
        assert(e.subrange(1, 1 + t0.len() as int) =~= t0);
        lemma_subrange_find(buf, c, e, 1 + t0.len() as int, e.len() as int);
        assert(e.subrange(1 + t0.len() as int, e.len() as int) =~= e2);
        assert(forall|i: int| 0 <= i < rest.len() ==> (#[trigger] rest[i]).len() <= 255) by {
            assert(forall|i: int| 0 <= i < rest.len() ==> #[trigger] rest[i] == ts[i + 1]);
        }
        lemma_txt_round_trip(rest, buf, c2);
        assert(parse_txt_at(buf, c2, c2 + e2.len()) == Some(rest));
        assert(c2 + e2.len() == c + e.len());
        assert(buf[c] as int == t0.len());
        assert(parse_txt_at(buf, c, c + e.len()) == Some(seq![buf.subrange(c + 1, c2)] + rest));
        assert(seq![t0] + rest =~= ts);
    }
}

/// Parsing a written record payload recovers it.
pub proof fn lemma_rdata_round_trip(d: RdataModel, buf: Seq<u8>, c: int)
    requires
        wf_rdata(d),
        0 <= c,
        c + enc_rdata(d).len() <= buf.len(),
        buf.subrange(c, c + enc_rdata(d).len()) == enc_rdata(d),
    ensures
        parse_rdata_at(buf, c, rdata_rtype(d)) == Some((d, c + enc_rdata(d).len())),
{
    let e = enc_rdata(d);
    let body = enc_rdata_body(d);
    let c1 = c + 2;
    lemma_subrange_find(buf, c, e, 0, 2);
    assert(e.subrange(0, 2) =~= enc16(body.len() as u16));
    lemma_enc16_value(body.len() as u16, buf, c);
    lemma_subrange_find(buf, c, e, 2, e.len() as int);
    assert(e.subrange(2, e.len() as int) =~= body);
    match d {
        RdataModel::A(x) => {
            lemma_enc32_value(x, buf, c1);
        },
        RdataModel::AAAA(x) => {
            crate::stream::lemma_enc128_value(x, buf, c1);
        },
        RdataModel::PTR(n) => {
            lemma_name_round_trip(n, buf, c1, MAX_NAME_JUMPS as nat);
        },
        RdataModel::TXT(ts) => {
            lemma_txt_round_trip(ts, buf, c1);
        },
        RdataModel::SRV { priority, weight, port, target } => {
            lemma_subrange_find(buf, c, e, 2, 4);
            assert(e.subrange(2, 4) =~= enc16(priority));
            lemma_enc16_value(priority, buf, c1);
            lemma_subrange_find(buf, c, e, 4, 6);
            assert(e.subrange(4, 6) =~= enc16(weight));
            lemma_enc16_value(weight, buf, c1 + 2);
            lemma_subrange_find(buf, c, e, 6, 8);
            assert(e.subrange(6, 8) =~= enc16(port));
            lemma_enc16_value(port, buf, c1 + 4);
            lemma_subrange_find(buf, c, e, 8, e.len() as int);
            assert(e.subrange(8, e.len() as int) =~= enc_name(target));
            lemma_name_round_trip(target, buf, c1 + 6, MAX_NAME_JUMPS as nat);
        },
        RdataModel::Unknown { .. } => {
            assert(false);
        },
    }
}

/// Parsing a written record recovers it.
pub proof fn lemma_record_round_trip(r: RecordModel, buf: Seq<u8>, c: int)
    requires
        wf_record(r),
        0 <= c,
        c + enc_record(r).len() <= buf.len(),
        buf.subrange(c, c + enc_record(r).len()) == enc_record(r),
    ensures
        parse_record_at(buf, c) == Some((r, c + enc_record(r).len())),
{
    let e = enc_record(r);
    let en = enc_name(r.name);
    let c1 = c + en.len();
    lemma_subrange_find(buf, c, e, 0, en.len() as int);
    assert(e.subrange(0, en.len() as int) =~= en);
    lemma_name_round_trip(r.name, buf, c, MAX_NAME_JUMPS as nat);
    let t = rtype_code(rdata_rtype(r.data));
    lemma_subrange_find(buf, c, e, en.len() as int, en.len() as int + 2);
    assert(e.subrange(en.len() as int, en.len() as int + 2) =~= enc16(t));
    lemma_enc16_value(t, buf, c1);
    lemma_subrange_find(buf, c, e, en.len() as int + 2, en.len() as int + 4);
    assert(e.subrange(en.len() as int + 2, en.len() as int + 4) =~= enc16(0x8001));
    lemma_enc16_value(0x8001, buf, c1 + 2);
    lemma_subrange_find(buf, c, e, en.len() as int + 4, en.len() as int + 8);
    assert(e.subrange(en.len() as int + 4, en.len() as int + 8) =~= enc32(r.ttl));
    lemma_enc32_value(r.ttl, buf, c1 + 4);
    lemma_subrange_find(buf, c, e, en.len() as int + 8, e.len() as int);
    assert(e.subrange(en.len() as int + 8, e.len() as int) =~= enc_rdata(r.data));
    lemma_rdata_round_trip(r.data, buf, c1 + 8);
    assert(rtype_of(t) == rdata_rtype(r.data));
    assert(class_of(0x8001) == Class::IN);
}

/// Parsing a written question section recovers it.
pub proof fn lemma_questions_round_trip(qs: Seq<QuestionModel>, buf: Seq<u8>, c: int)
    requires
        forall|i: int| 0 <= i < qs.len() ==> wf_question(#[trigger] qs[i]),
        0 <= c,
        c + enc_questions(qs).len() <= buf.len(),
        buf.subrange(c, c + enc_questions(qs).len()) == enc_questions(qs),
    ensures
        parse_questions_at(buf, c, qs.len()) == Some((qs, c + enc_questions(qs).len())),
    decreases qs.len(),
{
    let e = enc_questions(qs);
    if qs.len() == 0 {
        assert(Seq::<QuestionModel>::empty() =~= qs);
    } else {
        let q0 = qs[0];
        let rest = qs.drop_first();
        let e0 = enc_question(q0);
        let e2 = enc_questions(rest);
        assert(e == e0 + e2);
        lemma_subrange_find(buf, c, e, 0, e0.len() as int);
        assert(e.subrange(0, e0.len() as int) =~= e0);
        lemma_question_round_trip(q0, buf, c);
        lemma_subrange_find(buf, c, e, e0.len() as int, e.len() as int);
        assert(e.subrange(e0.len() as int, e.len() as int) =~= e2);
        assert(forall|i: int| 0 <= i < rest.len() ==> wf_question(#[trigger] rest[i])) by {
            assert(forall|i: int| 0 <= i < rest.len() ==> #[trigger] rest[i] == qs[i + 1]);
        }
        lemma_questions_round_trip(rest, buf, c + e0.len());
        assert(seq![q0] + rest =~= qs);
    }
}

/// Parsing a written record section recovers it.
pub proof fn lemma_records_round_trip(rs: Seq<RecordModel>, buf: Seq<u8>, c: int)
    requires
        forall|i: int| 0 <= i < rs.len() ==> wf_record(#[trigger] rs[i]),
        0 <= c,
        c + enc_records(rs).len() <= buf.len(),
        buf.subrange(c, c + enc_records(rs).len()) == enc_records(rs),
    ensures
        parse_records_at(buf, c, rs.len()) == Some((rs, c + enc_records(rs).len())),
    decreases rs.len(),
{
    let e = enc_records(rs);
    if rs.len() == 0 {
        assert(Seq::<RecordModel>::empty() =~= rs);
    } else {
        let r0 = rs[0];
        let rest = rs.drop_first();
        let e0 = enc_record(r0);
        let e2 = enc_records(rest);
        assert(e == e0 + e2);
        lemma_subrange_find(buf, c, e, 0, e0.len() as int);
        assert(e.subrange(0, e0.len() as int) =~= e0);
        lemma_record_round_trip(r0, buf, c);
        lemma_subrange_find(buf, c, e, e0.len() as int, e.len() as int);
        assert(e.subrange(e0.len() as int, e.len() as int) =~= e2);
        assert(forall|i: int| 0 <= i < rest.len() ==> wf_record(#[trigger] rest[i])) by {
            assert(forall|i: int| 0 <= i < rest.len() ==> #[trigger] rest[i] == rs[i + 1]);
        }
        lemma_records_round_trip(rest, buf, c + e0.len());
        assert(seq![r0] + rest =~= rs);
    }
}

/// Splitting a concatenation at the seam recovers both halves.
proof fn lemma_concat_parts(a: Seq<u8>, b: Seq<u8>)
    ensures
        (a + b).subrange(0, a.len() as int) == a,
        (a + b).subrange(a.len() as int, (a + b).len() as int) == b,
{
    assert((a + b).subrange(0, a.len() as int) =~= a);
    assert((a + b).subrange(a.len() as int, (a + b).len() as int) =~= b);
}

/// The six header fields written at the front of a packet read back as their
/// values.
proof fn lemma_header_fields(m: PacketModel, buf: Seq<u8>)
    requires
        buf.len() >= 12,
        buf.subrange(0, 12) == enc16(m.id) + enc16(m.flags) + enc16(m.questions.len() as u16)
            + enc16(m.answers.len() as u16) + enc16(m.nameservers.len() as u16) + enc16(
            m.additionals.len() as u16,
        ),
    ensures
        be16_at(buf, 0) == m.id,
        be16_at(buf, 2) == m.flags,
        be16_at(buf, 4) == m.questions.len() as u16,
        be16_at(buf, 6) == m.answers.len() as u16,
        be16_at(buf, 8) == m.nameservers.len() as u16,
        be16_at(buf, 10) == m.additionals.len() as u16,
{
    let h = enc16(m.id) + enc16(m.flags) + enc16(m.questions.len() as u16) + enc16(
        m.answers.len() as u16,
    ) + enc16(m.nameservers.len() as u16) + enc16(m.additionals.len() as u16);
    assert forall|k: int| 0 <= k < 12 implies #[trigger] buf[k] == h[k] by {
        assert(buf.subrange(0, 12)[k] == buf[k]);
    }
    assert(buf.subrange(0, 2) =~= enc16(m.id));
    lemma_enc16_value(m.id, buf, 0);
    assert(buf.subrange(2, 4) =~= enc16(m.flags));
    lemma_enc16_value(m.flags, buf, 2);
    assert(buf.subrange(4, 6) =~= enc16(m.questions.len() as u16));
    lemma_enc16_value(m.questions.len() as u16, buf, 4);
    assert(buf.subrange(6, 8) =~= enc16(m.answers.len() as u16));
    lemma_enc16_value(m.answers.len() as u16, buf, 6);
    assert(buf.subrange(8, 10) =~= enc16(m.nameservers.len() as u16));
    lemma_enc16_value(m.nameservers.len() as u16, buf, 8);
    assert(buf.subrange(10, 12) =~= enc16(m.additionals.len() as u16));
    lemma_enc16_value(m.additionals.len() as u16, buf, 10);
}

/// The encoded packet splits at the section seams.
proof fn lemma_packet_seams(m: PacketModel)
    ensures
        ({
            let buf = enc_packet(m);
            let eq = enc_questions(m.questions);
            let ea = enc_records(m.answers);
            let en = enc_records(m.nameservers);
            let er = enc_records(m.additionals);
            let c1 = 12 + eq.len() as int;
            let c2 = c1 + ea.len();
            let c3 = c2 + en.len();
            &&& buf.len() == c3 + er.len()
            &&& buf.subrange(0, 12) == enc16(m.id) + enc16(m.flags) + enc16(
                m.questions.len() as u16,
            ) + enc16(m.answers.len() as u16) + enc16(m.nameservers.len() as u16) + enc16(
                m.additionals.len() as u16,
            )
            &&& buf.subrange(12, c1) == eq
            &&& buf.subrange(c1, c2) == ea
            &&& buf.subrange(c2, c3) == en
            &&& buf.subrange(c3, c3 + er.len() as int) == er
        }),
{
    let buf = enc_packet(m);
    let eq = enc_questions(m.questions);
    let ea = enc_records(m.answers);
    let en = enc_records(m.nameservers);
    let er = enc_records(m.additionals);
    let h = enc16(m.id) + enc16(m.flags) + enc16(m.questions.len() as u16) + enc16(
        m.answers.len() as u16,
    ) + enc16(m.nameservers.len() as u16) + enc16(m.additionals.len() as u16);
    let t1 = h + eq;
    let t2 = t1 + ea;
    let t3 = t2 + en;
    assert(buf == t3 + er);
    assert(h.len() == 12);
    let c1 = 12 + eq.len() as int;
    let c2 = c1 + ea.len();
    let c3 = c2 + en.len();
    lemma_concat_parts(t3, er);
    lemma_concat_parts(t2, en);
    lemma_concat_parts(t1, ea);
    lemma_concat_parts(h, eq);
    lemma_subrange_find(buf, 0, t3, c2, c3);
    lemma_subrange_find(buf, 0, t3, 0, t2.len() as int);
    assert(buf.subrange(0, t2.len() as int) == t2);
    lemma_subrange_find(buf, 0, t2, c1, c2);
    lemma_subrange_find(buf, 0, t2, 0, t1.len() as int);
    assert(buf.subrange(0, t1.len() as int) == t1);
    lemma_subrange_find(buf, 0, t1, 12, c1);
    lemma_subrange_find(buf, 0, t1, 0, 12);
}

/// Every packet produced by the emitter re-parses to the same packet: the
/// id, the flags, the four counts, and every question and record, names,
/// types and payloads included, come back unchanged.
#[verifier::rlimit(100)]
pub proof fn lemma_packet_round_trip(m: PacketModel)
    requires
        wf_packet_sections(m),
    ensures
        parse_packet_bytes(enc_packet(m)) == Some(m),
{
    let buf = enc_packet(m);
    let eq = enc_questions(m.questions);
    let ea = enc_records(m.answers);
    let en = enc_records(m.nameservers);
    let er = enc_records(m.additionals);
    let c1 = 12 + eq.len() as int;
    let c2 = c1 + ea.len();
    let c3 = c2 + en.len();
    lemma_packet_seams(m);
    lemma_header_fields(m, buf);
    lemma_questions_round_trip(m.questions, buf, 12);
    lemma_records_round_trip(m.answers, buf, c1);
    lemma_records_round_trip(m.nameservers, buf, c2);
    lemma_records_round_trip(m.additionals, buf, c3);
}

/// Splitting a character string on dots, as `Name::new` and `Name::equals`
/// read dotted names.  The split of an empty string is one empty segment.
pub open spec fn split_dot_chars(s: Seq<char>) -> Seq<Seq<char>>
    decreases s.len(),
{
    if s.len() == 0 {
        seq![Seq::empty()]
    } else if s[0] == '.' {
        seq![Seq::<char>::empty()] + split_dot_chars(s.drop_first())
    } else {
        let rest = split_dot_chars(s.drop_first());
        seq![seq![s[0]] + rest[0]] + rest.drop_first()
    }
}

pub proof fn lemma_split_dot_nonempty(s: Seq<char>)
    ensures
        split_dot_chars(s).len() >= 1,
    decreases s.len(),
{
    if s.len() != 0 {
        lemma_split_dot_nonempty(s.drop_first());
    }
}

/// Scanning up to the first dot (or the end) takes one segment off the
/// split.
pub proof fn lemma_split_dot_step(s: Seq<char>, j: int)
    requires
        0 <= j <= s.len(),
        forall|k: int| 0 <= k < j ==> s[k] != '.',
        j == s.len() || s[j] == '.',
    ensures
        j == s.len() ==> split_dot_chars(s) == seq![s],
        j < s.len() ==> split_dot_chars(s) == seq![s.take(j)] + split_dot_chars(s.skip(j + 1)),
    decreases j,
{
    if j == 0 {
        if j == s.len() {
            assert(s =~= Seq::<char>::empty());
            assert(seq![s] =~= split_dot_chars(s));
        } else {
            assert(s.take(0) =~= Seq::<char>::empty());
            assert(s.skip(1) =~= s.drop_first());
        }
    } else {
        let t = s.drop_first();
        assert(forall|k: int| 0 <= k < j - 1 ==> #[trigger] t[k] == s[k + 1]);
        lemma_split_dot_step(t, j - 1);
        lemma_split_dot_nonempty(t);
        if j == s.len() {
            assert(split_dot_chars(t) == seq![t]);
            assert(split_dot_chars(s) == seq![seq![s[0]] + t] + split_dot_chars(
                t,
            ).drop_first());
            assert(seq![t].drop_first() =~= Seq::<Seq<char>>::empty());
            assert(seq![s[0]] + t =~= s);
            assert(split_dot_chars(s) =~= seq![s]);
        } else {
            assert(split_dot_chars(t) == seq![t.take(j - 1)] + split_dot_chars(t.skip(j)));
            assert((seq![t.take(j - 1)] + split_dot_chars(t.skip(j)))[0] == t.take(j - 1));
            assert(seq![s[0]] + t.take(j - 1) =~= s.take(j));
            assert(t.skip(j) =~= s.skip(j + 1));
            assert((seq![t.take(j - 1)] + split_dot_chars(t.skip(j))).drop_first()
                =~= split_dot_chars(t.skip(j)));
            assert(split_dot_chars(s) =~= seq![s.take(j)] + split_dot_chars(s.skip(j + 1)));
        }
    }
}

impl Name {
    /// The labels of this name as character strings.
    pub open spec fn texts(self) -> Seq<Seq<char>> {
        self.labels@.map_values(|l: String| l@)
    }

    /// Builds a name by splitting a dotted string on `'.'`.
    pub fn new(name: &str) -> (r: Name)
        ensures
            r.texts() == split_dot_chars(name@),
    {
        let n = name.unicode_len();
        let mut labels: Vec<String> = Vec::new();
        let mut seg_start: usize = 0;
        let mut i: usize = 0;
        proof {
            assert(name@.skip(0) =~= name@);
            assert(labels@.map_values(|l: String| l@) + split_dot_chars(name@)
                =~= split_dot_chars(name@));
        }
        while i < n
            invariant
                seg_start <= i <= n,
                n == name@.len(),
                forall|k: int| seg_start <= k < i ==> name@[k] != '.',
                split_dot_chars(name@) == labels@.map_values(|l: String| l@)
                    + split_dot_chars(name@.skip(seg_start as int)),
            decreases n - i,
        {
            let ch = name.get_char(i);
            if ch == '.' {
                let seg = name.substring_char(seg_start, i).to_owned();
                let ghost acc = labels@.map_values(|l: String| l@);
                labels.push(seg);
                proof {
                    let u = name@.skip(seg_start as int);
                    let j = i - seg_start;
                    assert(forall|k: int|
                        0 <= k < j ==> #[trigger] u[k] == name@[k + seg_start]);
                    lemma_split_dot_step(u, j as int);
                    assert(u.take(j as int) =~= name@.subrange(seg_start as int, i as int));
                    assert(u.skip(j + 1) =~= name@.skip(i + 1));
                    assert(seg@ == u.take(j as int));
                    assert(labels@.map_values(|l: String| l@) =~= acc + seq![seg@]);
                    assert((acc + (seq![seg@] + split_dot_chars(name@.skip(i + 1)))) =~= (
                    labels@.map_values(|l: String| l@) + split_dot_chars(name@.skip(i + 1))));
                }
                seg_start = i + 1;
            }
            i = i + 1;
        }
        let seg = name.substring_char(seg_start, n).to_owned();
        let ghost acc = labels@.map_values(|l: String| l@);
        labels.push(seg);
        proof {
            let u = name@.skip(seg_start as int);
            let j = n - seg_start;
            assert(forall|k: int| 0 <= k < j ==> #[trigger] u[k] == name@[k + seg_start]);
            lemma_split_dot_step(u, j as int);
            assert(u =~= name@.subrange(seg_start as int, n as int));
            assert(seg@ == u);
            assert(labels@.map_values(|l: String| l@) =~= acc + seq![seg@]);
            assert((acc + seq![seg@]) =~= (acc + split_dot_chars(u)));
        }
        Name { labels }
    }

    /// Whether this name reads as the given dotted string: the labels equal
    /// the string split on dots.
    pub fn equals(&self, other: &str) -> (r: bool)
        ensures
            r == (self.texts() == split_dot_chars(other@)),
    {
        let o = Name::new(other);
        if self.labels.len() != o.labels.len() {
            proof {
                assert(self.texts().len() != o.texts().len());
            }
            return false;
        }
        let mut i: usize = 0;
        while i < self.labels.len()
            invariant
                i <= self.labels@.len(),
                self.labels@.len() == o.labels@.len(),
                o.texts() == split_dot_chars(other@),
                forall|k: int| 0 <= k < i ==> self.texts()[k] == o.texts()[k],
            decreases self.labels@.len() - i,
        {
            if self.labels[i] != o.labels[i] {
                proof {
                    assert(self.texts()[i as int] != o.texts()[i as int]);
                }
                return false;
            }
            i = i + 1;
        }
        proof {
            assert(self.texts() =~= o.texts());
        }
        true
    }

    /// Whether every label fits a length byte: between 1 and 63 bytes.
    pub fn is_wf(&self) -> (r: bool)
        ensures
            r == self.spec_wf(),
    {
        let mut i: usize = 0;
        while i < self.labels.len()
            invariant
                i <= self.labels@.len(),
                forall|k: int| 0 <= k < i ==> 1 <= (#[trigger] self.model()[k]).len() <= 63,
            decreases self.labels@.len() - i,
        {
            let blen = self.labels[i].as_str().as_bytes().len();
            if blen < 1 || blen > 63 {
                proof {
                    assert(self.model()[i as int].len() == blen);
                }
                return false;
            }
            i = i + 1;
        }
        true
    }
}

impl ResourceRecord {
    /// A record of class IN for a dotted name.
    pub fn new(name: &str, ttl: u32, data: ResourceRecordData) -> (r: ResourceRecord)
        ensures
            r.name.texts() == split_dot_chars(name@),
            r.class == Class::IN,
            r.ttl == ttl,
            r.data == data,
    {
        ResourceRecord { name: Name::new(name), class: Class::IN, ttl, data }
    }
}

} // verus!
