//! The RAOP session: the RTSP state machine on the control plane, and the
//! decrypt–decode–write pipeline on the data plane.  The surrounding I/O
//! loop performs the reads and writes and hands frames and datagrams in.

use vstd::prelude::*;
use crate::cipher::{AppleChallenge, RsaAesCipher, apple_response_of, cbc_decrypt,
    rsa_oaep_sha1_of};
use crate::b64::{b64_decode, b64_decode_spec};
use crate::decoder::{AppleLoselessDecoder, Decoder, DecodeError, RawPCMDecoder,
    fmtp_decoder_ok, fmtp_channels, fmtp_rate};
use crate::rtp::{RtpControlPacket, RtpPacket};
use crate::rtsp::{HeaderMap, RtspRequest, RtspResponse, RtspStatusCode, lookup, insert_pair,
    lemma_lookup_insert_same, lemma_lookup_insert_other, chars_all_digits, chars_val};
use crate::sdp::{parse_sdp, parse_sdp_model, SdpModel};
use crate::sink::{AudioFormat, AudioSink, AudioSinkSession};
use crate::text::{str_eq, u64_to_string, dec_chars};

verus! {

/// The lifecycle of a session.
#[derive(Clone, Copy, Debug, PartialEq, Eq, Structural)]
pub enum SessionState {
    New,
    Announced,
    Setup,
    Recording,
    Closed,
}

/// The one condition that ends a session from inside the state machine: an
/// ANNOUNCE naming a codec this receiver does not know.
#[derive(Clone, Copy, Debug, PartialEq, Eq, Structural)]
pub enum SessionFatal {
    UnknownCodec,
}

/// Why a data-plane packet was dropped; the session survives all of these.
#[derive(Clone, Copy, Debug, PartialEq, Eq, Structural)]
pub enum PacketDrop {
    NoStream,
    WrongPayloadType,
    DecodeFailed,
    SinkFailed,
}

/// The negotiated decoder.
pub enum AudioDecoder {
    Alac(AppleLoselessDecoder),
    Raw(RawPCMDecoder),
}

impl AudioDecoder {
    /// The ALAC variant carries a cookie within the codec's bounds.
    pub open spec fn wf(self) -> bool {
        match self {
            AudioDecoder::Alac(d) => d.wf(),
            AudioDecoder::Raw(_) => true,
        }
    }

    /// The (channels, rate, format) triple the decoder produces.
    pub open spec fn shape(self) -> (u8, u32, AudioFormat) {
        match self {
            AudioDecoder::Alac(d) => (d.channels, d.sample_rate, AudioFormat::S16NE),
            AudioDecoder::Raw(d) => (d.channels, d.rate, d.format),
        }
    }

    pub fn channels(&self) -> (r: u8)
        ensures
            r == self.shape().0,
    {
        match self {
            AudioDecoder::Alac(d) => d.channels(),
            AudioDecoder::Raw(d) => d.channels(),
        }
    }

    pub fn rate(&self) -> (r: u32)
        ensures
            r == self.shape().1,
    {
        match self {
            AudioDecoder::Alac(d) => d.rate(),
            AudioDecoder::Raw(d) => d.rate(),
        }
    }

    pub fn format(&self) -> (r: AudioFormat)
        ensures
            r == self.shape().2,
    {
        match self {
            AudioDecoder::Alac(d) => d.format(),
            AudioDecoder::Raw(d) => d.format(),
        }
    }

    pub fn decode(&mut self, raw: &Vec<u8>) -> (r: Result<Vec<u8>, DecodeError>)
        requires
            old(self).wf(),
        ensures
            *final(self) == *old(self),
            *old(self) is Raw ==> (r matches Ok(v) && v@ == raw@),
    {
        match self {
            AudioDecoder::Alac(d) => d.decode_frame(raw),
            AudioDecoder::Raw(d) => Ok(d.decode_bytes(raw)),
        }
    }
}

/// The stream negotiated by ANNOUNCE: the RTP payload type, the decoder,
/// the optional per-packet cipher, and the open sink session.
pub struct StreamInfo<S: AudioSinkSession> {
    pub rtp_type: u8,
    pub decoder: AudioDecoder,
    pub cipher: Option<RsaAesCipher>,
    pub session: S,
}

/// One RAOP session: identity, the three bound UDP ports, the challenge
/// responder, the audio sink, and the negotiated stream.
pub struct RtspSession<K: AudioSink> {
    pub id: u32,
    pub rtp_port: u16,
    pub control_port: u16,
    pub timing_port: u16,
    pub apple_challenge: AppleChallenge,
    pub sink: K,
    pub state: SessionState,
    pub stream_info: Option<StreamInfo<K::Session>>,
}

impl<K: AudioSink> RtspSession<K> {
    /// Any cipher the stream carries holds 16-byte key material, and the
    /// decoder's cookie sits within the codec's bounds.
    pub open spec fn wf(self) -> bool {
        match self.stream_info {
            Some(si) => si.decoder.wf() && (match si.cipher {
                Some(c) => c.spec_wf(),
                None => true,
            }),
            None => true,
        }
    }

    /// The PCM buffers the sink session has accepted so far.
    pub open spec fn sink_writes(self) -> Seq<Seq<u8>> {
        match self.stream_info {
            Some(si) => si.session.writes(),
            None => Seq::empty(),
        }
    }

    /// What an accepted packet's payload holds after the optional cipher.
    pub open spec fn rtp_plain(self, payload: Seq<u8>) -> Seq<u8> {
        match self.stream_info {
            Some(si) => match si.cipher {
                Some(c) => cbc_decrypt(c.key@, c.iv@, payload),
                None => payload,
            },
            None => payload,
        }
    }

    pub open spec fn decoder_is_raw(self) -> bool {
        match self.stream_info {
            Some(si) => si.decoder is Raw,
            None => false,
        }
    }

    pub fn new(
        id: u32,
        rtp_port: u16,
        control_port: u16,
        timing_port: u16,
        key_pem: &str,
        local_ip: &Vec<u8>,
        mac_address: &Vec<u8>,
        sink: K,
    ) -> (r: Self)
        ensures
            r.id == id,
            r.rtp_port == rtp_port,
            r.control_port == control_port,
            r.timing_port == timing_port,
            r.apple_challenge.key_pem@ == key_pem@,
            r.apple_challenge.ip_mac@ == local_ip@ + mac_address@,
            r.state is New,
            r.stream_info is None,
            r.wf(),
    {
        RtspSession {
            id,
            rtp_port,
            control_port,
            timing_port,
            apple_challenge: AppleChallenge::new(key_pem, local_ip, mac_address),
            sink,
            state: SessionState::New,
            stream_info: None,
        }
    }

    /// The data plane: an RTP packet is dropped unless a stream is set up
    /// and the payload type matches; otherwise it is decrypted, decoded,
    /// and written to the sink exactly once.
    pub fn handle_rtp(&mut self, packet: &RtpPacket) -> (r: Result<(), PacketDrop>)
        requires
            old(self).wf(),
        ensures
            final(self).wf(),
            final(self).state == old(self).state,
            r is Ok ==> (old(self).stream_info matches Some(si) && packet.payload_type
                == si.rtp_type),
            r is Ok ==> exists|p: Seq<u8>|
                final(self).sink_writes() == old(self).sink_writes().push(p),
            r is Ok && old(self).decoder_is_raw() ==> final(self).sink_writes() == old(
                self,
            ).sink_writes().push(old(self).rtp_plain(packet.payload@)),
            r is Err ==> final(self).sink_writes() == old(self).sink_writes(),
            r == Err::<(), PacketDrop>(PacketDrop::NoStream) <==> old(self).stream_info
                is None,
            (old(self).stream_info matches Some(si) && packet.payload_type != si.rtp_type)
                ==> r == Err::<(), PacketDrop>(PacketDrop::WrongPayloadType),
            (old(self).decoder_is_raw() && (old(self).stream_info matches Some(si)
                && packet.payload_type == si.rtp_type)) ==> (r is Ok || r == Err::<
                (),
                PacketDrop,
            >(PacketDrop::SinkFailed)),
    {
        let mut slot: Option<StreamInfo<K::Session>> = None;
        core::mem::swap(&mut self.stream_info, &mut slot);
        match slot {
            None => Err(PacketDrop::NoStream),
            Some(mut si) => {
                if packet.payload_type != si.rtp_type {
                    self.stream_info = Some(si);
                    return Err(PacketDrop::WrongPayloadType);
                }
                let data: Vec<u8> = match &si.cipher {
                    Some(c) => c.decrypt(&packet.payload),
                    None => {
                        let mut copy: Vec<u8> = Vec::new();
                        let mut i: usize = 0;
                        while i < packet.payload.len()
                            invariant
                                i <= packet.payload@.len(),
                                copy@ == packet.payload@.subrange(0, i as int),
                            decreases packet.payload@.len() - i,
                        {
                            copy.push(packet.payload[i]);
                            proof {
                                assert(copy@ =~= packet.payload@.subrange(0, i + 1));
                            }
                            i = i + 1;
                        }
                        proof {
                            assert(copy@ =~= packet.payload@);
                        }
                        copy
                    },
                };
                let pcm = match si.decoder.decode(&data) {
                    Ok(v) => v,
                    Err(_) => {
                        self.stream_info = Some(si);
                        return Err(PacketDrop::DecodeFailed);
                    },
                };
                let wrote = si.session.write(&pcm);
                proof {
                    if wrote is Ok {
                        assert(si.session.writes() == old(self).sink_writes().push(pcm@));
                    }
                }
                self.stream_info = Some(si);
                match wrote {
                    Ok(_) => Ok(()),
                    Err(_) => Err(PacketDrop::SinkFailed),
                }
            },
        }
    }

    /// Control-port packets are received but clock recovery is a stated
    /// non-goal: nothing is acted on.
    pub fn handle_control(&self, _packet: &RtpControlPacket) {
    }

    /// Timing-port packets are received and ignored in this iteration.
    pub fn handle_timing(&self, _packet: &RtpPacket) {
    }
}


/// The value of the Transport response header: the three server ports.
pub open spec fn transport_value(rtp_port: u16, control_port: u16, timing_port: u16) -> Seq<
    char,
> {
    "RTP/AVP/UDP;unicast;mode=record;server_port="@ + dec_chars(rtp_port as int)
        + ";control_port="@ + dec_chars(control_port as int) + ";timing_port="@ + dec_chars(
        timing_port as int,
    )
}


/// The two codecs this receiver understands.
pub open spec fn known_codec(m: SdpModel) -> bool {
    m.codec_name == "AppleLossless"@ || m.codec_name == "L16"@
}

/// L16 needs its channel count as a decimal number up to 255.
pub open spec fn l16_params_ok(m: SdpModel) -> bool {
    m.encoding_parameters.len() > 0 && chars_all_digits(m.encoding_parameters) && chars_val(
        m.encoding_parameters,
    ) <= 255
}

/// A known codec whose parameters do not yield a decoder.
pub open spec fn announce_decoder_rejected(m: SdpModel) -> bool {
    if m.codec_name == "AppleLossless"@ {
        match m.fmtp {
            Some(f) => !fmtp_decoder_ok(f),
            None => true,
        }
    } else {
        !l16_params_ok(m)
    }
}

/// Both key attributes present but not yielding a 16-byte key and vector.
pub open spec fn announce_cipher_rejected(m: SdpModel, pem: Seq<char>) -> bool {
    match (m.rsaaeskey, m.aesiv) {
        (Some(k), Some(iv)) => match (b64_decode_spec(k), b64_decode_spec(iv)) {
            (Some(kd), Some(ivd)) => (match rsa_oaep_sha1_of(pem, kd) {
                Some(key) => key.len() != 16 || ivd.len() != 16,
                None => true,
            }),
            _ => true,
        },
        _ => false,
    }
}

/// Exactly the ANNOUNCE bodies answered with 400: an unparseable SDP, or a
/// known codec with bad parameters or bad key material.
pub open spec fn announce_rejected(content: Seq<u8>, pem: Seq<char>) -> bool {
    match parse_sdp_model(content) {
        None => true,
        Some(m) => known_codec(m) && (announce_decoder_rejected(m) || announce_cipher_rejected(
            m,
            pem,
        )),
    }
}


/// What building the decoder from a parsed ANNOUNCE yields.
pub enum DecoderOutcome {
    Built(AudioDecoder),
    Rejected,
    UnknownName,
}

/// Builds the negotiated decoder from the parsed stream description.
#[verifier::rlimit(100)]
fn build_decoder(info: &crate::sdp::SdpInfo) -> (r: DecoderOutcome)
    ensures
        r matches DecoderOutcome::Built(d) ==> ({
            &&& known_codec(info.model())
            &&& !announce_decoder_rejected(info.model())
            &&& d.wf()
            &&& (info.model().codec_name == "AppleLossless"@ ==> (d matches AudioDecoder::Alac(
                a,
            ) && info.model().fmtp matches Some(f) && a.channels == fmtp_channels(f)
                && a.sample_rate == fmtp_rate(f)))
            &&& (info.model().codec_name == "L16"@ ==> (d matches AudioDecoder::Raw(p)
                && p.format is S16BE && p.channels == chars_val(info.model().encoding_parameters)
                && p.rate == info.model().clock_rate))
        }),
        r is Rejected ==> known_codec(info.model()) && announce_decoder_rejected(info.model()),
        r is UnknownName <==> !known_codec(info.model()),
{
    proof {
        reveal_strlit("AppleLossless");
        reveal_strlit("L16");
        assert("AppleLossless"@.len() == 13);
        assert("L16"@.len() == 3);
    }
    if str_eq(info.codec_name.as_str(), "AppleLossless") {
        match &info.fmtp {
            Some(f) => match AppleLoselessDecoder::new(f.as_str()) {
                Ok(d) => DecoderOutcome::Built(AudioDecoder::Alac(d)),
                Err(_) => DecoderOutcome::Rejected,
            },
            None => DecoderOutcome::Rejected,
        }
    } else if str_eq(info.codec_name.as_str(), "L16") {
        let channels = match crate::rtsp::parse_usize_chars(info.encoding_parameters.as_str()) {
            Some(v) => {
                if v <= 255 {
                    v as u8
                } else {
                    return DecoderOutcome::Rejected;
                }
            },
            None => {
                return DecoderOutcome::Rejected;
            },
        };
        match RawPCMDecoder::new(AudioFormat::S16BE, channels, info.clock_rate) {
            Ok(d) => DecoderOutcome::Built(AudioDecoder::Raw(d)),
            Err(_) => DecoderOutcome::Rejected,
        }
    } else {
        DecoderOutcome::UnknownName
    }
}

/// Unwraps the stream cipher when both key attributes are present.
fn build_cipher(pem: &str, info: &crate::sdp::SdpInfo) -> (r: Result<Option<RsaAesCipher>, ()>)
    ensures
        r matches Ok(c) ==> ({
            &&& !announce_cipher_rejected(info.model(), pem@)
            &&& ((c is Some) <==> (info.model().rsaaeskey is Some && info.model().aesiv
                is Some))
            &&& (match c {
                Some(cc) => cc.spec_wf(),
                None => true,
            })
        }),
        r is Err ==> announce_cipher_rejected(info.model(), pem@),
{
    match (&info.rsaaeskey, &info.aesiv) {
        (Some(key_attr), Some(iv_attr)) => {
            let key_raw = match b64_decode(key_attr.as_str()) {
                Some(v) => v,
                None => {
                    return Err(());
                },
            };
            let iv_raw = match b64_decode(iv_attr.as_str()) {
                Some(v) => v,
                None => {
                    return Err(());
                },
            };
            match RsaAesCipher::new(pem, &key_raw, &iv_raw) {
                Ok(c) => Ok(Some(c)),
                Err(_) => Err(()),
            }
        },
        _ => Ok(None),
    }
}

impl<K: AudioSink> RtspSession<K> {
    /// OPTIONS: every method this server accepts.
    pub fn handle_options(&self) -> (r: RtspResponse)
        ensures
            r.status is Okay,
            lookup(r.headers.model(), "Public"@) == Some(
                "ANNOUNCE, SETUP, RECORD, PAUSE, FLUSH, TEARDOWN, OPTIONS, GET_PARAMETER, SET_PARAMETER, POST, GET"@,
            ),
    {
        let mut headers = HeaderMap::new();
        headers.insert(
            String::from_str("Public"),
            String::from_str(
                "ANNOUNCE, SETUP, RECORD, PAUSE, FLUSH, TEARDOWN, OPTIONS, GET_PARAMETER, SET_PARAMETER, POST, GET",
            ),
        );
        proof {
            lemma_lookup_insert_same(
                Seq::<(Seq<char>, Seq<char>)>::empty(),
                "Public"@,
                "ANNOUNCE, SETUP, RECORD, PAUSE, FLUSH, TEARDOWN, OPTIONS, GET_PARAMETER, SET_PARAMETER, POST, GET"@,
            );
        }
        RtspResponse::with_headers(RtspStatusCode::Okay, headers)
    }

    /// SETUP: requires an announced stream and a Transport header, and
    /// reports the three bound server ports and the session id.
    pub fn handle_setup(&mut self, request: &RtspRequest) -> (r: RtspResponse)
        ensures
            final(self).id == old(self).id,
            final(self).rtp_port == old(self).rtp_port,
            final(self).control_port == old(self).control_port,
            final(self).timing_port == old(self).timing_port,
            final(self).apple_challenge == old(self).apple_challenge,
            final(self).stream_info == old(self).stream_info,
            old(self).state is New || lookup(request.headers.model(), "Transport"@) is None
                ==> r.status is BadRequest && final(self).state == old(self).state,
            !(old(self).state is New) && lookup(request.headers.model(), "Transport"@) is Some
                ==> ({
                &&& r.status is Okay
                &&& lookup(r.headers.model(), "Transport"@) == Some(
                    transport_value(
                        old(self).rtp_port,
                        old(self).control_port,
                        old(self).timing_port,
                    ),
                )
                &&& lookup(r.headers.model(), "Session"@) == Some(dec_chars(old(self).id as int))
                &&& final(self).state == (if old(self).state is Announced {
                    SessionState::Setup
                } else {
                    old(self).state
                })
            }),
    {
        if self.state == SessionState::New {
            return RtspResponse::new(RtspStatusCode::BadRequest);
        }
        match request.headers.get("Transport") {
            None => RtspResponse::new(RtspStatusCode::BadRequest),
            Some(_) => {
                let mut transport = String::from_str(
                    "RTP/AVP/UDP;unicast;mode=record;server_port=",
                );
                transport.append(u64_to_string(self.rtp_port as u64).as_str());
                transport.append(";control_port=");
                transport.append(u64_to_string(self.control_port as u64).as_str());
                transport.append(";timing_port=");
                transport.append(u64_to_string(self.timing_port as u64).as_str());
                let mut headers = HeaderMap::new();
                let ghost h0 = headers.model();
                headers.insert(String::from_str("Session"), u64_to_string(self.id as u64));
                let ghost h1 = headers.model();
                headers.insert(String::from_str("Transport"), transport);
                proof {
                    lemma_lookup_insert_same(h0, "Session"@, dec_chars(self.id as int));
                    lemma_lookup_insert_same(
                        h1,
                        "Transport"@,
                        transport_value(self.rtp_port, self.control_port, self.timing_port),
                    );
                    reveal_strlit("Session");
                    reveal_strlit("Transport");
                    assert("Session"@.len() == 7);
                    assert("Transport"@.len() == 9);
                    assert("Session"@ != "Transport"@);
                    lemma_lookup_insert_other(
                        h1,
                        "Transport"@,
                        transport_value(self.rtp_port, self.control_port, self.timing_port),
                        "Session"@,
                    );
                }
                if self.state == SessionState::Announced {
                    self.state = SessionState::Setup;
                }
                RtspResponse::with_headers(RtspStatusCode::Okay, headers)
            },
        }
    }

    /// ANNOUNCE: parse the SDP body, pick the decoder, unwrap the cipher if
    /// both key attributes are present, open the sink, and replace the
    /// stream.  An unknown codec ends the session.
    #[verifier::rlimit(100)]
    pub fn handle_announce(&mut self, request: &RtspRequest) -> (r: Result<
        RtspResponse,
        SessionFatal,
    >)
        requires
            old(self).wf(),
        ensures
            final(self).wf(),
            final(self).id == old(self).id,
            final(self).rtp_port == old(self).rtp_port,
            final(self).control_port == old(self).control_port,
            final(self).timing_port == old(self).timing_port,
            final(self).apple_challenge == old(self).apple_challenge,
            r matches Ok(resp) ==> (resp.status is Okay || resp.status is BadRequest
                || resp.status is InternalServerError),
            r matches Ok(resp) ==> (resp.status is BadRequest <==> announce_rejected(
                request.content@,
                old(self).apple_challenge.key_pem@,
            )),
            r is Err ==> (parse_sdp_model(request.content@) matches Some(m) && !known_codec(
                m,
            )),
            (parse_sdp_model(request.content@) matches Some(m) && !known_codec(m)) ==> r
                is Err,
            r matches Ok(resp) && resp.status is Okay ==> ({
                &&& final(self).state is Announced
                &&& final(self).stream_info matches Some(si) && si.rtp_type == 96
                    && si.session.writes() == Seq::<Seq<u8>>::empty() && si.session.shape()
                    == si.decoder.shape() && (parse_sdp_model(request.content@) matches Some(
                    m,
                ) && ((si.cipher is Some) <==> (m.rsaaeskey is Some && m.aesiv is Some)) && (
                m.codec_name == "AppleLossless"@ ==> (si.decoder matches AudioDecoder::Alac(d)
                    && m.fmtp matches Some(f) && d.channels == fmtp_channels(f)
                    && d.sample_rate == fmtp_rate(f))) && (m.codec_name == "L16"@ ==> (
                si.decoder matches AudioDecoder::Raw(d) && d.format is S16BE && d.channels
                    == chars_val(m.encoding_parameters) && d.rate == m.clock_rate)))
            }),
            r matches Ok(resp) && !(resp.status is Okay) ==> final(self).stream_info == old(
                self,
            ).stream_info && final(self).state == old(self).state,
    {
        let info = match parse_sdp(&request.content) {
            Ok(i) => i,
            Err(_) => {
                return Ok(RtspResponse::new(RtspStatusCode::BadRequest));
            },
        };
        let decoder: AudioDecoder = match build_decoder(&info) {
            DecoderOutcome::Built(d) => d,
            DecoderOutcome::Rejected => {
                return Ok(RtspResponse::new(RtspStatusCode::BadRequest));
            },
            DecoderOutcome::UnknownName => {
                return Err(SessionFatal::UnknownCodec);
            },
        };
        let cipher: Option<RsaAesCipher> = match build_cipher(
            self.apple_challenge.key_pem.as_str(),
            &info,
        ) {
            Ok(c) => c,
            Err(_) => {
                return Ok(RtspResponse::new(RtspStatusCode::BadRequest));
            },
        };
        let decoder_channels = decoder.channels();
        let decoder_rate = decoder.rate();
        let decoder_format = decoder.format();
        let session = match self.sink.start(decoder_channels, decoder_rate, decoder_format) {
            Ok(s) => s,
            Err(_) => {
                return Ok(RtspResponse::new(RtspStatusCode::InternalServerError));
            },
        };
        proof {
            assert((decoder_channels, decoder_rate, decoder_format) == decoder.shape());
            assert(session.shape() == decoder.shape());
        }
        self.stream_info = Some(StreamInfo { rtp_type: 96, decoder, cipher, session });
        self.state = SessionState::Announced;
        Ok(RtspResponse::new(RtspStatusCode::Okay))
    }
}



/// The methods answered 200 with no further work.
pub open spec fn trivial_ok_method(m: Seq<char>) -> bool {
    m == "RECORD"@ || m == "PAUSE"@ || m == "FLUSH"@ || m == "TEARDOWN"@ || m
        == "GET_PARAMETER"@ || m == "SET_PARAMETER"@
}

/// Every method this server has an answer for.
pub open spec fn known_rtsp_method(m: Seq<char>) -> bool {
    trivial_ok_method(m) || m == "ANNOUNCE"@ || m == "SETUP"@ || m == "OPTIONS"@ || m
        == "GET"@ || m == "POST"@
}

/// The request carries an Apple-Challenge that does not decode or sign.
pub open spec fn challenge_fails(
    pem: Seq<char>,
    ip_mac: Seq<u8>,
    h: Seq<(Seq<char>, Seq<char>)>,
) -> bool {
    match lookup(h, "Apple-Challenge"@) {
        Some(c) => apple_response_of(pem, ip_mac, c) is None,
        None => false,
    }
}

impl<K: AudioSink> RtspSession<K> {
    /// The control plane: dispatch one request and build its response.
    /// Every response echoes the request's CSeq when one was present and
    /// carries the Server header; a request with an Apple-Challenge gets an
    /// Apple-Response, or a 500 when the challenge does not decode or sign.
    #[verifier::rlimit(100)]
    pub fn handle_rtsp(&mut self, request: &RtspRequest) -> (r: Result<
        RtspResponse,
        SessionFatal,
    >)
        requires
            old(self).wf(),
        ensures
            final(self).wf(),
            final(self).id == old(self).id,
            final(self).rtp_port == old(self).rtp_port,
            final(self).control_port == old(self).control_port,
            final(self).timing_port == old(self).timing_port,
            final(self).apple_challenge == old(self).apple_challenge,
            r matches Ok(resp) ==> (match lookup(request.headers.model(), "CSeq"@) {
                Some(v) => lookup(resp.headers.model(), "CSeq"@) == Some(v),
                None => true,
            }),
            r matches Ok(resp) ==> lookup(resp.headers.model(), "Server"@) == Some("ras/0.1"@),
            r matches Ok(resp) ==> (match lookup(request.headers.model(), "Apple-Challenge"@) {
                Some(c) => (match apple_response_of(
                    old(self).apple_challenge.key_pem@,
                    old(self).apple_challenge.ip_mac@,
                    c,
                ) {
                    Some(a) => lookup(resp.headers.model(), "Apple-Response"@) == Some(a),
                    None => resp.status is InternalServerError,
                }),
                None => true,
            }),
            request.method@ == "TEARDOWN"@ && r is Ok ==> final(self).state is Closed,
            r is Err ==> request.method@ == "ANNOUNCE"@,
            r matches Ok(resp) ==> (!challenge_fails(
                old(self).apple_challenge.key_pem@,
                old(self).apple_challenge.ip_mac@,
                request.headers.model(),
            ) ==> {
                &&& (trivial_ok_method(request.method@) || request.method@ == "OPTIONS"@)
                    ==> resp.status is Okay
                &&& (request.method@ == "GET"@ || request.method@ == "POST"@) ==> resp.status
                    is NotFound
                &&& !known_rtsp_method(request.method@) ==> resp.status is MethodNotAllowed
                &&& request.method@ == "SETUP"@ ==> resp.status == (
                if old(self).state is New || lookup(request.headers.model(), "Transport"@)
                    is None {
                    RtspStatusCode::BadRequest
                } else {
                    RtspStatusCode::Okay
                })
                &&& request.method@ == "ANNOUNCE"@ ==> ((resp.status is BadRequest
                    <==> announce_rejected(
                    request.content@,
                    old(self).apple_challenge.key_pem@,
                )) && (resp.status is Okay || resp.status is BadRequest || resp.status
                    is InternalServerError))
            }),
    {
        proof {
            reveal_strlit("ANNOUNCE");
            reveal_strlit("SETUP");
            reveal_strlit("RECORD");
            reveal_strlit("PAUSE");
            reveal_strlit("FLUSH");
            reveal_strlit("TEARDOWN");
            reveal_strlit("OPTIONS");
            reveal_strlit("GET_PARAMETER");
            reveal_strlit("SET_PARAMETER");
            reveal_strlit("POST");
            reveal_strlit("GET");
            assert("ANNOUNCE"@.len() == 8);
            assert("TEARDOWN"@.len() == 8);
            assert("SETUP"@.len() == 5);
            assert("RECORD"@.len() == 6);
            assert("PAUSE"@.len() == 5);
            assert("FLUSH"@.len() == 5);
            assert("OPTIONS"@.len() == 7);
            assert("GET_PARAMETER"@.len() == 13);
            assert("SET_PARAMETER"@.len() == 13);
            assert("POST"@.len() == 4);
            assert("GET"@.len() == 3);
            assert("ANNOUNCE"@[0] == 'A');
            assert("TEARDOWN"@[0] == 'T');
            assert("SETUP"@[0] == 'S');
            assert("PAUSE"@[0] == 'P');
            assert("FLUSH"@[0] == 'F');
            assert("GET_PARAMETER"@[0] == 'G');
            assert("SET_PARAMETER"@[0] == 'S');
        }
        let cseq_val: Option<String> = match request.headers.get("CSeq") {
            Some(v) => Some(String::from_str(v.as_str())),
            None => None,
        };
        let challenge_val: Option<String> = match request.headers.get("Apple-Challenge") {
            Some(v) => Some(String::from_str(v.as_str())),
            None => None,
        };
        let method = &request.method;
        let mut resp: RtspResponse = if str_eq(method.as_str(), "ANNOUNCE") {
            match self.handle_announce(request) {
                Ok(resp) => resp,
                Err(e) => {
                    return Err(e);
                },
            }
        } else if str_eq(method.as_str(), "SETUP") {
            self.handle_setup(request)
        } else if str_eq(method.as_str(), "RECORD") {
            if self.state == SessionState::Setup {
                self.state = SessionState::Recording;
            }
            RtspResponse::new(RtspStatusCode::Okay)
        } else if str_eq(method.as_str(), "PAUSE") {
            RtspResponse::new(RtspStatusCode::Okay)
        } else if str_eq(method.as_str(), "FLUSH") {
            RtspResponse::new(RtspStatusCode::Okay)
        } else if str_eq(method.as_str(), "TEARDOWN") {
            self.state = SessionState::Closed;
            RtspResponse::new(RtspStatusCode::Okay)
        } else if str_eq(method.as_str(), "OPTIONS") {
            self.handle_options()
        } else if str_eq(method.as_str(), "GET_PARAMETER") {
            RtspResponse::new(RtspStatusCode::Okay)
        } else if str_eq(method.as_str(), "SET_PARAMETER") {
            RtspResponse::new(RtspStatusCode::Okay)
        } else if str_eq(method.as_str(), "POST") {
            RtspResponse::new(RtspStatusCode::NotFound)
        } else if str_eq(method.as_str(), "GET") {
            RtspResponse::new(RtspStatusCode::NotFound)
        } else {
            RtspResponse::new(RtspStatusCode::MethodNotAllowed)
        };
        let mut challenge_hdr: Option<String> = None;
        match &challenge_val {
            Some(c) => {
                match self.apple_challenge.response(c.as_str()) {
                    Ok(a) => {
                        challenge_hdr = Some(a);
                    },
                    Err(_) => {
                        resp = RtspResponse::new(RtspStatusCode::InternalServerError);
                    },
                }
            },
            None => {},
        }
        let ghost base = resp.headers.model();
        let ghost challenge_ans = (match &challenge_hdr {
            Some(a) => Some::<Seq<char>>(a@),
            None => None,
        });
        match challenge_hdr {
            Some(a) => {
                resp.headers.insert(String::from_str("Apple-Response"), a);
            },
            None => {},
        }
        let ghost h1 = resp.headers.model();
        let ghost cseq_chars = (match &cseq_val {
            Some(c) => Some::<Seq<char>>(c@),
            None => None,
        });
        match cseq_val {
            Some(c) => {
                resp.headers.insert(String::from_str("CSeq"), c);
            },
            None => {},
        }
        let ghost h2 = resp.headers.model();
        resp.headers.insert(String::from_str("Server"), String::from_str("ras/0.1"));
        proof {
            reveal_strlit("Apple-Response");
            reveal_strlit("CSeq");
            reveal_strlit("Server");
            assert("Apple-Response"@.len() == 14);
            assert("CSeq"@.len() == 4);
            assert("Server"@.len() == 6);
            lemma_lookup_insert_same(h2, "Server"@, "ras/0.1"@);
            match cseq_chars {
                Some(c) => {
                    lemma_lookup_insert_same(h1, "CSeq"@, c);
                    lemma_lookup_insert_other(h2, "Server"@, "ras/0.1"@, "CSeq"@);
                },
                None => {},
            }
            match challenge_ans {
                Some(a) => {
                    lemma_lookup_insert_same(base, "Apple-Response"@, a);
                    match cseq_chars {
                        Some(c) => {
                            lemma_lookup_insert_other(h1, "CSeq"@, c, "Apple-Response"@);
                        },
                        None => {},
                    }
                    lemma_lookup_insert_other(h2, "Server"@, "ras/0.1"@, "Apple-Response"@);
                },
                None => {},
            }
        }
        Ok(resp)
    }
}

} // verus!
