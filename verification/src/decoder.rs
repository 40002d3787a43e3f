//! The audio decoders: the ALAC decoder behind the outside codec, built
//! from the SDP `fmtp` parameters, and the raw clear-PCM pass-through.

use vstd::prelude::*;
use symphonia::default::codecs::AlacDecoder;
use crate::sink::AudioFormat;
use crate::stream::{be32_at, enc16, enc32, WriteStream};
use crate::rtsp::{split_sp, split_spaces, chars_all_digits, chars_val, parse_usize_chars};

verus! {

/// Bad `fmtp` parameters, or a frame the codec refuses.
#[derive(Clone, Copy, Debug, PartialEq, Eq, Structural)]
pub enum DecodeError {
    BadParams,
    BadFrame,
}

/// A decoder turns one compressed frame into interleaved PCM bytes.
pub trait Decoder: Sized {
    spec fn decode_wf(&self) -> bool;

    spec fn spec_channels(&self) -> u8;

    spec fn spec_rate(&self) -> u32;

    spec fn spec_format(&self) -> AudioFormat;

    fn channels(&self) -> (r: u8)
        ensures
            r == self.spec_channels(),
    ;

    fn rate(&self) -> (r: u32)
        ensures
            r == self.spec_rate(),
    ;

    fn format(&self) -> (r: AudioFormat)
        ensures
            r == self.spec_format(),
    ;

    fn decode(&mut self, raw: &Vec<u8>) -> (r: Result<Vec<u8>, DecodeError>)
        requires
            old(self).decode_wf(),
        ensures
            *final(self) == *old(self),
    ;
}

/// What symphonia's ALAC codec makes of a 24-byte magic cookie: acceptance
/// is a function of the cookie bytes alone.
pub uninterp spec fn alac_accepts(cookie: Seq<u8>) -> bool;

/// Relies on symphonia's `AlacDecoder::try_new`: whether a magic cookie is
/// accepted depends only on its bytes.
#[verifier::external_body]
fn alac_cookie_check(cookie: &Vec<u8>) -> (r: bool)
    ensures
        r == alac_accepts(cookie@),
{
    let params = symphonia::core::codecs::CodecParameters::new().for_codec(
        symphonia::core::codecs::CODEC_TYPE_ALAC,
    ).with_extra_data(cookie.clone().into()).clone();
    <AlacDecoder as symphonia::core::codecs::Decoder>::try_new(&params, &Default::default()).is_ok()
}

/// The 32-bit sample count of a partial frame, read big-endian from bit 23
/// of the element.
pub open spec fn alac_partial_count(raw: Seq<u8>) -> int {
    ((raw[2] as int) % 2) * 0x80000000 + (raw[3] as int) * 0x800000 + (raw[4] as int) * 0x8000
        + (raw[5] as int) * 0x80 + (raw[6] as int) / 2
}

/// The frames the decoder hands to the codec.  The codec slices its sample
/// planes by a length read from the bitstream; this guard admits only
/// frames whose first element is the single element covering every channel
/// and whose sample count stays within the plane and above the largest
/// predictor order, so those slices stay in range.  A frame shorter than
/// the count field fails inside the codec's reader before any slicing.
pub open spec fn alac_frame_safe(channels: int, frame_length: int, raw: Seq<u8>) -> bool {
    if raw.len() < 7 {
        true
    } else {
        let tag = (raw[0] as int) / 32;
        if tag == 7 || tag == 2 || tag == 5 {
            true
        } else if (channels == 1 && (tag == 0 || tag == 3)) || (channels == 2 && tag == 1) {
            let partial = ((raw[2] as int) / 16) % 2;
            partial == 0 || (32 <= alac_partial_count(raw) && alac_partial_count(raw)
                <= frame_length)
        } else if channels == 1 && tag == 1 {
            true
        } else {
            false
        }
    }
}

/// Whether a frame passes the guard.
pub fn alac_frame_safe_check(channels: u8, frame_length: u32, raw: &Vec<u8>) -> (r: bool)
    ensures
        r == alac_frame_safe(channels as int, frame_length as int, raw@),
{
    if raw.len() < 7 {
        return true;
    }
    let tag = raw[0] / 32;
    if tag == 7 || tag == 2 || tag == 5 {
        return true;
    }
    let element_matches = (channels == 1 && (tag == 0 || tag == 3)) || (channels == 2 && tag
        == 1);
    if element_matches {
        let partial = (raw[2] / 16) % 2;
        if partial == 0 {
            return true;
        }
        let count: u64 = ((raw[2] % 2) as u64) * 0x80000000 + (raw[3] as u64) * 0x800000 + (
        raw[4] as u64) * 0x8000 + (raw[5] as u64) * 0x80 + (raw[6] / 2) as u64;
        return 32 <= count && count <= frame_length as u64;
    }
    if channels == 1 && tag == 1 {
        return true;
    }
    false
}

/// Relies on symphonia's `AlacDecoder::try_new` and `decode` with
/// `RawSampleBuffer::copy_interleaved_ref`: one compressed frame becomes
/// interleaved signed 16-bit native-endian samples.  The decoder is rebuilt
/// from the cookie for each frame, so the call is a function of the cookie
/// and the frame alone; `requires` makes the rebuild infallible (the cookie
/// is accepted) and keeps the codec's slice indices and fixed-point
/// arithmetic in range on every admitted frame.
#[verifier::external_body]
fn alac_decode_frame(cookie: &Vec<u8>, raw: &Vec<u8>) -> (r: Result<Vec<u8>, DecodeError>)
    requires
        alac_accepts(cookie@),
        cookie@.len() == 24,
        1 <= cookie@[5] <= 30,
        cookie@[6] <= 64,
        1 <= cookie@[9] <= 2,
        be32_at(cookie@, 0) >= 32,
        alac_frame_safe(cookie@[9] as int, be32_at(cookie@, 0), raw@),
{
    let params = symphonia::core::codecs::CodecParameters::new().for_codec(
        symphonia::core::codecs::CODEC_TYPE_ALAC,
    ).with_extra_data(cookie.clone().into()).clone();
    let mut decoder = <AlacDecoder as symphonia::core::codecs::Decoder>::try_new(
        &params,
        &Default::default(),
    ).unwrap();
    let packet = symphonia::core::formats::Packet::new_from_slice(0, 0, 0, raw);
    let got = symphonia::core::codecs::Decoder::decode(&mut decoder, &packet);
    let decoded = match got { Ok(d) => d, _ => return Err(DecodeError::BadFrame) };
    let mut buf = symphonia::core::audio::RawSampleBuffer::<i16>::new(decoded.capacity() as u64, *decoded.spec());
    buf.copy_interleaved_ref(decoded);
    Ok(buf.as_bytes().to_vec())
}

/// One numeric `fmtp` field, bounded by the width of its cookie slot.
pub open spec fn fmtp_field(toks: Seq<Seq<char>>, i: int, max: int) -> Option<int> {
    let t = toks[i];
    if t.len() > 0 && chars_all_digits(t) && chars_val(t) <= max {
        Some(chars_val(t))
    } else {
        None
    }
}

/// The 24-byte ALAC magic cookie assembled from the eleven space-separated
/// `fmtp` fields: frame length, compatible version, bit depth, pb, mb, kb,
/// channel count, max run, max frame bytes, average bit rate, sample rate.
pub open spec fn fmtp_cookie(s: Seq<char>) -> Option<Seq<u8>> {
    let toks = split_sp(s);
    if toks.len() < 11 {
        None
    } else {
        let f0 = fmtp_field(toks, 0, 0xffffffff);
        let f1 = fmtp_field(toks, 1, 0xff);
        let f2 = fmtp_field(toks, 2, 0xff);
        let f3 = fmtp_field(toks, 3, 0xff);
        let f4 = fmtp_field(toks, 4, 0xff);
        let f5 = fmtp_field(toks, 5, 0xff);
        let f6 = fmtp_field(toks, 6, 0xff);
        let f7 = fmtp_field(toks, 7, 0xffff);
        let f8 = fmtp_field(toks, 8, 0xffffffff);
        let f9 = fmtp_field(toks, 9, 0xffffffff);
        let f10 = fmtp_field(toks, 10, 0xffffffff);
        if f0 is None || f1 is None || f2 is None || f3 is None || f4 is None || f5 is None
            || f6 is None || f7 is None || f8 is None || f9 is None || f10 is None {
            None
        } else {
            Some(
                enc32(f0.unwrap() as u32) + seq![
                    f1.unwrap() as u8,
                    f2.unwrap() as u8,
                    f3.unwrap() as u8,
                    f4.unwrap() as u8,
                    f5.unwrap() as u8,
                    f6.unwrap() as u8,
                ] + enc16(f7.unwrap() as u16) + enc32(f8.unwrap() as u32) + enc32(
                    f9.unwrap() as u32,
                ) + enc32(f10.unwrap() as u32),
            )
        }
    }
}

/// Builds the magic cookie from an `fmtp` attribute value.
pub fn fmtp_to_magic_cookie(fmtp: &str) -> (r: Result<Vec<u8>, DecodeError>)
    ensures
        r matches Ok(c) ==> fmtp_cookie(fmtp@) == Some(c@),
        r is Err ==> fmtp_cookie(fmtp@) is None,
{
    let toks = split_spaces(fmtp);
    if toks.len() < 11 {
        return Err(DecodeError::BadParams);
    }
    let ghost tv = toks@.map_values(|l: String| l@);
    let f0 = match field_u32(&toks, 0) {
        Some(v) => v,
        None => {
            return Err(DecodeError::BadParams);
        },
    };
    let f1 = match field_u8(&toks, 1) {
        Some(v) => v,
        None => {
            return Err(DecodeError::BadParams);
        },
    };
    let f2 = match field_u8(&toks, 2) {
        Some(v) => v,
        None => {
            return Err(DecodeError::BadParams);
        },
    };
    let f3 = match field_u8(&toks, 3) {
        Some(v) => v,
        None => {
            return Err(DecodeError::BadParams);
        },
    };
    let f4 = match field_u8(&toks, 4) {
        Some(v) => v,
        None => {
            return Err(DecodeError::BadParams);
        },
    };
    let f5 = match field_u8(&toks, 5) {
        Some(v) => v,
        None => {
            return Err(DecodeError::BadParams);
        },
    };
    let f6 = match field_u8(&toks, 6) {
        Some(v) => v,
        None => {
            return Err(DecodeError::BadParams);
        },
    };
    let f7 = match field_u16(&toks, 7) {
        Some(v) => v,
        None => {
            return Err(DecodeError::BadParams);
        },
    };
    let f8 = match field_u32(&toks, 8) {
        Some(v) => v,
        None => {
            return Err(DecodeError::BadParams);
        },
    };
    let f9 = match field_u32(&toks, 9) {
        Some(v) => v,
        None => {
            return Err(DecodeError::BadParams);
        },
    };
    let f10 = match field_u32(&toks, 10) {
        Some(v) => v,
        None => {
            return Err(DecodeError::BadParams);
        },
    };
    let mut out = WriteStream::new();
    out.write_u32(f0);
    out.write_u8(f1);
    out.write_u8(f2);
    out.write_u8(f3);
    out.write_u8(f4);
    out.write_u8(f5);
    out.write_u8(f6);
    out.write_u16(f7);
    out.write_u32(f8);
    out.write_u32(f9);
    out.write_u32(f10);
    proof {
        assert(fmtp_cookie(fmtp@) matches Some(c) && c =~= out.buffer@);
    }
    Ok(out.buffer)
}

/// One numeric token, fitting a byte.
fn field_u8(toks: &Vec<String>, i: usize) -> (r: Option<u8>)
    requires
        i < toks@.len(),
    ensures
        (match r {
            Some(v) => fmtp_field(toks@.map_values(|l: String| l@), i as int, 0xff) == Some(
                v as int,
            ),
            None => fmtp_field(toks@.map_values(|l: String| l@), i as int, 0xff) is None,
        }),
{
    match parse_usize_chars(toks[i].as_str()) {
        Some(v) => {
            if v <= 0xff {
                Some(v as u8)
            } else {
                None
            }
        },
        None => None,
    }
}

/// One numeric token, fitting sixteen bits.
fn field_u16(toks: &Vec<String>, i: usize) -> (r: Option<u16>)
    requires
        i < toks@.len(),
    ensures
        (match r {
            Some(v) => fmtp_field(toks@.map_values(|l: String| l@), i as int, 0xffff) == Some(
                v as int,
            ),
            None => fmtp_field(toks@.map_values(|l: String| l@), i as int, 0xffff) is None,
        }),
{
    match parse_usize_chars(toks[i].as_str()) {
        Some(v) => {
            if v <= 0xffff {
                Some(v as u16)
            } else {
                None
            }
        },
        None => None,
    }
}

/// One numeric token, fitting thirty-two bits.
fn field_u32(toks: &Vec<String>, i: usize) -> (r: Option<u32>)
    requires
        i < toks@.len(),
    ensures
        (match r {
            Some(v) => fmtp_field(toks@.map_values(|l: String| l@), i as int, 0xffffffff)
                == Some(v as int),
            None => fmtp_field(toks@.map_values(|l: String| l@), i as int, 0xffffffff) is None,
        }),
{
    match parse_usize_chars(toks[i].as_str()) {
        Some(v) => {
            if v <= 0xffffffff {
                Some(v as u32)
            } else {
                None
            }
        },
        None => None,
    }
}

/// The eleven `fmtp` integers of an accepted ALAC stream, for the fields
/// the session reads back: the channel count and the sample rate.
pub open spec fn fmtp_channels(s: Seq<char>) -> int {
    fmtp_field(split_sp(s), 6, 0xff).unwrap()
}

pub open spec fn fmtp_rate(s: Seq<char>) -> int {
    fmtp_field(split_sp(s), 10, 0xffffffff).unwrap()
}

/// The ALAC decoder: the outside codec plus the stream shape read from the
/// magic cookie.
/// The bounds the decoder imposes on the cookie fields beyond symphonia's
/// own validation, so that the codec's slice indices and fixed-point
/// arithmetic stay in range on every frame: a frame at least one predictor
/// order long, a bit depth below 31, a conventional rice modifier, and a
/// mono or stereo layout.
pub open spec fn fmtp_bounds_ok(s: Seq<char>) -> bool {
    let toks = split_sp(s);
    &&& (match fmtp_field(toks, 0, 0xffffffff) {
        Some(fl) => fl >= 32,
        None => false,
    })
    &&& (match fmtp_field(toks, 2, 0xff) {
        Some(bd) => 1 <= bd <= 30,
        None => false,
    })
    &&& (match fmtp_field(toks, 3, 0xff) {
        Some(pb) => pb <= 64,
        None => false,
    })
    &&& (match fmtp_field(toks, 6, 0xff) {
        Some(ch) => 1 <= ch <= 2,
        None => false,
    })
}

/// When an `fmtp` attribute yields a working ALAC decoder: its cookie
/// assembles, the bounds hold, and the codec accepts it.
pub open spec fn fmtp_decoder_ok(s: Seq<char>) -> bool {
    &&& fmtp_cookie(s) is Some
    &&& fmtp_bounds_ok(s)
    &&& alac_accepts(fmtp_cookie(s).unwrap())
}

/// The ALAC decoder: the magic cookie plus the stream shape read from it.
pub struct AppleLoselessDecoder {
    pub cookie: Vec<u8>,
    pub channels: u8,
    pub sample_rate: u32,
    pub frame_length: u32,
}

impl AppleLoselessDecoder {
    /// The cookie is accepted, within the decoder's bounds, and agrees with
    /// the shape fields.
    pub open spec fn wf(self) -> bool {
        &&& alac_accepts(self.cookie@)
        &&& self.cookie@.len() == 24
        &&& 1 <= self.cookie@[5] <= 30
        &&& self.cookie@[6] <= 64
        &&& self.cookie@[9] == self.channels
        &&& 1 <= self.channels <= 2
        &&& be32_at(self.cookie@, 0) == self.frame_length
        &&& self.frame_length >= 32
    }

    /// Builds the decoder from the `fmtp` attribute of the SDP body;
    /// succeeds exactly when the attribute yields a working decoder.
    pub fn new(fmtp: &str) -> (r: Result<AppleLoselessDecoder, DecodeError>)
        ensures
            r matches Ok(d) ==> fmtp_decoder_ok(fmtp@) && d.wf() && d.channels == fmtp_channels(
                fmtp@,
            ) && d.sample_rate == fmtp_rate(fmtp@),
            r is Err ==> !fmtp_decoder_ok(fmtp@),
    {
        let cookie = match fmtp_to_magic_cookie(fmtp) {
            Ok(c) => c,
            Err(_) => {
                return Err(DecodeError::BadParams);
            },
        };
        let toks = split_spaces(fmtp);
        let frame_length = match field_u32(&toks, 0) {
            Some(v) => v,
            None => {
                return Err(DecodeError::BadParams);
            },
        };
        let bit_depth = match field_u8(&toks, 2) {
            Some(v) => v,
            None => {
                return Err(DecodeError::BadParams);
            },
        };
        let pb = match field_u8(&toks, 3) {
            Some(v) => v,
            None => {
                return Err(DecodeError::BadParams);
            },
        };
        let channels = match field_u8(&toks, 6) {
            Some(v) => v,
            None => {
                return Err(DecodeError::BadParams);
            },
        };
        let sample_rate = match field_u32(&toks, 10) {
            Some(v) => v,
            None => {
                return Err(DecodeError::BadParams);
            },
        };
        if frame_length < 32 || bit_depth < 1 || bit_depth > 30 || pb > 64 || channels < 1
            || channels > 2 {
            return Err(DecodeError::BadParams);
        }
        if !alac_cookie_check(&cookie) {
            return Err(DecodeError::BadParams);
        }
        proof {
            let c = fmtp_cookie(fmtp@).unwrap();
            assert(c == cookie@);
            assert(c.subrange(0, 4) =~= crate::stream::enc32(frame_length));
            crate::stream::lemma_enc32_value(frame_length, c, 0);
            assert(c[5] == bit_depth);
            assert(c[6] == pb);
            assert(c[9] == channels);
        }
        Ok(AppleLoselessDecoder { cookie, channels, sample_rate, frame_length })
    }

    /// Decodes one frame: frames failing the slice-bounds guard are dropped
    /// as bad frames; the rest go to the codec.
    pub fn decode_frame(&self, raw: &Vec<u8>) -> (r: Result<Vec<u8>, DecodeError>)
        requires
            self.wf(),
        ensures
            !alac_frame_safe(self.channels as int, self.frame_length as int, raw@) ==> r
                is Err,
    {
        if !alac_frame_safe_check(self.channels, self.frame_length, raw) {
            return Err(DecodeError::BadFrame);
        }
        alac_decode_frame(&self.cookie, raw)
    }
}

impl Decoder for AppleLoselessDecoder {
    open spec fn decode_wf(&self) -> bool {
        self.wf()
    }

    open spec fn spec_channels(&self) -> u8 {
        self.channels
    }

    open spec fn spec_rate(&self) -> u32 {
        self.sample_rate
    }

    open spec fn spec_format(&self) -> AudioFormat {
        AudioFormat::S16NE
    }

    fn channels(&self) -> (r: u8) {
        self.channels
    }

    fn rate(&self) -> (r: u32) {
        self.sample_rate
    }

    fn format(&self) -> (r: AudioFormat) {
        AudioFormat::S16NE
    }

    fn decode(&mut self, raw: &Vec<u8>) -> (r: Result<Vec<u8>, DecodeError>) {
        self.decode_frame(raw)
    }
}

/// The clear-PCM decoder: decoding is the identity.
pub struct RawPCMDecoder {
    pub format: AudioFormat,
    pub channels: u8,
    pub rate: u32,
}

impl RawPCMDecoder {
    pub fn new(format: AudioFormat, channels: u8, rate: u32) -> (r: Result<
        RawPCMDecoder,
        DecodeError,
    >)
        ensures
            r matches Ok(d) && d.format == format && d.channels == channels && d.rate == rate,
    {
        Ok(RawPCMDecoder { format, channels, rate })
    }

    /// Decoding clear PCM is the identity on the payload.
    pub fn decode_bytes(&self, raw: &Vec<u8>) -> (r: Vec<u8>)
        ensures
            r@ == raw@,
    {
        let mut out: Vec<u8> = Vec::new();
        let mut i: usize = 0;
        while i < raw.len()
            invariant
                i <= raw@.len(),
                out@ == raw@.subrange(0, i as int),
            decreases raw@.len() - i,
        {
            out.push(raw[i]);
            proof {
                assert(out@ =~= raw@.subrange(0, i + 1));
            }
            i = i + 1;
        }
        proof {
            assert(out@ =~= raw@);
        }
        out
    }
}

impl Decoder for RawPCMDecoder {
    open spec fn decode_wf(&self) -> bool {
        true
    }

    open spec fn spec_channels(&self) -> u8 {
        self.channels
    }

    open spec fn spec_rate(&self) -> u32 {
        self.rate
    }

    open spec fn spec_format(&self) -> AudioFormat {
        self.format
    }

    fn channels(&self) -> (r: u8) {
        self.channels
    }

    fn rate(&self) -> (r: u32) {
        self.rate
    }

    fn format(&self) -> (r: AudioFormat) {
        self.format
    }

    fn decode(&mut self, raw: &Vec<u8>) -> (r: Result<Vec<u8>, DecodeError>) {
        Ok(self.decode_bytes(raw))
    }
}

} // verus!
