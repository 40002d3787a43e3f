//! The SDP subset that ANNOUNCE bodies use: one media section, the
//! `rtpmap` attribute for payload type 96, and the optional `fmtp`,
//! `rsaaeskey` and `aesiv` attributes.

use vstd::prelude::*;
use vstd::utf8::{valid_utf8, decode_utf8};
use crate::rtsp::{split_crlf, chars_all_digits, chars_val, parse_usize_chars};
use crate::text::bytes_to_string;

verus! {

/// A body that is not UTF-8, has other than one media section, or has no
/// usable `rtpmap` for payload type 96.
#[derive(Clone, Copy, Debug, PartialEq, Eq, Structural)]
pub enum SdpError {
    BadBody,
}

/// Splitting a character string on a separator character.
pub open spec fn split_on(s: Seq<char>, sep: char) -> Seq<Seq<char>>
    decreases s.len(),
{
    if s.len() == 0 {
        seq![Seq::empty()]
    } else if s[0] == sep {
        seq![Seq::<char>::empty()] + split_on(s.drop_first(), sep)
    } else {
        let rest = split_on(s.drop_first(), sep);
        seq![seq![s[0]] + rest[0]] + rest.drop_first()
    }
}

pub proof fn lemma_split_on_nonempty(s: Seq<char>, sep: char)
    ensures
        split_on(s, sep).len() >= 1,
    decreases s.len(),
{
    if s.len() != 0 {
        lemma_split_on_nonempty(s.drop_first(), sep);
    }
}

/// Scanning up to the first separator (or the end) takes one segment off
/// the split.
pub proof fn lemma_split_on_step(s: Seq<char>, sep: char, j: int)
    requires
        0 <= j <= s.len(),
        forall|k: int| 0 <= k < j ==> s[k] != sep,
        j == s.len() || s[j] == sep,
    ensures
        j == s.len() ==> split_on(s, sep) == seq![s],
        j < s.len() ==> split_on(s, sep) == seq![s.take(j)] + split_on(s.skip(j + 1), sep),
    decreases j,
{
    if j == 0 {
        if j == s.len() {
            assert(s =~= Seq::<char>::empty());
            assert(seq![s] =~= split_on(s, sep));
        } else {
            assert(s.take(0) =~= Seq::<char>::empty());
            assert(s.skip(1) =~= s.drop_first());
        }
    } else {
        let t = s.drop_first();
        assert(forall|k: int| 0 <= k < t.len() ==> #[trigger] t[k] == s[k + 1]);
        lemma_split_on_step(t, sep, j - 1);
        lemma_split_on_nonempty(t, sep);
        if j == s.len() {
            assert(split_on(t, sep) == seq![t]);
            assert(seq![t].drop_first() =~= Seq::<Seq<char>>::empty());
            assert(seq![s[0]] + t =~= s);
            assert(split_on(s, sep) =~= seq![s]);
        } else {
            assert(split_on(t, sep) == seq![t.take(j - 1)] + split_on(t.skip(j), sep));
            assert((seq![t.take(j - 1)] + split_on(t.skip(j), sep))[0] == t.take(j - 1));
            assert(seq![s[0]] + t.take(j - 1) =~= s.take(j));
            assert(t.skip(j) =~= s.skip(j + 1));
            assert((seq![t.take(j - 1)] + split_on(t.skip(j), sep)).drop_first() =~= split_on(
                t.skip(j),
                sep,
            ));
            assert(split_on(s, sep) =~= seq![s.take(j)] + split_on(s.skip(j + 1), sep));
        }
    }
}

/// Whether a line starts with the given prefix.
pub open spec fn starts_with(l: Seq<char>, p: Seq<char>) -> bool {
    l.len() >= p.len() && l.take(p.len() as int) == p
}

/// How many lines are media descriptions.
pub open spec fn count_media(lines: Seq<Seq<char>>) -> int
    decreases lines.len(),
{
    if lines.len() == 0 {
        0
    } else {
        (if starts_with(lines[0], "m="@) {
            1int
        } else {
            0int
        }) + count_media(lines.drop_first())
    }
}

/// The remainder of the first line that starts with the given prefix.
pub open spec fn find_attr(lines: Seq<Seq<char>>, p: Seq<char>) -> Option<Seq<char>>
    decreases lines.len(),
{
    if lines.len() == 0 {
        None
    } else if starts_with(lines[0], p) {
        Some(lines[0].skip(p.len() as int))
    } else {
        find_attr(lines.drop_first(), p)
    }
}

/// The stream description an ANNOUNCE body yields.
pub ghost struct SdpModel {
    pub codec_name: Seq<char>,
    pub clock_rate: int,
    pub encoding_parameters: Seq<char>,
    pub fmtp: Option<Seq<char>>,
    pub rsaaeskey: Option<Seq<char>>,
    pub aesiv: Option<Seq<char>>,
}

/// Parses an ANNOUNCE body: UTF-8 text with exactly one `m=` section and an
/// `a=rtpmap:96` attribute whose value is `<name>[/<clock>[/<params>]]`.
pub open spec fn parse_sdp_model(content: Seq<u8>) -> Option<SdpModel> {
    if !valid_utf8(content) {
        None
    } else {
        let lines = split_crlf(decode_utf8(content));
        if count_media(lines) != 1 {
            None
        } else {
            match find_attr(lines, "a=rtpmap:96 "@) {
                None => None,
                Some(rest) => {
                    let parts = split_on(rest, '/');
                    let clock_ok = parts.len() < 2 || (parts[1].len() > 0 && chars_all_digits(
                        parts[1],
                    ) && chars_val(parts[1]) <= u32::MAX);
                    if !clock_ok {
                        None
                    } else {
                        Some(
                            SdpModel {
                                codec_name: parts[0],
                                clock_rate: if parts.len() >= 2 {
                                    chars_val(parts[1])
                                } else {
                                    0
                                },
                                encoding_parameters: if parts.len() >= 3 {
                                    parts[2]
                                } else {
                                    Seq::empty()
                                },
                                fmtp: find_attr(lines, "a=fmtp:96 "@),
                                rsaaeskey: find_attr(lines, "a=rsaaeskey:"@),
                                aesiv: find_attr(lines, "a=aesiv:"@),
                            },
                        )
                    }
                },
            }
        }
    }
}

/// The parsed stream description.
pub struct SdpInfo {
    pub codec_name: String,
    pub clock_rate: u32,
    pub encoding_parameters: String,
    pub fmtp: Option<String>,
    pub rsaaeskey: Option<String>,
    pub aesiv: Option<String>,
}

impl SdpInfo {
    pub open spec fn model(self) -> SdpModel {
        SdpModel {
            codec_name: self.codec_name@,
            clock_rate: self.clock_rate as int,
            encoding_parameters: self.encoding_parameters@,
            fmtp: (match self.fmtp {
                Some(s) => Some(s@),
                None => None,
            }),
            rsaaeskey: (match self.rsaaeskey {
                Some(s) => Some(s@),
                None => None,
            }),
            aesiv: (match self.aesiv {
                Some(s) => Some(s@),
                None => None,
            }),
        }
    }
}

/// Whether `l` starts with `p`, and the rest of it after `p`.
fn strip_prefix_str(l: &str, p: &str) -> (r: Option<String>)
    ensures
        (match r {
            Some(rest) => starts_with(l@, p@) && rest@ == l@.skip(p@.len() as int),
            None => !starts_with(l@, p@),
        }),
{
    let ln = l.unicode_len();
    let pn = p.unicode_len();
    if ln < pn {
        return None;
    }
    let head = l.substring_char(0, pn);
    if crate::text::str_eq(head, p) {
        let rest = l.substring_char(pn, ln).to_owned();
        proof {
            assert(l@.take(p@.len() as int) =~= l@.subrange(0, pn as int));
            assert(rest@ =~= l@.skip(p@.len() as int));
        }
        Some(rest)
    } else {
        proof {
            assert(l@.take(p@.len() as int) =~= l@.subrange(0, pn as int));
        }
        None
    }
}

/// The remainder of the first line with the given prefix.
fn find_attr_lines(lines: &Vec<String>, p: &str) -> (r: Option<String>)
    ensures
        (match r {
            Some(rest) => find_attr(lines@.map_values(|l: String| l@), p@) == Some(rest@),
            None => find_attr(lines@.map_values(|l: String| l@), p@) is None,
        }),
{
    let ghost lm = lines@.map_values(|l: String| l@);
    let mut i: usize = 0;
    proof {
        assert(lm.skip(0) =~= lm);
    }
    while i < lines.len()
        invariant
            i <= lines@.len(),
            lm == lines@.map_values(|l: String| l@),
            find_attr(lm, p@) == find_attr(lm.skip(i as int), p@),
            forall|k: int| 0 <= k < i ==> !starts_with(#[trigger] lm[k], p@),
        decreases lines@.len() - i,
    {
        proof {
            assert(lm.skip(i as int)[0] == lm[i as int]);
            assert(lm.skip(i as int).drop_first() =~= lm.skip(i + 1));
        }
        match strip_prefix_str(lines[i].as_str(), p) {
            Some(rest) => {
                return Some(rest);
            },
            None => {},
        }
        i = i + 1;
    }
    proof {
        assert(lm.skip(i as int) =~= Seq::<Seq<char>>::empty());
    }
    None
}

/// How many lines open a media section.
fn count_media_lines(lines: &Vec<String>) -> (r: usize)
    ensures
        r == count_media(lines@.map_values(|l: String| l@)),
        r <= lines@.len(),
{
    let ghost lm = lines@.map_values(|l: String| l@);
    let mut n: usize = 0;
    let mut i: usize = 0;
    proof {
        assert(lm.skip(0) =~= lm);
    }
    while i < lines.len()
        invariant
            i <= lines@.len(),
            n <= i,
            lm == lines@.map_values(|l: String| l@),
            count_media(lm) == n + count_media(lm.skip(i as int)),
        decreases lines@.len() - i,
    {
        proof {
            assert(lm.skip(i as int)[0] == lm[i as int]);
            assert(lm.skip(i as int).drop_first() =~= lm.skip(i + 1));
        }
        match strip_prefix_str(lines[i].as_str(), "m=") {
            Some(_) => {
                n = n + 1;
            },
            None => {},
        }
        i = i + 1;
    }
    proof {
        assert(lm.skip(i as int) =~= Seq::<Seq<char>>::empty());
    }
    n
}

/// Splits a string on a separator character.
fn split_on_char(s: &str, sep: char) -> (r: Vec<String>)
    ensures
        r@.map_values(|l: String| l@) == split_on(s@, sep),
        r@.len() >= 1,
{
    let n = s.unicode_len();
    let mut toks: Vec<String> = Vec::new();
    let mut seg_start: usize = 0;
    let mut i: usize = 0;
    proof {
        assert(s@.skip(0) =~= s@);
        assert(toks@.map_values(|l: String| l@) + split_on(s@, sep) =~= split_on(s@, sep));
    }
    while i < n
        invariant
            seg_start <= i <= n,
            n == s@.len(),
            forall|k: int| seg_start <= k < i ==> s@[k] != sep,
            split_on(s@, sep) == toks@.map_values(|l: String| l@) + split_on(
                s@.skip(seg_start as int),
                sep,
            ),
        decreases n - i,
    {
        let ch = s.get_char(i);
        if ch == sep {
            let seg = s.substring_char(seg_start, i).to_owned();
            let ghost acc = toks@.map_values(|l: String| l@);
            toks.push(seg);
            proof {
                let u = s@.skip(seg_start as int);
                let j = i - seg_start;
                assert(forall|k: int|
                    0 <= k < u.len() ==> #[trigger] u[k] == s@[k + seg_start]);
                lemma_split_on_step(u, sep, j as int);
                assert(u.take(j as int) =~= s@.subrange(seg_start as int, i as int));
                assert(u.skip(j + 1) =~= s@.skip(i + 1));
                assert(seg@ == u.take(j as int));
                assert(toks@.map_values(|l: String| l@) =~= acc + seq![seg@]);
                assert((acc + (seq![seg@] + split_on(s@.skip(i + 1), sep))) =~= (
                toks@.map_values(|l: String| l@) + split_on(s@.skip(i + 1), sep)));
            }
            seg_start = i + 1;
        }
        i = i + 1;
    }
    let seg = s.substring_char(seg_start, n).to_owned();
    let ghost acc = toks@.map_values(|l: String| l@);
    toks.push(seg);
    proof {
        let u = s@.skip(seg_start as int);
        let j = n - seg_start;
        assert(forall|k: int| 0 <= k < u.len() ==> #[trigger] u[k] == s@[k + seg_start]);
        lemma_split_on_step(u, sep, j as int);
        assert(u =~= s@.subrange(seg_start as int, n as int));
        assert(seg@ == u);
        assert(toks@.map_values(|l: String| l@) =~= acc + seq![seg@]);
        assert((acc + seq![seg@]) =~= (acc + split_on(u, sep)));
    }
    toks
}

/// Parses an ANNOUNCE body.
pub fn parse_sdp(content: &Vec<u8>) -> (r: Result<SdpInfo, SdpError>)
    ensures
        r matches Ok(info) ==> parse_sdp_model(content@) == Some(info.model()),
        r is Err ==> parse_sdp_model(content@) is None,
{
    let mut bytes: Vec<u8> = Vec::new();
    let mut i: usize = 0;
    while i < content.len()
        invariant
            i <= content@.len(),
            bytes@ == content@.subrange(0, i as int),
        decreases content@.len() - i,
    {
        bytes.push(content[i]);
        proof {
            assert(bytes@ =~= content@.subrange(0, i + 1));
        }
        i = i + 1;
    }
    proof {
        assert(bytes@ =~= content@);
    }
    let text = match bytes_to_string(bytes) {
        Some(s) => s,
        None => {
            return Err(SdpError::BadBody);
        },
    };
    let lines = crate::rtsp::split_lines(text.as_str());
    if count_media_lines(&lines) != 1 {
        return Err(SdpError::BadBody);
    }
    let rest = match find_attr_lines(&lines, "a=rtpmap:96 ") {
        Some(v) => v,
        None => {
            return Err(SdpError::BadBody);
        },
    };
    let parts = split_on_char(rest.as_str(), '/');
    let ghost pm = parts@.map_values(|l: String| l@);
    let clock_rate: u32 = if parts.len() >= 2 {
        proof {
            assert(pm[1] == parts@[1]@);
        }
        match parse_usize_chars(parts[1].as_str()) {
            Some(v) => {
                if v <= 0xffff_ffff {
                    v as u32
                } else {
                    return Err(SdpError::BadBody);
                }
            },
            None => {
                return Err(SdpError::BadBody);
            },
        }
    } else {
        0
    };
    let codec_name = String::from_str(parts[0].as_str());
    let encoding_parameters = if parts.len() >= 3 {
        String::from_str(parts[2].as_str())
    } else {
        String::new()
    };
    let fmtp = find_attr_lines(&lines, "a=fmtp:96 ");
    let rsaaeskey = find_attr_lines(&lines, "a=rsaaeskey:");
    let aesiv = find_attr_lines(&lines, "a=aesiv:");
    let info = SdpInfo { codec_name, clock_rate, encoding_parameters, fmtp, rsaaeskey, aesiv };
    proof {
        assert(pm[0] == parts@[0]@);
        if pm.len() >= 3 {
            assert(pm[2] == parts@[2]@);
        }
        assert(encoding_parameters@ =~= (if pm.len() >= 3 {
            pm[2]
        } else {
            Seq::<char>::empty()
        }));
    }
    Ok(info)
}

} // verus!
