//! The RTSP/1.0 control-channel codec: frame-at-a-time request decoding and
//! response encoding over a byte stream.

use vstd::prelude::*;
use vstd::utf8::{valid_utf8, decode_utf8, encode_utf8};
use crate::stream::WriteStream;
use crate::text::{bytes_to_string, str_eq, dec_bytes, format_u64};

verus! {

/// A decoding failure that closes the connection.
#[derive(Clone, Copy, Debug, PartialEq, Eq, Structural)]
pub enum RtspError {
    BadFrame,
}

/// The response status codes this server sends.
#[derive(Clone, Copy, Debug, PartialEq, Eq, Structural)]
pub enum RtspStatusCode {
    Okay,
    BadRequest,
    NotFound,
    MethodNotAllowed,
    InternalServerError,
}

impl RtspStatusCode {
    pub open spec fn spec_code(self) -> u16 {
        match self {
            RtspStatusCode::Okay => 200,
            RtspStatusCode::BadRequest => 400,
            RtspStatusCode::NotFound => 404,
            RtspStatusCode::MethodNotAllowed => 405,
            RtspStatusCode::InternalServerError => 500,
        }
    }

    pub fn code(&self) -> (r: u16)
        ensures
            r == self.spec_code(),
    {
        match self {
            RtspStatusCode::Okay => 200,
            RtspStatusCode::BadRequest => 400,
            RtspStatusCode::NotFound => 404,
            RtspStatusCode::MethodNotAllowed => 405,
            RtspStatusCode::InternalServerError => 500,
        }
    }

    pub open spec fn spec_reason(self) -> Seq<char> {
        match self {
            RtspStatusCode::Okay => "OK"@,
            RtspStatusCode::BadRequest => "Bad Request"@,
            RtspStatusCode::NotFound => "Not Found"@,
            RtspStatusCode::MethodNotAllowed => "Method Not Allowed"@,
            RtspStatusCode::InternalServerError => "Internal Server Error"@,
        }
    }

    pub fn as_string(&self) -> (r: &'static str)
        ensures
            r@ == self.spec_reason(),
    {
        match self {
            RtspStatusCode::Okay => "OK",
            RtspStatusCode::BadRequest => "Bad Request",
            RtspStatusCode::NotFound => "Not Found",
            RtspStatusCode::MethodNotAllowed => "Method Not Allowed",
            RtspStatusCode::InternalServerError => "Internal Server Error",
        }
    }
}

/// Looks a key up in an ordered header list: the first matching entry wins.
pub open spec fn lookup(hs: Seq<(Seq<char>, Seq<char>)>, k: Seq<char>) -> Option<Seq<char>>
    decreases hs.len(),
{
    if hs.len() == 0 {
        None
    } else if hs[0].0 == k {
        Some(hs[0].1)
    } else {
        lookup(hs.drop_first(), k)
    }
}

/// Inserts a pair, replacing the first entry with the same key or appending
/// at the end.
pub open spec fn insert_pair(
    hs: Seq<(Seq<char>, Seq<char>)>,
    k: Seq<char>,
    v: Seq<char>,
) -> Seq<(Seq<char>, Seq<char>)>
    decreases hs.len(),
{
    if hs.len() == 0 {
        seq![(k, v)]
    } else if hs[0].0 == k {
        seq![(k, v)] + hs.drop_first()
    } else {
        seq![hs[0]] + insert_pair(hs.drop_first(), k, v)
    }
}

/// An ordered map of header fields; keys are kept exactly as received.
pub struct HeaderMap {
    pub entries: Vec<(String, String)>,
}

impl HeaderMap {
    pub open spec fn model(self) -> Seq<(Seq<char>, Seq<char>)> {
        self.entries@.map_values(|p: (String, String)| (p.0@, p.1@))
    }

    pub fn new() -> (r: HeaderMap)
        ensures
            r.model() == Seq::<(Seq<char>, Seq<char>)>::empty(),
    {
        let r = HeaderMap { entries: Vec::new() };
        proof {
            assert(r.model() =~= Seq::<(Seq<char>, Seq<char>)>::empty());
        }
        r
    }

    pub fn get(&self, key: &str) -> (r: Option<&String>)
        ensures
            (match r {
                Some(v) => lookup(self.model(), key@) == Some(v@),
                None => lookup(self.model(), key@) is None,
            }),
    {
        let mut i: usize = 0;
        proof {
            assert(self.model().skip(0) =~= self.model());
        }
        while i < self.entries.len()
            invariant
                i <= self.entries@.len(),
                lookup(self.model(), key@) == lookup(
                    self.model().skip(i as int),
                    key@,
                ),
                forall|k: int| 0 <= k < i ==> (#[trigger] self.model()[k]).0 != key@,
            decreases self.entries@.len() - i,
        {
            if str_eq(self.entries[i].0.as_str(), key) {
                proof {
                    assert(self.model().skip(i as int)[0] == self.model()[i as int]);
                }
                return Some(&self.entries[i].1);
            }
            proof {
                assert(self.model().skip(i as int)[0] == self.model()[i as int]);
                assert(self.model().skip(i as int).drop_first() =~= self.model().skip(
                    i + 1,
                ));
            }
            i = i + 1;
        }
        proof {
            assert(self.model().skip(i as int) =~= Seq::<(Seq<char>, Seq<char>)>::empty());
        }
        None
    }

    pub fn insert(&mut self, key: String, value: String)
        ensures
            final(self).model() == insert_pair(old(self).model(), key@, value@),
    {
        let ghost hs = self.model();
        let mut i: usize = 0;
        while i < self.entries.len()
            invariant
                i <= self.entries@.len(),
                hs == old(self).model(),
                hs == self.model(),
                forall|k: int| 0 <= k < i ==> (#[trigger] hs[k]).0 != key@,
            decreases self.entries@.len() - i,
        {
            if str_eq(self.entries[i].0.as_str(), key.as_str()) {
                self.entries.remove(i);
                self.entries.insert(i, (key, value));
                proof {
                    lemma_insert_pair_replace(hs, key@, value@, i as int);
                    assert(self.model() =~= insert_pair(hs, key@, value@));
                }
                return ;
            }
            i = i + 1;
        }
        self.entries.push((key, value));
        proof {
            lemma_insert_pair_append(hs, key@, value@);
            assert(self.model() =~= insert_pair(hs, key@, value@));
        }
    }
}

/// When the first match sits at `i`, inserting replaces exactly that entry.
proof fn lemma_insert_pair_replace(
    hs: Seq<(Seq<char>, Seq<char>)>,
    k: Seq<char>,
    v: Seq<char>,
    i: int,
)
    requires
        0 <= i < hs.len(),
        hs[i].0 == k,
        forall|j: int| 0 <= j < i ==> (#[trigger] hs[j]).0 != k,
    ensures
        insert_pair(hs, k, v) == hs.update(i, (k, v)),
    decreases i,
{
    if i == 0 {
        assert(insert_pair(hs, k, v) == seq![(k, v)] + hs.drop_first());
        assert(seq![(k, v)] + hs.drop_first() =~= hs.update(0, (k, v)));
    } else {
        assert(forall|j: int|
            0 <= j < i - 1 ==> (#[trigger] hs.drop_first()[j]).0 == hs[j + 1].0);
        lemma_insert_pair_replace(hs.drop_first(), k, v, i - 1);
        assert(insert_pair(hs, k, v) == seq![hs[0]] + hs.drop_first().update(i - 1, (k, v)));
        assert(seq![hs[0]] + hs.drop_first().update(i - 1, (k, v)) =~= hs.update(i, (k, v)));
    }
}

/// With no matching key, inserting appends at the end.
proof fn lemma_insert_pair_append(hs: Seq<(Seq<char>, Seq<char>)>, k: Seq<char>, v: Seq<char>)
    requires
        forall|j: int| 0 <= j < hs.len() ==> (#[trigger] hs[j]).0 != k,
    ensures
        insert_pair(hs, k, v) == hs.push((k, v)),
    decreases hs.len(),
{
    if hs.len() == 0 {
        assert(insert_pair(hs, k, v) =~= hs.push((k, v)));
    } else {
        assert(forall|j: int|
            0 <= j < hs.len() - 1 ==> (#[trigger] hs.drop_first()[j]).0 == hs[j + 1].0);
        lemma_insert_pair_append(hs.drop_first(), k, v);
        assert(insert_pair(hs, k, v) == seq![hs[0]] + hs.drop_first().push((k, v)));
        assert(seq![hs[0]] + hs.drop_first().push((k, v)) =~= hs.push((k, v)));
    }
}

/// A parsed RTSP request.
pub struct RtspRequest {
    pub method: String,
    pub path: String,
    pub headers: HeaderMap,
    pub content: Vec<u8>,
}

/// A response: a status and headers; responses in this system carry no body.
pub struct RtspResponse {
    pub status: RtspStatusCode,
    pub headers: HeaderMap,
}

impl RtspResponse {
    pub fn new(status: RtspStatusCode) -> (r: RtspResponse)
        ensures
            r.status == status,
            r.headers.model() == Seq::<(Seq<char>, Seq<char>)>::empty(),
    {
        RtspResponse { status, headers: HeaderMap::new() }
    }

    pub fn with_headers(status: RtspStatusCode, headers: HeaderMap) -> (r: RtspResponse)
        ensures
            r.status == status,
            r.headers == headers,
    {
        RtspResponse { status, headers }
    }
}

/// The bytes of one encoded header line: `key: value` and CRLF.
pub open spec fn enc_header_line(k: Seq<char>, v: Seq<char>) -> Seq<u8> {
    encode_utf8(k) + seq![58u8, 32u8] + encode_utf8(v) + seq![13u8, 10u8]
}

pub open spec fn enc_headers(hs: Seq<(Seq<char>, Seq<char>)>) -> Seq<u8>
    decreases hs.len(),
{
    if hs.len() == 0 {
        Seq::empty()
    } else {
        enc_header_line(hs[0].0, hs[0].1) + enc_headers(hs.drop_first())
    }
}

/// The bytes of an encoded response: the status line, each header, and a
/// blank line.  No body is ever written.
pub open spec fn enc_response(st: RtspStatusCode, hs: Seq<(Seq<char>, Seq<char>)>) -> Seq<u8> {
    encode_utf8("RTSP/1.0 "@) + dec_bytes(st.spec_code() as int) + seq![32u8] + encode_utf8(
        st.spec_reason(),
    ) + seq![13u8, 10u8] + enc_headers(hs) + seq![13u8, 10u8]
}

proof fn lemma_enc_headers_push(hs: Seq<(Seq<char>, Seq<char>)>, k: Seq<char>, v: Seq<char>)
    ensures
        enc_headers(hs.push((k, v))) == enc_headers(hs) + enc_header_line(k, v),
    decreases hs.len(),
{
    if hs.len() == 0 {
        assert(hs.push((k, v))[0] == (k, v));
        assert(hs.push((k, v)).drop_first() =~= Seq::<(Seq<char>, Seq<char>)>::empty());
        assert(enc_headers(hs.push((k, v))) == enc_header_line(k, v) + enc_headers(
            hs.push((k, v)).drop_first(),
        ));
        assert(enc_headers(hs.push((k, v))) =~= enc_headers(hs) + enc_header_line(k, v));
    } else {
        assert(hs.push((k, v))[0] == hs[0]);
        assert(hs.push((k, v)).drop_first() =~= hs.drop_first().push((k, v)));
        lemma_enc_headers_push(hs.drop_first(), k, v);
        assert(enc_headers(hs.push((k, v))) =~= enc_headers(hs) + enc_header_line(k, v));
    }
}

/// The RTSP request decoder and response encoder.
pub struct RtspCodec {}

impl RtspCodec {
    /// Appends the encoded response to `dst`.
    pub fn encode(&mut self, item: RtspResponse, dst: &mut Vec<u8>)
        ensures
            final(dst)@ == old(dst)@ + enc_response(item.status, item.headers.model()),
    {
        let ghost hs = item.headers.model();
        let mut out = WriteStream::new();
        out.write("RTSP/1.0 ".as_bytes());
        let code = format_u64(item.status.code() as u64);
        out.write(code.as_slice());
        out.write_u8(32);
        out.write(item.status.as_string().as_bytes());
        out.write_u8(13);
        out.write_u8(10);
        let ghost status_line = encode_utf8("RTSP/1.0 "@) + dec_bytes(
            item.status.spec_code() as int,
        ) + seq![32u8] + encode_utf8(item.status.spec_reason()) + seq![13u8, 10u8];
        proof {
            assert(out.buffer@ =~= status_line);
            assert(hs.take(0) =~= Seq::<(Seq<char>, Seq<char>)>::empty());
            assert(out.buffer@ =~= status_line + enc_headers(hs.take(0)));
        }
        let mut i: usize = 0;
        while i < item.headers.entries.len()
            invariant
                i <= item.headers.entries@.len(),
                hs == item.headers.model(),
                status_line == encode_utf8("RTSP/1.0 "@) + dec_bytes(
                    item.status.spec_code() as int,
                ) + seq![32u8] + encode_utf8(item.status.spec_reason()) + seq![13u8, 10u8],
                out.buffer@ == status_line + enc_headers(hs.take(i as int)),
            decreases item.headers.entries@.len() - i,
        {
            out.write(item.headers.entries[i].0.as_str().as_bytes());
            out.write_u8(58);
            out.write_u8(32);
            out.write(item.headers.entries[i].1.as_str().as_bytes());
            out.write_u8(13);
            out.write_u8(10);
            proof {
                let k = hs[i as int].0;
                let v = hs[i as int].1;
                lemma_enc_headers_push(hs.take(i as int), k, v);
                assert(hs.take(i + 1) =~= hs.take(i as int).push((k, v)));
                assert(out.buffer@ =~= status_line + enc_headers(hs.take(i + 1)));
            }
            i = i + 1;
        }
        out.write_u8(13);
        out.write_u8(10);
        proof {
            assert(hs.take(hs.len() as int) =~= hs);
        }
        let ghost added = out.buffer@;
        let mut j: usize = 0;
        let n = out.buffer.len();
        while j < n
            invariant
                j <= n,
                n == out.buffer@.len(),
                added == out.buffer@,
                dst@ == old(dst)@ + added.subrange(0, j as int),
            decreases n - j,
        {
            dst.push(out.buffer[j]);
            proof {
                assert(dst@ =~= old(dst)@ + added.subrange(0, j + 1));
            }
            j = j + 1;
        }
        proof {
            assert(added.subrange(0, added.len() as int) =~= added);
            assert(dst@ =~= old(dst)@ + enc_response(item.status, hs));
        }
    }
}


// ------------------------------------------------------------------
// The request grammar, at the specification level.
// ------------------------------------------------------------------

/// An empty line: CRLF CRLF at position `i`.
pub open spec fn frame_at(b: Seq<u8>, i: int) -> bool {
    &&& 0 <= i
    &&& i + 4 <= b.len()
    &&& b[i] == 13
    &&& b[i + 1] == 10
    &&& b[i + 2] == 13
    &&& b[i + 3] == 10
}

/// The first header/body boundary at or after `from`.
pub open spec fn frame_split_from(b: Seq<u8>, from: int) -> Option<int>
    decreases b.len() - from,
{
    if from < 0 || from + 4 > b.len() {
        None
    } else if frame_at(b, from) {
        Some(from)
    } else {
        frame_split_from(b, from + 1)
    }
}

/// Splitting a character string on CRLF pairs, leftmost first.
pub open spec fn split_crlf(s: Seq<char>) -> Seq<Seq<char>>
    decreases s.len(),
{
    if s.len() == 0 {
        seq![Seq::empty()]
    } else if s.len() >= 2 && s[0] == '\r' && s[1] == '\n' {
        seq![Seq::<char>::empty()] + split_crlf(s.skip(2))
    } else {
        let rest = split_crlf(s.drop_first());
        seq![seq![s[0]] + rest[0]] + rest.drop_first()
    }
}

/// Splitting a character string on single spaces.
pub open spec fn split_sp(s: Seq<char>) -> Seq<Seq<char>>
    decreases s.len(),
{
    if s.len() == 0 {
        seq![Seq::empty()]
    } else if s[0] == ' ' {
        seq![Seq::<char>::empty()] + split_sp(s.drop_first())
    } else {
        let rest = split_sp(s.drop_first());
        seq![seq![s[0]] + rest[0]] + rest.drop_first()
    }
}

/// Splitting a header line at its first colon.
pub open spec fn split_colon(s: Seq<char>) -> Option<(Seq<char>, Seq<char>)>
    decreases s.len(),
{
    if s.len() == 0 {
        None
    } else if s[0] == ':' {
        Some((Seq::empty(), s.drop_first()))
    } else {
        match split_colon(s.drop_first()) {
            Some((k, v)) => Some((seq![s[0]] + k, v)),
            None => None,
        }
    }
}

/// The whitespace that header-field trimming removes.
pub open spec fn is_ws(c: char) -> bool {
    c == ' ' || c == '\t'
}

pub open spec fn trim_front(s: Seq<char>) -> Seq<char>
    decreases s.len(),
{
    if s.len() > 0 && is_ws(s[0]) {
        trim_front(s.drop_first())
    } else {
        s
    }
}

pub open spec fn trim_back(s: Seq<char>) -> Seq<char>
    decreases s.len(),
{
    if s.len() > 0 && is_ws(s.last()) {
        trim_back(s.drop_last())
    } else {
        s
    }
}

pub open spec fn trim(s: Seq<char>) -> Seq<char> {
    trim_back(trim_front(s))
}

pub open spec fn is_char_digit(c: char) -> bool {
    48 <= c as int <= 57
}

pub open spec fn chars_all_digits(s: Seq<char>) -> bool {
    forall|i: int| 0 <= i < s.len() ==> is_char_digit(#[trigger] s[i])
}

/// The value of a decimal digit string, as characters.
pub open spec fn chars_val(s: Seq<char>) -> int
    decreases s.len(),
{
    if s.len() == 0 {
        0
    } else {
        chars_val(s.drop_last()) * 10 + (s.last() as int - 48)
    }
}

/// The header map read from lines 1 up to (excluding) `upto`, inserted in
/// order; `None` when a line has no colon.
pub open spec fn headers_model(lines: Seq<Seq<char>>, upto: int) -> Option<
    Seq<(Seq<char>, Seq<char>)>,
>
    decreases upto,
{
    if upto <= 1 {
        Some(Seq::empty())
    } else {
        match headers_model(lines, upto - 1) {
            Some(hs) => match split_colon(lines[upto - 1]) {
                Some((k, v)) => Some(insert_pair(hs, trim(k), trim(v))),
                None => None,
            },
            None => None,
        }
    }
}

/// The value-level model of a request.
#[verifier::ext_equal]
pub ghost struct RequestModel {
    pub method: Seq<char>,
    pub path: Seq<char>,
    pub headers: Seq<(Seq<char>, Seq<char>)>,
    pub body: Seq<u8>,
}

/// What the decoder does with a buffer: wait for more input, fail the
/// connection, or consume one frame.
pub ghost enum RtspParse {
    Incomplete,
    Bad,
    Frame(RequestModel, int),
}

/// The request parser: find the blank line, decode the header section as
/// UTF-8, read the request line and the headers, then take the body that
/// `Content-Length` announces.
pub open spec fn parse_rtsp(b: Seq<u8>) -> RtspParse {
    match frame_split_from(b, 0) {
        None => RtspParse::Incomplete,
        Some(i) => {
            let hb = b.subrange(0, i);
            if !valid_utf8(hb) {
                RtspParse::Bad
            } else {
                let chars = decode_utf8(hb);
                let lines = split_crlf(chars);
                let toks = split_sp(lines[0]);
                if toks.len() < 3 {
                    RtspParse::Bad
                } else {
                    match headers_model(lines, lines.len() as int) {
                        None => RtspParse::Bad,
                        Some(hm) => match lookup(hm, "Content-Length"@) {
                            None => RtspParse::Frame(
                                RequestModel {
                                    method: toks[0],
                                    path: toks[1],
                                    headers: hm,
                                    body: Seq::empty(),
                                },
                                i + 4,
                            ),
                            Some(v) => if v.len() == 0 || !chars_all_digits(v) || chars_val(v)
                                > usize::MAX {
                                RtspParse::Bad
                            } else {
                                let n = chars_val(v);
                                if b.len() < i + 4 + n {
                                    RtspParse::Incomplete
                                } else {
                                    RtspParse::Frame(
                                        RequestModel {
                                            method: toks[0],
                                            path: toks[1],
                                            headers: hm,
                                            body: b.subrange(i + 4, i + 4 + n),
                                        },
                                        i + 4 + n,
                                    )
                                }
                            },
                        },
                    }
                }
            }
        },
    }
}

impl RtspRequest {
    pub open spec fn model(self) -> RequestModel {
        RequestModel {
            method: self.method@,
            path: self.path@,
            headers: self.headers.model(),
            body: self.content@,
        }
    }
}

// ------------------------------------------------------------------
// Step lemmas for the splitters.
// ------------------------------------------------------------------

pub proof fn lemma_split_sp_nonempty(s: Seq<char>)
    ensures
        split_sp(s).len() >= 1,
    decreases s.len(),
{
    if s.len() != 0 {
        lemma_split_sp_nonempty(s.drop_first());
    }
}

/// Scanning to the first space (or the end) takes one token off the split.
pub proof fn lemma_split_sp_step(s: Seq<char>, j: int)
    requires
        0 <= j <= s.len(),
        forall|k: int| 0 <= k < j ==> s[k] != ' ',
        j == s.len() || s[j] == ' ',
    ensures
        j == s.len() ==> split_sp(s) == seq![s],
        j < s.len() ==> split_sp(s) == seq![s.take(j)] + split_sp(s.skip(j + 1)),
    decreases j,
{
    if j == 0 {
        if j == s.len() {
            assert(s =~= Seq::<char>::empty());
            assert(seq![s] =~= split_sp(s));
        } else {
            assert(s.take(0) =~= Seq::<char>::empty());
            assert(s.skip(1) =~= s.drop_first());
        }
    } else {
        let t = s.drop_first();
        assert(forall|k: int| 0 <= k < j - 1 ==> #[trigger] t[k] == s[k + 1]);
        lemma_split_sp_step(t, j - 1);
        lemma_split_sp_nonempty(t);
        if j == s.len() {
            assert(split_sp(t) == seq![t]);
            assert(seq![t].drop_first() =~= Seq::<Seq<char>>::empty());
            assert(seq![s[0]] + t =~= s);
            assert(split_sp(s) =~= seq![s]);
        } else {
            assert(split_sp(t) == seq![t.take(j - 1)] + split_sp(t.skip(j)));
            assert((seq![t.take(j - 1)] + split_sp(t.skip(j)))[0] == t.take(j - 1));
            assert(seq![s[0]] + t.take(j - 1) =~= s.take(j));
            assert(t.skip(j) =~= s.skip(j + 1));
            assert((seq![t.take(j - 1)] + split_sp(t.skip(j))).drop_first() =~= split_sp(
                t.skip(j),
            ));
            assert(split_sp(s) =~= seq![s.take(j)] + split_sp(s.skip(j + 1)));
        }
    }
}

pub proof fn lemma_split_crlf_nonempty(s: Seq<char>)
    ensures
        split_crlf(s).len() >= 1,
    decreases s.len(),
{
    if s.len() != 0 {
        if s.len() >= 2 && s[0] == '\r' && s[1] == '\n' {
            lemma_split_crlf_nonempty(s.skip(2));
        } else {
            lemma_split_crlf_nonempty(s.drop_first());
        }
    }
}

/// Scanning to the first CRLF (or the end) takes one line off the split.
pub proof fn lemma_split_crlf_step(s: Seq<char>, j: int)
    requires
        0 <= j <= s.len(),
        forall|k: int| 0 <= k < j ==> !(#[trigger] s[k] == '\r' && k + 1 < s.len() && s[k + 1]
            == '\n'),
        j == s.len() || (j + 1 < s.len() && s[j] == '\r' && s[j + 1] == '\n'),
    ensures
        j == s.len() ==> split_crlf(s) == seq![s],
        j < s.len() ==> split_crlf(s) == seq![s.take(j)] + split_crlf(s.skip(j + 2)),
    decreases j,
{
    if j == 0 {
        if j == s.len() {
            assert(s =~= Seq::<char>::empty());
            assert(seq![s] =~= split_crlf(s));
        } else {
            assert(s.take(0) =~= Seq::<char>::empty());
        }
    } else {
        let t = s.drop_first();
        assert(forall|k: int| 0 <= k < t.len() ==> #[trigger] t[k] == s[k + 1]);
        assert(!(s.len() >= 2 && s[0] == '\r' && s[1] == '\n')) by {
            assert(!(s[0] == '\r' && 0 + 1 < s.len() && s[1] == '\n'));
        }
        assert(forall|k: int|
            0 <= k < j - 1 ==> !(#[trigger] t[k] == '\r' && k + 1 < t.len() && t[k + 1]
                == '\n'));
        lemma_split_crlf_step(t, j - 1);
        lemma_split_crlf_nonempty(t);
        if j == s.len() {
            assert(split_crlf(t) == seq![t]);
            assert(seq![t].drop_first() =~= Seq::<Seq<char>>::empty());
            assert(seq![s[0]] + t =~= s);
            assert(split_crlf(s) =~= seq![s]);
        } else {
            assert(split_crlf(t) == seq![t.take(j - 1)] + split_crlf(t.skip(j + 1)));
            assert((seq![t.take(j - 1)] + split_crlf(t.skip(j + 1)))[0] == t.take(j - 1));
            assert(seq![s[0]] + t.take(j - 1) =~= s.take(j));
            assert(t.skip(j + 1) =~= s.skip(j + 2));
            assert((seq![t.take(j - 1)] + split_crlf(t.skip(j + 1))).drop_first()
                =~= split_crlf(t.skip(j + 1)));
            assert(split_crlf(s) =~= seq![s.take(j)] + split_crlf(s.skip(j + 2)));
        }
    }
}

/// Scanning to the first colon settles the key/value split; no colon means
/// no split.
pub proof fn lemma_split_colon_step(s: Seq<char>, j: int)
    requires
        0 <= j <= s.len(),
        forall|k: int| 0 <= k < j ==> s[k] != ':',
        j == s.len() || s[j] == ':',
    ensures
        j == s.len() ==> split_colon(s) is None,
        j < s.len() ==> split_colon(s) == Some((s.take(j), s.skip(j + 1))),
    decreases j,
{
    if j == 0 {
        if j < s.len() {
            assert(s.take(0) =~= Seq::<char>::empty());
            assert(s.skip(1) =~= s.drop_first());
        }
    } else {
        let t = s.drop_first();
        assert(forall|k: int| 0 <= k < t.len() ==> #[trigger] t[k] == s[k + 1]);
        lemma_split_colon_step(t, j - 1);
        if j < s.len() {
            assert(split_colon(t) == Some((t.take(j - 1), t.skip(j))));
            assert(seq![s[0]] + t.take(j - 1) =~= s.take(j));
            assert(t.skip(j) =~= s.skip(j + 1));
        }
    }
}

/// Once one header line fails, the whole header map fails.
pub proof fn lemma_headers_model_none(lines: Seq<Seq<char>>, u: int, upto: int)
    requires
        1 <= u < upto,
        headers_model(lines, u + 1) is None,
    ensures
        headers_model(lines, upto) is None,
    decreases upto - u,
{
    if upto > u + 1 {
        lemma_headers_model_none(lines, u, upto - 1);
    }
}


/// Finds the first CRLF CRLF boundary.
fn find_frame(src: &Vec<u8>) -> (r: Option<usize>)
    ensures
        (match r {
            Some(i) => frame_split_from(src@, 0) == Some(i as int) && i + 4 <= src@.len(),
            None => frame_split_from(src@, 0) is None,
        }),
{
    let mut i: usize = 0;
    loop
        invariant
            frame_split_from(src@, 0) == frame_split_from(src@, i as int),
            i <= src@.len(),
        decreases src@.len() - i,
    {
        if src.len() < 4 || i > src.len() - 4 {
            proof {
                assert(frame_split_from(src@, i as int) is None);
            }
            return None;
        }
        if src[i] == 13 && src[i + 1] == 10 && src[i + 2] == 13 && src[i + 3] == 10 {
            return Some(i);
        }
        proof {
            assert(frame_split_from(src@, i as int) == frame_split_from(src@, i + 1));
        }
        i = i + 1;
    }
}

/// Splits a string into its CRLF-separated lines.
pub fn split_lines(s: &str) -> (r: Vec<String>)
    ensures
        r@.map_values(|l: String| l@) == split_crlf(s@),
        r@.len() >= 1,
{
    let n = s.unicode_len();
    let mut lines: Vec<String> = Vec::new();
    let mut seg_start: usize = 0;
    let mut i: usize = 0;
    proof {
        assert(s@.skip(0) =~= s@);
        assert(lines@.map_values(|l: String| l@) + split_crlf(s@) =~= split_crlf(s@));
    }
    while i < n
        invariant
            seg_start <= i <= n,
            n == s@.len(),
            forall|k: int|
                seg_start <= k < i ==> !(#[trigger] s@[k] == '\r' && k + 1 < s@.len() && s@[k
                    + 1] == '\n'),
            split_crlf(s@) == lines@.map_values(|l: String| l@) + split_crlf(
                s@.skip(seg_start as int),
            ),
        decreases n - i,
    {
        let ch = s.get_char(i);
        if ch == '\r' && i + 1 < n && s.get_char(i + 1) == '\n' {
            let seg = s.substring_char(seg_start, i).to_owned();
            let ghost acc = lines@.map_values(|l: String| l@);
            lines.push(seg);
            proof {
                let u = s@.skip(seg_start as int);
                let j = i - seg_start;
                assert(forall|k: int|
                    0 <= k < u.len() ==> #[trigger] u[k] == s@[k + seg_start]);
                lemma_split_crlf_step(u, j as int);
                assert(u.take(j as int) =~= s@.subrange(seg_start as int, i as int));
                assert(u.skip(j + 2) =~= s@.skip(i + 2));
                assert(seg@ == u.take(j as int));
                assert(lines@.map_values(|l: String| l@) =~= acc + seq![seg@]);
                assert((acc + (seq![seg@] + split_crlf(s@.skip(i + 2)))) =~= (
                lines@.map_values(|l: String| l@) + split_crlf(s@.skip(i + 2))));
            }
            seg_start = i + 2;
            i = i + 2;
        } else {
            i = i + 1;
        }
    }
    let seg = s.substring_char(seg_start, n).to_owned();
    let ghost acc = lines@.map_values(|l: String| l@);
    lines.push(seg);
    proof {
        let u = s@.skip(seg_start as int);
        let j = n - seg_start;
        assert(forall|k: int| 0 <= k < u.len() ==> #[trigger] u[k] == s@[k + seg_start]);
        lemma_split_crlf_step(u, j as int);
        assert(u =~= s@.subrange(seg_start as int, n as int));
        assert(seg@ == u);
        assert(lines@.map_values(|l: String| l@) =~= acc + seq![seg@]);
        assert((acc + seq![seg@]) =~= (acc + split_crlf(u)));
    }
    lines
}

/// Reads the method and the path off a request line; `None` when the line
/// has fewer than three space-separated fields.
fn parse_request_line(line: &str) -> (r: Option<(String, String)>)
    ensures
        (match r {
            Some(mp) => split_sp(line@).len() >= 3 && mp.0@ == split_sp(line@)[0] && mp.1@
                == split_sp(line@)[1],
            None => split_sp(line@).len() < 3,
        }),
{
    let n = line.unicode_len();
    let mut i: usize = 0;
    while i < n && line.get_char(i) != ' '
        invariant
            i <= n,
            n == line@.len(),
            forall|k: int| 0 <= k < i ==> line@[k] != ' ',
        decreases n - i,
    {
        i = i + 1;
    }
    proof {
        lemma_split_sp_step(line@, i as int);
    }
    if i >= n {
        return None;
    }
    let j1 = i;
    let method = line.substring_char(0, j1).to_owned();
    let mut j: usize = j1 + 1;
    while j < n && line.get_char(j) != ' '
        invariant
            j1 < j <= n,
            n == line@.len(),
            forall|k: int| j1 < k < j ==> line@[k] != ' ',
        decreases n - j,
    {
        j = j + 1;
    }
    let ghost u = line@.skip(j1 + 1);
    proof {
        assert(forall|k: int| 0 <= k < u.len() ==> #[trigger] u[k] == line@[k + j1 + 1]);
        lemma_split_sp_step(u, j - j1 - 1);
    }
    if j >= n {
        proof {
            assert(split_sp(line@) == seq![line@.take(j1 as int)] + split_sp(u));
            assert(split_sp(u) == seq![u]);
        }
        return None;
    }
    let path = line.substring_char(j1 + 1, j).to_owned();
    proof {
        assert(split_sp(line@) == seq![line@.take(j1 as int)] + split_sp(u));
        assert(split_sp(u) == seq![u.take(j - j1 - 1)] + split_sp(u.skip(j - j1)));
        lemma_split_sp_nonempty(u.skip(j - j1));
        assert(split_sp(line@)[0] == line@.take(j1 as int));
        assert(split_sp(line@)[1] == u.take(j - j1 - 1));
        assert(method@ == line@.take(j1 as int));
        assert(path@ == u.take(j - j1 - 1)) by {
            assert(u.take(j - j1 - 1) =~= line@.subrange(j1 + 1, j as int));
        }
    }
    Some((method, path))
}

/// Splits a header line at its first colon; `None` when there is none.
fn split_first_colon(line: &str) -> (r: Option<(String, String)>)
    ensures
        (match r {
            Some(kv) => split_colon(line@) == Some((kv.0@, kv.1@)),
            None => split_colon(line@) is None,
        }),
{
    let n = line.unicode_len();
    let mut i: usize = 0;
    while i < n && line.get_char(i) != ':'
        invariant
            i <= n,
            n == line@.len(),
            forall|k: int| 0 <= k < i ==> line@[k] != ':',
        decreases n - i,
    {
        i = i + 1;
    }
    proof {
        lemma_split_colon_step(line@, i as int);
    }
    if i >= n {
        return None;
    }
    let k = line.substring_char(0, i).to_owned();
    let v = line.substring_char(i + 1, n).to_owned();
    proof {
        assert(v@ =~= line@.skip(i + 1));
    }
    Some((k, v))
}

proof fn lemma_trim_front_at(s: Seq<char>, a: int)
    requires
        0 <= a <= s.len(),
        forall|k: int| 0 <= k < a ==> is_ws(#[trigger] s[k]),
        a == s.len() || !is_ws(s[a]),
    ensures
        trim_front(s) == s.skip(a),
    decreases a,
{
    if a == 0 {
        assert(s.skip(0) =~= s);
    } else {
        let t = s.drop_first();
        assert(forall|k: int| 0 <= k < t.len() ==> #[trigger] t[k] == s[k + 1]);
        lemma_trim_front_at(t, a - 1);
        assert(t.skip(a - 1) =~= s.skip(a));
    }
}

proof fn lemma_trim_back_at(s: Seq<char>, b: int)
    requires
        0 <= b <= s.len(),
        forall|k: int| b <= k < s.len() ==> is_ws(#[trigger] s[k]),
        b == 0 || !is_ws(s[b - 1]),
    ensures
        trim_back(s) == s.take(b),
    decreases s.len() - b,
{
    if b == s.len() {
        assert(s.take(b) =~= s);
    } else {
        let t = s.drop_last();
        assert(forall|k: int| 0 <= k < t.len() ==> #[trigger] t[k] == s[k]);
        lemma_trim_back_at(t, b);
        assert(t.take(b) =~= s.take(b));
    }
}

/// Whether a character is trimmed whitespace.
fn ws_char(c: char) -> (r: bool)
    ensures
        r == is_ws(c),
{
    c == ' ' || c == '\t'
}

/// Removes leading and trailing spaces and tabs.
fn trim_str(s: &str) -> (r: String)
    ensures
        r@ == trim(s@),
{
    let n = s.unicode_len();
    let mut a: usize = 0;
    while a < n && ws_char(s.get_char(a))
        invariant
            a <= n,
            n == s@.len(),
            forall|k: int| 0 <= k < a ==> is_ws(#[trigger] s@[k]),
        decreases n - a,
    {
        a = a + 1;
    }
    proof {
        lemma_trim_front_at(s@, a as int);
    }
    if a >= n {
        let r = String::new();
        proof {
            assert(s@.skip(a as int) =~= Seq::<char>::empty());
            assert(trim_back(Seq::<char>::empty()) == Seq::<char>::empty());
            assert(r@ =~= trim(s@));
        }
        return r;
    }
    let mut b: usize = n;
    while b > a + 1 && ws_char(s.get_char(b - 1))
        invariant
            a < b <= n,
            n == s@.len(),
            forall|k: int| b <= k < n ==> is_ws(#[trigger] s@[k]),
        decreases b,
    {
        b = b - 1;
    }
    let r = s.substring_char(a, b).to_owned();
    proof {
        let u = s@.skip(a as int);
        assert(forall|k: int| 0 <= k < u.len() ==> #[trigger] u[k] == s@[k + a]);
        assert(!is_ws(u[0]));
        if b == a + 1 {
            lemma_trim_back_at(u, b - a);
        } else {
            assert(!is_ws(s@[b - 1]));
            lemma_trim_back_at(u, b - a);
        }
        assert(u.take(b - a) =~= s@.subrange(a as int, b as int));
    }
    r
}

proof fn lemma_chars_val_nonneg(s: Seq<char>)
    requires
        chars_all_digits(s),
    ensures
        chars_val(s) >= 0,
    decreases s.len(),
{
    if s.len() > 0 {
        assert(chars_all_digits(s.drop_last())) by {
            assert(forall|i: int| 0 <= i < s.len() - 1 ==> s.drop_last()[i] == s[i]);
        }
        lemma_chars_val_nonneg(s.drop_last());
    }
}

proof fn lemma_chars_val_grows(s: Seq<char>, i: int)
    requires
        0 <= i < s.len(),
        chars_all_digits(s),
        chars_val(s.subrange(0, i)) * 10 + (s[i] as int - 48) > usize::MAX,
    ensures
        chars_val(s) > usize::MAX,
    decreases s.len() - i,
{
    lemma_chars_val_nonneg(s.subrange(0, i));
    if i + 1 == s.len() {
        assert(s.subrange(0, i + 1) =~= s);
        assert(s.subrange(0, i + 1).drop_last() =~= s.subrange(0, i));
    } else {
        assert(s.subrange(0, i + 1).drop_last() =~= s.subrange(0, i));
        assert(chars_val(s.subrange(0, i + 1)) > usize::MAX);
        lemma_chars_val_grows(s, i + 1);
    }
}

/// Parses a decimal character string into a machine size.
pub fn parse_usize_chars(s: &str) -> (r: Option<usize>)
    ensures
        r matches Some(v) ==> s@.len() > 0 && chars_all_digits(s@) && v == chars_val(s@),
        r is None ==> s@.len() == 0 || !chars_all_digits(s@) || chars_val(s@) > usize::MAX,
{
    let n = s.unicode_len();
    if n == 0 {
        return None;
    }
    let mut acc: usize = 0;
    let mut i: usize = 0;
    while i < n
        invariant
            0 < n == s@.len(),
            i <= n,
            chars_all_digits(s@.subrange(0, i as int)),
            acc == chars_val(s@.subrange(0, i as int)),
        decreases n - i,
    {
        let c = s.get_char(i) as u32;
        if c < 48 || c > 57 {
            proof {
                assert(!is_char_digit(s@[i as int]));
            }
            return None;
        }
        let d = (c - 48) as usize;
        if acc > (usize::MAX - d) / 10 {
            proof {
                if chars_all_digits(s@) {
                    lemma_chars_val_grows(s@, i as int);
                }
            }
            return None;
        }
        acc = acc * 10 + d;
        proof {
            assert(s@.subrange(0, i + 1).drop_last() =~= s@.subrange(0, i as int));
        }
        i = i + 1;
    }
    proof {
        assert(s@.subrange(0, n as int) =~= s@);
    }
    Some(acc)
}


impl RtspCodec {
    /// Decodes one request frame from the front of `src`.  `Ok(None)` asks
    /// for more input; an error closes the connection.  On success the
    /// second component says how many bytes of `src` the frame consumed.
    pub fn decode(&mut self, src: &Vec<u8>) -> (r: Result<
        Option<(RtspRequest, usize)>,
        RtspError,
    >)
        ensures
            r matches Ok(Some(p)) ==> parse_rtsp(src@) == RtspParse::Frame(
                p.0.model(),
                p.1 as int,
            ) && p.1 <= src@.len(),
            r matches Ok(None) ==> parse_rtsp(src@) is Incomplete,
            r matches Err(_) ==> parse_rtsp(src@) is Bad,
    {
        let split = match find_frame(src) {
            Some(i) => i,
            None => {
                return Ok(None);
            },
        };
        let mut rs = crate::stream::ReadStream::new(src.as_slice());
        let hb = rs.read(split);
        let ghost hb_bytes = hb@;
        let hs_str = match crate::text::bytes_to_string(hb) {
            Some(s) => s,
            None => {
                return Err(RtspError::BadFrame);
            },
        };
        let ghost chars = decode_utf8(src@.subrange(0, split as int));
        proof {
            assert(hs_str@ == chars);
        }
        let lines = split_lines(hs_str.as_str());
        let ghost lm = lines@.map_values(|l: String| l@);
        proof {
            assert(lm == split_crlf(chars));
            assert(lm[0] == lines@[0]@);
        }
        let (method, path) = match parse_request_line(lines[0].as_str()) {
            Some(mp) => mp,
            None => {
                return Err(RtspError::BadFrame);
            },
        };
        let mut headers = HeaderMap::new();
        let mut u: usize = 1;
        while u < lines.len()
            invariant
                1 <= u <= lines@.len(),
                frame_split_from(src@, 0) == Some(split as int),
                split + 4 <= src@.len(),
                valid_utf8(src@.subrange(0, split as int)),
                chars == decode_utf8(src@.subrange(0, split as int)),
                lm == split_crlf(chars),
                lm == lines@.map_values(|l: String| l@),
                split_sp(lm[0]).len() >= 3,
                headers_model(lm, u as int) == Some(headers.model()),
            decreases lines@.len() - u,
        {
            proof {
                assert(lm[u as int] == lines@[u as int]@);
            }
            match split_first_colon(lines[u].as_str()) {
                Some((k, v)) => {
                    let kt = trim_str(k.as_str());
                    let vt = trim_str(v.as_str());
                    headers.insert(kt, vt);
                    proof {
                        assert(headers_model(lm, u + 1) == Some(headers.model()));
                    }
                },
                None => {
                    proof {
                        assert(headers_model(lm, u + 1) is None);
                        lemma_headers_model_none(lm, u as int, lm.len() as int);
                    }
                    return Err(RtspError::BadFrame);
                },
            }
            u = u + 1;
        }
        let ghost hm = headers.model();
        let body_len: usize = match headers.get("Content-Length") {
            None => 0,
            Some(v) => {
                match parse_usize_chars(v.as_str()) {
                    Some(x) => x,
                    None => {
                        return Err(RtspError::BadFrame);
                    },
                }
            },
        };
        if body_len > src.len() - (split + 4) {
            proof {
                assert(parse_rtsp(src@) is Incomplete);
            }
            return Ok(None);
        }
        let mut rs2 = crate::stream::ReadStream::with_cursor(src.as_slice(), split + 4);
        let content = rs2.read(body_len);
        let consumed = split + 4 + body_len;
        let req = RtspRequest { method, path, headers, content };
        proof {
            match lookup(hm, "Content-Length"@) {
                Some(v) => {
                    assert(body_len == chars_val(v));
                },
                None => {
                    assert(content@ =~= Seq::<u8>::empty());
                },
            }
            assert(parse_rtsp(src@) == RtspParse::Frame(req.model(), consumed as int));
        }
        Ok(Some((req, consumed)))
    }
}


/// Splits a string into its space-separated fields.
pub fn split_spaces(s: &str) -> (r: Vec<String>)
    ensures
        r@.map_values(|l: String| l@) == split_sp(s@),
        r@.len() >= 1,
{
    let n = s.unicode_len();
    let mut toks: Vec<String> = Vec::new();
    let mut seg_start: usize = 0;
    let mut i: usize = 0;
    proof {
        assert(s@.skip(0) =~= s@);
        assert(toks@.map_values(|l: String| l@) + split_sp(s@) =~= split_sp(s@));
    }
    while i < n
        invariant
            seg_start <= i <= n,
            n == s@.len(),
            forall|k: int| seg_start <= k < i ==> s@[k] != ' ',
            split_sp(s@) == toks@.map_values(|l: String| l@) + split_sp(
                s@.skip(seg_start as int),
            ),
        decreases n - i,
    {
        let ch = s.get_char(i);
        if ch == ' ' {
            let seg = s.substring_char(seg_start, i).to_owned();
            let ghost acc = toks@.map_values(|l: String| l@);
            toks.push(seg);
            proof {
                let u = s@.skip(seg_start as int);
                let j = i - seg_start;
                assert(forall|k: int|
                    0 <= k < u.len() ==> #[trigger] u[k] == s@[k + seg_start]);
                lemma_split_sp_step(u, j as int);
                assert(u.take(j as int) =~= s@.subrange(seg_start as int, i as int));
                assert(u.skip(j + 1) =~= s@.skip(i + 1));
                assert(seg@ == u.take(j as int));
                assert(toks@.map_values(|l: String| l@) =~= acc + seq![seg@]);
                assert((acc + (seq![seg@] + split_sp(s@.skip(i + 1)))) =~= (
                toks@.map_values(|l: String| l@) + split_sp(s@.skip(i + 1))));
            }
            seg_start = i + 1;
        }
        i = i + 1;
    }
    let seg = s.substring_char(seg_start, n).to_owned();
    let ghost acc = toks@.map_values(|l: String| l@);
    toks.push(seg);
    proof {
        let u = s@.skip(seg_start as int);
        let j = n - seg_start;
        assert(forall|k: int| 0 <= k < u.len() ==> #[trigger] u[k] == s@[k + seg_start]);
        lemma_split_sp_step(u, j as int);
        assert(u =~= s@.subrange(seg_start as int, n as int));
        assert(seg@ == u);
        assert(toks@.map_values(|l: String| l@) =~= acc + seq![seg@]);
        assert((acc + seq![seg@]) =~= (acc + split_sp(u)));
    }
    toks
}


/// Looking up the key just inserted yields the new value.
pub proof fn lemma_lookup_insert_same(hs: Seq<(Seq<char>, Seq<char>)>, k: Seq<char>, v: Seq<char>)
    ensures
        lookup(insert_pair(hs, k, v), k) == Some(v),
    decreases hs.len(),
{
    if hs.len() == 0 {
    } else if hs[0].0 == k {
        assert(insert_pair(hs, k, v)[0] == (k, v));
    } else {
        lemma_lookup_insert_same(hs.drop_first(), k, v);
        assert(insert_pair(hs, k, v)[0] == hs[0]);
        assert(insert_pair(hs, k, v).drop_first() =~= insert_pair(hs.drop_first(), k, v));
    }
}

/// Inserting one key leaves every other key's lookup unchanged.
pub proof fn lemma_lookup_insert_other(
    hs: Seq<(Seq<char>, Seq<char>)>,
    k: Seq<char>,
    v: Seq<char>,
    k2: Seq<char>,
)
    requires
        k2 != k,
    ensures
        lookup(insert_pair(hs, k, v), k2) == lookup(hs, k2),
    decreases hs.len(),
{
    if hs.len() == 0 {
        let ip = insert_pair(hs, k, v);
        assert(ip[0] == (k, v));
        assert(ip.drop_first() =~= Seq::<(Seq<char>, Seq<char>)>::empty());
        assert(lookup(ip, k2) == lookup(ip.drop_first(), k2));
        assert(lookup(ip.drop_first(), k2) is None);
    } else if hs[0].0 == k {
        assert(insert_pair(hs, k, v)[0] == (k, v));
        assert(insert_pair(hs, k, v).drop_first() =~= hs.drop_first());
        assert(lookup(insert_pair(hs, k, v), k2) == lookup(hs.drop_first(), k2));
        assert(lookup(hs, k2) == lookup(hs.drop_first(), k2));
    } else {
        lemma_lookup_insert_other(hs.drop_first(), k, v, k2);
        assert(insert_pair(hs, k, v)[0] == hs[0]);
        assert(insert_pair(hs, k, v).drop_first() =~= insert_pair(hs.drop_first(), k, v));
        if hs[0].0 == k2 {
            assert(lookup(insert_pair(hs, k, v), k2) == Some(hs[0].1));
        } else {
            assert(lookup(insert_pair(hs, k, v), k2) == lookup(
                insert_pair(hs.drop_first(), k, v),
                k2,
            ));
        }
    }
}


// ------------------------------------------------------------------
// The request round trip: a well-formed request written canonically is
// consumed whole by the decoder and comes back unchanged.
// ------------------------------------------------------------------

/// One header line as written: `key: value`.
pub open spec fn header_line(k: Seq<char>, v: Seq<char>) -> Seq<char> {
    k + seq![':', ' '] + v
}

/// The request line as written: `method path RTSP/1.0`.
pub open spec fn request_line(m: RequestModel) -> Seq<char> {
    m.method + seq![' '] + m.path + seq![' '] + "RTSP/1.0"@
}

/// The lines of the header section.
pub open spec fn req_lines(m: RequestModel) -> Seq<Seq<char>> {
    seq![request_line(m)] + m.headers.map_values(
        |p: (Seq<char>, Seq<char>)| header_line(p.0, p.1),
    )
}

/// Lines joined with CRLF.
pub open spec fn join_crlf(lines: Seq<Seq<char>>) -> Seq<char>
    decreases lines.len(),
{
    if lines.len() == 0 {
        Seq::empty()
    } else if lines.len() == 1 {
        lines[0]
    } else {
        lines[0] + seq!['\r', '\n'] + join_crlf(lines.drop_first())
    }
}

pub open spec fn head_chars(m: RequestModel) -> Seq<char> {
    join_crlf(req_lines(m))
}

/// The canonical bytes of a request: the header section, the blank line,
/// and the body.
pub open spec fn enc_request(m: RequestModel) -> Seq<u8> {
    encode_utf8(head_chars(m)) + seq![13u8, 10u8, 13u8, 10u8] + m.body
}

pub open spec fn crlf_free(s: Seq<char>) -> bool {
    forall|i: int| 0 <= i < s.len() ==> #[trigger] s[i] != '\r' && s[i] != '\n'
}

/// A field token: no separator space and no line break.
pub open spec fn token_ok(s: Seq<char>) -> bool {
    forall|i: int| 0 <= i < s.len() ==> #[trigger] s[i] != ' ' && s[i] != '\r' && s[i] != '\n'
}

/// Trimming leaves the string unchanged.
pub open spec fn clean(s: Seq<char>) -> bool {
    s.len() > 0 ==> (!is_ws(s[0]) && !is_ws(s.last()))
}

pub open spec fn key_ok(k: Seq<char>) -> bool {
    &&& forall|i: int| 0 <= i < k.len() ==> #[trigger] k[i] != ':' && k[i] != '\r' && k[i]
        != '\n' && k[i] != ' ' && k[i] != '\t'
    &&& k.len() > 0
}

pub open spec fn val_ok(v: Seq<char>) -> bool {
    &&& crlf_free(v)
    &&& clean(v)
}

/// What the round trip asks of a request: plain tokens, header keys without
/// colons or whitespace, values already trimmed, distinct keys, ASCII
/// header text, and a `Content-Length` that matches the body.
pub open spec fn wf_request(m: RequestModel) -> bool {
    &&& token_ok(m.method)
    &&& token_ok(m.path)
    &&& forall|i: int| 0 <= i < m.headers.len() ==> key_ok((#[trigger] m.headers[i]).0)
        && val_ok(m.headers[i].1)
    &&& forall|i: int, j: int|
        0 <= i < m.headers.len() && 0 <= j < m.headers.len() && i != j ==> (
        #[trigger] m.headers[i]).0 != (#[trigger] m.headers[j]).0
    &&& vstd::utf8::is_ascii_chars(head_chars(m))
    &&& (match lookup(m.headers, "Content-Length"@) {
        None => m.body.len() == 0,
        Some(v) => v.len() > 0 && chars_all_digits(v) && chars_val(v) == m.body.len(),
    })
    &&& m.body.len() <= usize::MAX
}

/// No CRLF CRLF window.
pub open spec fn no4(s: Seq<char>) -> bool {
    forall|i: int|
        0 <= i && i + 4 <= s.len() ==> !(#[trigger] s[i] == '\r' && s[i + 1] == '\n' && s[i
            + 2] == '\r' && s[i + 3] == '\n')
}

/// Joining nonempty line-break-free lines never forms a blank line, and the
/// result starts and ends outside a line break.
pub proof fn lemma_join_props(lines: Seq<Seq<char>>)
    requires
        lines.len() > 0,
        forall|i: int| 0 <= i < lines.len() ==> (#[trigger] lines[i]).len() > 0 && crlf_free(
            lines[i],
        ),
    ensures
        join_crlf(lines).len() > 0,
        no4(join_crlf(lines)),
        join_crlf(lines)[0] != '\r' && join_crlf(lines)[0] != '\n',
        join_crlf(lines).last() != '\r' && join_crlf(lines).last() != '\n',
    decreases lines.len(),
{
    let s = join_crlf(lines);
    if lines.len() == 1 {
        assert(no4(s)) by {
            assert(forall|i: int| 0 <= i < s.len() ==> #[trigger] s[i] != '\r');
        }
    } else {
        let l0 = lines[0];
        let rest = lines.drop_first();
        assert(forall|i: int|
            0 <= i < rest.len() ==> (#[trigger] rest[i]).len() > 0 && crlf_free(rest[i])) by {
            assert(forall|i: int| 0 <= i < rest.len() ==> #[trigger] rest[i] == lines[i + 1]);
        }
        lemma_join_props(rest);
        let r = join_crlf(rest);
        let n0 = l0.len() as int;
        assert(s == l0 + seq!['\r', '\n'] + r);
        assert(s.len() == n0 + 2 + r.len());
        assert forall|i: int| 0 <= i && i + 4 <= s.len() implies !(#[trigger] s[i] == '\r'
            && s[i + 1] == '\n' && s[i + 2] == '\r' && s[i + 3] == '\n') by {
            if i < n0 {
                assert(s[i] == l0[i]);
                assert(s[i] != '\r');
            } else if i == n0 {
                assert(s[i + 2] == r[0]);
                assert(r[0] != '\r');
            } else if i == n0 + 1 {
                assert(s[i] == '\n');
            } else {
                assert(s[i] == r[i - n0 - 2]);
                assert(s[i + 1] == r[i - n0 - 1]);
                assert(s[i + 2] == r[i - n0]);
                assert(s[i + 3] == r[i - n0 + 1]);
            }
        }
        assert(s[0] == l0[0]);
        assert(s.last() == r.last());
    }
}

/// Splitting the join of nonempty line-break-free lines on CRLF recovers
/// the lines.
pub proof fn lemma_split_join(lines: Seq<Seq<char>>)
    requires
        lines.len() > 0,
        forall|i: int| 0 <= i < lines.len() ==> (#[trigger] lines[i]).len() > 0 && crlf_free(
            lines[i],
        ),
    ensures
        split_crlf(join_crlf(lines)) == lines,
    decreases lines.len(),
{
    let s = join_crlf(lines);
    let l0 = lines[0];
    let n0 = l0.len() as int;
    if lines.len() == 1 {
        assert(s == l0);
        lemma_split_crlf_step(s, n0);
        assert(seq![s] =~= lines);
    } else {
        let rest = lines.drop_first();
        assert(forall|i: int|
            0 <= i < rest.len() ==> (#[trigger] rest[i]).len() > 0 && crlf_free(rest[i])) by {
            assert(forall|i: int| 0 <= i < rest.len() ==> #[trigger] rest[i] == lines[i + 1]);
        }
        lemma_join_props(rest);
        let r = join_crlf(rest);
        assert(s == l0 + seq!['\r', '\n'] + r);
        assert forall|k: int|
            0 <= k < n0 implies !(#[trigger] s[k] == '\r' && k + 1 < s.len() && s[k + 1]
            == '\n') by {
            assert(s[k] == l0[k]);
        }
        assert(s[n0] == '\r');
        assert(s[n0 + 1] == '\n');
        lemma_split_crlf_step(s, n0);
        assert(s.take(n0) =~= l0);
        assert(s.skip(n0 + 2) =~= r);
        lemma_split_join(rest);
        assert(seq![l0] + rest =~= lines);
    }
}

/// Scanning a buffer whose first boundary sits at `hl` finds it.
pub proof fn lemma_frame_scan(b: Seq<u8>, from: int, hl: int)
    requires
        0 <= from <= hl,
        hl + 4 <= b.len(),
        forall|i: int| from <= i < hl ==> !frame_at(b, i),
        frame_at(b, hl),
    ensures
        frame_split_from(b, from) == Some(hl),
    decreases hl - from,
{
    if from < hl {
        lemma_frame_scan(b, from + 1, hl);
    }
}


/// Every line of a well-formed request is nonempty and free of line
/// breaks.
proof fn lemma_req_lines_props(m: RequestModel)
    requires
        wf_request(m),
    ensures
        req_lines(m).len() == 1 + m.headers.len(),
        forall|i: int| 0 <= i < req_lines(m).len() ==> (#[trigger] req_lines(m)[i]).len() > 0
            && crlf_free(req_lines(m)[i]),
        req_lines(m)[0] == request_line(m),
        forall|i: int| 1 <= i < req_lines(m).len() ==> #[trigger] req_lines(m)[i]
            == header_line(m.headers[i - 1].0, m.headers[i - 1].1),
{
    reveal_strlit("RTSP/1.0");
    let lines = req_lines(m);
    let l0 = request_line(m);
    assert("RTSP/1.0"@.len() == 8);
    assert(crlf_free("RTSP/1.0"@)) by {
        assert forall|i: int| 0 <= i < 8 implies #[trigger] "RTSP/1.0"@[i] != '\r'
            && "RTSP/1.0"@[i] != '\n' by {
            assert("RTSP/1.0"@[0] == 'R');
            assert("RTSP/1.0"@[1] == 'T');
            assert("RTSP/1.0"@[2] == 'S');
            assert("RTSP/1.0"@[3] == 'P');
            assert("RTSP/1.0"@[4] == '/');
            assert("RTSP/1.0"@[5] == '1');
            assert("RTSP/1.0"@[6] == '.');
            assert("RTSP/1.0"@[7] == '0');
        }
    }
    assert(crlf_free(l0)) by {
        assert forall|i: int| 0 <= i < l0.len() implies #[trigger] l0[i] != '\r' && l0[i]
            != '\n' by {
            let a = m.method.len() as int;
            let b = a + 1 + m.path.len();
            if i < a {
                assert(l0[i] == m.method[i]);
            } else if i == a {
                assert(l0[i] == ' ');
            } else if i < b {
                assert(l0[i] == m.path[i - a - 1]);
            } else if i == b {
                assert(l0[i] == ' ');
            } else {
                assert(l0[i] == "RTSP/1.0"@[i - b - 1]);
            }
        }
    }
    assert forall|i: int| 1 <= i < lines.len() implies (#[trigger] lines[i]).len() > 0
        && crlf_free(lines[i]) by {
        let k = m.headers[i - 1].0;
        let v = m.headers[i - 1].1;
        assert(lines[i] == header_line(k, v));
        let hlm = header_line(k, v);
        assert(hlm.len() == k.len() + 2 + v.len());
        assert forall|j: int| 0 <= j < hlm.len() implies #[trigger] hlm[j] != '\r' && hlm[j]
            != '\n' by {
            let a = k.len() as int;
            if j < a {
                assert(hlm[j] == k[j]);
            } else if j == a {
                assert(hlm[j] == ':');
            } else if j == a + 1 {
                assert(hlm[j] == ' ');
            } else {
                assert(hlm[j] == v[j - a - 2]);
            }
        }
    }
}

/// Folding the written header lines back through the parser rebuilds the
/// header list.
proof fn lemma_headers_fold(m: RequestModel, u: int)
    requires
        wf_request(m),
        1 <= u <= req_lines(m).len(),
    ensures
        headers_model(req_lines(m), u) == Some(m.headers.take(u - 1)),
    decreases u,
{
    let lines = req_lines(m);
    if u == 1 {
        assert(m.headers.take(0) =~= Seq::<(Seq<char>, Seq<char>)>::empty());
    } else {
        lemma_headers_fold(m, u - 1);
        let k = m.headers[u - 2].0;
        let v = m.headers[u - 2].1;
        assert(lines[u - 1] == header_line(k, v));
        let line = header_line(k, v);
        assert forall|j: int| 0 <= j < k.len() implies line[j] != ':' by {
            assert(line[j] == k[j]);
        }
        assert(line[k.len() as int] == ':');
        lemma_split_colon_step(line, k.len() as int);
        assert(line.take(k.len() as int) =~= k);
        assert(line.skip(k.len() as int + 1) =~= seq![' '] + v);
        // the key is already trimmed
        lemma_trim_front_at(k, 0);
        assert(k.skip(0) =~= k);
        lemma_trim_back_at(k, k.len() as int);
        assert(k.take(k.len() as int) =~= k);
        // the value gains one leading space from the separator
        let sv = seq![' '] + v;
        assert(trim_front(sv) == trim_front(v)) by {
            assert(is_ws(sv[0]));
            assert(sv.drop_first() =~= v);
        }
        if v.len() > 0 {
            lemma_trim_front_at(v, 0);
            assert(v.skip(0) =~= v);
            lemma_trim_back_at(v, v.len() as int);
            assert(v.take(v.len() as int) =~= v);
        } else {
            assert(trim_front(v) == v);
            assert(trim_back(v) == v);
        }
        assert(trim(sv) == v);
        assert(trim(line.take(k.len() as int)) == k);
        let prev = m.headers.take(u - 2);
        assert forall|j: int| 0 <= j < prev.len() implies (#[trigger] prev[j]).0 != k by {
            assert(prev[j] == m.headers[j]);
        }
        lemma_insert_pair_append(prev, k, v);
        assert(prev.push((k, v)) =~= m.headers.take(u - 1));
    }
}

/// The request line splits into exactly the method, the path, and the
/// version.
proof fn lemma_request_line_split(m: RequestModel)
    requires
        wf_request(m),
    ensures
        split_sp(request_line(m)) == seq![m.method, m.path, "RTSP/1.0"@],
{
    reveal_strlit("RTSP/1.0");
    let l0 = request_line(m);
    let a = m.method.len() as int;
    let b = a + 1 + m.path.len();
    assert forall|k: int| 0 <= k < a implies l0[k] != ' ' by {
        assert(l0[k] == m.method[k]);
    }
    assert(l0[a] == ' ');
    lemma_split_sp_step(l0, a);
    let u = l0.skip(a + 1);
    assert(u =~= m.path + seq![' '] + "RTSP/1.0"@);
    assert forall|k: int| 0 <= k < m.path.len() implies u[k] != ' ' by {
        assert(u[k] == m.path[k]);
    }
    assert(u[m.path.len() as int] == ' ');
    lemma_split_sp_step(u, m.path.len() as int);
    let w = u.skip(m.path.len() as int + 1);
    assert(w =~= "RTSP/1.0"@);
    assert forall|k: int| 0 <= k < w.len() implies w[k] != ' ' by {
        assert("RTSP/1.0"@[0] == 'R');
        assert("RTSP/1.0"@[1] == 'T');
        assert("RTSP/1.0"@[2] == 'S');
        assert("RTSP/1.0"@[3] == 'P');
        assert("RTSP/1.0"@[4] == '/');
        assert("RTSP/1.0"@[5] == '1');
        assert("RTSP/1.0"@[6] == '.');
        assert("RTSP/1.0"@[7] == '0');
    }
    lemma_split_sp_step(w, w.len() as int);
    assert(l0.take(a) =~= m.method);
    assert(u.take(m.path.len() as int) =~= m.path);
    assert(split_sp(l0) =~= seq![m.method, m.path, "RTSP/1.0"@]);
}

/// For an ASCII character, the byte value decides the character: 13 is the
/// carriage return and 10 the line feed.
proof fn lemma_ascii_char_is(c: char, b: u8)
    requires
        (c as u32) < 128,
        (c as u8) == b,
    ensures
        b == 13 ==> c == '\r',
        b == 10 ==> c == '\n',
        c == '\r' ==> b == 13,
        c == '\n' ==> b == 10,
{
    assert(c as u32 == b as u32) by {
        assert(c as u8 == (c as u32) as u8);
    }
    vstd::utf8::char_u32_cast(c, c as u32);
    vstd::utf8::char_u32_cast('\r', '\r' as u32);
    vstd::utf8::char_u32_cast('\n', '\n' as u32);
    assert('\r' as u32 == 13);
    assert('\n' as u32 == 10);
    if b == 13 {
        assert((13u32 as char) == c);
        assert((13u32 as char) == '\r');
    }
    if b == 10 {
        assert((10u32 as char) == c);
        assert((10u32 as char) == '\n');
    }
}

/// The round trip: the canonical bytes of a well-formed request decode to
/// exactly that request, and the whole frame is consumed; the body passes
/// through byte for byte.
pub proof fn lemma_request_round_trip(m: RequestModel)
    requires
        wf_request(m),
    ensures
        parse_rtsp(enc_request(m)) == RtspParse::Frame(m, enc_request(m).len() as int),
{
    broadcast use vstd::utf8::encode_utf8_valid_utf8, vstd::utf8::encode_utf8_decode_utf8,
        vstd::utf8::is_ascii_chars_encode_utf8, vstd::utf8::is_ascii_chars_nat_bound;

    let hc = head_chars(m);
    let lines = req_lines(m);
    lemma_req_lines_props(m);
    lemma_join_props(lines);
    let hb = encode_utf8(hc);
    let hl = hc.len() as int;
    assert(hb.len() == hl);
    let buf = enc_request(m);
    assert(buf == hb + seq![13u8, 10u8, 13u8, 10u8] + m.body);
    assert(buf.len() == hl + 4 + m.body.len());
    assert forall|j: int| 0 <= j < hl implies #[trigger] buf[j] == hc[j] as u8 by {
        assert(buf[j] == hb[j]);
    }
    assert(buf[hl] == 13 && buf[hl + 1] == 10 && buf[hl + 2] == 13 && buf[hl + 3] == 10);
    assert(frame_at(buf, hl));
    // the characters are ASCII, so a 13 or 10 byte is exactly a carriage
    // return or line feed character
    assert forall|i: int| 0 <= i < hl implies !frame_at(buf, i) by {
        if i + 4 <= hl {
            assert(!(hc[i] == '\r' && hc[i + 1] == '\n' && hc[i + 2] == '\r' && hc[i + 3]
                == '\n'));
            lemma_ascii_char_is(hc[i], buf[i]);
            lemma_ascii_char_is(hc[i + 1], buf[i + 1]);
            lemma_ascii_char_is(hc[i + 2], buf[i + 2]);
            lemma_ascii_char_is(hc[i + 3], buf[i + 3]);
        } else {
            assert(buf[hl - 1] == hc[hl - 1] as u8);
            assert(hc[hl - 1] == hc.last());
            lemma_ascii_char_is(hc[hl - 1], buf[hl - 1]);
            if i == hl - 1 {
                assert(!(buf[i] == 13));
            } else if i == hl - 2 {
                assert(!(buf[i + 1] == 10));
            } else if i == hl - 3 {
                assert(!(buf[i + 2] == 13));
            }
        }
    }
    lemma_frame_scan(buf, 0, hl);
    assert(frame_split_from(buf, 0) == Some(hl));
    assert(buf.subrange(0, hl) =~= hb);
    assert(vstd::utf8::valid_utf8(hb));
    assert(vstd::utf8::decode_utf8(hb) == hc);
    lemma_split_join(lines);
    assert(split_crlf(hc) == lines);
    lemma_request_line_split(m);
    assert(split_sp(lines[0]).len() == 3);
    lemma_headers_fold(m, lines.len() as int);
    assert(m.headers.take(lines.len() - 1) =~= m.headers);
    assert(headers_model(lines, lines.len() as int) == Some(m.headers));
    match lookup(m.headers, "Content-Length"@) {
        None => {
            assert(m.body.len() == 0);
            assert(m.body =~= Seq::<u8>::empty());
            let parsed = RequestModel {
                method: split_sp(lines[0])[0],
                path: split_sp(lines[0])[1],
                headers: m.headers,
                body: Seq::empty(),
            };
            assert(parsed =~= m);
            assert(buf.len() == hl + 4);
            assert(parse_rtsp(buf) == RtspParse::Frame(parsed, hl + 4));
        },
        Some(v) => {
            let n = chars_val(v);
            assert(n == m.body.len());
            assert(buf.len() == hl + 4 + n);
            assert(buf.subrange(hl + 4, hl + 4 + n) =~= m.body);
            let parsed = RequestModel {
                method: split_sp(lines[0])[0],
                path: split_sp(lines[0])[1],
                headers: m.headers,
                body: buf.subrange(hl + 4, hl + 4 + n),
            };
            assert(parsed =~= m);
            assert(parse_rtsp(buf) == RtspParse::Frame(parsed, hl + 4 + n));
        },
    }
}

} // verus!
