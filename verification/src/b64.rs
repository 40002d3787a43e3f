//! Base64 with the standard alphabet, as the challenge and the SDP key
//! attributes use it.  The encoding is specified exactly; the encoder and
//! decoder of the outside crate are trusted to match it.

use vstd::prelude::*;

verus! {

/// The standard-alphabet symbol for a six-bit value.
pub open spec fn b64_char(v: int) -> char {
    if v < 26 {
        ((65 + v) as u8) as char
    } else if v < 52 {
        ((97 + v - 26) as u8) as char
    } else if v < 62 {
        ((48 + v - 52) as u8) as char
    } else if v == 62 {
        '+'
    } else {
        '/'
    }
}

/// The six-bit value of a symbol, or -1 outside the alphabet.
pub open spec fn b64_val(c: char) -> int {
    let x = c as int;
    if 65 <= x <= 90 {
        x - 65
    } else if 97 <= x <= 122 {
        x - 97 + 26
    } else if 48 <= x <= 57 {
        x - 48 + 52
    } else if x == 43 {
        62
    } else if x == 47 {
        63
    } else {
        -1
    }
}

/// The unpadded encoding: three bytes make four symbols; one or two final
/// bytes make two or three symbols.
pub open spec fn b64_nopad(s: Seq<u8>) -> Seq<char>
    decreases s.len(),
{
    if s.len() == 0 {
        Seq::empty()
    } else if s.len() == 1 {
        let b0 = s[0] as int;
        seq![b64_char(b0 / 4), b64_char((b0 % 4) * 16)]
    } else if s.len() == 2 {
        let b0 = s[0] as int;
        let b1 = s[1] as int;
        seq![b64_char(b0 / 4), b64_char((b0 % 4) * 16 + b1 / 16), b64_char((b1 % 16) * 4)]
    } else {
        let b0 = s[0] as int;
        let b1 = s[1] as int;
        let b2 = s[2] as int;
        seq![
            b64_char(b0 / 4),
            b64_char((b0 % 4) * 16 + b1 / 16),
            b64_char((b1 % 16) * 4 + b2 / 64),
            b64_char(b2 % 64),
        ] + b64_nopad(s.skip(3))
    }
}

/// The padded encoding: the unpadded symbols followed by `'='` up to a
/// multiple of four.
pub open spec fn b64_pad(s: Seq<u8>) -> Seq<char> {
    if s.len() % 3 == 1 {
        b64_nopad(s) + seq!['=', '=']
    } else if s.len() % 3 == 2 {
        b64_nopad(s) + seq!['=']
    } else {
        b64_nopad(s)
    }
}

/// How many `'='` characters end the string.
pub open spec fn trailing_pads(s: Seq<char>) -> int
    decreases s.len(),
{
    if s.len() > 0 && s.last() == '=' {
        1 + trailing_pads(s.drop_last())
    } else {
        0
    }
}

pub open spec fn b64_symbols_ok(t: Seq<char>) -> bool {
    forall|i: int| 0 <= i < t.len() ==> b64_val(#[trigger] t[i]) >= 0
}

/// The discarded bits of the final symbol must be zero.
pub open spec fn b64_tail_ok(t: Seq<char>) -> bool {
    if t.len() % 4 == 2 {
        b64_val(t.last()) % 16 == 0
    } else if t.len() % 4 == 3 {
        b64_val(t.last()) % 4 == 0
    } else {
        true
    }
}

/// The bytes of a valid symbol string.
pub open spec fn b64_decode_bytes(t: Seq<char>) -> Seq<u8>
    decreases t.len(),
{
    if t.len() < 2 {
        Seq::empty()
    } else if t.len() == 2 {
        seq![(b64_val(t[0]) * 4 + b64_val(t[1]) / 16) as u8]
    } else if t.len() == 3 {
        seq![
            (b64_val(t[0]) * 4 + b64_val(t[1]) / 16) as u8,
            ((b64_val(t[1]) % 16) * 16 + b64_val(t[2]) / 4) as u8,
        ]
    } else {
        seq![
            (b64_val(t[0]) * 4 + b64_val(t[1]) / 16) as u8,
            ((b64_val(t[1]) % 16) * 16 + b64_val(t[2]) / 4) as u8,
            ((b64_val(t[2]) % 4) * 64 + b64_val(t[3])) as u8,
        ] + b64_decode_bytes(t.skip(4))
    }
}

/// What standard decoding accepts and returns: at most two trailing pads,
/// pads only after two or more symbols in the final quad, a length that is
/// not one past a quad boundary, alphabet symbols only, and zero discarded
/// bits.
pub open spec fn b64_decode_spec(s: Seq<char>) -> Option<Seq<u8>> {
    let p = trailing_pads(s);
    let t = s.take(s.len() - p);
    if p > 2 {
        None
    } else if p > 0 && t.len() % 4 < 2 {
        None
    } else if s.len() % 4 == 1 {
        None
    } else if t.len() % 4 == 1 {
        None
    } else if !b64_symbols_ok(t) {
        None
    } else if !b64_tail_ok(t) {
        None
    } else {
        Some(b64_decode_bytes(t))
    }
}

/// Relies on `base64::encode`: the standard alphabet with `'='` padding.
#[verifier::external_body]
pub fn b64_encode(data: &Vec<u8>) -> (r: String)
    ensures
        r@ == b64_pad(data@),
{
    base64::encode(data)
}

/// Relies on `base64::decode`: the standard alphabet, optional trailing
/// padding, and a rejection of non-zero discarded bits.
#[verifier::external_body]
pub fn b64_decode(s: &str) -> (r: Option<Vec<u8>>)
    ensures
        r matches Some(v) ==> b64_decode_spec(s@) == Some(v@),
        r is None ==> b64_decode_spec(s@) is None,
{
    match base64::decode(s) {
        Ok(v) => Some(v),
        Err(_) => None,
    }
}

/// No symbol of an unpadded encoding is the padding character.
pub proof fn lemma_b64_nopad_no_pads(s: Seq<u8>)
    ensures
        forall|i: int| 0 <= i < b64_nopad(s).len() ==> #[trigger] b64_nopad(s)[i] != '=',
    decreases s.len(),
{
    if s.len() >= 3 {
        lemma_b64_nopad_no_pads(s.skip(3));
        assert forall|i: int| 0 <= i < b64_nopad(s).len() implies #[trigger] b64_nopad(s)[i]
            != '=' by {
            if i >= 4 {
                assert(b64_nopad(s)[i] == b64_nopad(s.skip(3))[i - 4]);
            }
        }
    }
}

} // verus!
