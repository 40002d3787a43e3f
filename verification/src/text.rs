//! Text helpers shared by the codecs: byte/string conversion and decimal
//! number parsing and formatting, with exact specifications.

use vstd::prelude::*;
use vstd::utf8::{valid_utf8, decode_utf8, encode_utf8};

verus! {

/// Relies on `String::from_utf8`: it succeeds exactly on valid UTF-8 input
/// and returns the decoded character sequence.
#[verifier::external_body]
pub fn bytes_to_string(v: Vec<u8>) -> (r: Option<String>)
    ensures
        r matches Some(s) ==> valid_utf8(v@) && s@ == decode_utf8(v@),
        r is None ==> !valid_utf8(v@),
{
    match String::from_utf8(v) {
        Ok(s) => Some(s),
        Err(_) => None,
    }
}

pub open spec fn is_digit(b: u8) -> bool {
    48 <= b <= 57
}

pub open spec fn all_digits(s: Seq<u8>) -> bool {
    forall|i: int| 0 <= i < s.len() ==> is_digit(#[trigger] s[i])
}

/// The value of a digit string, most significant digit first.
pub open spec fn digits_val(s: Seq<u8>) -> int
    decreases s.len(),
{
    if s.len() == 0 {
        0
    } else {
        digits_val(s.drop_last()) * 10 + (s.last() - 48)
    }
}

/// Parses an unsigned decimal number; `None` on an empty string, a non-digit
/// byte, or a value above `u64::MAX`.
pub fn parse_u64(s: &[u8]) -> (r: Option<u64>)
    ensures
        r matches Some(v) ==> s@.len() > 0 && all_digits(s@) && v == digits_val(s@),
        r is None ==> s@.len() == 0 || !all_digits(s@) || digits_val(s@) > u64::MAX,
{
    if s.len() == 0 {
        return None;
    }
    let mut acc: u64 = 0;
    let mut i: usize = 0;
    while i < s.len()
        invariant
            0 < s@.len() <= usize::MAX,
            i <= s@.len(),
            all_digits(s@.subrange(0, i as int)),
            acc == digits_val(s@.subrange(0, i as int)),
        decreases s@.len() - i,
    {
        let b = s[i];
        if b < 48 || b > 57 {
            assert(!is_digit(s@[i as int]));
            return None;
        }
        let d = (b - 48) as u64;
        if acc > (u64::MAX - d) / 10 {
            proof {
                if all_digits(s@) {
                    lemma_digits_val_grows(s@, i as int);
                }
            }
            return None;
        }
        acc = acc * 10 + d;
        assert(s@.subrange(0, i + 1).drop_last() =~= s@.subrange(0, i as int));
        i = i + 1;
    }
    assert(s@.subrange(0, s@.len() as int) =~= s@);
    Some(acc)
}

/// A digit string extending a prefix whose value already forces an overflow
/// keeps a value above `u64::MAX`.
proof fn lemma_digits_val_grows(s: Seq<u8>, i: int)
    requires
        0 <= i < s.len(),
        all_digits(s),
        digits_val(s.subrange(0, i)) * 10 + (s[i] - 48) > u64::MAX,
    ensures
        digits_val(s) > u64::MAX,
    decreases s.len() - i,
{
    lemma_digits_val_nonneg(s.subrange(0, i));
    if i + 1 == s.len() {
        assert(s.subrange(0, i + 1) =~= s);
        assert(s.subrange(0, i + 1).drop_last() =~= s.subrange(0, i));
    } else {
        assert(s.subrange(0, i + 1).drop_last() =~= s.subrange(0, i));
        assert(digits_val(s.subrange(0, i + 1)) > u64::MAX);
        lemma_digits_val_grows(s, i + 1);
    }
}

pub proof fn lemma_digits_val_nonneg(s: Seq<u8>)
    requires
        all_digits(s),
    ensures
        digits_val(s) >= 0,
    decreases s.len(),
{
    if s.len() > 0 {
        assert(all_digits(s.drop_last())) by {
            assert(forall|i: int| 0 <= i < s.len() - 1 ==> s.drop_last()[i] == s[i]);
        }
        lemma_digits_val_nonneg(s.drop_last());
    }
}

pub fn parse_u32(s: &[u8]) -> (r: Option<u32>)
    ensures
        r matches Some(v) ==> s@.len() > 0 && all_digits(s@) && v == digits_val(s@),
        r is None ==> s@.len() == 0 || !all_digits(s@) || digits_val(s@) > u32::MAX,
{
    match parse_u64(s) {
        Some(v) => {
            if v <= 0xffff_ffff {
                Some(v as u32)
            } else {
                None
            }
        },
        None => {
            proof {
                if s@.len() > 0 && all_digits(s@) {
                    lemma_digits_val_nonneg(s@);
                }
            }
            None
        },
    }
}

pub fn parse_u16(s: &[u8]) -> (r: Option<u16>)
    ensures
        r matches Some(v) ==> s@.len() > 0 && all_digits(s@) && v == digits_val(s@),
        r is None ==> s@.len() == 0 || !all_digits(s@) || digits_val(s@) > u16::MAX,
{
    match parse_u32(s) {
        Some(v) => {
            if v <= 0xffff {
                Some(v as u16)
            } else {
                None
            }
        },
        None => None,
    }
}

pub fn parse_u8(s: &[u8]) -> (r: Option<u8>)
    ensures
        r matches Some(v) ==> s@.len() > 0 && all_digits(s@) && v == digits_val(s@),
        r is None ==> s@.len() == 0 || !all_digits(s@) || digits_val(s@) > u8::MAX,
{
    match parse_u32(s) {
        Some(v) => {
            if v <= 0xff {
                Some(v as u8)
            } else {
                None
            }
        },
        None => None,
    }
}

/// The shortest decimal digit string for a value.
pub open spec fn dec_digits(v: int) -> Seq<u8>
    decreases v,
{
    if v <= 0 {
        Seq::empty()
    } else {
        dec_digits(v / 10).push((48 + v % 10) as u8)
    }
}

/// The decimal form of a value: its digits, or `"0"` for zero.
pub open spec fn dec_bytes(v: int) -> Seq<u8> {
    if v == 0 {
        seq![48u8]
    } else {
        dec_digits(v)
    }
}

/// Writes a value in decimal, most significant digit first.
pub fn format_u64(v: u64) -> (r: Vec<u8>)
    ensures
        r@ == dec_bytes(v as int),
        r@.len() > 0,
        all_digits(r@),
{
    if v == 0 {
        let mut out: Vec<u8> = Vec::new();
        out.push(48u8);
        proof {
            assert(out@ =~= dec_bytes(0));
        }
        return out;
    }
    let mut rev: Vec<u8> = Vec::new();
    let mut x: u64 = v;
    proof {
        assert(dec_digits(v as int) =~= dec_digits(v as int) + rev@.reverse());
    }
    while x > 0
        invariant
            dec_digits(v as int) == dec_digits(x as int) + rev@.reverse(),
        decreases x,
    {
        let d = (48 + (x % 10)) as u8;
        rev.push(d);
        proof {
            assert(rev@.reverse() =~= seq![d] + rev@.drop_last().reverse());
            assert(dec_digits(v as int) =~= dec_digits(x as int / 10) + rev@.reverse());
        }
        x = x / 10;
    }
    let mut out: Vec<u8> = Vec::new();
    let mut i: usize = rev.len();
    while i > 0
        invariant
            i <= rev@.len(),
            out@ == rev@.subrange(i as int, rev@.len() as int).reverse(),
        decreases i,
    {
        i = i - 1;
        out.push(rev[i]);
        assert(out@ =~= rev@.subrange(i as int, rev@.len() as int).reverse());
    }
    assert(out@ =~= rev@.reverse());
    proof {
        assert(dec_digits(v as int) =~= rev@.reverse());
        lemma_dec_digits_all(v as int);
    }
    out
}

/// Every byte that `dec_digits` emits is a decimal digit.
pub proof fn lemma_dec_digits_all(v: int)
    ensures
        all_digits(dec_digits(v)),
        v > 0 ==> dec_digits(v).len() > 0,
    decreases v,
{
    if v > 0 {
        lemma_dec_digits_all(v / 10);
    }
}


/// Byte-for-byte equality of two slices.
pub fn bytes_eq(a: &[u8], b: &[u8]) -> (r: bool)
    ensures
        r == (a@ == b@),
{
    if a.len() != b.len() {
        return false;
    }
    let mut i: usize = 0;
    while i < a.len()
        invariant
            i <= a@.len(),
            a@.len() == b@.len(),
            forall|k: int| 0 <= k < i ==> a@[k] == b@[k],
        decreases a@.len() - i,
    {
        if a[i] != b[i] {
            return false;
        }
        i = i + 1;
    }
    proof {
        assert(a@ =~= b@);
    }
    true
}

/// Character-for-character equality of two strings.
pub fn str_eq(a: &str, b: &str) -> (r: bool)
    ensures
        r == (a@ == b@),
{
    broadcast use vstd::utf8::encode_utf8_decode_utf8;

    let r = bytes_eq(a.as_bytes(), b.as_bytes());
    proof {
        if encode_utf8(a@) == encode_utf8(b@) {
            assert(decode_utf8(encode_utf8(a@)) == decode_utf8(encode_utf8(b@)));
            assert(a@ == b@);
        }
    }
    r
}


/// The decimal form of a value, as characters.
pub open spec fn dec_chars(v: int) -> Seq<char> {
    dec_bytes(v).map_values(|b: u8| b as char)
}

/// One decimal digit as a string slice.
fn digit_str(b: u8) -> (r: &'static str)
    requires
        48 <= b <= 57,
    ensures
        r@ == seq![b as char],
{
    let r: &'static str = if b == 48 {
        "0"
    } else if b == 49 {
        "1"
    } else if b == 50 {
        "2"
    } else if b == 51 {
        "3"
    } else if b == 52 {
        "4"
    } else if b == 53 {
        "5"
    } else if b == 54 {
        "6"
    } else if b == 55 {
        "7"
    } else if b == 56 {
        "8"
    } else {
        "9"
    };
    proof {
        reveal_strlit("0");
        reveal_strlit("1");
        reveal_strlit("2");
        reveal_strlit("3");
        reveal_strlit("4");
        reveal_strlit("5");
        reveal_strlit("6");
        reveal_strlit("7");
        reveal_strlit("8");
        reveal_strlit("9");
        assert(r@ =~= seq![b as char]);
    }
    r
}

/// Writes a value in decimal as a string.
pub fn u64_to_string(v: u64) -> (r: String)
    ensures
        r@ == dec_chars(v as int),
{
    let digits = format_u64(v);
    let mut out = String::new();
    let mut i: usize = 0;
    while i < digits.len()
        invariant
            i <= digits@.len(),
            digits@ == dec_bytes(v as int),
            all_digits(digits@),
            out@ == digits@.subrange(0, i as int).map_values(|b: u8| b as char),
        decreases digits@.len() - i,
    {
        proof {
            assert(is_digit(digits@[i as int]));
        }
        out.append(digit_str(digits[i]));
        proof {
            assert(out@ =~= digits@.subrange(0, i + 1).map_values(|b: u8| b as char));
        }
        i = i + 1;
    }
    proof {
        assert(digits@.subrange(0, digits@.len() as int) =~= digits@);
    }
    out
}

} // verus!
