//! Byte streams for the wire codecs: a cursor-based big-endian reader over a
//! borrowed buffer, and a growable big-endian writer.

use vstd::prelude::*;

verus! {

/// The integer value of `n` big-endian bytes of `s` starting at `i`,
/// expressed with the two-byte steps that the readers take.
pub open spec fn be16_at(s: Seq<u8>, i: int) -> int {
    (s[i] as int) * 256 + (s[i + 1] as int)
}

pub open spec fn be32_at(s: Seq<u8>, i: int) -> int {
    be16_at(s, i) * 0x10000 + be16_at(s, i + 2)
}

pub open spec fn be128_at(s: Seq<u8>, i: int) -> int {
    ((be32_at(s, i) * 0x100000000 + be32_at(s, i + 4)) * 0x100000000 + be32_at(s, i + 8))
        * 0x100000000 + be32_at(s, i + 12)
}

/// The two big-endian bytes of a 16-bit value.
pub open spec fn enc16(v: u16) -> Seq<u8> {
    seq![(v / 256) as u8, (v % 256) as u8]
}

/// The four big-endian bytes of a 32-bit value.
pub open spec fn enc32(v: u32) -> Seq<u8> {
    seq![
        (v / 0x1000000) as u8,
        ((v / 0x10000) % 256) as u8,
        ((v / 0x100) % 256) as u8,
        (v % 256) as u8,
    ]
}

/// The sixteen big-endian bytes of a 128-bit value.
pub open spec fn enc128(v: u128) -> Seq<u8> {
    enc32((v / 0x1000000000000000000000000) as u32)
        + enc32(((v / 0x10000000000000000) % 0x100000000) as u32)
        + enc32(((v / 0x100000000) % 0x100000000) as u32)
        + enc32((v % 0x100000000) as u32)
}

/// A cursor over a borrowed byte buffer; reads are in big-endian order and
/// callers establish that enough bytes remain.
pub struct ReadStream<'a> {
    pub buffer: &'a [u8],
    pub cursor: usize,
}

impl<'a> ReadStream<'a> {
    pub fn new(buffer: &'a [u8]) -> (r: Self)
        ensures
            r.buffer@ == buffer@,
            r.cursor == 0,
    {
        ReadStream { buffer, cursor: 0 }
    }

    pub fn with_cursor(buffer: &'a [u8], cursor: usize) -> (r: Self)
        ensures
            r.buffer@ == buffer@,
            r.cursor == cursor,
    {
        ReadStream { buffer, cursor }
    }

    /// Bytes left between the cursor and the end of the buffer.
    pub fn remaining(&self) -> (n: usize)
        requires
            self.cursor <= self.buffer@.len(),
        ensures
            n == self.buffer@.len() - self.cursor,
    {
        self.buffer.len() - self.cursor
    }

    /// Copies the next `length` bytes out of the buffer and advances.
    pub fn read(&mut self, length: usize) -> (r: Vec<u8>)
        requires
            old(self).cursor + length <= old(self).buffer@.len(),
        ensures
            final(self).buffer@ == old(self).buffer@,
            final(self).cursor == old(self).cursor + length,
            r@ == old(self).buffer@.subrange(old(self).cursor as int, old(self).cursor + length),
    {
        let mut out: Vec<u8> = Vec::new();
        let mut i: usize = 0;
        let blen = self.buffer.len();
        while i < length
            invariant
                i <= length,
                blen == self.buffer@.len(),
                self.cursor + length <= blen,
                self.buffer@ == old(self).buffer@,
                self.cursor == old(self).cursor,
                out@ == self.buffer@.subrange(self.cursor as int, self.cursor + i),
            decreases length - i,
        {
            out.push(self.buffer[self.cursor + i]);
            assert(out@ =~= self.buffer@.subrange(self.cursor as int, self.cursor + i + 1));
            i = i + 1;
        }
        self.cursor = self.cursor + length;
        out
    }

    pub fn read_u8(&mut self) -> (r: u8)
        requires
            old(self).cursor + 1 <= old(self).buffer@.len(),
        ensures
            final(self).buffer@ == old(self).buffer@,
            final(self).cursor == old(self).cursor + 1,
            r == old(self).buffer@[old(self).cursor as int],
    {
        let b = self.buffer[self.cursor];
        self.cursor = self.cursor + 1;
        b
    }

    pub fn read_u16(&mut self) -> (r: u16)
        requires
            old(self).cursor + 2 <= old(self).buffer@.len(),
        ensures
            final(self).buffer@ == old(self).buffer@,
            final(self).cursor == old(self).cursor + 2,
            r == be16_at(old(self).buffer@, old(self).cursor as int),
    {
        let b0 = self.buffer[self.cursor];
        let b1 = self.buffer[self.cursor + 1];
        self.cursor = self.cursor + 2;
        (b0 as u16) * 256 + (b1 as u16)
    }

    pub fn read_u32(&mut self) -> (r: u32)
        requires
            old(self).cursor + 4 <= old(self).buffer@.len(),
        ensures
            final(self).buffer@ == old(self).buffer@,
            final(self).cursor == old(self).cursor + 4,
            r == be32_at(old(self).buffer@, old(self).cursor as int),
    {
        let hi = self.read_u16();
        let lo = self.read_u16();
        (hi as u32) * 0x10000 + (lo as u32)
    }

    pub fn read_u128(&mut self) -> (r: u128)
        requires
            old(self).cursor + 16 <= old(self).buffer@.len(),
        ensures
            final(self).buffer@ == old(self).buffer@,
            final(self).cursor == old(self).cursor + 16,
            r == be128_at(old(self).buffer@, old(self).cursor as int),
    {
        let a = self.read_u32();
        let b = self.read_u32();
        let c = self.read_u32();
        let d = self.read_u32();
        (((a as u128) * 0x100000000 + (b as u128)) * 0x100000000 + (c as u128)) * 0x100000000
            + (d as u128)
    }
}

/// A growable output buffer; writes append big-endian bytes at the end.
pub struct WriteStream {
    pub buffer: Vec<u8>,
}

impl WriteStream {
    pub fn new() -> (r: Self)
        ensures
            r.buffer@ == Seq::<u8>::empty(),
    {
        WriteStream { buffer: Vec::new() }
    }

    pub fn write(&mut self, data: &[u8])
        ensures
            final(self).buffer@ == old(self).buffer@ + data@,
    {
        let mut i: usize = 0;
        while i < data.len()
            invariant
                i <= data@.len(),
                self.buffer@ == old(self).buffer@ + data@.subrange(0, i as int),
            decreases data@.len() - i,
        {
            self.buffer.push(data[i]);
            assert(self.buffer@ =~= old(self).buffer@ + data@.subrange(0, i + 1));
            i = i + 1;
        }
        assert(data@.subrange(0, data@.len() as int) =~= data@);
    }

    pub fn write_u8(&mut self, data: u8)
        ensures
            final(self).buffer@ == old(self).buffer@.push(data),
    {
        self.buffer.push(data);
    }

    pub fn write_u16(&mut self, data: u16)
        ensures
            final(self).buffer@ == old(self).buffer@ + enc16(data),
    {
        self.buffer.push((data / 256) as u8);
        self.buffer.push((data % 256) as u8);
        assert(self.buffer@ =~= old(self).buffer@ + enc16(data));
    }

    pub fn write_u32(&mut self, data: u32)
        ensures
            final(self).buffer@ == old(self).buffer@ + enc32(data),
    {
        self.buffer.push((data / 0x1000000) as u8);
        self.buffer.push(((data / 0x10000) % 256) as u8);
        self.buffer.push(((data / 0x100) % 256) as u8);
        self.buffer.push((data % 256) as u8);
        assert(self.buffer@ =~= old(self).buffer@ + enc32(data));
    }

    pub fn write_u128(&mut self, data: u128)
        ensures
            final(self).buffer@ == old(self).buffer@ + enc128(data),
    {
        self.write_u32((data / 0x1000000000000000000000000) as u32);
        self.write_u32(((data / 0x10000000000000000) % 0x100000000) as u32);
        self.write_u32(((data / 0x100000000) % 0x100000000) as u32);
        self.write_u32((data % 0x100000000) as u32);
        assert(self.buffer@ =~= old(self).buffer@ + enc128(data));
    }
}

/// Reading two big-endian bytes recovers the 16-bit value they encode.
pub proof fn lemma_enc16_value(v: u16, s: Seq<u8>, i: int)
    requires
        0 <= i,
        i + 2 <= s.len(),
        s.subrange(i, i + 2) == enc16(v),
    ensures
        be16_at(s, i) == v,
{
    assert(s[i] == enc16(v)[0]);
    assert(s[i + 1] == enc16(v)[1]);
}

/// Reading four big-endian bytes recovers the 32-bit value they encode.
pub proof fn lemma_enc32_value(v: u32, s: Seq<u8>, i: int)
    requires
        0 <= i,
        i + 4 <= s.len(),
        s.subrange(i, i + 4) == enc32(v),
    ensures
        be32_at(s, i) == v,
{
    assert(s[i] == enc32(v)[0]);
    assert(s[i + 1] == enc32(v)[1]);
    assert(s[i + 2] == enc32(v)[2]);
    assert(s[i + 3] == enc32(v)[3]);
}


/// Reading sixteen big-endian bytes recovers the 128-bit value they encode.
pub proof fn lemma_enc128_value(v: u128, s: Seq<u8>, i: int)
    requires
        0 <= i,
        i + 16 <= s.len(),
        s.subrange(i, i + 16) == enc128(v),
    ensures
        be128_at(s, i) == v,
{
    let e = enc128(v);
    let a = (v / 0x1000000000000000000000000) as u32;
    let b = ((v / 0x10000000000000000) % 0x100000000) as u32;
    let c = ((v / 0x100000000) % 0x100000000) as u32;
    let d = (v % 0x100000000) as u32;
    assert forall|k: int| 0 <= k < 16 implies #[trigger] s[i + k] == e[k] by {
        assert(s.subrange(i, i + 16)[k] == s[i + k]);
    }
    assert(s.subrange(i, i + 4) =~= enc32(a)) by {
        assert forall|k: int| 0 <= k < 4 implies s.subrange(i, i + 4)[k] == enc32(a)[k] by {
            assert(s[i + k] == e[k]);
        }
    }
    assert(s.subrange(i + 4, i + 8) =~= enc32(b)) by {
        assert forall|k: int| 0 <= k < 4 implies s.subrange(i + 4, i + 8)[k] == enc32(b)[k] by {
            assert(s[i + (4 + k)] == e[4 + k]);
        }
    }
    assert(s.subrange(i + 8, i + 12) =~= enc32(c)) by {
        assert forall|k: int| 0 <= k < 4 implies s.subrange(i + 8, i + 12)[k] == enc32(c)[k] by {
            assert(s[i + (8 + k)] == e[8 + k]);
        }
    }
    assert(s.subrange(i + 12, i + 16) =~= enc32(d)) by {
        assert forall|k: int| 0 <= k < 4 implies s.subrange(i + 12, i + 16)[k] == enc32(
            d,
        )[k] by {
            assert(s[i + (12 + k)] == e[12 + k]);
        }
    }
    lemma_enc32_value(a, s, i);
    lemma_enc32_value(b, s, i + 4);
    lemma_enc32_value(c, s, i + 8);
    lemma_enc32_value(d, s, i + 12);
    assert(be128_at(s, i) == ((a * 0x100000000 + b) * 0x100000000 + c) * 0x100000000 + d);
    lemma_u128_quarters(v);
}

/// A 128-bit value equals its four big-endian 32-bit quarters reassembled.
proof fn lemma_u128_quarters(v: u128)
    ensures
        (((v / 0x1000000000000000000000000) * 0x100000000 + (v / 0x10000000000000000)
            % 0x100000000) * 0x100000000 + (v / 0x100000000) % 0x100000000) * 0x100000000 + v
            % 0x100000000 == v,
{
    let m: int = 0x100000000;
    let x0: int = v as int;
    let x1: int = x0 / m;
    let x2: int = x1 / m;
    let x3: int = x2 / m;
    vstd::arithmetic::div_mod::lemma_fundamental_div_mod(x0, m);
    vstd::arithmetic::div_mod::lemma_fundamental_div_mod(x1, m);
    vstd::arithmetic::div_mod::lemma_fundamental_div_mod(x2, m);
    vstd::arithmetic::div_mod::lemma_div_denominator(x0, m, m);
    vstd::arithmetic::div_mod::lemma_div_denominator(x0, m * m, m);
    assert(x2 == v / 0x10000000000000000);
    assert(x3 == v / 0x1000000000000000000000000);
    assert(x3 * m + x2 % m == x2);
    assert((x3 * m + x2 % m) * m + x1 % m == x2 * m + x1 % m) by (nonlinear_arith)
        requires
            x3 * m + x2 % m == x2,
            m == 0x100000000,
    ;
    assert(x2 * m + x1 % m == x1);
    assert((x2 * m + x1 % m) * m + x0 % m == x1 * m + x0 % m) by (nonlinear_arith)
        requires
            x2 * m + x1 % m == x1,
            m == 0x100000000,
    ;
    assert(x1 * m + x0 % m == x0);
}

} // verus!
