//! The byte sink that every encoder writes to, and the fixed-width
//! big-endian writers.

use vstd::prelude::*;
use crate::decode::{be16, be32, be64};

verus! {

/// The two bytes of a number below 2^16, high byte first.
pub open spec fn be16_bytes(v: int) -> Seq<u8> {
    seq![(v / 0x100) as u8, (v % 0x100) as u8]
}

/// The three bytes of a number below 2^24, high byte first.
pub open spec fn be24_bytes(v: int) -> Seq<u8> {
    seq![(v / 0x1_0000) as u8] + be16_bytes(v % 0x1_0000)
}

/// The four bytes of a number below 2^32, high byte first.
pub open spec fn be32_bytes(v: int) -> Seq<u8> {
    be16_bytes(v / 0x1_0000) + be16_bytes(v % 0x1_0000)
}

/// The eight bytes of a number below 2^64, high byte first.
pub open spec fn be64_bytes(v: int) -> Seq<u8> {
    be32_bytes(v / 0x1_0000_0000) + be32_bytes(v % 0x1_0000_0000)
}

/// The unsigned number below `2 * half` that stands for `v` in two's
/// complement.
pub open spec fn untwos(v: int, half: int) -> int {
    if v >= 0 {
        v
    } else {
        v + 2 * half
    }
}

/// The decimal digits of `n` in ASCII, without leading zeros.
pub open spec fn decimal(n: nat) -> Seq<u8>
    decreases n,
{
    if n < 10 {
        seq![(0x30 + n) as u8]
    } else {
        decimal(n / 10) + seq![(0x30 + n % 10) as u8]
    }
}

/// An encoder's output: the bytes written so far.
pub struct State {
    out: Vec<u8>,
}

impl State {
    /// The bytes written so far, those that `new` was given included.
    pub closed spec fn written(&self) -> Seq<u8> {
        self.out@
    }

    /// An encoder that appends to `out`.
    pub fn new(out: Vec<u8>) -> (state: Self)
        ensures
            state.written() == out@,
    {
        State { out }
    }

    /// Hands back everything written.
    pub fn into_inner(self) -> (out: Vec<u8>)
        ensures
            out@ == self.written(),
    {
        self.out
    }

    /// Appends `buf`.
    pub fn write(&mut self, buf: &[u8])
        ensures
            final(self).written() == old(self).written() + buf@,
    {
        let mut i: usize = 0;
        while i < buf.len()
            invariant
                i <= buf.len(),
                self.written() == old(self).written() + buf@.take(i as int),
            decreases buf.len() - i,
        {
            self.out.push(buf[i]);
            i = i + 1;
        }
    }

    /// Appends `number` as text: its decimal digits.
    pub fn write_fmt(&mut self, number: u64)
        ensures
            final(self).written() == old(self).written() + decimal(number as nat),
        decreases number,
    {
        if number >= 10 {
            self.write_fmt(number / 10);
        }
        self.out.push(0x30 + (number % 10) as u8);
    }

    /// Appends one byte.
    pub fn write_u8(&mut self, v: u8)
        ensures
            final(self).written() == old(self).written() + seq![v],
    {
        self.out.push(v);
    }

    /// Appends a 16-bit number, high byte first.
    pub fn write_u16(&mut self, v: u16)
        ensures
            final(self).written() == old(self).written() + be16_bytes(v as int),
    {
        self.out.push((v / 0x100) as u8);
        self.out.push((v % 0x100) as u8);
    }

    /// Appends the low 24 bits of a number below 2^24, high byte first.
    pub fn write_u24(&mut self, v: u32)
        requires
            v < 0x100_0000,
        ensures
            final(self).written() == old(self).written() + be24_bytes(v as int),
    {
        self.out.push((v / 0x1_0000) as u8);
        self.write_u16((v % 0x1_0000) as u16);
    }

    /// Appends a 32-bit number, high byte first.
    pub fn write_u32(&mut self, v: u32)
        ensures
            final(self).written() == old(self).written() + be32_bytes(v as int),
    {
        self.write_u16((v / 0x1_0000) as u16);
        self.write_u16((v % 0x1_0000) as u16);
    }

    /// Appends a 64-bit number, high byte first.
    pub fn write_u64(&mut self, v: u64)
        ensures
            final(self).written() == old(self).written() + be64_bytes(v as int),
    {
        self.write_u32((v / 0x1_0000_0000) as u32);
        self.write_u32((v % 0x1_0000_0000) as u32);
    }

    /// Appends a signed byte in two's complement.
    pub fn write_i8(&mut self, v: i8)
        ensures
            final(self).written() == old(self).written() + seq![untwos(v as int, 0x80) as u8],
    {
        if v >= 0 {
            self.write_u8(v as u8);
        } else {
            self.write_u8((v as i16 + 0x100) as u8);
        }
    }

    /// Appends a signed 16-bit number in two's complement, high byte first.
    pub fn write_i16(&mut self, v: i16)
        ensures
            final(self).written() == old(self).written() + be16_bytes(untwos(v as int, 0x8000)),
    {
        if v >= 0 {
            self.write_u16(v as u16);
        } else {
            self.write_u16((v as i32 + 0x1_0000) as u16);
        }
    }

    /// Appends a signed 32-bit number in two's complement, high byte first.
    pub fn write_i32(&mut self, v: i32)
        ensures
            final(self).written() == old(self).written() + be32_bytes(
                untwos(v as int, 0x8000_0000),
            ),
    {
        if v >= 0 {
            self.write_u32(v as u32);
        } else {
            self.write_u32((v as i64 + 0x1_0000_0000) as u32);
        }
    }

    /// Appends a signed 64-bit number in two's complement, high byte first.
    pub fn write_i64(&mut self, v: i64)
        ensures
            final(self).written() == old(self).written() + be64_bytes(
                untwos(v as int, 0x8000_0000_0000_0000),
            ),
    {
        if v >= 0 {
            self.write_u64(v as u64);
        } else {
            self.write_u64((v as i128 + 0x1_0000_0000_0000_0000) as u64);
        }
    }
}

/// Reading back two bytes that spell `v` gives `v`.
pub proof fn lemma_be16_read(s: Seq<u8>, pos: int, v: int)
    requires
        0 <= v < 0x1_0000,
        0 <= pos,
        pos + 2 <= s.len(),
        s.subrange(pos, pos + 2) == be16_bytes(v),
    ensures
        be16(s, pos) == v,
{
    let b = s.subrange(pos, pos + 2);
    assert(b[0] == s[pos] && b[1] == s[pos + 1]);
}

/// Reading back four bytes that spell `v` gives `v`.
pub proof fn lemma_be32_read(s: Seq<u8>, pos: int, v: int)
    requires
        0 <= v < 0x1_0000_0000,
        0 <= pos,
        pos + 4 <= s.len(),
        s.subrange(pos, pos + 4) == be32_bytes(v),
    ensures
        be32(s, pos) == v,
{
    let b = s.subrange(pos, pos + 4);
    assert(b.subrange(0, 2) =~= be16_bytes(v / 0x1_0000));
    assert(b.subrange(2, 4) =~= be16_bytes(v % 0x1_0000));
    assert(s.subrange(pos, pos + 2) =~= b.subrange(0, 2));
    assert(s.subrange(pos + 2, pos + 4) =~= b.subrange(2, 4));
    lemma_be16_read(s, pos, v / 0x1_0000);
    lemma_be16_read(s, pos + 2, v % 0x1_0000);
}

/// Reading back eight bytes that spell `v` gives `v`.
pub proof fn lemma_be64_read(s: Seq<u8>, pos: int, v: int)
    requires
        0 <= v < 0x1_0000_0000_0000_0000,
        0 <= pos,
        pos + 8 <= s.len(),
        s.subrange(pos, pos + 8) == be64_bytes(v),
    ensures
        be64(s, pos) == v,
{
    let b = s.subrange(pos, pos + 8);
    lemma_be32_len(v / 0x1_0000_0000);
    lemma_be32_len(v % 0x1_0000_0000);
    assert(b.subrange(0, 4) =~= be32_bytes(v / 0x1_0000_0000));
    assert(b.subrange(4, 8) =~= be32_bytes(v % 0x1_0000_0000));
    assert(s.subrange(pos, pos + 4) =~= b.subrange(0, 4));
    assert(s.subrange(pos + 4, pos + 8) =~= b.subrange(4, 8));
    lemma_be32_read(s, pos, v / 0x1_0000_0000);
    lemma_be32_read(s, pos + 4, v % 0x1_0000_0000);
}

/// A number takes four bytes.
pub proof fn lemma_be32_len(v: int)
    ensures
        be32_bytes(v).len() == 4,
{
}

/// A number takes eight bytes.
pub proof fn lemma_be64_len(v: int)
    ensures
        be64_bytes(v).len() == 8,
{
}

/// Two bytes of input are the bytes of the number they spell.
pub proof fn lemma_be16_written(s: Seq<u8>, pos: int)
    requires
        0 <= pos,
        pos + 2 <= s.len(),
    ensures
        0 <= be16(s, pos) < 0x1_0000,
        be16_bytes(be16(s, pos)) == s.subrange(pos, pos + 2),
{
    assert(be16_bytes(be16(s, pos)) =~= s.subrange(pos, pos + 2));
}

/// Four bytes of input are the bytes of the number they spell.
pub proof fn lemma_be32_written(s: Seq<u8>, pos: int)
    requires
        0 <= pos,
        pos + 4 <= s.len(),
    ensures
        0 <= be32(s, pos) < 0x1_0000_0000,
        be32_bytes(be32(s, pos)) == s.subrange(pos, pos + 4),
{
    lemma_be16_written(s, pos);
    lemma_be16_written(s, pos + 2);
    let v = be32(s, pos);
    assert(v / 0x1_0000 == be16(s, pos));
    assert(v % 0x1_0000 == be16(s, pos + 2));
    assert(s.subrange(pos, pos + 2) + s.subrange(pos + 2, pos + 4) =~= s.subrange(pos, pos + 4));
}

/// Eight bytes of input are the bytes of the number they spell.
pub proof fn lemma_be64_written(s: Seq<u8>, pos: int)
    requires
        0 <= pos,
        pos + 8 <= s.len(),
    ensures
        0 <= be64(s, pos) < 0x1_0000_0000_0000_0000,
        be64_bytes(be64(s, pos)) == s.subrange(pos, pos + 8),
{
    lemma_be32_written(s, pos);
    lemma_be32_written(s, pos + 4);
    let v = be64(s, pos);
    assert(v / 0x1_0000_0000 == be32(s, pos));
    assert(v % 0x1_0000_0000 == be32(s, pos + 4));
    assert(s.subrange(pos, pos + 4) + s.subrange(pos + 4, pos + 8) =~= s.subrange(pos, pos + 8));
}

} // verus!
