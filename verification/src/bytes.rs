//! Fixed-width unsigned integers in either byte order.
use vstd::prelude::*;

use crate::ir::Endian;
use crate::seqs::splice;

verus! {

/// The two bytes at `o`, read in byte order `e`.
#[verifier::opaque]
pub open spec fn u16_at(e: Endian, s: Seq<u8>, o: int) -> u16 {
    match e {
        Endian::Little => (s[o] + 0x100 * s[o + 1]) as u16,
        Endian::Big => (s[o + 1] + 0x100 * s[o]) as u16,
    }
}

/// The four bytes at `o`, read in byte order `e`.
#[verifier::opaque]
pub open spec fn u32_at(e: Endian, s: Seq<u8>, o: int) -> u32 {
    match e {
        Endian::Little => (s[o] + 0x100 * s[o + 1] + 0x1_0000 * s[o + 2] + 0x100_0000 * s[o
            + 3]) as u32,
        Endian::Big => (s[o + 3] + 0x100 * s[o + 2] + 0x1_0000 * s[o + 1] + 0x100_0000
            * s[o]) as u32,
    }
}

/// The eight bytes at `o`, read in byte order `e`.
#[verifier::opaque]
pub open spec fn u64_at(e: Endian, s: Seq<u8>, o: int) -> u64 {
    match e {
        Endian::Little => (u32_at(e, s, o) + 0x1_0000_0000 * u32_at(e, s, o + 4)) as u64,
        Endian::Big => (u32_at(e, s, o + 4) + 0x1_0000_0000 * u32_at(e, s, o)) as u64,
    }
}

/// `v` as two bytes in byte order `e`.
#[verifier::opaque]
pub open spec fn u16_bytes(e: Endian, v: u16) -> Seq<u8> {
    match e {
        Endian::Little => seq![(v % 0x100) as u8, (v / 0x100) as u8],
        Endian::Big => seq![(v / 0x100) as u8, (v % 0x100) as u8],
    }
}

/// `v` as four bytes in byte order `e`.
#[verifier::opaque]
pub open spec fn u32_bytes(e: Endian, v: u32) -> Seq<u8> {
    match e {
        Endian::Little => seq![
            (v % 0x100) as u8,
            (v / 0x100 % 0x100) as u8,
            (v / 0x1_0000 % 0x100) as u8,
            (v / 0x100_0000) as u8,
        ],
        Endian::Big => seq![
            (v / 0x100_0000) as u8,
            (v / 0x1_0000 % 0x100) as u8,
            (v / 0x100 % 0x100) as u8,
            (v % 0x100) as u8,
        ],
    }
}

/// `v` as eight bytes in byte order `e`.
#[verifier::opaque]
pub open spec fn u64_bytes(e: Endian, v: u64) -> Seq<u8> {
    let lo = (v % 0x1_0000_0000) as u32;
    let hi = (v / 0x1_0000_0000) as u32;
    match e {
        Endian::Little => u32_bytes(e, lo) + u32_bytes(e, hi),
        Endian::Big => u32_bytes(e, hi) + u32_bytes(e, lo),
    }
}

/// The widths of the encodings.
pub proof fn lemma_widths(e: Endian)
    ensures
        forall|v: u16| (#[trigger] u16_bytes(e, v)).len() == 2,
        forall|v: u32| (#[trigger] u32_bytes(e, v)).len() == 4,
        forall|v: u64| (#[trigger] u64_bytes(e, v)).len() == 8,
{
    reveal(u16_bytes);
    reveal(u32_bytes);
    reveal(u64_bytes);
}

/// Encoding then decoding sixteen bits gives the value back, wherever the
/// bytes stand.
pub proof fn lemma_u16_decode(e: Endian, v: u16, s: Seq<u8>, o: int)
    requires
        0 <= o,
        o + 2 <= s.len(),
        s.subrange(o, o + 2) == u16_bytes(e, v),
    ensures
        u16_at(e, s, o) == v,
{
    reveal(u16_at);
    reveal(u16_bytes);
    let b = s.subrange(o, o + 2);
    assert(b[0] == s[o] && b[1] == s[o + 1]);
}

/// A number is the sum of its four digits in base 256.
proof fn lemma_sum(v: u32)
    ensures
        v == v % 0x100 + 0x100 * (v / 0x100 % 0x100) + 0x1_0000 * (v / 0x1_0000 % 0x100)
            + 0x100_0000 * (v / 0x100_0000),
        v / 0x100_0000 < 0x100,
{
    assert(v / 0x1_0000 == v / 0x100 / 0x100);
    assert(v / 0x100_0000 == v / 0x1_0000 / 0x100);
}

/// Encoding then decoding thirty-two bits gives the value back, wherever the
/// bytes stand.
pub proof fn lemma_u32_decode(e: Endian, v: u32, s: Seq<u8>, o: int)
    requires
        0 <= o,
        o + 4 <= s.len(),
        s.subrange(o, o + 4) == u32_bytes(e, v),
    ensures
        u32_at(e, s, o) == v,
{
    reveal(u32_at);
    reveal(u32_bytes);
    let b = s.subrange(o, o + 4);
    assert(b[0] == s[o] && b[1] == s[o + 1] && b[2] == s[o + 2] && b[3] == s[o + 3]);
    lemma_sum(v);
}

/// Encoding then decoding sixty-four bits gives the value back, wherever the
/// bytes stand.
pub proof fn lemma_u64_decode(e: Endian, v: u64, s: Seq<u8>, o: int)
    requires
        0 <= o,
        o + 8 <= s.len(),
        s.subrange(o, o + 8) == u64_bytes(e, v),
    ensures
        u64_at(e, s, o) == v,
{
    reveal(u64_at);
    reveal(u64_bytes);
    lemma_widths(e);
    let lo = (v % 0x1_0000_0000) as u32;
    let hi = (v / 0x1_0000_0000) as u32;
    let b = s.subrange(o, o + 8);
    assert(s.subrange(o, o + 4) =~= b.subrange(0, 4));
    assert(s.subrange(o + 4, o + 8) =~= b.subrange(4, 8));
    match e {
        Endian::Little => {
            assert(b.subrange(0, 4) =~= u32_bytes(e, lo));
            assert(b.subrange(4, 8) =~= u32_bytes(e, hi));
            lemma_u32_decode(e, lo, s, o);
            lemma_u32_decode(e, hi, s, o + 4);
        },
        Endian::Big => {
            assert(b.subrange(0, 4) =~= u32_bytes(e, hi));
            assert(b.subrange(4, 8) =~= u32_bytes(e, lo));
            lemma_u32_decode(e, hi, s, o);
            lemma_u32_decode(e, lo, s, o + 4);
        },
    }
}

/// Decoding then encoding sixteen bits gives the bytes back.
pub proof fn lemma_u16_encode(e: Endian, s: Seq<u8>, o: int)
    requires
        0 <= o,
        o + 2 <= s.len(),
    ensures
        u16_bytes(e, u16_at(e, s, o)) == s.subrange(o, o + 2),
{
    reveal(u16_at);
    reveal(u16_bytes);
    assert(u16_bytes(e, u16_at(e, s, o)) =~= s.subrange(o, o + 2));
}

/// Four digits in base 256 are what dividing their sum finds.
proof fn lemma_digits(b0: u8, b1: u8, b2: u8, b3: u8)
    ensures
        ({
            let v = b0 + 0x100 * b1 + 0x1_0000 * b2 + 0x100_0000 * b3;
            &&& 0 <= v <= u32::MAX
            &&& v % 0x100 == b0
            &&& v / 0x100 % 0x100 == b1
            &&& v / 0x1_0000 % 0x100 == b2
            &&& v / 0x100_0000 == b3
        }),
{
    let v = b0 + 0x100 * b1 + 0x1_0000 * b2 + 0x100_0000 * b3;
    assert(v / 0x100 == b1 + 0x100 * b2 + 0x1_0000 * b3);
    assert(v / 0x1_0000 == b2 + 0x100 * b3);
}

/// Two digits in base 2^32 are what dividing their sum finds.
proof fn lemma_halves(lo: u32, hi: u32)
    ensures
        ({
            let v = (lo + 0x1_0000_0000 * hi) as u64;
            &&& (v % 0x1_0000_0000) as u32 == lo
            &&& (v / 0x1_0000_0000) as u32 == hi
        }),
{
}

/// Decoding then encoding thirty-two bits gives the bytes back.
pub proof fn lemma_u32_encode(e: Endian, s: Seq<u8>, o: int)
    requires
        0 <= o,
        o + 4 <= s.len(),
    ensures
        u32_bytes(e, u32_at(e, s, o)) == s.subrange(o, o + 4),
{
    reveal(u32_at);
    reveal(u32_bytes);
    match e {
        Endian::Little => lemma_digits(s[o], s[o + 1], s[o + 2], s[o + 3]),
        Endian::Big => lemma_digits(s[o + 3], s[o + 2], s[o + 1], s[o]),
    }
    assert(u32_bytes(e, u32_at(e, s, o)) =~= s.subrange(o, o + 4));
}

/// Decoding then encoding sixty-four bits gives the bytes back.
pub proof fn lemma_u64_encode(e: Endian, s: Seq<u8>, o: int)
    requires
        0 <= o,
        o + 8 <= s.len(),
    ensures
        u64_bytes(e, u64_at(e, s, o)) == s.subrange(o, o + 8),
{
    reveal(u64_at);
    reveal(u64_bytes);
    lemma_u32_encode(e, s, o);
    lemma_u32_encode(e, s, o + 4);
    match e {
        Endian::Little => lemma_halves(u32_at(e, s, o), u32_at(e, s, o + 4)),
        Endian::Big => lemma_halves(u32_at(e, s, o + 4), u32_at(e, s, o)),
    }
    assert(s.subrange(o, o + 4) + s.subrange(o + 4, o + 8) =~= s.subrange(o, o + 8));
}

impl Endian {
    /// Read two bytes at `o`.
    pub fn read_u16(self, b: &[u8], o: usize) -> (v: u16)
        requires
            o + 2 <= b.len(),
        ensures
            v == u16_at(self, b@, o as int),
    {
        reveal(u16_at);
        let (b0, b1): (u16, u16) = (b[o] as u16, b[o + 1] as u16);
        match self {
            Endian::Little => b0 + 0x100 * b1,
            Endian::Big => b1 + 0x100 * b0,
        }
    }

    /// Read four bytes at `o`.
    pub fn read_u32(self, b: &[u8], o: usize) -> (v: u32)
        requires
            o + 4 <= b.len(),
        ensures
            v == u32_at(self, b@, o as int),
    {
        reveal(u32_at);
        let (b0, b1): (u32, u32) = (b[o] as u32, b[o + 1] as u32);
        let (b2, b3): (u32, u32) = (b[o + 2] as u32, b[o + 3] as u32);
        match self {
            Endian::Little => b0 + 0x100 * b1 + 0x1_0000 * b2 + 0x100_0000 * b3,
            Endian::Big => b3 + 0x100 * b2 + 0x1_0000 * b1 + 0x100_0000 * b0,
        }
    }

    /// Read eight bytes at `o`.
    pub fn read_u64(self, b: &[u8], o: usize) -> (v: u64)
        requires
            o + 8 <= b.len(),
        ensures
            v == u64_at(self, b@, o as int),
    {
        reveal(u64_at);
        let head: u64 = self.read_u32(b, o) as u64;
        let tail: u64 = self.read_u32(b, o + 4) as u64;
        match self {
            Endian::Little => head + 0x1_0000_0000 * tail,
            Endian::Big => tail + 0x1_0000_0000 * head,
        }
    }

    /// Write `v` as two bytes at `o`.
    pub fn write_u16(self, b: &mut Vec<u8>, o: usize, v: u16)
        requires
            o + 2 <= old(b).len(),
        ensures
            final(b)@ == splice(old(b)@, o as int, u16_bytes(self, v)),
    {
        reveal(u16_bytes);
        let (lo, hi): (u8, u8) = ((v % 0x100) as u8, (v / 0x100) as u8);
        match self {
            Endian::Little => {
                b.set(o, lo);
                b.set(o + 1, hi);
            },
            Endian::Big => {
                b.set(o, hi);
                b.set(o + 1, lo);
            },
        }
        assert(b@ =~= splice(old(b)@, o as int, u16_bytes(self, v)));
    }

    /// Write `v` as four bytes at `o`.
    pub fn write_u32(self, b: &mut Vec<u8>, o: usize, v: u32)
        requires
            o + 4 <= old(b).len(),
        ensures
            final(b)@ == splice(old(b)@, o as int, u32_bytes(self, v)),
    {
        reveal(u32_bytes);
        let (v0, v1): (u8, u8) = ((v % 0x100) as u8, (v / 0x100 % 0x100) as u8);
        let (v2, v3): (u8, u8) = ((v / 0x1_0000 % 0x100) as u8, (v / 0x100_0000) as u8);
        match self {
            Endian::Little => {
                b.set(o, v0);
                b.set(o + 1, v1);
                b.set(o + 2, v2);
                b.set(o + 3, v3);
            },
            Endian::Big => {
                b.set(o, v3);
                b.set(o + 1, v2);
                b.set(o + 2, v1);
                b.set(o + 3, v0);
            },
        }
        assert(b@ =~= splice(old(b)@, o as int, u32_bytes(self, v)));
    }

    /// Write `v` as eight bytes at `o`.
    pub fn write_u64(self, b: &mut Vec<u8>, o: usize, v: u64)
        requires
            o + 8 <= old(b).len(),
        ensures
            final(b)@ == splice(old(b)@, o as int, u64_bytes(self, v)),
    {
        reveal(u64_bytes);
        proof {
            lemma_widths(self);
        }
        let lo: u32 = (v % 0x1_0000_0000) as u32;
        let hi: u32 = (v / 0x1_0000_0000) as u32;
        match self {
            Endian::Little => {
                self.write_u32(b, o, lo);
                self.write_u32(b, o + 4, hi);
            },
            Endian::Big => {
                self.write_u32(b, o, hi);
                self.write_u32(b, o + 4, lo);
            },
        }
        assert(b@ =~= splice(old(b)@, o as int, u64_bytes(self, v)));
    }
}

} // verus!
