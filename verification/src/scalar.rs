use vstd::prelude::*;
use crate::adlerbuf::{lemma_put_put, lemma_took_took, AppendBufAdler32, ReadBufAdler32};
use crate::buf::{byte_at, padded, rest, AppendBuf, ReadBuf};

verus! {

/// The two bytes of a 16-bit value, low byte first.
pub open spec fn u16_le(v: u16) -> Seq<u8> {
    seq![(v % 256) as u8, (v / 256) as u8]
}

/// The four bytes of a 32-bit value, low byte first.
pub open spec fn u32_le(v: u32) -> Seq<u8> {
    seq![
        (v % 256) as u8,
        (v / 0x100 % 256) as u8,
        (v / 0x1_0000 % 256) as u8,
        (v / 0x100_0000) as u8,
    ]
}

/// The eight bytes of a 64-bit value, low byte first.
pub open spec fn u64_le(v: u64) -> Seq<u8> {
    u32_le((v % 0x1_0000_0000) as u32) + u32_le((v / 0x1_0000_0000) as u32)
}

/// The 16-bit value that the next two bytes of a stream spell, low byte
/// first.
pub open spec fn le_u16(s: Seq<u8>) -> u16 {
    (byte_at(s, 0) + 0x100 * byte_at(s, 1)) as u16
}

/// The 32-bit value that the next four bytes of a stream spell, low byte
/// first.
pub open spec fn le_u32(s: Seq<u8>) -> u32 {
    (byte_at(s, 0) + 0x100 * byte_at(s, 1) + 0x1_0000 * byte_at(s, 2) + 0x100_0000 * byte_at(
        s,
        3,
    )) as u32
}

/// The 64-bit value that the next eight bytes of a stream spell, low byte
/// first.
pub open spec fn le_u64(s: Seq<u8>) -> u64 {
    (le_u32(s) + 0x1_0000_0000 * le_u32(rest(s, 4))) as u64
}

/// The number of bytes of the variable-length integer at the head of a
/// stream: every byte with its high bit set is followed by another one.
/// At the end of the data a read returns zero, which ends the integer.
pub open spec fn varint_len(s: Seq<u8>) -> nat
    decreases s.len(),
{
    if s.len() == 0 || s[0] < 128 {
        1
    } else {
        1 + varint_len(s.skip(1))
    }
}

/// The number that the variable-length integer at the head of a stream
/// spells: seven bits a byte, low group first.
pub open spec fn varint_nat(s: Seq<u8>) -> nat
    decreases s.len(),
{
    if s.len() == 0 {
        0
    } else if s[0] < 128 {
        s[0] as nat
    } else {
        (s[0] - 128) as nat + 128 * varint_nat(s.skip(1))
    }
}

/// The value that reading a variable-length integer yields: the number it
/// spells, or the largest `usize` where the number is larger than that.
pub open spec fn varint_value(s: Seq<u8>) -> usize {
    if varint_nat(s) <= usize::MAX {
        varint_nat(s) as usize
    } else {
        usize::MAX
    }
}

/// The bytes of a number as a variable-length integer: seven bits a byte,
/// low group first, the high bit set on every byte but the last. Zero takes
/// one byte.
pub open spec fn varint_bytes(v: nat) -> Seq<u8>
    decreases v,
{
    if v < 128 {
        seq![v as u8]
    } else {
        seq![(128 + v % 128) as u8] + varint_bytes(v / 128)
    }
}

/// A variable-length integer takes at least one byte.
pub proof fn lemma_varint_bytes_len(v: nat)
    ensures
        varint_bytes(v).len() >= 1,
    decreases v,
{
    if v >= 128 {
        lemma_varint_bytes_len(v / 128);
    }
}

/// Two bytes written low byte first read back as the value they came from,
/// whatever follows them.
pub proof fn lemma_u16_le_round_trip(v: u16, tail: Seq<u8>)
    ensures
        le_u16(u16_le(v) + tail) == v,
        u16_le(v).len() == 2,
{
    let s = u16_le(v) + tail;
    assert(s[0] == u16_le(v)[0] && s[1] == u16_le(v)[1]);
}

/// Four bytes written low byte first read back as the value they came from,
/// whatever follows them.
pub proof fn lemma_u32_le_round_trip(v: u32, tail: Seq<u8>)
    ensures
        le_u32(u32_le(v) + tail) == v,
        u32_le(v).len() == 4,
{
    let s = u32_le(v) + tail;
    assert(s[0] == u32_le(v)[0] && s[1] == u32_le(v)[1] && s[2] == u32_le(v)[2] && s[3] == u32_le(
        v,
    )[3]);
}

/// Eight bytes written low byte first read back as the value they came
/// from, whatever follows them.
pub proof fn lemma_u64_le_round_trip(v: u64, tail: Seq<u8>)
    ensures
        le_u64(u64_le(v) + tail) == v,
        u64_le(v).len() == 8,
{
    let lo = (v % 0x1_0000_0000) as u32;
    let hi = (v / 0x1_0000_0000) as u32;
    let s = u64_le(v) + tail;
    lemma_u32_le_round_trip(lo, u32_le(hi) + tail);
    lemma_u32_le_round_trip(hi, tail);
    assert(s =~= u32_le(lo) + (u32_le(hi) + tail));
    assert(rest(s, 4) =~= u32_le(hi) + tail);
}

/// A number written as a variable-length integer reads back as itself, and
/// the read takes exactly the bytes written, whatever follows them.
pub proof fn lemma_varint_round_trip(v: nat, tail: Seq<u8>)
    ensures
        varint_nat(varint_bytes(v) + tail) == v,
        varint_len(varint_bytes(v) + tail) == varint_bytes(v).len(),
    decreases v,
{
    let s = varint_bytes(v) + tail;
    if v < 128 {
        assert(s[0] == v as u8);
    } else {
        let head = seq![(128 + v % 128) as u8];
        assert(s[0] == (128 + v % 128) as u8);
        assert(s.skip(1) =~= varint_bytes(v / 128) + tail);
        lemma_varint_round_trip(v / 128, tail);
    }
}

/// A value that was written as a variable-length integer reads back as
/// itself. Zero is written as one zero byte.
pub proof fn lemma_varint_value_round_trip(v: usize, tail: Seq<u8>)
    ensures
        varint_value(varint_bytes(v as nat) + tail) == v,
        varint_bytes(0) == seq![0u8],
{
    lemma_varint_round_trip(v as nat, tail);
}

impl<'a, T: ReadBuf> ReadBufAdler32<'a, T> {
    /// Reads one byte.
    pub fn read_db(&mut self) -> (b: u8)
        ensures
            b == old(self).target.source().head(),
            final(self).took(*old(self), 1),
            *final(final(self).target) == *final(old(self).target),
    {
        self.readb()
    }

    /// Reads a 16-bit value, low byte first.
    pub fn read_dw_le(&mut self) -> (v: u16)
        ensures
            v == le_u16(old(self).target.source().pending),
            final(self).took(*old(self), 2),
            *final(final(self).target) == *final(old(self).target),
    {
        let ghost s0 = *self;
        let b0 = self.readb();
        let ghost s1 = *self;
        let b1 = self.readb();
        proof {
            lemma_took_took(s0, s1, *self, 1, 1);
        }
        (b0 as u16) + 0x100 * (b1 as u16)
    }

    /// Reads a 32-bit value, low byte first.
    pub fn read_dd_le(&mut self) -> (v: u32)
        ensures
            v == le_u32(old(self).target.source().pending),
            final(self).took(*old(self), 4),
            *final(final(self).target) == *final(old(self).target),
    {
        let ghost s0 = *self;
        let b0 = self.readb();
        let ghost s1 = *self;
        let b1 = self.readb();
        let ghost s2 = *self;
        let b2 = self.readb();
        let ghost s3 = *self;
        let b3 = self.readb();
        proof {
            lemma_took_took(s0, s1, s2, 1, 1);
            lemma_took_took(s0, s2, s3, 2, 1);
            lemma_took_took(s0, s3, *self, 3, 1);
        }
        (b0 as u32) + 0x100 * (b1 as u32) + 0x1_0000 * (b2 as u32) + 0x100_0000 * (b3 as u32)
    }

    /// Reads a 64-bit value, low byte first.
    pub fn read_dq_le(&mut self) -> (v: u64)
        ensures
            v == le_u64(old(self).target.source().pending),
            final(self).took(*old(self), 8),
            *final(final(self).target) == *final(old(self).target),
    {
        let ghost s0 = *self;
        let lo = self.read_dd_le();
        let ghost s1 = *self;
        let hi = self.read_dd_le();
        proof {
            lemma_took_took(s0, s1, *self, 4, 4);
        }
        (lo as u64) + 0x1_0000_0000 * (hi as u64)
    }

    /// Reads a variable-length integer: seven bits a byte, low group first,
    /// up to and including the first byte whose high bit is clear. A number
    /// too large for `usize` reads as the largest `usize`.
    #[verifier::rlimit(40)]
    pub fn read_varint(&mut self) -> (v: usize)
        ensures
            v == varint_value(old(self).target.source().pending),
            final(self).took(*old(self), varint_len(old(self).target.source().pending)),
            *final(final(self).target) == *final(old(self).target),
    {
        let ghost p0 = self.target.source().pending;
        let ghost mut k: nat = 0;
        let ghost mut acc: nat = 0;
        let ghost mut mult: nat = 1;
        let mut r: usize = 0;
        let mut m: usize = 1;
        proof {
            assert(rest(p0, 0) =~= p0);
            assert(padded(p0, 0) =~= Seq::<u8>::empty());
        }
        loop
            invariant_except_break
                self.took(*old(self), k),
                varint_nat(p0) == acc + mult * varint_nat(rest(p0, k)),
                varint_len(p0) == k + varint_len(rest(p0, k)),
                mult >= 1,
                r == if acc <= usize::MAX {
                    acc
                } else {
                    usize::MAX as nat
                },
                m == if mult <= usize::MAX {
                    mult
                } else {
                    usize::MAX as nat
                },
            invariant
                p0 == old(self).target.source().pending,
                *final(self.target) == *final(old(self).target),
            ensures
                r == varint_value(p0),
                self.took(*old(self), varint_len(p0)),
            decreases rest(p0, k).len(),
        {
            let ghost before = *self;
            let ghost here = rest(p0, k);
            let u = self.readb();
            proof {
                lemma_took_took(*old(self), before, *self, k, 1);
                assert(u == byte_at(here, 0));
                assert(rest(p0, k + 1) =~= rest(here, 1));
            }
            let low: usize = (u % 128) as usize;
            let term: usize = match low.checked_mul(m) {
                Some(t) => t,
                None => usize::MAX,
            };
            proof {
                assert(term == if low * mult <= usize::MAX {
                    low * mult
                } else {
                    usize::MAX as int
                }) by (nonlinear_arith)
                    requires
                        m == if mult <= usize::MAX {
                            mult
                        } else {
                            usize::MAX as nat
                        },
                        mult >= 1,
                        low < 128,
                        term == if low * m <= usize::MAX {
                            low * m
                        } else {
                            usize::MAX as int
                        },
                ;
            }
            r = match r.checked_add(term) {
                Some(x) => x,
                None => usize::MAX,
            };
            if u < 128 {
                proof {
                    assert(varint_nat(here) == u);
                    assert(varint_len(here) == 1);
                    assert(mult * varint_nat(here) == low * mult) by (nonlinear_arith)
                        requires
                            varint_nat(here) == low,
                    ;
                    k = k + 1;
                }
                break ;
            }
            proof {
                assert(here.len() > 0);
                assert(here.skip(1) =~= rest(here, 1));
                let next = varint_nat(rest(p0, k + 1));
                assert(varint_nat(here) == low + 128 * next);
                assert(mult * (low + 128 * next) == low * mult + (mult * 128) * next)
                    by (nonlinear_arith);
                acc = acc + (low as nat) * mult;
                mult = mult * 128;
                k = k + 1;
            }
            m = match m.checked_mul(128) {
                Some(x) => x,
                None => usize::MAX,
            };
        }
        r
    }
}

impl<'a, T: AppendBuf> AppendBufAdler32<'a, T> {
    /// Writes one byte.
    pub fn write_db(&mut self, v: u8)
        ensures
            final(self).put(*old(self), seq![v]),
            *final(final(self).target) == *final(old(self).target),
    {
        self.writeb(v);
    }

    /// Writes a 16-bit value, low byte first.
    pub fn write_dw_le(&mut self, v: u16)
        ensures
            final(self).put(*old(self), u16_le(v)),
            *final(final(self).target) == *final(old(self).target),
    {
        let ghost s0 = *self;
        self.writeb((v % 256) as u8);
        let ghost s1 = *self;
        self.writeb((v / 256) as u8);
        proof {
            lemma_put_put(s0, s1, *self, seq![(v % 256) as u8], seq![(v / 256) as u8]);
            assert(seq![(v % 256) as u8] + seq![(v / 256) as u8] =~= u16_le(v));
        }
    }

    /// Writes a 32-bit value, low byte first.
    pub fn write_dd_le(&mut self, v: u32)
        ensures
            final(self).put(*old(self), u32_le(v)),
            *final(final(self).target) == *final(old(self).target),
    {
        let ghost s0 = *self;
        let ghost e = u32_le(v);
        self.writeb((v % 256) as u8);
        let ghost s1 = *self;
        self.writeb((v / 0x100 % 256) as u8);
        let ghost s2 = *self;
        self.writeb((v / 0x1_0000 % 256) as u8);
        let ghost s3 = *self;
        self.writeb((v / 0x100_0000) as u8);
        proof {
            lemma_put_put(s0, s1, s2, seq![e[0]], seq![e[1]]);
            lemma_put_put(s0, s2, s3, seq![e[0]] + seq![e[1]], seq![e[2]]);
            lemma_put_put(s0, s3, *self, seq![e[0]] + seq![e[1]] + seq![e[2]], seq![e[3]]);
            assert(seq![e[0]] + seq![e[1]] + seq![e[2]] + seq![e[3]] =~= e);
        }
    }

    /// Writes a 64-bit value, low byte first.
    pub fn write_dq_le(&mut self, v: u64)
        ensures
            final(self).put(*old(self), u64_le(v)),
            *final(final(self).target) == *final(old(self).target),
    {
        let ghost s0 = *self;
        let lo: u32 = (v % 0x1_0000_0000) as u32;
        let hi: u32 = (v / 0x1_0000_0000) as u32;
        self.write_dd_le(lo);
        let ghost s1 = *self;
        self.write_dd_le(hi);
        proof {
            lemma_put_put(s0, s1, *self, u32_le(lo), u32_le(hi));
        }
    }

    /// Writes a variable-length integer: seven bits a byte, low group first,
    /// the high bit set on every byte but the last. At least one byte is
    /// written, also for zero.
    pub fn write_varint(&mut self, v: usize)
        ensures
            final(self).put(*old(self), varint_bytes(v as nat)),
            *final(final(self).target) == *final(old(self).target),
    {
        let mut r: usize = v;
        let ghost mut done: Seq<u8> = Seq::empty();
        proof {
            crate::buf::lemma_accept_empty(self.target.sink());
            assert(done + varint_bytes(r as nat) =~= varint_bytes(v as nat));
        }
        while r >= 128
            invariant
                self.put(*old(self), done),
                done + varint_bytes(r as nat) == varint_bytes(v as nat),
                *final(self.target) == *final(old(self).target),
            decreases r,
        {
            let ghost before = *self;
            let x7: u8 = (128 + r % 128) as u8;
            self.writeb(x7);
            proof {
                lemma_put_put(*old(self), before, *self, done, seq![x7]);
                assert((done + seq![x7]) + varint_bytes((r / 128) as nat) =~= done + varint_bytes(
                    r as nat,
                ));
                done = done + seq![x7];
            }
            r = r / 128;
        }
        let ghost before = *self;
        self.writeb(r as u8);
        proof {
            lemma_put_put(*old(self), before, *self, done, seq![r as u8]);
        }
    }
}

/// Reads one byte.
pub fn read_db<B: ReadBuf>(b: &mut B) -> (v: u8)
    ensures
        v == old(b).source().head(),
        final(b).source() == old(b).source().advance(1),
{
    b.readb()
}

/// Reads a 16-bit value, low byte first.
pub fn read_dw_le<B: ReadBuf>(b: &mut B) -> (v: u16)
    ensures
        v == le_u16(old(b).source().pending),
        final(b).source() == old(b).source().advance(2),
{
    let mut w = ReadBufAdler32::new(b);
    w.read_dw_le()
}

/// Reads a 32-bit value, low byte first.
pub fn read_dd_le<B: ReadBuf>(b: &mut B) -> (v: u32)
    ensures
        v == le_u32(old(b).source().pending),
        final(b).source() == old(b).source().advance(4),
{
    let mut w = ReadBufAdler32::new(b);
    w.read_dd_le()
}

/// Reads a 64-bit value, low byte first.
pub fn read_dq_le<B: ReadBuf>(b: &mut B) -> (v: u64)
    ensures
        v == le_u64(old(b).source().pending),
        final(b).source() == old(b).source().advance(8),
{
    let mut w = ReadBufAdler32::new(b);
    w.read_dq_le()
}

/// Reads a variable-length integer. A number too large for `usize` reads as
/// the largest `usize`.
pub fn read_varint<B: ReadBuf>(b: &mut B) -> (v: usize)
    ensures
        v == varint_value(old(b).source().pending),
        final(b).source() == old(b).source().advance(varint_len(old(b).source().pending)),
{
    let mut w = ReadBufAdler32::new(b);
    w.read_varint()
}

/// Hands buffered bytes on to where they are kept. Returns whether that
/// succeeded; it does for a stream for which it cannot fail.
pub fn flush_buf<B: AppendBuf>(b: &mut B) -> (ok: bool)
    ensures
        final(b).sink() == old(b).sink(),
        old(b).flush_is_sure() ==> ok,
        final(b).flush_is_sure() == old(b).flush_is_sure(),
{
    b.flush()
}

/// Writes one byte.
pub fn write_db<B: AppendBuf>(b: &mut B, v: u8)
    ensures
        final(b).sink() == old(b).sink().accept(seq![v]),
{
    b.writeb(v);
}

/// Writes a 16-bit value, low byte first.
pub fn write_dw_le<B: AppendBuf>(b: &mut B, v: u16)
    ensures
        final(b).sink() == old(b).sink().accept(u16_le(v)),
{
    let mut w = AppendBufAdler32::new(b);
    w.write_dw_le(v);
}

/// Writes a 32-bit value, low byte first.
pub fn write_dd_le<B: AppendBuf>(b: &mut B, v: u32)
    ensures
        final(b).sink() == old(b).sink().accept(u32_le(v)),
{
    let mut w = AppendBufAdler32::new(b);
    w.write_dd_le(v);
}

/// Writes a 64-bit value, low byte first.
pub fn write_dq_le<B: AppendBuf>(b: &mut B, v: u64)
    ensures
        final(b).sink() == old(b).sink().accept(u64_le(v)),
{
    let mut w = AppendBufAdler32::new(b);
    w.write_dq_le(v);
}

/// Writes a variable-length integer; at least one byte, also for zero.
pub fn write_varint<B: AppendBuf>(b: &mut B, v: usize)
    ensures
        final(b).sink() == old(b).sink().accept(varint_bytes(v as nat)),
{
    let mut w = AppendBufAdler32::new(b);
    w.write_varint(v);
}

} // verus!
