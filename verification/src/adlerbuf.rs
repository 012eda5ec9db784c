use vstd::prelude::*;
use crate::buf::{padded, rest, AppendBuf, ReadBuf, Sink, Source};
use adler32::RollingAdler32;

verus! {

/// The rolling Adler-32 state of the `adler32` crate. Nothing of its inside
/// is visible here.
#[verifier::external_type_specification]
#[verifier::external_body]
pub struct ExRollingAdler32(RollingAdler32);

/// The 32-bit value that `RollingAdler32::hash` returns for a state.
pub uninterp spec fn adler_value(r: RollingAdler32) -> u32;

/// The Adler-32 value after one more byte: the low half is the running sum
/// of the bytes, the high half the running sum of the low halves, both
/// modulo 65521.
pub open spec fn adler_step(h: u32, byte: u8) -> u32 {
    let a = (h % 65536 + byte) % 65521;
    let b = (h / 65536 + a) % 65521;
    (b * 65536 + a) as u32
}

/// The Adler-32 value after the bytes of `data`, fed in order, starting
/// from the value `h`.
pub open spec fn adler_fold(h: u32, data: Seq<u8>) -> u32
    decreases data.len(),
{
    if data.len() == 0 {
        h
    } else {
        adler_step(adler_fold(h, data.drop_last()), data.last())
    }
}

/// The checksum of a whole region: Adler-32 starts from the value 1.
pub open spec fn adler32_of(data: Seq<u8>) -> u32 {
    adler_fold(1, data)
}

/// `RollingAdler32::from_value` splits the value into its two halves, and
/// `hash` joins the halves again: the state's value is the one given.
pub assume_specification[ RollingAdler32::from_value ](v: u32) -> (r: RollingAdler32)
    ensures
        adler_value(r) == v,
;

/// `RollingAdler32::update` adds the byte to the low half and the new low
/// half to the high half, each modulo 65521.
pub assume_specification[ RollingAdler32::update ](r: &mut RollingAdler32, byte: u8)
    ensures
        adler_value(*final(r)) == adler_step(adler_value(*old(r)), byte),
;

/// `RollingAdler32::hash` returns the high half shifted left by sixteen
/// bits, joined with the low half.
pub assume_specification[ RollingAdler32::hash ](r: &RollingAdler32) -> (h: u32)
    ensures
        h == adler_value(*r),
;

/// Feeding one more byte is one more step.
pub proof fn lemma_adler_fold_push(h: u32, data: Seq<u8>, b: u8)
    ensures
        adler_fold(h, data.push(b)) == adler_step(adler_fold(h, data), b),
{
    assert(data.push(b).drop_last() =~= data);
}

/// Feeding `x` and then `y` is feeding `x + y`.
pub proof fn lemma_adler_fold_concat(h: u32, x: Seq<u8>, y: Seq<u8>)
    ensures
        adler_fold(h, x + y) == adler_fold(adler_fold(h, x), y),
    decreases y.len(),
{
    if y.len() == 0 {
        assert(x + y =~= x);
    } else {
        lemma_adler_fold_concat(h, x, y.drop_last());
        assert((x + y).drop_last() =~= x + y.drop_last());
    }
}

/// A reader that feeds every byte it reads from an inner stream to a rolling
/// Adler-32 state, which starts from 1. It lives for one checksummed region.
pub struct ReadBufAdler32<'a, T: ReadBuf> {
    pub adler32: RollingAdler32,
    pub target: &'a mut T,
}

/// A writer that feeds every byte it writes to an inner stream to a rolling
/// Adler-32 state, which starts from 1. It lives for one checksummed region.
pub struct AppendBufAdler32<'a, T: AppendBuf> {
    pub adler32: RollingAdler32,
    pub target: &'a mut T,
}

impl<'a, T: ReadBuf> ReadBufAdler32<'a, T> {
    /// The checksum of the bytes read so far.
    pub open spec fn sum(&self) -> u32 {
        adler_value(self.adler32)
    }

    /// Whether this state is what `n` reads make of the state `before`: the
    /// inner stream is `n` bytes further, and the checksum has taken in the
    /// bytes that those reads returned.
    pub open spec fn took(self, before: Self, n: nat) -> bool {
        &&& self.target.source() == before.target.source().advance(n)
        &&& self.sum() == adler_fold(before.sum(), padded(before.target.source().pending, n))
    }

    pub fn new(b: &'a mut T) -> (r: ReadBufAdler32<'a, T>)
        ensures
            r.sum() == 1,
            *r.target == *old(b),
            *final(r.target) == *final(b),
    {
        ReadBufAdler32 { adler32: RollingAdler32::from_value(1), target: b }
    }

    pub fn hash(&self) -> (h: u32)
        ensures
            h == self.sum(),
    {
        self.adler32.hash()
    }
}

impl<'a, T: AppendBuf> AppendBufAdler32<'a, T> {
    /// The checksum of the bytes written so far.
    pub open spec fn sum(&self) -> u32 {
        adler_value(self.adler32)
    }

    /// Whether this state is what writing `data` makes of the state
    /// `before`: the inner stream has been offered `data`, and the checksum
    /// has taken in all of it, also what the inner stream had to drop.
    pub open spec fn put(self, before: Self, data: Seq<u8>) -> bool {
        &&& self.target.sink() == before.target.sink().accept(data)
        &&& self.sum() == adler_fold(before.sum(), data)
    }

    pub fn new(b: &'a mut T) -> (r: AppendBufAdler32<'a, T>)
        ensures
            r.sum() == 1,
            *r.target == *old(b),
            *final(r.target) == *final(b),
    {
        AppendBufAdler32 { adler32: RollingAdler32::from_value(1), target: b }
    }

    pub fn hash(&self) -> (h: u32)
        ensures
            h == self.sum(),
    {
        self.adler32.hash()
    }
}

impl<'a, T: ReadBuf> ReadBuf for ReadBufAdler32<'a, T> {
    open spec fn source(&self) -> Source {
        self.target.source()
    }

    open spec fn sought(&self, pos: usize) -> Source {
        self.target.sought(pos)
    }

    open spec fn sought_at(&self, pos: usize) -> usize {
        self.target.sought_at(pos)
    }

    /// Moves the read position of the inner stream, and returns what that
    /// returns. The checksum stays as it is: it is the checksum of the
    /// bytes read, wherever they stood.
    fn seek(&mut self, pos: usize) -> (r: usize)
        ensures
            final(self).sum() == old(self).sum(),
            *final(final(self).target) == *final(old(self).target),
    {
        self.target.seek(pos)
    }

    fn readb(&mut self) -> (b: u8)
        ensures
            final(self).took(*old(self), 1),
            *final(final(self).target) == *final(old(self).target),
    {
        let b = self.target.readb();
        self.adler32.update(b);
        proof {
            let p = old(self).target.source().pending;
            assert(padded(p, 1) =~= Seq::<u8>::empty().push(b));
            lemma_adler_fold_push(old(self).sum(), Seq::empty(), b);
        }
        b
    }

    fn past_eof(&mut self) -> (r: bool)
        ensures
            final(self).sum() == old(self).sum(),
            *final(final(self).target) == *final(old(self).target),
    {
        self.target.past_eof()
    }
}

impl<'a, T: AppendBuf> AppendBuf for AppendBufAdler32<'a, T> {
    open spec fn sink(&self) -> Sink {
        self.target.sink()
    }

    fn writeb(&mut self, u: u8)
        ensures
            final(self).put(*old(self), seq![u]),
            *final(final(self).target) == *final(old(self).target),
    {
        self.target.writeb(u);
        self.adler32.update(u);
        proof {
            assert(seq![u] =~= Seq::<u8>::empty().push(u));
            lemma_adler_fold_push(old(self).sum(), Seq::empty(), u);
        }
    }

    open spec fn flush_is_sure(&self) -> bool {
        self.target.flush_is_sure()
    }

    /// Has the inner stream hand its buffered bytes on, and returns whether
    /// that succeeded. The checksum stays as it is.
    fn flush(&mut self) -> (ok: bool)
        ensures
            final(self).sum() == old(self).sum(),
            *final(final(self).target) == *final(old(self).target),
    {
        self.target.flush()
    }
}

/// `n` reads and then `m` reads are `n + m` reads.
pub proof fn lemma_took_took<'a, T: ReadBuf>(
    a: ReadBufAdler32<'a, T>,
    b: ReadBufAdler32<'a, T>,
    c: ReadBufAdler32<'a, T>,
    n: nat,
    m: nat,
)
    requires
        b.took(a, n),
        c.took(b, m),
    ensures
        c.took(a, n + m),
{
    let p = a.target.source().pending;
    crate::buf::lemma_advance_advance(a.target.source(), n, m);
    crate::buf::lemma_padded_split(p, n, m);
    lemma_adler_fold_concat(a.sum(), padded(p, n), padded(rest(p, n), m));
}

/// Writing `x` and then `y` is writing `x + y`.
pub proof fn lemma_put_put<'a, T: AppendBuf>(
    a: AppendBufAdler32<'a, T>,
    b: AppendBufAdler32<'a, T>,
    c: AppendBufAdler32<'a, T>,
    x: Seq<u8>,
    y: Seq<u8>,
)
    requires
        b.put(a, x),
        c.put(b, y),
    ensures
        c.put(a, x + y),
{
    crate::buf::lemma_accept_accept(a.target.sink(), x, y);
    lemma_adler_fold_concat(a.sum(), x, y);
}

} // verus!
