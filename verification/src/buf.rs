use vstd::prelude::*;

verus! {

/// The byte at index `i` of `s`, or zero where `s` has no such index: what a
/// forward-only reader hands out at and beyond the end of its data.
pub open spec fn byte_at(s: Seq<u8>, i: int) -> u8 {
    if 0 <= i < s.len() {
        s[i]
    } else {
        0u8
    }
}

/// The first `n` bytes that a reader over `s` hands out: the bytes of `s`,
/// followed by zeros once `s` is used up.
pub open spec fn padded(s: Seq<u8>, n: nat) -> Seq<u8> {
    Seq::new(n, |i: int| byte_at(s, i))
}

/// What is left of `s` after `n` reads.
pub open spec fn rest(s: Seq<u8>, n: nat) -> Seq<u8> {
    if n <= s.len() {
        s.skip(n as int)
    } else {
        Seq::empty()
    }
}

/// The state of a forward-only byte source: the bytes that are still to be
/// read, and the flag that a read beyond the last byte raises.
pub struct Source {
    pub pending: Seq<u8>,
    pub eof: bool,
}

impl Source {
    /// The byte that the next read returns.
    pub open spec fn head(self) -> u8 {
        byte_at(self.pending, 0)
    }

    /// The state after `n` single-byte reads. The flag is raised as soon as
    /// one of them goes beyond the last byte, and stays raised.
    pub open spec fn advance(self, n: nat) -> Source {
        Source { pending: rest(self.pending, n), eof: self.eof || n > self.pending.len() }
    }

    /// The number of reads that a loop makes which asks for `n` bytes and
    /// stops at the first read that goes beyond the data: none where the
    /// flag is raised already, else `n`, or one more than there are bytes.
    pub open spec fn reach(self, n: nat) -> nat {
        if self.eof {
            0
        } else if n <= self.pending.len() {
            n
        } else {
            self.pending.len() + 1
        }
    }
}

/// The state of an append-only byte sink: the bytes that it holds, the
/// number of bytes it can still take (`None`: no limit), and the flag that a
/// write beyond that number raises.
pub struct Sink {
    pub bytes: Seq<u8>,
    pub room: Option<nat>,
    pub overflow: bool,
}

impl Sink {
    /// Whether `n` more bytes can be stored.
    pub open spec fn fits(self, n: nat) -> bool {
        match self.room {
            None => true,
            Some(r) => n <= r,
        }
    }

    /// The state after `data` was written byte by byte: the sink stores the
    /// longest prefix of `data` that it has room for, and raises the flag
    /// where a byte had to be dropped.
    pub open spec fn accept(self, data: Seq<u8>) -> Sink {
        match self.room {
            None => Sink { bytes: self.bytes + data, room: None, overflow: self.overflow },
            Some(r) => if data.len() <= r {
                Sink {
                    bytes: self.bytes + data,
                    room: Some((r - data.len()) as nat),
                    overflow: self.overflow,
                }
            } else {
                Sink { bytes: self.bytes + data.take(r as int), room: Some(0nat), overflow: true }
            },
        }
    }
}

/// A forward-only stream of bytes that is read one byte at a time.
pub trait ReadBuf {
    /// The bytes still to be read, and the end-of-data flag.
    spec fn source(&self) -> Source;

    /// The state in which a seek to `pos` leaves the stream. What a
    /// position means is up to the stream; for one that cannot seek this is
    /// the state as it is.
    spec fn sought(&self, pos: usize) -> Source;

    /// The position that a seek to `pos` returns: the one at which the
    /// stream then stands.
    spec fn sought_at(&self, pos: usize) -> usize;

    /// Moves the read position, and returns the position at which the
    /// stream then stands.
    fn seek(&mut self, pos: usize) -> (r: usize)
        ensures
            r == old(self).sought_at(pos),
            final(self).source() == old(self).sought(pos),
    ;

    /// Reads one byte. Beyond the last byte it returns zero and raises the
    /// end-of-data flag.
    fn readb(&mut self) -> (b: u8)
        ensures
            b == old(self).source().head(),
            final(self).source() == old(self).source().advance(1),
    ;

    /// Whether a read has gone beyond the last byte.
    fn past_eof(&mut self) -> (r: bool)
        ensures
            r == old(self).source().eof,
            final(self).source() == old(self).source(),
    ;
}

/// An append-only stream of bytes that is written one byte at a time.
pub trait AppendBuf {
    /// The bytes written so far, the room that is left, and the overflow flag.
    spec fn sink(&self) -> Sink;

    /// Appends one byte, or drops it and raises the overflow flag where the
    /// stream is full.
    fn writeb(&mut self, u: u8)
        ensures
            final(self).sink() == old(self).sink().accept(seq![u]),
    ;

    /// Whether handing buffered bytes on cannot fail: so for a stream that
    /// keeps its bytes itself, and not for one that hands them to a file.
    spec fn flush_is_sure(&self) -> bool;

    /// Hands buffered bytes on to where they are kept. Returns whether that
    /// succeeded; it does for a stream for which it cannot fail. The bytes
    /// written so far stay what they are.
    fn flush(&mut self) -> (ok: bool)
        ensures
            final(self).sink() == old(self).sink(),
            old(self).flush_is_sure() ==> ok,
            final(self).flush_is_sure() == old(self).flush_is_sure(),
    ;
}

/// Reading `a` bytes and then `b` bytes leaves what reading `a + b` bytes
/// leaves.
pub proof fn lemma_advance_advance(s: Source, a: nat, b: nat)
    ensures
        s.advance(a).advance(b) == s.advance(a + b),
{
    assert(rest(rest(s.pending, a), b) =~= rest(s.pending, a + b));
}

/// The bytes handed out by `a + b` reads are those of the first `a` reads
/// followed by those of the next `b` reads.
pub proof fn lemma_padded_split(s: Seq<u8>, a: nat, b: nat)
    ensures
        padded(s, a + b) == padded(s, a) + padded(rest(s, a), b),
{
    assert(padded(s, a + b) =~= padded(s, a) + padded(rest(s, a), b));
}

/// Writing `x` and then `y` leaves what writing `x + y` leaves.
pub proof fn lemma_accept_accept(k: Sink, x: Seq<u8>, y: Seq<u8>)
    ensures
        k.accept(x).accept(y) == k.accept(x + y),
{
    match k.room {
        None => {
            assert((k.bytes + x) + y =~= k.bytes + (x + y));
        },
        Some(r) => {
            if x.len() <= r {
                if y.len() <= r - x.len() {
                    assert((k.bytes + x) + y =~= k.bytes + (x + y));
                } else {
                    assert((k.bytes + x) + y.take(r - x.len()) =~= k.bytes + (x + y).take(
                        r as int,
                    ));
                }
            } else {
                assert(x.take(r as int) + y.take(0) =~= (x + y).take(r as int));
                assert((k.bytes + x.take(r as int)) + y.take(0) =~= k.bytes + (x + y).take(
                    r as int,
                ));
            }
        },
    }
}

/// Writing nothing changes nothing.
pub proof fn lemma_accept_empty(k: Sink)
    ensures
        k.accept(Seq::empty()) == k,
{
    assert(k.bytes + Seq::<u8>::empty() =~= k.bytes);
}

} // verus!
