use vstd::prelude::*;
use crate::buf::{AppendBuf, ReadBuf, Sink, Source};

verus! {

/// A byte buffer of fixed length in memory, with one position that reads and
/// writes share.
pub struct Vecbuf {
    buf: Vec<u8>,
    pos: usize,
    eof: bool,
}

impl Vecbuf {
    /// The bytes of the buffer.
    pub closed spec fn data(&self) -> Seq<u8> {
        self.buf@
    }

    /// The position of the next read or write.
    pub closed spec fn position(&self) -> nat {
        self.pos as nat
    }

    /// The flag that a read or a write beyond the end raises.
    pub closed spec fn flag(&self) -> bool {
        self.eof
    }

    /// A buffer of `size` zero bytes, positioned at its start.
    pub fn new(size: usize) -> (r: Vecbuf)
        ensures
            r.data() == Seq::new(size as nat, |i: int| 0u8),
            r.position() == 0,
            !r.flag(),
    {
        let mut vec: Vec<u8> = Vec::with_capacity(size);
        let mut i: usize = 0;
        while i < size
            invariant
                i <= size,
                vec@ == Seq::new(i as nat, |k: int| 0u8),
            decreases size - i,
        {
            vec.push(0u8);
            i += 1;
            assert(vec@ =~= Seq::new(i as nat, |k: int| 0u8));
        }
        Vecbuf { buf: vec, pos: 0, eof: false }
    }

    /// Moves the position back to the start. The flag stays as it is.
    pub fn reset(&mut self)
        ensures
            final(self).data() == old(self).data(),
            final(self).position() == 0,
            final(self).flag() == old(self).flag(),
    {
        self.pos = 0;
    }

    /// The length of the buffer.
    pub fn len(&self) -> (n: usize)
        ensures
            n == self.data().len(),
    {
        self.buf.len()
    }

    /// Raises the flag.
    pub fn set_eof(&mut self)
        ensures
            final(self).data() == old(self).data(),
            final(self).position() == old(self).position(),
            final(self).flag(),
    {
        self.eof = true;
    }

    /// The first `n` bytes of the buffer, or all of them where it is shorter.
    pub fn head(&self, n: usize) -> (v: Vec<u8>)
        ensures
            v@ == self.data().take(if n <= self.data().len() {
                n as int
            } else {
                self.data().len() as int
            }),
    {
        let mut out: Vec<u8> = Vec::new();
        let m: usize = if n <= self.buf.len() {
            n
        } else {
            self.buf.len()
        };
        let mut i: usize = 0;
        while i < m
            invariant
                i <= m,
                m <= self.buf.len(),
                out@ == self.buf@.take(i as int),
            decreases m - i,
        {
            out.push(self.buf[i]);
            i += 1;
            assert(out@ =~= self.buf@.take(i as int));
        }
        out
    }

    /// The position of the next read or write.
    pub fn tell(&self) -> (p: usize)
        ensures
            p == self.position(),
    {
        self.pos
    }
}

impl ReadBuf for Vecbuf {
    open spec fn source(&self) -> Source {
        Source {
            pending: if self.position() <= self.data().len() {
                self.data().skip(self.position() as int)
            } else {
                Seq::empty()
            },
            eof: self.flag(),
        }
    }

    open spec fn sought_at(&self, pos: usize) -> usize {
        if self.position() <= self.data().len() {
            pos
        } else {
            self.position() as usize
        }
    }

    open spec fn sought(&self, pos: usize) -> Source {
        Source {
            pending: if self.sought_at(pos) <= self.data().len() {
                self.data().skip(self.sought_at(pos) as int)
            } else {
                Seq::empty()
            },
            eof: self.sought_at(pos) >= self.data().len(),
        }
    }

    /// Sets the position, unless the buffer stands beyond its own end, and
    /// raises or lowers the flag by whether the position is at or beyond the
    /// end.
    fn seek(&mut self, pos: usize) -> (r: usize)
        ensures
            final(self).data() == old(self).data(),
            final(self).position() == if old(self).position() <= old(self).data().len() {
                pos as nat
            } else {
                old(self).position()
            },
            final(self).flag() == (final(self).position() >= old(self).data().len()),
            r == final(self).position(),
    {
        if self.pos <= self.buf.len() {
            self.pos = pos;
        }
        self.eof = self.pos >= self.buf.len();
        self.pos
    }

    fn readb(&mut self) -> (b: u8)
        ensures
            final(self).data() == old(self).data(),
    {
        if self.pos < self.buf.len() {
            let r = self.buf[self.pos];
            self.pos += 1;
            assert(self.source().pending =~= old(self).source().advance(1).pending);
            r
        } else {
            self.eof = true;
            assert(self.source().pending =~= old(self).source().advance(1).pending);
            0u8
        }
    }

    fn past_eof(&mut self) -> (r: bool)
        ensures
            final(self).data() == old(self).data(),
            final(self).position() == old(self).position(),
    {
        self.eof
    }
}

impl AppendBuf for Vecbuf {
    open spec fn sink(&self) -> Sink {
        if self.position() <= self.data().len() {
            Sink {
                bytes: self.data().take(self.position() as int),
                room: Some((self.data().len() - self.position()) as nat),
                overflow: self.flag(),
            }
        } else {
            Sink { bytes: self.data(), room: Some(0nat), overflow: self.flag() }
        }
    }

    open spec fn flush_is_sure(&self) -> bool {
        true
    }

    /// Stores the byte at the position and moves on, or raises the flag where
    /// the position is at or beyond the end.
    fn writeb(&mut self, u: u8)
        ensures
            old(self).position() < old(self).data().len() ==> final(self).data() == old(
                self,
            ).data().update(old(self).position() as int, u) && final(self).position() == old(
                self,
            ).position() + 1 && final(self).flag() == old(self).flag(),
            old(self).position() >= old(self).data().len() ==> final(self).data() == old(
                self,
            ).data() && final(self).position() == old(self).position() && final(self).flag(),
    {
        if self.pos >= self.buf.len() {
            self.eof = true;
            assert(self.sink().bytes =~= old(self).sink().accept(seq![u]).bytes);
        } else {
            self.buf.set(self.pos, u);
            self.pos += 1;
            assert(self.sink().bytes =~= old(self).sink().accept(seq![u]).bytes);
        }
    }

    /// A buffer in memory has nothing to hand on.
    fn flush(&mut self) -> (ok: bool)
        ensures
            ok,
            final(self).data() == old(self).data(),
            final(self).position() == old(self).position(),
            final(self).flag() == old(self).flag(),
    {
        true
    }
}

} // verus!
