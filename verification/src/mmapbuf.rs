use vstd::prelude::*;
use crate::buf::{ReadBuf, Source};
use memmap::Mmap;
use std::ops::Deref;

verus! {

/// A read-only memory map of the `memmap` crate.
#[verifier::external_type_specification]
#[verifier::external_body]
pub struct ExMmap(Mmap);

/// The bytes that a map holds. A map is made under the promise that the
/// mapped file is not changed while the map lives, so these are fixed.
pub uninterp spec fn mapped(m: Mmap) -> Seq<u8>;

/// `Mmap::deref`: the mapped bytes as a slice.
#[verifier::external_body]
pub(crate) fn map_bytes(m: &Mmap) -> (s: &[u8])
    ensures
        s@ == mapped(*m),
{
    m.deref()
}

/// A forward reader over a memory map.
pub struct MmapBuf {
    m: Mmap,
    pos: usize,
    eof: bool,
}

impl MmapBuf {
    /// The bytes of the map.
    pub closed spec fn data(&self) -> Seq<u8> {
        mapped(self.m)
    }

    /// The position of the next read.
    pub closed spec fn position(&self) -> nat {
        self.pos as nat
    }

    /// The flag that a read beyond the end raises.
    pub closed spec fn flag(&self) -> bool {
        self.eof
    }

    /// A reader at the start of the map.
    pub fn new(m: Mmap) -> (r: MmapBuf)
        ensures
            r.data() == mapped(m),
            r.position() == 0,
            !r.flag(),
    {
        MmapBuf { m, pos: 0, eof: false }
    }

    /// The number of mapped bytes.
    pub fn len(&self) -> (n: usize)
        ensures
            n == self.data().len(),
    {
        map_bytes(&self.m).len()
    }
}

impl ReadBuf for MmapBuf {
    open spec fn source(&self) -> Source {
        Source {
            pending: if self.position() <= self.data().len() {
                self.data().skip(self.position() as int)
            } else {
                Seq::empty()
            },
            eof: self.flag(),
        }
    }

    open spec fn sought_at(&self, pos: usize) -> usize {
        if pos >= self.data().len() {
            self.data().len() as usize
        } else {
            pos
        }
    }

    open spec fn sought(&self, pos: usize) -> Source {
        Source { pending: self.data().skip(self.sought_at(pos) as int), eof: false }
    }

    /// Moves to `pos`, or to the end where `pos` lies beyond it, and lowers
    /// the flag.
    fn seek(&mut self, pos: usize) -> (r: usize)
        ensures
            final(self).data() == old(self).data(),
            final(self).position() == if pos >= old(self).data().len() {
                old(self).data().len()
            } else {
                pos as nat
            },
            !final(self).flag(),
            r == final(self).position(),
    {
        let len = map_bytes(&self.m).len();
        if pos >= len {
            self.pos = len;
        } else {
            self.pos = pos;
        }
        self.eof = false;
        self.pos
    }

    fn readb(&mut self) -> (b: u8)
        ensures
            final(self).data() == old(self).data(),
    {
        let bytes = map_bytes(&self.m);
        if self.pos < bytes.len() {
            let u = bytes[self.pos];
            self.pos += 1;
            assert(self.source().pending =~= old(self).source().advance(1).pending);
            u
        } else {
            self.eof = true;
            assert(self.source().pending =~= old(self).source().advance(1).pending);
            0u8
        }
    }

    fn past_eof(&mut self) -> (r: bool)
        ensures
            final(self).data() == old(self).data(),
            final(self).position() == old(self).position(),
    {
        self.eof
    }
}

} // verus!
