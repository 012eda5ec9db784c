use vstd::prelude::*;

verus! {

/// The buffer of a reader that takes its bytes from a file chunk by chunk.
/// The owner of the file hands each chunk in; the buffer hands the bytes
/// out one by one and keeps track of the end of the data.
pub struct ReadChunk {
    buf: Vec<u8>,
    bpos: usize,
    bsize: usize,
    eof: bool,
    beyond: bool,
}

impl ReadChunk {
    /// The size of a full chunk.
    pub closed spec fn capacity(&self) -> nat {
        self.buf@.len()
    }

    /// The bytes of the current chunk that are still to be handed out.
    pub closed spec fn window(&self) -> Seq<u8> {
        self.buf@.subrange(self.bpos as int, self.bsize as int)
    }

    /// Whether the last chunk was the last one of the file: it was shorter
    /// than a full chunk, or reading it failed.
    pub closed spec fn last_chunk(&self) -> bool {
        self.eof
    }

    /// Whether a byte was asked for after the last byte of the file.
    pub closed spec fn went_beyond(&self) -> bool {
        self.beyond
    }

    pub closed spec fn wf(&self) -> bool {
        self.bpos <= self.bsize <= self.buf@.len()
    }

    /// A buffer for chunks of `bufsize` bytes, with nothing in it yet.
    pub fn new(bufsize: usize) -> (r: ReadChunk)
        ensures
            r.wf(),
            r.capacity() == bufsize,
            r.window() == Seq::<u8>::empty(),
            !r.last_chunk(),
            !r.went_beyond(),
    {
        let mut vec: Vec<u8> = Vec::with_capacity(bufsize);
        let mut i: usize = 0;
        while i < bufsize
            invariant
                i <= bufsize,
                vec@.len() == i,
            decreases bufsize - i,
        {
            vec.push(0u8);
            i += 1;
        }
        let r = ReadChunk { buf: vec, bpos: 0, bsize: 0, eof: false, beyond: false };
        assert(r.window() =~= Seq::<u8>::empty());
        r
    }

    /// The size of a full chunk.
    pub fn chunk_size(&self) -> (n: usize)
        ensures
            n == self.capacity(),
    {
        self.buf.len()
    }

    /// Whether the next byte can only come from another chunk.
    pub fn wants_refill(&self) -> (r: bool)
        requires
            self.wf(),
        ensures
            r == (self.window().len() == 0 && !self.last_chunk()),
    {
        self.bpos >= self.bsize && !self.eof
    }

    /// Takes in the next chunk of the file: the bytes read, or nothing
    /// where reading failed. A chunk that is shorter than a full one, and a
    /// failure, mark the end of the file.
    pub fn refill(&mut self, chunk: Option<&[u8]>)
        requires
            old(self).wf(),
            chunk matches Some(c) ==> c@.len() <= old(self).capacity(),
        ensures
            final(self).wf(),
            final(self).capacity() == old(self).capacity(),
            final(self).went_beyond() == old(self).went_beyond(),
            match chunk {
                Some(c) => final(self).window() == c@ && final(self).last_chunk() == (c@.len()
                    < old(self).capacity()),
                None => final(self).window() == Seq::<u8>::empty() && final(self).last_chunk(),
            },
    {
        match chunk {
            Some(c) => {
                let n = c.len();
                let mut i: usize = 0;
                while i < n
                    invariant
                        i <= n,
                        n == c@.len(),
                        n <= self.buf@.len(),
                        self.buf@.len() == old(self).buf@.len(),
                        self.beyond == old(self).beyond,
                        self.buf@.subrange(0, i as int) == c@.subrange(0, i as int),
                    decreases n - i,
                {
                    self.buf.set(i, c[i]);
                    i += 1;
                    assert(self.buf@.subrange(0, i as int) =~= c@.subrange(0, i as int));
                }
                self.bsize = n;
                self.eof = n < self.buf.len();
                self.bpos = 0;
                assert(c@.subrange(0, n as int) =~= c@);
            },
            None => {
                self.bsize = 0;
                self.eof = true;
                self.bpos = 0;
                assert(self.window() =~= Seq::<u8>::empty());
            },
        }
    }

    /// Hands out the next byte, or zero where the file has no more.
    pub fn take(&mut self) -> (b: u8)
        requires
            old(self).wf(),
            !(old(self).window().len() == 0 && !old(self).last_chunk()),
        ensures
            final(self).wf(),
            final(self).capacity() == old(self).capacity(),
            final(self).last_chunk() == old(self).last_chunk(),
            old(self).window().len() > 0 ==> b == old(self).window()[0] && final(self).window()
                == old(self).window().skip(1) && final(self).went_beyond() == old(
                self,
            ).went_beyond(),
            old(self).window().len() == 0 ==> b == 0 && final(self).window() == old(self).window()
                && final(self).went_beyond(),
    {
        if self.bpos < self.bsize {
            let c = self.buf[self.bpos];
            self.bpos += 1;
            assert(self.window() =~= old(self).window().skip(1));
            c
        } else {
            self.beyond = true;
            0u8
        }
    }

    /// Whether all bytes of the file have been handed out, as far as is
    /// known: the current chunk is used up and was the last one.
    pub fn drained(&self) -> (r: bool)
        requires
            self.wf(),
        ensures
            r == (self.window().len() == 0 && self.last_chunk()),
    {
        self.bpos >= self.bsize && self.eof
    }

    /// Whether a byte was asked for after the last byte of the file.
    pub fn beyond_end(&self) -> (r: bool)
        ensures
            r == self.went_beyond(),
    {
        self.beyond
    }
}

/// The buffer of a writer that hands its bytes on to a file chunk by chunk.
pub struct WriteChunk {
    buf: Vec<u8>,
    bpos: usize,
}

impl WriteChunk {
    /// The size of a full chunk.
    pub closed spec fn capacity(&self) -> nat {
        self.buf@.len()
    }

    /// The bytes that wait to be handed on.
    pub closed spec fn held(&self) -> Seq<u8> {
        self.buf@.subrange(0, self.bpos as int)
    }

    pub closed spec fn wf(&self) -> bool {
        self.bpos <= self.buf@.len()
    }

    /// A buffer for chunks of `bufsize` bytes.
    pub fn new(bufsize: usize) -> (r: WriteChunk)
        ensures
            r.wf(),
            r.capacity() == bufsize,
            r.held() == Seq::<u8>::empty(),
    {
        let mut vec: Vec<u8> = Vec::with_capacity(bufsize);
        let mut i: usize = 0;
        while i < bufsize
            invariant
                i <= bufsize,
                vec@.len() == i,
            decreases bufsize - i,
        {
            vec.push(0u8);
            i += 1;
        }
        let r = WriteChunk { buf: vec, bpos: 0 };
        assert(r.held() =~= Seq::<u8>::empty());
        r
    }

    /// Whether the bytes held have to be handed on before another byte can
    /// be taken.
    pub fn is_full(&self) -> (r: bool)
        requires
            self.wf(),
        ensures
            r == (self.held().len() >= self.capacity()),
    {
        self.bpos >= self.buf.len()
    }

    /// Takes a byte.
    pub fn put(&mut self, b: u8)
        requires
            old(self).wf(),
            old(self).held().len() < old(self).capacity(),
        ensures
            final(self).wf(),
            final(self).capacity() == old(self).capacity(),
            final(self).held() == old(self).held().push(b),
    {
        let n = self.buf.len();
        self.buf.set(self.bpos, b);
        self.bpos += 1;
        assert(self.held() =~= old(self).held().push(b));
    }

    /// A copy of the bytes that wait to be handed on.
    pub fn pending(&self) -> (v: Vec<u8>)
        requires
            self.wf(),
        ensures
            v@ == self.held(),
    {
        let mut out: Vec<u8> = Vec::new();
        let mut i: usize = 0;
        while i < self.bpos
            invariant
                i <= self.bpos,
                self.wf(),
                out@ == self.buf@.subrange(0, i as int),
            decreases self.bpos - i,
        {
            out.push(self.buf[i]);
            i += 1;
            assert(out@ =~= self.buf@.subrange(0, i as int));
        }
        out
    }

    /// Forgets the bytes held, after they were handed on.
    pub fn clear(&mut self)
        requires
            old(self).wf(),
        ensures
            final(self).wf(),
            final(self).capacity() == old(self).capacity(),
            final(self).held() == Seq::<u8>::empty(),
    {
        self.bpos = 0;
        assert(self.held() =~= Seq::<u8>::empty());
    }
}

} // verus!
