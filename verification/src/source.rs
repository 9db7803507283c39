//! The byte source that a parser reads from, one that lives in memory, and
//! one that is fed chunk by chunk.

use vstd::prelude::*;
use vstd::string::*;

verus! {

/// The error of a failed read, as the standard library defines it. Nothing
/// inside it is visible to proofs: it is only carried to the caller.
#[verifier::external_type_specification]
#[verifier::external_body]
pub struct ExIoError(std::io::Error);

/// Anything that hands out a document's bytes in order, a chunk at a time.
///
/// `remaining` is every byte that the source has still to hand out. A read
/// moves a prefix of it into the front of the caller's buffer. A read that
/// moves nothing into a buffer with room means that the source is exhausted.
/// A read that fails has moved nothing.
pub trait ByteSource {
    /// The bytes that have not been handed out yet, in order.
    spec fn remaining(&self) -> Seq<u8>;

    /// The bytes that have been handed out, in order. Together with those
    /// that remain they are the document.
    spec fn delivered(&self) -> Seq<u8>;

    /// Whether reading from this source never fails.
    spec fn reliable(&self) -> bool;

    /// Fills the front of `buf` with the next bytes and returns how many were
    /// written. The length of `buf` is the room on offer and does not change.
    fn read(&mut self, buf: &mut Vec<u8>) -> (r: Result<usize, std::io::Error>)
        ensures
            final(buf)@.len() == old(buf)@.len(),
            final(self).reliable() == old(self).reliable(),
            match r {
                Ok(n) => {
                    &&& n <= old(buf)@.len()
                    &&& n <= old(self).remaining().len()
                    &&& final(buf)@.subrange(0, n as int) == old(self).remaining().subrange(
                        0,
                        n as int,
                    )
                    &&& final(self).remaining() == old(self).remaining().skip(n as int)
                    &&& final(self).delivered() == old(self).delivered() + old(
                        self,
                    ).remaining().take(n as int)
                    &&& (n == 0 && old(buf)@.len() > 0 ==> old(self).remaining().len() == 0)
                },
                Err(_) => {
                    &&& !old(self).reliable()
                    &&& final(self).remaining() == old(self).remaining()
                    &&& final(self).delivered() == old(self).delivered()
                },
            },
    ;
}

/// A source that holds the whole document in memory and hands out at most
/// `chunk` bytes for each read.
pub struct MemSource {
    data: Vec<u8>,
    pos: usize,
    chunk: usize,
}

impl MemSource {
    /// The bytes not handed out yet.
    pub closed spec fn unread(&self) -> Seq<u8> {
        if self.pos <= self.data@.len() {
            self.data@.skip(self.pos as int)
        } else {
            Seq::empty()
        }
    }

    /// The bytes handed out.
    pub closed spec fn read_so_far(&self) -> Seq<u8> {
        if self.pos <= self.data@.len() {
            self.data@.take(self.pos as int)
        } else {
            self.data@
        }
    }

    /// The most bytes that one read hands out.
    pub closed spec fn chunk_len(&self) -> nat {
        if self.chunk == 0 {
            1
        } else {
            self.chunk as nat
        }
    }

    /// A source of the bytes of `data`; each read hands out as many as fit.
    pub fn new(data: Vec<u8>) -> (r: MemSource)
        ensures
            r.unread() == data@,
            r.read_so_far() == Seq::<u8>::empty(),
            r.chunk_len() == usize::MAX,
    {
        let r = MemSource { data, pos: 0, chunk: usize::MAX };
        assert(r.read_so_far() =~= Seq::<u8>::empty());
        r
    }

    /// A source of the bytes of `data` that hands out at most `chunk` bytes
    /// for each read, and one byte where `chunk` is zero.
    pub fn with_chunk(data: Vec<u8>, chunk: usize) -> (r: MemSource)
        ensures
            r.unread() == data@,
            r.read_so_far() == Seq::<u8>::empty(),
            r.chunk_len() == if chunk == 0 { 1 } else { chunk as nat },
    {
        let r = MemSource { data, pos: 0, chunk };
        assert(r.read_so_far() =~= Seq::<u8>::empty());
        r
    }

    /// A source of the UTF-8 bytes of `text`.
    pub fn from_text(text: &str) -> (r: MemSource)
        ensures
            r.unread() == text.spec_bytes(),
            r.read_so_far() == Seq::<u8>::empty(),
            r.chunk_len() == usize::MAX,
    {
        MemSource::new(text.as_bytes_vec())
    }
}

impl ByteSource for MemSource {
    open spec fn remaining(&self) -> Seq<u8> {
        self.unread()
    }

    open spec fn delivered(&self) -> Seq<u8> {
        self.read_so_far()
    }

    open spec fn reliable(&self) -> bool {
        true
    }

    fn read(&mut self, buf: &mut Vec<u8>) -> (r: Result<usize, std::io::Error>)
        ensures
            r is Ok,
            r->Ok_0 as nat == vstd::math::min(
                vstd::math::min(old(buf)@.len() as int, old(self).unread().len() as int),
                old(self).chunk_len() as int,
            ),
            final(self).chunk_len() == old(self).chunk_len(),
    {
        let mut n: usize = 0;
        if self.pos > self.data.len() {
            assert(self.read_so_far() =~= self.read_so_far() + self.unread().take(0));
            return Ok(0);
        }
        let ghost start = self.pos;
        while n < buf.len() && self.pos < self.data.len() && (n < self.chunk || n == 0)
            invariant
                buf@.len() == old(buf)@.len(),
                self.data == old(self).data,
                self.chunk == old(self).chunk,
                start == old(self).pos,
                self.pos == start + n,
                self.pos <= self.data@.len(),
                n <= buf@.len(),
                n <= self.chunk_len(),
                forall|i: int| 0 <= i < n ==> buf@[i] == self.data@[start + i],
            decreases buf@.len() - n,
        {
            let b = self.data[self.pos];
            buf[n] = b;
            n += 1;
            self.pos += 1;
        }
        assert(buf@.subrange(0, n as int) =~= old(self).unread().subrange(0, n as int));
        assert(self.unread() =~= old(self).unread().skip(n as int));
        assert(self.read_so_far() =~= old(self).read_so_far() + old(self).unread().take(n as int));
        Ok(n)
    }
}

/// A source that is fed: its bytes are put in chunk by chunk from outside,
/// and read from the other end. A read hands out what has been put in and
/// not been read yet, and nothing where there is none. The bytes that were
/// read are kept until they are let go, so that reading can go back.
pub struct Feed {
    data: Vec<u8>,
    pos: usize,
}

impl Feed {
    /// The read position lies in the bytes that are held.
    #[verifier::type_invariant]
    spec fn inv(&self) -> bool {
        self.pos <= self.data@.len()
    }

    /// The bytes that were put in and not read yet.
    pub closed spec fn queued(&self) -> Seq<u8> {
        self.data@.skip(self.pos as int)
    }

    /// The bytes that were read and are kept.
    pub closed spec fn kept(&self) -> Seq<u8> {
        self.data@.take(self.pos as int)
    }

    /// A feed without bytes.
    pub fn new() -> (r: Feed)
        ensures
            r.queued() == Seq::<u8>::empty(),
            r.kept() == Seq::<u8>::empty(),
    {
        let r = Feed { data: Vec::new(), pos: 0 };
        assert(r.queued() =~= Seq::<u8>::empty());
        assert(r.kept() =~= Seq::<u8>::empty());
        r
    }

    /// Puts the bytes of `chunk` in, after those that are there.
    pub fn push(&mut self, chunk: &[u8])
        ensures
            final(self).kept() == old(self).kept(),
            final(self).queued() == old(self).queued() + chunk@,
    {
        proof {
            use_type_invariant(&*self);
        }
        let mut all: Vec<u8> = Vec::new();
        all.extend_from_slice(self.data.as_slice());
        all.extend_from_slice(chunk);
        self.data = all;
        assert(self.queued() =~= old(self).queued() + chunk@);
        assert(self.kept() =~= old(self).kept());
    }

    /// Whether any byte is queued.
    pub fn has_queued(&self) -> (r: bool)
        ensures
            r == (self.queued().len() > 0),
    {
        proof {
            use_type_invariant(self);
        }
        self.pos < self.data.len()
    }

    /// The number of bytes that were read and are kept.
    pub fn kept_len(&self) -> (r: usize)
        ensures
            r == self.kept().len(),
    {
        proof {
            use_type_invariant(self);
        }
        self.pos
    }

    /// Goes back: the last `n` bytes that were read are queued again.
    pub fn unread(&mut self, n: usize)
        requires
            n <= old(self).kept().len(),
        ensures
            final(self).kept() == old(self).kept().take(old(self).kept().len() - n),
            final(self).queued() == old(self).kept().skip(old(self).kept().len() - n) + old(
                self,
            ).queued(),
    {
        proof {
            use_type_invariant(&*self);
        }
        self.pos = self.pos - n;
        assert(self.kept() =~= old(self).kept().take(old(self).kept().len() - n));
        assert(self.queued() =~= old(self).kept().skip(old(self).kept().len() - n) + old(
            self,
        ).queued());
    }

    /// Lets go of the bytes that were read, but for the last `n` of them.
    pub fn forget(&mut self, n: usize)
        requires
            n <= old(self).kept().len(),
        ensures
            final(self).kept() == old(self).kept().skip(old(self).kept().len() - n),
            final(self).queued() == old(self).queued(),
    {
        proof {
            use_type_invariant(&*self);
        }
        let from = self.pos - n;
        if from > 0 {
            let mut left: Vec<u8> = Vec::new();
            left.extend_from_slice(
                vstd::slice::slice_subrange(self.data.as_slice(), from, self.data.len()),
            );
            self.pos = n;
            self.data = left;
        }
        assert(self.kept() =~= old(self).kept().skip(old(self).kept().len() - n));
        assert(self.queued() =~= old(self).queued());
    }
}

impl ByteSource for Feed {
    open spec fn remaining(&self) -> Seq<u8> {
        self.queued()
    }

    open spec fn delivered(&self) -> Seq<u8> {
        self.kept()
    }

    open spec fn reliable(&self) -> bool {
        true
    }

    fn read(&mut self, buf: &mut Vec<u8>) -> (r: Result<usize, std::io::Error>)
        ensures
            r is Ok,
    {
        proof {
            use_type_invariant(&*self);
        }
        let mut n: usize = 0;
        let ghost start = self.pos;
        while n < buf.len() && self.pos < self.data.len()
            invariant
                buf@.len() == old(buf)@.len(),
                self.data == old(self).data,
                start == old(self).pos,
                self.pos == start + n,
                self.pos <= self.data@.len(),
                n <= buf@.len(),
                forall|i: int| 0 <= i < n ==> buf@[i] == self.data@[start + i],
            decreases buf@.len() - n,
        {
            let b = self.data[self.pos];
            buf[n] = b;
            n += 1;
            self.pos += 1;
        }
        assert(buf@.subrange(0, n as int) =~= old(self).queued().subrange(0, n as int));
        assert(self.queued() =~= old(self).queued().skip(n as int));
        assert(self.kept() =~= old(self).kept() + old(self).queued().take(n as int));
        Ok(n)
    }
}

} // verus!
