//! The error model shared by the parsers, and a stream of characters that
//! can be rewound to a mark.

use vstd::prelude::*;
use vstd::string::*;
use crate::grammar::Fault;
use crate::source::ByteSource;

pub mod parsers;

verus! {

/// Error type for parsing issues
#[derive(Debug)]
pub enum ParseErr {
    /// Parser did not match expected input
    DidNotMatch,
    /// Bad data, plus message. Some unrecoverable error has occurred
    BadData(String),
    /// Underlying I/O error occurred, which is considered fatal
    Io(std::io::Error),
}

/// Custom type used for parser results
pub type ParseResult<T> = Result<T, ParseErr>;

impl From<std::io::Error> for ParseErr {
    fn from(io_err: std::io::Error) -> (r: ParseErr) {
        ParseErr::Io(io_err)
    }
}

impl vstd::std_specs::convert::FromSpecImpl<std::io::Error> for ParseErr {
    open spec fn obeys_from_spec() -> bool {
        true
    }

    open spec fn from_spec(io_err: std::io::Error) -> ParseErr {
        ParseErr::Io(io_err)
    }
}

impl ParseErr {
    /// Whether this error is the one that stands for the fault `f`.
    pub open spec fn reports(&self, f: Fault) -> bool {
        match (*self, f) {
            (ParseErr::DidNotMatch, Fault::NoMatch) => true,
            (ParseErr::BadData(msg), Fault::BadData(text)) => msg@ == text,
            _ => false,
        }
    }

    /// The error for a value that breaks the rule that `msg` names.
    pub fn bad_data(msg: &str) -> (e: ParseErr)
        ensures
            e.reports(Fault::BadData(msg@)),
    {
        ParseErr::BadData(String::from_str(msg))
    }
}

/// The fault of a byte that is no ASCII character.
pub open spec fn not_ascii() -> Fault {
    Fault::BadData("byte is not an ASCII character"@)
}

/// Struct that hands out the bytes of a source as characters, one at a time
pub struct Chars<R: ByteSource> {
    inner: R,
    /// Room for the one byte that a read asks for
    cell: Vec<u8>,
}

impl<R: ByteSource> Chars<R> {
    /// There is room for one byte.
    pub closed spec fn wf(&self) -> bool {
        self.cell@.len() == 1
    }

    /// The bytes that were not handed out yet.
    pub closed spec fn remaining(&self) -> Seq<u8> {
        self.inner.remaining()
    }

    /// Whether reading from the source never fails.
    pub closed spec fn reliable(&self) -> bool {
        self.inner.reliable()
    }

    /// Creates a new instance, owns the source
    pub fn new(b: R) -> (r: Chars<R>)
        ensures
            r.wf(),
            r.remaining() == b.remaining(),
            r.reliable() == b.reliable(),
    {
        Chars { inner: b, cell: vec![0u8; 1] }
    }

    /// The next byte as a character, `None` at the end of the source.
    pub fn next(&mut self) -> (r: Option<Result<char, std::io::Error>>)
        requires
            old(self).wf(),
        ensures
            final(self).wf(),
            final(self).reliable() == old(self).reliable(),
            match r {
                Some(Ok(c)) => {
                    &&& old(self).remaining().len() > 0
                    &&& c == old(self).remaining()[0] as char
                    &&& final(self).remaining() == old(self).remaining().skip(1)
                },
                Some(Err(_)) => !old(self).reliable() && final(self).remaining() == old(
                    self,
                ).remaining(),
                None => old(self).remaining().len() == 0 && final(self).remaining() == old(
                    self,
                ).remaining(),
            },
    {
        match self.inner.read(&mut self.cell) {
            Ok(n) => {
                if n == 0 {
                    assert(self.remaining() =~= old(self).remaining());
                    None
                } else {
                    assert(self.cell@.subrange(0, 1)[0] == old(self).remaining().subrange(0, 1)[0]);
                    // convert: a byte is a character of the same number
                    Some(Ok(self.cell[0] as char))
                }
            },
            Err(e) => Some(Err(e)),
        }
    }
}

/// A Mark in the buffer
#[derive(Debug, Clone, Copy, PartialEq, Eq, Structural)]
pub enum Mark {
    /// A position in the buffer
    Pos(usize),
}

/// A Re-windable stream of characters.
///
/// It keeps the bytes that were read since the last `accept`, so that reading
/// can go back to a mark in them and hand them out again.
pub struct RewindableChars<R: ByteSource> {
    chars: Chars<R>,
    buffer: Vec<u8>,
    pos: usize,
}

impl<R: ByteSource> RewindableChars<R> {
    /// The position lies in the bytes that are kept, or at their end.
    pub closed spec fn wf(&self) -> bool {
        self.chars.wf() && self.pos <= self.buffer@.len()
    }

    /// Every byte from the last `accept` on: those that are kept, then those
    /// that the source still holds.
    pub closed spec fn all(&self) -> Seq<u8> {
        self.buffer@ + self.chars.remaining()
    }

    /// The index in `all` of the byte that `next` hands out.
    pub closed spec fn pos(&self) -> nat {
        self.pos as nat
    }

    /// The number of bytes that are kept: a mark up to here can be gone back to.
    pub closed spec fn window(&self) -> nat {
        self.buffer@.len()
    }

    /// The bytes that are still to be handed out.
    pub open spec fn pending(&self) -> Seq<u8> {
        self.all().skip(self.pos() as int)
    }

    /// Whether reading from the source never fails.
    pub closed spec fn reliable(&self) -> bool {
        self.chars.reliable()
    }

    /// What holds of the position and the window in every state.
    pub proof fn lemma_bounds(&self)
        requires
            self.wf(),
        ensures
            self.pos() <= self.window() <= self.all().len(),
            self.pos() <= usize::MAX,
    {
    }

    pub fn new(b: R) -> (r: RewindableChars<R>)
        ensures
            r.wf(),
            r.all() == b.remaining(),
            r.pos() == 0,
            r.window() == 0,
            r.reliable() == b.reliable(),
    {
        let r = RewindableChars { chars: Chars::new(b), buffer: Vec::new(), pos: 0 };
        assert(r.all() =~= b.remaining());
        r
    }

    /// This stream after going back to the mark `m`.
    pub closed spec fn rewound(self, m: Mark) -> Self {
        RewindableChars {
            chars: self.chars,
            buffer: self.buffer,
            pos: if m->Pos_0 <= self.buffer@.len() {
                m->Pos_0
            } else {
                self.buffer@.len() as usize
            },
        }
    }

    /// Goes back to a mark; one that lies after the bytes that are kept
    /// stands for their end.
    pub fn rewind(&mut self, m: Mark)
        requires
            old(self).wf(),
        ensures
            *final(self) == old(self).rewound(m),
            final(self).wf(),
            final(self).all() == old(self).all(),
            final(self).window() == old(self).window(),
            final(self).reliable() == old(self).reliable(),
            final(self).pos() == if m->Pos_0 <= old(self).window() {
                m->Pos_0 as nat
            } else {
                old(self).window()
            },
    {
        match m {
            Mark::Pos(n) => {
                self.pos = if n <= self.buffer.len() {
                    n
                } else {
                    self.buffer.len()
                };
            },
        };
    }

    pub fn mark(&mut self) -> (m: Mark)
        requires
            old(self).wf(),
        ensures
            m == Mark::Pos(old(self).pos() as usize),
            m->Pos_0 == old(self).pos(),
            *final(self) == *old(self),
            final(self).wf(),
            final(self).all() == old(self).all(),
            final(self).window() == old(self).window(),
            final(self).pos() == old(self).pos(),
            final(self).reliable() == old(self).reliable(),
    {
        Mark::Pos(self.pos)
    }

    /// Accepts data read so far (forgets any current re-wind): the bytes
    /// that are kept are dropped, those that were not handed out again too.
    pub fn accept(&mut self) -> (m: Mark)
        requires
            old(self).wf(),
        ensures
            m == Mark::Pos(0),
            final(self).wf(),
            final(self).all() == old(self).all().skip(old(self).window() as int),
            final(self).window() == 0,
            final(self).pos() == 0,
            final(self).reliable() == old(self).reliable(),
    {
        self.buffer.clear();
        self.pos = 0;
        assert(self.all() =~= old(self).all().skip(old(self).window() as int));
        Mark::Pos(0)
    }

    /// Goes back one char
    pub fn backup(&mut self)
        requires
            old(self).wf(),
        ensures
            final(self).wf(),
            final(self).all() == old(self).all(),
            final(self).window() == old(self).window(),
            final(self).reliable() == old(self).reliable(),
            final(self).pos() == if old(self).pos() == 0 {
                0
            } else {
                (old(self).pos() - 1) as nat
            },
    {
        if self.pos != 0 {
            self.pos -= 1;
        }
    }

    /// The next character: the byte at the position, which then moves on by
    /// one. `None` at the end of the source. A byte above 127 is no character
    /// of this stream: it is passed over and reported.
    pub fn next(&mut self) -> (r: Option<ParseResult<char>>)
        requires
            old(self).wf(),
        ensures
            final(self).wf(),
            final(self).all() == old(self).all(),
            final(self).reliable() == old(self).reliable(),
            final(self).window() >= old(self).window(),
            final(self).window() >= final(self).pos(),
            match r {
                None => {
                    &&& old(self).pending().len() == 0
                    &&& final(self).pos() == old(self).pos()
                },
                Some(Ok(c)) => {
                    &&& old(self).pending().len() > 0
                    &&& old(self).pending()[0] < 128
                    &&& c == old(self).pending()[0] as char
                    &&& final(self).pos() == old(self).pos() + 1
                },
                Some(Err(e)) => if e is Io {
                    !old(self).reliable() && final(self).pos() == old(self).pos()
                } else {
                    &&& e.reports(not_ascii())
                    &&& old(self).pending().len() > 0
                    &&& old(self).pending()[0] >= 128
                    &&& final(self).pos() == old(self).pos() + 1
                },
            },
    {
        /* first we check our buffer and move the pointer along */
        let b: u8 = if self.pos < self.buffer.len() {
            self.pos += 1;
            self.buffer[self.pos - 1]
        } else {
            match self.chars.next() {
                Some(r) => {
                    match r {
                        Ok(c) => {
                            let b = c as u8;
                            self.buffer.push(b);
                            self.pos = self.buffer.len();
                            assert(self.all() =~= old(self).all());
                            b
                        },
                        Err(e) => {
                            return Some(Err(ParseErr::Io(e)));
                        },
                    }
                },
                None => {
                    assert(old(self).all() =~= old(self).buffer@);
                    return None;
                },
            }
        };
        if b > 127 {
            Some(Err(ParseErr::bad_data("byte is not an ASCII character")))
        } else {
            Some(Ok(b as char))
        }
    }
}

} // verus!
