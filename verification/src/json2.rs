//! Json tokenizer that pulls one event at a time from a byte source.

use vstd::prelude::*;
use vstd::string::*;
use vstd::utf8::{encode_scalar, encode_utf8_valid_utf8, valid_utf8};
use crate::classify::{digit_byte, is_digit, is_whitespace};
use crate::grammar::{
    Advance, array_step, bump, counted, digit_class, digit_count, digit_tail, digits_len, escape,
    Fault, hex4, hex_digits, hex_value, JsonStackItem, lemma_hex4_bound, lemma_number_text_is_ascii,
    lemma_run_len_content, lemma_run_len_is, lemma_skip_ws_done, lemma_skip_ws_step,
    lemma_string_body_plain_run, next_step, object_step, plain_byte, plain_class, run_len, RunKind,
    Scan, scan_keyword, scan_number, scan_string, scan_value, separator, skip_ws, string_body,
    Token, U8_0, U8_9, U8_COLON, U8_COMMA, U8_END_ARR, U8_END_OBJ, U8_ESCAPE, U8_MINUS, U8_PERIOD,
    U8_QUOTE, U8_START_ARR, U8_START_OBJ, unicode_escape, word_false, word_null, word_true,
};
use crate::internals::{ParseErr, ParseResult};
use crate::laws::law_stack_after_pull;
use crate::locality::law_more_input;
use crate::source::{ByteSource, Feed};
use crate::text::{lemma_ascii_is_utf8, push_scalar};

verus! {

/// The number of bytes that the read buffer holds.
pub const BUFFER_SIZE: usize = 8 * 1024;

/// One unit of tokenizer output. The text of a string or a number is lent
/// by the tokenizer and stays as it is until the next pull.
#[derive(Debug)]
pub enum JsonEvent2<'a> {
    /// A string value
    String(&'a str),
    /// Even though it is a number, we leave it to the client to decide what
    /// to coerce it into (int, float or other)
    Number(&'a str),
    /// Bool is true or false
    Boolean(bool),
    /// Null keyword
    Null,
    ObjectStart,
    ObjectEnd,
    ArrayStart,
    ArrayEnd,
}

impl<'a> View for JsonEvent2<'a> {
    type V = Token;

    open spec fn view(&self) -> Token {
        match *self {
            JsonEvent2::String(s) => Token::String(s.spec_bytes()),
            JsonEvent2::Number(s) => Token::Number(s.spec_bytes()),
            JsonEvent2::Boolean(b) => Token::Boolean(b),
            JsonEvent2::Null => Token::Null,
            JsonEvent2::ObjectStart => Token::ObjectStart,
            JsonEvent2::ObjectEnd => Token::ObjectEnd,
            JsonEvent2::ArrayStart => Token::ArrayStart,
            JsonEvent2::ArrayEnd => Token::ArrayEnd,
        }
    }
}

/// These functions are mainly used to support test cases
impl<'a> JsonEvent2<'a> {
    pub fn is_string(&self) -> (r: bool)
        ensures
            r == (self@ is String),
    {
        match self {
            JsonEvent2::String(_) => true,
            _ => false,
        }
    }

    pub fn is_number(&self) -> (r: bool)
        ensures
            r == (self@ is Number),
    {
        match self {
            JsonEvent2::Number(_) => true,
            _ => false,
        }
    }

    pub fn is_null(&self) -> (r: bool)
        ensures
            r == (self@ is Null),
    {
        match self {
            JsonEvent2::Null => true,
            _ => false,
        }
    }

    pub fn is_bool(&self) -> (r: bool)
        ensures
            r == (self@ is Boolean),
    {
        match self {
            JsonEvent2::Boolean(_) => true,
            _ => false,
        }
    }

    pub fn is_obj_start(&self) -> (r: bool)
        ensures
            r == (self@ is ObjectStart),
    {
        match self {
            JsonEvent2::ObjectStart => true,
            _ => false,
        }
    }

    pub fn is_obj_end(&self) -> (r: bool)
        ensures
            r == (self@ is ObjectEnd),
    {
        match self {
            JsonEvent2::ObjectEnd => true,
            _ => false,
        }
    }

    pub fn is_arr_start(&self) -> (r: bool)
        ensures
            r == (self@ is ArrayStart),
    {
        match self {
            JsonEvent2::ArrayStart => true,
            _ => false,
        }
    }

    pub fn is_arr_end(&self) -> (r: bool)
        ensures
            r == (self@ is ArrayEnd),
    {
        match self {
            JsonEvent2::ArrayEnd => true,
            _ => false,
        }
    }
}

pub struct JsonParser<R: ByteSource> {
    /// Where the document comes from
    read: R,
    /// The read buffer; its length is its capacity and never changes
    buffer: Vec<u8>,
    /// The next unread offset in the buffer
    buf_pos: usize,
    /// The number of valid bytes in the buffer
    buf_len: usize,
    /// Collects the text of the value being scanned
    string_buff: Vec<u8>,
    /// The open containers, outermost first
    stack: Vec<JsonStackItem>,
}

impl<R: ByteSource> JsonParser<R> {
    /// The buffer holds `buf_pos <= buf_len <= capacity`, and has room. The
    /// bytes in it that were not consumed yet are the last that the source
    /// has handed out.
    pub closed spec fn wf(&self) -> bool {
        &&& self.buf_pos <= self.buf_len <= self.buffer@.len()
        &&& self.buffer@.len() > 0
        &&& self.buffered().len() <= self.read.delivered().len()
        &&& self.read.delivered().skip(self.at()) == self.buffered()
    }

    /// The whole document: what the source has handed out and what it still
    /// holds.
    pub closed spec fn whole(&self) -> Seq<u8> {
        self.read.delivered() + self.read.remaining()
    }

    /// The number of bytes of the document that were consumed.
    pub closed spec fn at(&self) -> int {
        self.read.delivered().len() - self.buffered().len()
    }

    /// Whether this parser is `before` further on in the same document.
    pub open spec fn continues(&self, before: &Self) -> bool {
        &&& self.whole() == before.whole()
        &&& self.at() >= before.at()
    }

    /// The bytes that were not consumed yet are the document from the place
    /// that the parser is at.
    pub proof fn lemma_rest_is_whole_from_at(&self)
        requires
            self.wf(),
        ensures
            0 <= self.at() <= self.whole().len(),
            self.rest() == self.whole().skip(self.at()),
    {
        assert(self.rest() =~= self.whole().skip(self.at()));
    }

    /// The buffered bytes that were not consumed yet.
    pub closed spec fn buffered(&self) -> Seq<u8> {
        self.buffer@.subrange(self.buf_pos as int, self.buf_len as int)
    }

    /// Every byte of the document that was not consumed yet: those in the
    /// buffer, then those that the source still holds.
    pub closed spec fn rest(&self) -> Seq<u8> {
        self.buffered() + self.read.remaining()
    }

    /// The open containers, outermost first.
    pub closed spec fn stack(&self) -> Seq<JsonStackItem> {
        self.stack@
    }

    /// The text collected for the value being scanned.
    pub closed spec fn text(&self) -> Seq<u8> {
        self.string_buff@
    }

    /// Whether reading from the source never fails.
    pub closed spec fn reliable(&self) -> bool {
        self.read.reliable()
    }

    /// Binds one source; does not read anything yet.
    pub fn new(r: R) -> (p: JsonParser<R>)
        ensures
            p.wf(),
            p.rest() == r.remaining(),
            p.whole() == r.delivered() + r.remaining(),
            p.at() == r.delivered().len(),
            p.stack() == Seq::<JsonStackItem>::empty(),
            p.reliable() == r.reliable(),
    {
        let p = JsonParser {
            read: r,
            buffer: vec![0u8; BUFFER_SIZE],
            buf_pos: 0,
            buf_len: 0,
            string_buff: Vec::with_capacity(300),
            stack: Vec::with_capacity(10),
        };
        assert(p.buffered() =~= Seq::<u8>::empty());
        assert(p.rest() =~= r.remaining());
        assert(p.read.delivered().skip(p.at()) =~= p.buffered());
        p
    }

    /// Replaces the drained buffer by the next chunk from the source.
    fn replace_buffer(&mut self) -> (r: ParseResult<()>)
        requires
            old(self).wf(),
            old(self).buffered().len() == 0,
        ensures
            final(self).wf(),
            final(self).continues(old(self)),
            final(self).stack() == old(self).stack(),
            final(self).text() == old(self).text(),
            final(self).reliable() == old(self).reliable(),
            match r {
                Ok(_) => {
                    &&& final(self).rest() == old(self).rest()
                    &&& final(self).buffered().len() == 0 ==> final(self).rest().len() == 0
                },
                Err(e) => e is Io && !old(self).reliable(),
            },
    {
        self.buf_pos = 0;
        self.buf_len = 0;
        match self.read.read(&mut self.buffer) {
            Ok(n) => {
                self.buf_len = n;
                assert(self.buffered() =~= old(self).read.remaining().take(n as int));
                assert(self.rest() =~= old(self).rest());
                assert(self.whole() =~= old(self).whole());
                assert(self.read.delivered().skip(self.at()) =~= self.buffered());
                Ok(())
            },
            Err(io) => {
                assert(self.whole() =~= old(self).whole());
                assert(self.read.delivered().skip(self.at()) =~= self.buffered());
                Err(ParseErr::Io(io))
            },
        }
    }

    /// Refills the buffer if it is drained. After it the buffer holds a byte
    /// unless the document is at its end.
    #[inline]
    fn ensure_buffer(&mut self) -> (r: ParseResult<()>)
        requires
            old(self).wf(),
        ensures
            final(self).wf(),
            final(self).continues(old(self)),
            final(self).stack() == old(self).stack(),
            final(self).text() == old(self).text(),
            final(self).reliable() == old(self).reliable(),
            match r {
                Ok(_) => {
                    &&& final(self).rest() == old(self).rest()
                    &&& final(self).buffered().len() == 0 ==> final(self).rest().len() == 0
                },
                Err(e) => e is Io && !old(self).reliable(),
            },
    {
        if self.buf_pos >= self.buf_len {
            self.replace_buffer()?;
        }
        Ok(())
    }

    /// "Peek" the next byte: used to check what the next token is, and to
    /// consume it only if it is the one looked for.
    #[inline]
    fn peek(&mut self) -> (r: ParseResult<Option<u8>>)
        requires
            old(self).wf(),
        ensures
            final(self).wf(),
            final(self).continues(old(self)),
            final(self).stack() == old(self).stack(),
            final(self).text() == old(self).text(),
            final(self).reliable() == old(self).reliable(),
            match r {
                Ok(Some(b)) => {
                    &&& final(self).rest() == old(self).rest()
                    &&& final(self).buffered().len() > 0
                    &&& final(self).rest().len() > 0
                    &&& final(self).rest()[0] == b
                },
                Ok(None) => final(self).rest() == old(self).rest() && old(self).rest().len() == 0,
                Err(e) => e is Io && !old(self).reliable(),
            },
    {
        self.ensure_buffer()?;
        if self.buf_pos < self.buf_len {
            assert(self.buffered()[0] == self.buffer@[self.buf_pos as int]);
            Ok(Some(self.buffer[self.buf_pos]))
        } else {
            Ok(None)
        }
    }

    /// Consumes the byte that `peek` has shown.
    #[inline]
    fn advance(&mut self)
        requires
            old(self).wf(),
            old(self).buffered().len() > 0,
        ensures
            final(self).wf(),
            final(self).continues(old(self)),
            final(self).stack() == old(self).stack(),
            final(self).text() == old(self).text(),
            final(self).reliable() == old(self).reliable(),
            final(self).rest() == old(self).rest().skip(1),
            final(self).buffered() == old(self).buffered().skip(1),
    {
        self.buf_pos += 1;
        assert(self.buffered() =~= old(self).buffered().skip(1));
        assert(self.rest() =~= old(self).rest().skip(1));
        assert(self.read.delivered().skip(self.at()) =~= self.buffered());
    }

    /// If current position matches the byte, eat it and return true
    #[inline]
    fn consume_if(&mut self, b: u8) -> (r: ParseResult<bool>)
        requires
            old(self).wf(),
        ensures
            final(self).wf(),
            final(self).continues(old(self)),
            final(self).stack() == old(self).stack(),
            final(self).text() == old(self).text(),
            final(self).reliable() == old(self).reliable(),
            match r {
                Ok(eaten) => {
                    &&& eaten == (old(self).rest().len() > 0 && old(self).rest()[0] == b)
                    &&& final(self).rest() == if eaten {
                        old(self).rest().skip(1)
                    } else {
                        old(self).rest()
                    }
                },
                Err(e) => e is Io && !old(self).reliable(),
            },
    {
        match self.peek()? {
            Some(c) => {
                if c == b {
                    self.advance();
                    Ok(true)
                } else {
                    Ok(false)
                }
            },
            None => Ok(false),
        }
    }

    /// Moves on until the next byte is not whitespace
    #[inline]
    fn skip_whitespace(&mut self) -> (r: ParseResult<()>)
        requires
            old(self).wf(),
        ensures
            final(self).wf(),
            final(self).continues(old(self)),
            final(self).stack() == old(self).stack(),
            final(self).text() == old(self).text(),
            final(self).reliable() == old(self).reliable(),
            match r {
                Ok(_) => final(self).rest() == skip_ws(old(self).rest()),
                Err(e) => e is Io && !old(self).reliable(),
            },
    {
        loop
            invariant
                self.wf(),
                self.continues(old(self)),
                self.stack() == old(self).stack(),
                self.text() == old(self).text(),
                self.reliable() == old(self).reliable(),
                skip_ws(self.rest()) == skip_ws(old(self).rest()),
            decreases self.rest().len(),
        {
            proof {
                lemma_skip_ws_step(self.rest());
            }
            match self.peek()? {
                Some(x) => {
                    if is_whitespace(x) {
                        self.advance();
                    } else {
                        return Ok(());
                    }
                },
                None => {
                    return Ok(());
                },
            }
        }
    }

    /// Consumes the byte `c`, which must be the next one.
    #[inline]
    fn match_char(&mut self, c: u8) -> (r: ParseResult<()>)
        requires
            old(self).wf(),
        ensures
            final(self).wf(),
            final(self).continues(old(self)),
            final(self).stack() == old(self).stack(),
            final(self).text() == old(self).text(),
            final(self).reliable() == old(self).reliable(),
            match r {
                Ok(_) => {
                    &&& old(self).rest().len() > 0 && old(self).rest()[0] == c
                    &&& final(self).rest() == old(self).rest().skip(1)
                },
                Err(ParseErr::DidNotMatch) => old(self).rest().len() == 0 || old(self).rest()[0]
                    != c,
                Err(e) => e is Io && !old(self).reliable(),
            },
    {
        if self.consume_if(c)? {
            Ok(())
        } else {
            Err(ParseErr::DidNotMatch)
        }
    }

    /// Takes the run of `kind` at the current position into the text: in
    /// each buffer it finds where the run ends, four bytes at a time and
    /// then byte by byte, and copies it in one piece. Returns whether the run
    /// holds any byte.
    #[verifier::rlimit(80)]
    fn take_run(&mut self, kind: RunKind) -> (r: ParseResult<bool>)
        requires
            old(self).wf(),
        ensures
            final(self).wf(),
            final(self).continues(old(self)),
            final(self).stack() == old(self).stack(),
            final(self).reliable() == old(self).reliable(),
            match r {
                Ok(any) => {
                    let n = run_len(old(self).rest(), kind.class());
                    &&& any == (n > 0)
                    &&& final(self).rest() == old(self).rest().skip(n as int)
                    &&& final(self).text() == old(self).text() + old(self).rest().take(n as int)
                },
                Err(e) => e is Io && !old(self).reliable(),
            },
    {
        let mut any = false;
        let ghost mut k: int = 0;
        proof {
            assert(old(self).rest().skip(0) =~= old(self).rest());
            assert(old(self).text() + old(self).rest().take(0) =~= old(self).text());
        }
        loop
            invariant
                self.wf(),
                self.continues(old(self)),
                self.stack() == old(self).stack(),
                self.reliable() == old(self).reliable(),
                0 <= k <= old(self).rest().len(),
                self.rest() == old(self).rest().skip(k),
                forall|i: int| 0 <= i < k ==> (kind.class())(#[trigger] old(self).rest()[i]),
                self.text() == old(self).text() + old(self).rest().take(k),
                any == (k > 0),
            decreases self.rest().len(),
        {
            self.ensure_buffer()?;
            if self.buf_pos >= self.buf_len {
                proof {
                    lemma_run_len_is(old(self).rest(), kind.class(), k);
                }
                return Ok(any);
            }
            let start = self.buf_pos;
            let mut end = start;
            while self.buf_len - end > 3 && kind.holds(self.buffer[end]) && kind.holds(
                self.buffer[end + 1],
            ) && kind.holds(self.buffer[end + 2]) && kind.holds(self.buffer[end + 3])
                invariant
                    self.wf(),
                    self.continues(old(self)),
                    start == self.buf_pos,
                    start <= end <= self.buf_len,
                    forall|j: int| start <= j < end ==> (kind.class())(#[trigger] self.buffer@[j]),
                decreases self.buf_len - end,
            {
                end += 4;
            }
            while end < self.buf_len && kind.holds(self.buffer[end])
                invariant
                    self.wf(),
                    self.continues(old(self)),
                    start == self.buf_pos,
                    start <= end <= self.buf_len,
                    forall|j: int| start <= j < end ==> (kind.class())(#[trigger] self.buffer@[j]),
                decreases self.buf_len - end,
            {
                end += 1;
            }
            let ghost before = *self;
            let ghost run = self.buffer@.subrange(start as int, end as int);
            self.string_buff.extend_from_slice(&self.buffer[start..end]);
            self.buf_pos = end;
            if end > start {
                any = true;
            }
            proof {
                let m = end - start;
                let all = old(self).rest();
                assert(self.buffered() =~= before.buffered().skip(m));
                assert(self.read.delivered().skip(self.at()) =~= self.buffered());
                assert(before.rest() == all.skip(k));
                assert(run =~= before.rest().take(m));
                assert(self.rest() =~= before.rest().skip(m));
                assert(all.skip(k).skip(m) =~= all.skip(k + m));
                assert(all.take(k) + all.skip(k).take(m) =~= all.take(k + m));
                assert forall|i: int| 0 <= i < k + m implies (kind.class())(#[trigger] all[i]) by {
                    if i >= k {
                        assert(all[i] == before.rest()[i - k]);
                        assert(before.rest()[i - k] == self.buffer@[start + i - k]);
                    }
                }
                k = k + m;
            }
            if end < self.buf_len {
                proof {
                    assert(self.buffered()[0] == self.buffer@[end as int]);
                    assert(self.rest()[0] == self.buffered()[0]);
                    assert(old(self).rest()[k] == self.rest()[0]);
                    lemma_run_len_is(old(self).rest(), kind.class(), k);
                }
                return Ok(any);
            }
        }
    }

    /// Called only from match_number: takes the digits at the current
    /// position into the text, and returns true if any digit matched
    #[inline]
    fn match_digits(&mut self) -> (r: ParseResult<bool>)
        requires
            old(self).wf(),
        ensures
            final(self).wf(),
            final(self).continues(old(self)),
            final(self).stack() == old(self).stack(),
            final(self).reliable() == old(self).reliable(),
            match r {
                Ok(any) => {
                    let n = digits_len(old(self).rest());
                    &&& any == (n > 0)
                    &&& final(self).rest() == old(self).rest().skip(n as int)
                    &&& final(self).text() == old(self).text() + old(self).rest().take(n as int)
                },
                Err(e) => e is Io && !old(self).reliable(),
            },
    {
        self.take_run(RunKind::Digits)
    }

    /// Matches a number in the JSON input and collects its text: sign,
    /// digits, and optionally a period and more digits.
    #[verifier::rlimit(80)]
    fn match_number(&mut self) -> (r: ParseResult<JsonEvent2<'_>>)
        requires
            old(self).wf(),
        ensures
            final(self).wf(),
            final(self).continues(old(self)),
            final(self).stack() == old(self).stack(),
            final(self).reliable() == old(self).reliable(),
            match r {
                Ok(ev) => scan_number(old(self).rest()) == Scan::Hit(
                    final(self).text(),
                    final(self).rest(),
                ) && ev@ == Token::Number(final(self).text()),
                Err(ParseErr::DidNotMatch) => scan_number(old(self).rest()) is Miss,
                Err(e) => e is Io && !old(self).reliable(),
            },
    {
        let ghost s = self.rest();
        self.string_buff.clear();
        // very first could be a minus!
        if self.consume_if(U8_MINUS)? {
            self.string_buff.push(U8_MINUS);
        }
        let ghost sign: int = if s.len() > 0 && s[0] == U8_MINUS { 1 } else { 0 };
        let ghost whole = digits_len(s.skip(sign));
        proof {
            assert(s.skip(0) =~= s);
            assert(self.rest() == s.skip(sign));
            assert(self.text() =~= s.take(sign));
            lemma_run_len_content(s.skip(sign), digit_class());
        }
        // if no digits, it is no number
        if !self.match_digits()? {
            return Err(ParseErr::DidNotMatch);
        }
        let ghost dot = sign + whole;
        proof {
            assert(s.skip(sign).skip(whole as int) =~= s.skip(dot));
            assert(s.take(sign) + s.skip(sign).take(whole as int) =~= s.take(dot));
        }
        if self.consume_if(U8_PERIOD)? {
            self.string_buff.push(U8_PERIOD);
            let ghost frac = digits_len(s.skip(dot + 1));
            proof {
                assert(s.skip(dot).skip(1) =~= s.skip(dot + 1));
                assert(s.skip(dot)[0] == s[dot]);
                assert(self.text() =~= s.take(dot + 1));
                lemma_run_len_content(s.skip(dot + 1), digit_class());
            }
            if !self.match_digits()? {
                return Err(ParseErr::DidNotMatch);
            }
            proof {
                assert(s.skip(dot + 1).skip(frac as int) =~= s.skip(dot + 1 + frac));
                assert(s.take(dot + 1) + s.skip(dot + 1).take(frac as int) =~= s.take(
                    dot + 1 + frac,
                ));
            }
        } else {
            proof {
                if dot < s.len() {
                    assert(s.skip(dot)[0] == s[dot]);
                }
            }
        }
        proof {
            lemma_number_text_is_ascii(s);
            lemma_ascii_is_utf8(self.text());
        }
        match core::str::from_utf8(self.string_buff.as_slice()) {
            Ok(text) => Ok(JsonEvent2::Number(text)),
            Err(_) => Err(ParseErr::DidNotMatch),
        }
    }

    /// Reads the four hexadecimal digits of a unicode escape.
    fn read_hex4(&mut self) -> (r: ParseResult<u32>)
        requires
            old(self).wf(),
        ensures
            final(self).wf(),
            final(self).continues(old(self)),
            final(self).stack() == old(self).stack(),
            final(self).text() == old(self).text(),
            final(self).reliable() == old(self).reliable(),
            match r {
                Ok(v) => {
                    &&& hex4(old(self).rest()) == Ok::<int, Fault>(v as int)
                    &&& final(self).rest() == old(self).rest().skip(4)
                },
                Err(e) => failed_as(e, old(self).reliable(), hex4(old(self).rest())),
            },
    {
        let mut acc: u32 = 0;
        let mut i: usize = 0;
        proof {
            assert(self.rest().skip(0) =~= self.rest());
        }
        while i < 4
            invariant
                self.wf(),
                self.continues(old(self)),
                self.stack() == old(self).stack(),
                self.text() == old(self).text(),
                self.reliable() == old(self).reliable(),
                0 <= i <= 4,
                acc < (if i == 0 {
                    1int
                } else if i == 1 {
                    0x10
                } else if i == 2 {
                    0x100
                } else if i == 3 {
                    0x1000
                } else {
                    0x10000
                }),
                i <= old(self).rest().len(),
                self.rest() == old(self).rest().skip(i as int),
                hex4(old(self).rest()) == hex_digits(self.rest(), (4 - i) as nat, acc as int),
            decreases 4 - i,
        {
            let b = match self.peek()? {
                Some(b) => b,
                None => {
                    return Err(ParseErr::bad_data("unterminated string"));
                },
            };
            let v = match hex_digit(b) {
                Some(v) => v,
                None => {
                    return Err(ParseErr::bad_data("invalid escape sequence in string"));
                },
            };
            let ghost before = self.rest();
            self.advance();
            proof {
                assert(old(self).rest().skip(i as int).skip(1) =~= old(self).rest().skip(i + 1));
            }
            acc = acc * 16 + v;
            i += 1;
            proof {
                if i == 4 {
                    assert(hex_digits(self.rest(), 0, acc as int) == Ok::<int, Fault>(acc as int));
                }
            }
        }
        Ok(acc)
    }

    /// Reads the scalar value after `\u`: four hexadecimal digits or a pair
    /// of surrogates, and appends its UTF-8 encoding to the text.
    fn match_unicode_escape(&mut self) -> (r: ParseResult<()>)
        requires
            old(self).wf(),
        ensures
            final(self).wf(),
            final(self).continues(old(self)),
            final(self).stack() == old(self).stack(),
            final(self).reliable() == old(self).reliable(),
            match r {
                Ok(_) => {
                    &&& unicode_escape(old(self).rest()) is Ok
                    &&& unicode_escape(old(self).rest())->Ok_0.1 <= old(self).rest().len()
                    &&& final(self).text() == old(self).text() + encode_scalar(
                        unicode_escape(old(self).rest())->Ok_0.0,
                    )
                    &&& final(self).rest() == old(self).rest().skip(
                        unicode_escape(old(self).rest())->Ok_0.1 as int,
                    )
                },
                Err(e) => failed_as(e, old(self).reliable(), unicode_escape(old(self).rest())),
            },
    {
        let ghost h = self.rest();
        proof {
            lemma_hex4_bound(h);
        }
        let first = self.read_hex4()?;
        if 0xDC00 <= first && first <= 0xDFFF {
            return Err(ParseErr::bad_data("unpaired surrogate in string"));
        }
        if !(0xD800 <= first && first <= 0xDBFF) {
            push_scalar(&mut self.string_buff, first);
            return Ok(());
        }
        match self.peek()? {
            Some(b) => {
                assert(self.rest()[0] == h.skip(4)[0]);
                assert(b == h[4]);
                if b != U8_ESCAPE {
                    return Err(ParseErr::bad_data("unpaired surrogate in string"));
                }
            },
            None => {
                return Err(ParseErr::bad_data("unterminated string"));
            },
        }
        self.advance();
        proof {
            assert(h.skip(4).skip(1) =~= h.skip(5));
        }
        match self.peek()? {
            Some(b) => {
                assert(self.rest()[0] == h.skip(5)[0]);
                assert(b == h[5]);
                if b != 0x75 {
                    return Err(ParseErr::bad_data("unpaired surrogate in string"));
                }
            },
            None => {
                return Err(ParseErr::bad_data("unterminated string"));
            },
        }
        self.advance();
        proof {
            assert(h.skip(5).skip(1) =~= h.skip(6));
            lemma_hex4_bound(h.skip(6));
        }
        let second = self.read_hex4()?;
        if 0xDC00 <= second && second <= 0xDFFF {
            let scalar = 0x10000 + (first - 0xD800) * 0x400 + (second - 0xDC00);
            push_scalar(&mut self.string_buff, scalar);
            proof {
                assert(h.skip(6).skip(4) =~= h.skip(10));
            }
            Ok(())
        } else {
            Err(ParseErr::bad_data("unpaired surrogate in string"))
        }
    }

    /// Reads what follows a backslash and appends what it stands for to the
    /// text.
    fn match_escape(&mut self) -> (r: ParseResult<()>)
        requires
            old(self).wf(),
        ensures
            final(self).wf(),
            final(self).continues(old(self)),
            final(self).stack() == old(self).stack(),
            final(self).reliable() == old(self).reliable(),
            match r {
                Ok(_) => {
                    &&& escape(old(self).rest()) is Ok
                    &&& escape(old(self).rest())->Ok_0.1 <= old(self).rest().len()
                    &&& final(self).text() == old(self).text() + escape(old(self).rest())->Ok_0.0
                    &&& final(self).rest() == old(self).rest().skip(
                        escape(old(self).rest())->Ok_0.1 as int,
                    )
                },
                Err(e) => failed_as(e, old(self).reliable(), escape(old(self).rest())),
            },
    {
        let ghost e = self.rest();
        let b = match self.peek()? {
            Some(b) => b,
            None => {
                return Err(ParseErr::bad_data("unterminated string"));
            },
        };
        self.advance();
        if b == 0x75 {
            self.match_unicode_escape()?;
            proof {
                let n = unicode_escape(e.skip(1))->Ok_0.1;
                assert(e.skip(1).skip(n as int) =~= e.skip(n as int + 1));
            }
            return Ok(());
        }
        let c: u8 = if b == 0x22 || b == 0x5c || b == 0x2f {
            b
        } else if b == 0x62 {
            0x08
        } else if b == 0x66 {
            0x0c
        } else if b == 0x6e {
            0x0a
        } else if b == 0x72 {
            0x0d
        } else if b == 0x74 {
            0x09
        } else {
            return Err(ParseErr::bad_data("invalid escape sequence in string"));
        };
        self.string_buff.push(c);
        assert(self.text() =~= old(self).text() + seq![c]);
        Ok(())
    }

    /// Matches a quoted string and collects its decoded text. In each
    /// buffer it takes the plain bytes up to the next quote, backslash or
    /// line break in one sweep.
    fn match_string(&mut self) -> (r: ParseResult<&str>)
        requires
            old(self).wf(),
        ensures
            final(self).wf(),
            final(self).continues(old(self)),
            final(self).stack() == old(self).stack(),
            final(self).reliable() == old(self).reliable(),
            match r {
                Ok(text) => {
                    &&& scan_string(old(self).rest()) == Scan::Hit(
                        final(self).text(),
                        final(self).rest(),
                    )
                    &&& text.spec_bytes() == final(self).text()
                },
                Err(e) => if e is Io {
                    !old(self).reliable()
                } else {
                    scan_string(old(self).rest()) is Miss && e.reports(
                        scan_string(old(self).rest())->Miss_0,
                    )
                },
            },
    {
        self.match_char(U8_QUOTE)?;
        self.string_buff.clear();
        let ghost body = self.rest();
        loop
            invariant_except_break
                string_body(body, Seq::empty()) == string_body(self.rest(), self.text()),
            invariant
                self.wf(),
                self.continues(old(self)),
                self.stack() == old(self).stack(),
                self.reliable() == old(self).reliable(),
                old(self).rest().len() > 0,
                old(self).rest()[0] == U8_QUOTE,
                body == old(self).rest().skip(1),
            ensures
                string_body(body, Seq::empty()) == Scan::Hit(self.text(), self.rest()),
            decreases self.rest().len(),
        {
            let ghost s = self.rest();
            let ghost t = self.text();
            proof {
                lemma_run_len_content(s, plain_class());
                lemma_string_body_plain_run(s, t, run_len(s, plain_class()) as int);
            }
            self.take_run(RunKind::Plain)?;
            let ghost s1 = self.rest();
            let ghost t1 = self.text();
            assert(string_body(s, t) == string_body(s1, t1));
            let b = match self.peek()? {
                Some(b) => b,
                None => {
                    return Err(ParseErr::bad_data("unterminated string"));
                },
            };
            assert(b == s1[0] && !plain_byte(b));
            self.advance();
            if b == U8_QUOTE {
                break ;
            } else if b == U8_ESCAPE {
                self.match_escape()?;
                proof {
                    let n = escape(s1.skip(1))->Ok_0.1;
                    assert(s1.skip(1).skip(n as int) =~= s1.skip(1 + n as int));
                }
            } else {
                return Err(ParseErr::bad_data("\\r or \\n not allowed in string"));
            }
        }
        match core::str::from_utf8(self.string_buff.as_slice()) {
            Ok(text) => Ok(text),
            Err(_) => Err(ParseErr::bad_data("string is not valid UTF-8")),
        }
    }

    /// Matches the keyword that begins with `b`, byte for byte: `true`,
    /// `false` or `null`.
    #[verifier::rlimit(30)]
    pub fn match_keyword(&mut self, b: u8) -> (r: ParseResult<JsonEvent2<'_>>)
        requires
            old(self).wf(),
        ensures
            final(self).wf(),
            final(self).continues(old(self)),
            final(self).stack() == old(self).stack(),
            final(self).reliable() == old(self).reliable(),
            match r {
                Ok(ev) => scan_keyword(b, old(self).rest()) == Scan::Hit(ev@, final(self).rest()),
                Err(e) => if e is Io {
                    !old(self).reliable()
                } else {
                    e is DidNotMatch && scan_keyword(b, old(self).rest()) is Miss
                },
            },
    {
        let ghost s = self.rest();
        if b == 0x74 {
            //true
            self.match_char(0x74)?;
            self.match_char(0x72)?;
            self.match_char(0x75)?;
            self.match_char(0x65)?;
            proof {
                assert(s.skip(1).skip(1) =~= s.skip(2));
                assert(s.skip(2).skip(1) =~= s.skip(3));
                assert(s.skip(3).skip(1) =~= s.skip(4));
                assert(s.take(4) =~= word_true());
            }
            return Ok(JsonEvent2::Boolean(true));
        } else if b == 0x66 {
            //false
            self.match_char(0x66)?;
            self.match_char(0x61)?;
            self.match_char(0x6c)?;
            self.match_char(0x73)?;
            self.match_char(0x65)?;
            proof {
                assert(s.skip(1).skip(1) =~= s.skip(2));
                assert(s.skip(2).skip(1) =~= s.skip(3));
                assert(s.skip(3).skip(1) =~= s.skip(4));
                assert(s.skip(4).skip(1) =~= s.skip(5));
                assert(s.take(5) =~= word_false());
            }
            return Ok(JsonEvent2::Boolean(false));
        } else if b == 0x6e {
            //null
            self.match_char(0x6e)?;
            self.match_char(0x75)?;
            self.match_char(0x6c)?;
            self.match_char(0x6c)?;
            proof {
                assert(s.skip(1).skip(1) =~= s.skip(2));
                assert(s.skip(2).skip(1) =~= s.skip(3));
                assert(s.skip(3).skip(1) =~= s.skip(4));
                assert(s.take(4) =~= word_null());
            }
            return Ok(JsonEvent2::Null);
        }
        Err(ParseErr::DidNotMatch)
    }

    /// Matches one value: whitespace, then the scanner that the first byte
    /// calls for. A container is only opened: its frame goes on the stack.
    fn it_match_value(&mut self) -> (r: ParseResult<JsonEvent2<'_>>)
        requires
            old(self).wf(),
        ensures
            final(self).wf(),
            final(self).continues(old(self)),
            final(self).reliable() == old(self).reliable(),
            match r {
                Ok(ev) => scan_value(old(self).stack(), old(self).rest()) == Ok::<Advance, Fault>(
                    Advance {
                        event: Some(ev@),
                        stack: final(self).stack(),
                        rest: final(self).rest(),
                    },
                ),
                Err(e) => failed_as(
                    e,
                    old(self).reliable(),
                    scan_value(old(self).stack(), old(self).rest()),
                ),
            },
            r is Ok ==> lends(r->Ok_0, final(self).text()),
            r is Err ==> final(self).stack() == old(self).stack(),
    {
        self.skip_whitespace()?;
        // Peek the byte
        match self.peek()? {
            Some(b) => {
                if b == U8_QUOTE {
                    let text = self.match_string()?;
                    Ok(JsonEvent2::String(text))
                } else if b == U8_START_ARR {
                    self.stack.push(JsonStackItem::Array(0));
                    self.advance();
                    Ok(JsonEvent2::ArrayStart)
                } else if b == U8_START_OBJ {
                    self.stack.push(JsonStackItem::Object(0));
                    self.advance();
                    Ok(JsonEvent2::ObjectStart)
                } else if (b >= U8_0 && b <= U8_9) || b == U8_MINUS {
                    self.match_number()
                } else {
                    self.match_keyword(b)
                }
            },
            None => Err(ParseErr::DidNotMatch),
        }
    }

    /// Counts one more member in the frame on top of the stack.
    fn count_member(&mut self)
        requires
            old(self).wf(),
            old(self).stack().len() > 0,
        ensures
            final(self).wf(),
            final(self).continues(old(self)),
            final(self).reliable() == old(self).reliable(),
            final(self).rest() == old(self).rest(),
            final(self).text() == old(self).text(),
            final(self).stack() == old(self).stack().update(
                old(self).stack().len() - 1,
                match old(self).stack().last() {
                    JsonStackItem::Array(n) => JsonStackItem::Array(bump(n)),
                    JsonStackItem::Object(n) => JsonStackItem::Object(bump(n)),
                },
            ),
    {
        let top = self.stack.len() - 1;
        let item = match self.stack[top] {
            JsonStackItem::Array(n) => JsonStackItem::Array(if n < usize::MAX { n + 1 } else { n }),
            JsonStackItem::Object(n) => JsonStackItem::Object(
                if n < usize::MAX {
                    n + 1
                } else {
                    n
                },
            ),
        };
        self.stack[top] = item;
    }

    /// Matches the separator before a member: nothing before the first, a
    /// comma and optional whitespace before each later one.
    fn match_separator(&mut self, n: usize) -> (r: ParseResult<()>)
        requires
            old(self).wf(),
        ensures
            final(self).wf(),
            final(self).continues(old(self)),
            final(self).reliable() == old(self).reliable(),
            final(self).stack() == old(self).stack(),
            match r {
                Ok(_) => separator(n, old(self).rest()) == Scan::Hit((), final(self).rest()),
                Err(e) => if e is Io {
                    !old(self).reliable()
                } else {
                    e is DidNotMatch && separator(n, old(self).rest()) is Miss
                },
            },
    {
        if n != 0 {
            self.match_char(U8_COMMA)?;
            self.skip_whitespace()?;
        }
        Ok(())
    }

    /// Match the end of an array, or its next element
    fn it_match_obj_array(&mut self, n: usize) -> (r: ParseResult<JsonEvent2<'_>>)
        requires
            old(self).wf(),
            old(self).stack().len() > 0,
            old(self).stack().last() == JsonStackItem::Array(n),
        ensures
            final(self).wf(),
            final(self).continues(old(self)),
            final(self).reliable() == old(self).reliable(),
            match r {
                Ok(ev) => array_step(old(self).stack(), n, old(self).rest()) == Ok::<
                    Advance,
                    Fault,
                >(
                    Advance {
                        event: Some(ev@),
                        stack: final(self).stack(),
                        rest: final(self).rest(),
                    },
                ),
                Err(e) => failed_as(
                    e,
                    old(self).reliable(),
                    array_step(old(self).stack(), n, old(self).rest()),
                ),
            },
            r is Ok ==> lends(r->Ok_0, final(self).text()),
            r is Err ==> final(self).stack() == old(self).stack() || final(self).stack()
                == counted(old(self).stack()),
    {
        // we can take end of array immediately
        if self.consume_if(U8_END_ARR)? {
            // pop from stack, the byte is consumed
            self.stack.pop();
            assert(self.stack() =~= old(self).stack().drop_last());
            return Ok(JsonEvent2::ArrayEnd);
        }
        // if not array end, check if we need comma or not
        self.match_separator(n)?;
        self.count_member();
        self.it_match_value()
    }

    /// Match the end of an object, or its next member: name, colon, value
    fn it_match_obj_member(&mut self, n: usize) -> (r: ParseResult<JsonEvent2<'_>>)
        requires
            old(self).wf(),
            old(self).stack().len() > 0,
            old(self).stack().last() == JsonStackItem::Object(n),
        ensures
            final(self).wf(),
            final(self).continues(old(self)),
            final(self).reliable() == old(self).reliable(),
            match r {
                Ok(ev) => object_step(old(self).stack(), n, old(self).rest()) == Ok::<
                    Advance,
                    Fault,
                >(
                    Advance {
                        event: Some(ev@),
                        stack: final(self).stack(),
                        rest: final(self).rest(),
                    },
                ),
                Err(e) => failed_as(
                    e,
                    old(self).reliable(),
                    object_step(old(self).stack(), n, old(self).rest()),
                ),
            },
            r is Ok ==> lends(r->Ok_0, final(self).text()),
            r is Err ==> final(self).stack() == old(self).stack() || final(self).stack()
                == counted(old(self).stack()),
    {
        // we can take end of object immediately
        if self.consume_if(U8_END_OBJ)? {
            // pop from stack, the byte is consumed
            self.stack.pop();
            assert(self.stack() =~= old(self).stack().drop_last());
            return Ok(JsonEvent2::ObjectEnd);
        }
        // if not object end, check if we need comma or not
        self.match_separator(n)?;
        self.count_member();
        // member name
        self.match_string()?;
        self.skip_whitespace()?;
        self.match_char(U8_COLON)?;
        self.it_match_value()
    }

    /// Iterator style function, returns the next token in the parse:
    /// `Ok(None)` at the end of the document.
    pub fn next_token(&mut self) -> (r: ParseResult<Option<JsonEvent2<'_>>>)
        requires
            old(self).wf(),
        ensures
            final(self).wf(),
            final(self).continues(old(self)),
            final(self).reliable() == old(self).reliable(),
            match r {
                Ok(ev) => next_step(old(self).stack(), old(self).rest()) == Ok::<Advance, Fault>(
                    Advance {
                        event: match ev {
                            Some(e) => Some(e@),
                            None => None,
                        },
                        stack: final(self).stack(),
                        rest: final(self).rest(),
                    },
                ),
                Err(e) => failed_as(
                    e,
                    old(self).reliable(),
                    next_step(old(self).stack(), old(self).rest()),
                ),
            },
            old(self).reliable() ==> ((r is Ok && r->Ok_0 is None) <==> (old(self).stack().len()
                == 0 && skip_ws(old(self).rest()).len() == 0)),
            old(self).stack().len() > 0 && skip_ws(old(self).rest()).len() == 0 ==> r is Err,
            r is Ok && r->Ok_0 is Some ==> lends(r->Ok_0->Some_0, final(self).text()),
            r is Err ==> final(self).stack() == old(self).stack() || final(self).stack()
                == counted(old(self).stack()),
    {
        proof {
            reveal(next_step);
        }
        // We skip whitespace at start of each call
        self.skip_whitespace()?;
        proof {
            lemma_skip_ws_done(old(self).rest());
        }
        // check for the end of the document
        if self.peek()?.is_none() {
            return if self.stack.len() == 0 {
                Ok(None)
            } else {
                Err(ParseErr::DidNotMatch)
            };
        }
        if self.stack.len() == 0 {
            return Ok(Some(self.it_match_value()?));
        }
        match self.stack[self.stack.len() - 1] {
            JsonStackItem::Object(n) => Ok(Some(self.it_match_obj_member(n)?)),
            JsonStackItem::Array(n) => Ok(Some(self.it_match_obj_array(n)?)),
        }
    }

    /// The bytes that the source still holds: those of the document that
    /// were not moved into the buffer yet.
    pub closed spec fn ahead(&self) -> Seq<u8> {
        self.read.remaining()
    }

    /// The text that was collected last: that of a string or a number, or
    /// what `count_all_bytes` has left.
    pub fn collected(&self) -> (r: &[u8])
        ensures
            r@ == self.text(),
    {
        self.string_buff.as_slice()
    }

    /// read all bytes! Drops what is in the buffer, reads the source to its
    /// end and counts the digits, up to the largest count. The digits at the
    /// very end of the source are left as the collected text.
    pub fn count_all_bytes(&mut self) -> (r: ParseResult<usize>)
        requires
            old(self).wf(),
        ensures
            final(self).wf(),
            final(self).continues(old(self)),
            final(self).stack() == old(self).stack(),
            final(self).reliable() == old(self).reliable(),
            match r {
                Ok(n) => {
                    &&& n == if digit_count(old(self).ahead()) <= usize::MAX {
                        digit_count(old(self).ahead())
                    } else {
                        usize::MAX as nat
                    }
                    &&& final(self).rest().len() == 0
                    &&& final(self).text() == digit_tail(old(self).ahead(), Seq::empty())
                },
                Err(e) => e is Io && !old(self).reliable(),
            },
    {
        let mut result = 0usize;
        let ghost all = self.ahead();
        // what is buffered is not counted
        self.buf_pos = self.buf_len;
        self.string_buff.clear();
        proof {
            assert(self.buffered() =~= Seq::<u8>::empty());
            assert(self.read.delivered().skip(self.at()) =~= self.buffered());
            assert(self.rest() =~= all);
        }
        let ghost mut seen: nat = 0;
        loop
            invariant
                self.wf(),
                self.continues(old(self)),
                self.stack() == old(self).stack(),
                self.reliable() == old(self).reliable(),
                all == old(self).ahead(),
                seen + digit_count(self.rest()) == digit_count(all),
                result == if seen <= usize::MAX {
                    seen
                } else {
                    usize::MAX as nat
                },
                digit_tail(all, Seq::empty()) == digit_tail(self.rest(), self.text()),
            decreases self.rest().len(),
        {
            match self.peek()? {
                Some(c) => {
                    let ghost s = self.rest();
                    let ghost t = self.text();
                    if is_digit(c) {
                        if result < usize::MAX {
                            result += 1;
                        }
                        self.string_buff.push(c);
                        proof {
                            seen = seen + 1;
                        }
                    } else if self.string_buff.len() > 0 {
                        self.string_buff.clear();
                    }
                    proof {
                        if !digit_byte(c) {
                            assert(self.text() =~= Seq::<u8>::empty());
                        }
                        assert(digit_tail(s, t) == digit_tail(s.skip(1), self.text()));
                    }
                    self.advance();
                },
                None => {
                    return Ok(result);
                },
            }
        }
    }
}

/// Whether `text` is the text that the event lends: every event but a
/// string and a number lends none.
pub open spec fn lends(ev: JsonEvent2<'_>, text: Seq<u8>) -> bool {
    match ev {
        JsonEvent2::String(s) => s.spec_bytes() == text,
        JsonEvent2::Number(s) => s.spec_bytes() == text,
        _ => true,
    }
}

/// Whether the error `e` may come where the grammar gives `expected`: a
/// failed read, which only a source that can fail gives, or the fault that
/// the grammar names.
pub open spec fn failed_as<T>(e: ParseErr, reliable: bool, expected: Result<T, Fault>) -> bool {
    if e is Io {
        !reliable
    } else {
        expected is Err && e.reports(expected->Err_0)
    }
}

/// The value of the hexadecimal digit `b`, if it is one.
pub fn hex_digit(b: u8) -> (r: Option<u32>)
    ensures
        match r {
            Some(v) => hex_value(b) == Some(v as int),
            None => hex_value(b) is None,
        },
{
    if 0x30 <= b && b <= 0x39 {
        Some((b - 0x30) as u32)
    } else if 0x61 <= b && b <= 0x66 {
        Some((b - 0x61 + 10) as u32)
    } else if 0x41 <= b && b <= 0x46 {
        Some((b - 0x41 + 10) as u32)
    } else {
        None
    }
}

/// The kind of an event, without its text.
#[derive(Clone, Copy)]
enum Kind {
    Text,
    Number,
    Boolean(bool),
    Null,
    ObjectStart,
    ObjectEnd,
    ArrayStart,
    ArrayEnd,
}

impl Kind {
    /// What an event of this kind with the text `text` says.
    spec fn token(self, text: Seq<u8>) -> Token {
        match self {
            Kind::Text => Token::String(text),
            Kind::Number => Token::Number(text),
            Kind::Boolean(b) => Token::Boolean(b),
            Kind::Null => Token::Null,
            Kind::ObjectStart => Token::ObjectStart,
            Kind::ObjectEnd => Token::ObjectEnd,
            Kind::ArrayStart => Token::ArrayStart,
            Kind::ArrayEnd => Token::ArrayEnd,
        }
    }

    spec fn has_text(self) -> bool {
        self is Text || self is Number
    }

    fn of(ev: &JsonEvent2<'_>) -> (k: Kind)
        ensures
            forall|text: Seq<u8>| lends(*ev, text) ==> #[trigger] k.token(text) == ev@,
            k.has_text() ==> valid_utf8(
                match *ev {
                    JsonEvent2::String(s) => s.spec_bytes(),
                    JsonEvent2::Number(s) => s.spec_bytes(),
                    _ => Seq::empty(),
                },
            ),
    {
        match ev {
            JsonEvent2::String(s) => {
                proof {
                    encode_utf8_valid_utf8(s@);
                }
                Kind::Text
            },
            JsonEvent2::Number(s) => {
                proof {
                    encode_utf8_valid_utf8(s@);
                }
                Kind::Number
            },
            JsonEvent2::Boolean(b) => Kind::Boolean(*b),
            JsonEvent2::Null => Kind::Null,
            JsonEvent2::ObjectStart => Kind::ObjectStart,
            JsonEvent2::ObjectEnd => Kind::ObjectEnd,
            JsonEvent2::ArrayStart => Kind::ArrayStart,
            JsonEvent2::ArrayEnd => Kind::ArrayEnd,
        }
    }
}

/// What a pull on a document that is still being fed returns.
#[derive(Debug)]
pub enum Pull<'a> {
    /// The next event.
    Event(JsonEvent2<'a>),
    /// The clean end of the document.
    End,
    /// Nothing yet: the bytes that were fed do not hold the next token with
    /// the byte after it. The pull has changed nothing.
    NeedInput,
}

/// A tokenizer for a document that arrives in chunks: the caller feeds it
/// the chunks as they come and pulls events in between. A pull that runs
/// out of bytes takes nothing and asks for more.
pub struct StreamParser {
    parser: JsonParser<Feed>,
    closed: bool,
}

impl StreamParser {
    pub closed spec fn wf(&self) -> bool {
        self.parser.wf()
    }

    /// The bytes that were fed and not consumed yet.
    pub closed spec fn rest(&self) -> Seq<u8> {
        self.parser.rest()
    }

    /// The open containers, outermost first.
    pub closed spec fn stack(&self) -> Seq<JsonStackItem> {
        self.parser.stack()
    }

    /// Whether the document has been fed to its end.
    pub closed spec fn closed(&self) -> bool {
        self.closed
    }

    /// A tokenizer that has been fed nothing yet.
    pub fn new() -> (p: StreamParser)
        ensures
            p.wf(),
            p.rest() == Seq::<u8>::empty(),
            p.stack() == Seq::<JsonStackItem>::empty(),
            !p.closed(),
    {
        StreamParser { parser: JsonParser::new(Feed::new()), closed: false }
    }

    /// Feeds the next chunk of the document. After `close` nothing is taken.
    pub fn feed(&mut self, chunk: &[u8])
        requires
            old(self).wf(),
        ensures
            final(self).wf(),
            final(self).closed() == old(self).closed(),
            final(self).stack() == old(self).stack(),
            final(self).rest() == if old(self).closed() {
                old(self).rest()
            } else {
                old(self).rest() + chunk@
            },
    {
        if !self.closed {
            // what was consumed is let go, what was fed and not consumed stays
            let buffered = self.parser.buf_len - self.parser.buf_pos;
            self.parser.read.forget(buffered);
            self.parser.read.push(chunk);
            proof {
                assert(self.parser.read.delivered().skip(self.parser.at())
                    =~= self.parser.buffered());
                assert(self.rest() =~= old(self).rest() + chunk@);
            }
        }
    }

    /// Says that the document has been fed to its end.
    pub fn close(&mut self)
        ensures
            final(self).wf() == old(self).wf(),
            final(self).closed(),
            final(self).stack() == old(self).stack(),
            final(self).rest() == old(self).rest(),
    {
        self.closed = true;
    }

    /// The event of the kind `kind` with the text that was collected.
    fn lend(&self, kind: Kind) -> (ev: JsonEvent2<'_>)
        requires
            kind.has_text() ==> valid_utf8(self.parser.text()),
        ensures
            ev@ == kind.token(self.parser.text()),
    {
        match kind {
            Kind::Text => match core::str::from_utf8(self.parser.string_buff.as_slice()) {
                Ok(text) => JsonEvent2::String(text),
                Err(_) => JsonEvent2::Null,
            },
            Kind::Number => match core::str::from_utf8(self.parser.string_buff.as_slice()) {
                Ok(text) => JsonEvent2::Number(text),
                Err(_) => JsonEvent2::Null,
            },
            Kind::Boolean(b) => JsonEvent2::Boolean(b),
            Kind::Null => JsonEvent2::Null,
            Kind::ObjectStart => JsonEvent2::ObjectStart,
            Kind::ObjectEnd => JsonEvent2::ObjectEnd,
            Kind::ArrayStart => JsonEvent2::ArrayStart,
            Kind::ArrayEnd => JsonEvent2::ArrayEnd,
        }
    }

    /// Returns the next event, where the bytes that were fed hold its token
    /// and one byte more, or the document is closed. Such an event is the
    /// one that the whole document gives, whatever is fed later. Where the
    /// bytes do not reach that far, the pull takes nothing and asks for more
    /// input. The end of the document and a failure are reported once the
    /// document is closed; a failure leaves the parser where it was.
    pub fn next_token(&mut self) -> (r: ParseResult<Pull<'_>>)
        requires
            old(self).wf(),
        ensures
            final(self).wf(),
            final(self).closed() == old(self).closed(),
            match r {
                Ok(Pull::Event(ev)) => {
                    &&& next_step(old(self).stack(), old(self).rest()) == Ok::<Advance, Fault>(
                        Advance {
                            event: Some(ev@),
                            stack: final(self).stack(),
                            rest: final(self).rest(),
                        },
                    )
                    &&& old(self).closed() || final(self).rest().len() > 0
                    &&& final(self).rest().len() > 0 ==> forall|more: Seq<u8>| #[trigger]
                        next_step(old(self).stack(), old(self).rest() + more) == Ok::<
                            Advance,
                            Fault,
                        >(
                            Advance {
                                event: Some(ev@),
                                stack: final(self).stack(),
                                rest: final(self).rest() + more,
                            },
                        )
                },
                Ok(Pull::End) => {
                    &&& old(self).closed()
                    &&& next_step(old(self).stack(), old(self).rest()) == Ok::<Advance, Fault>(
                        Advance { event: None, stack: final(self).stack(), rest: final(self).rest() },
                    )
                },
                Ok(Pull::NeedInput) => {
                    &&& !old(self).closed()
                    &&& final(self).rest() == old(self).rest()
                    &&& final(self).stack() == old(self).stack()
                    &&& match next_step(old(self).stack(), old(self).rest()) {
                        Ok(a) => a.event is None || a.rest.len() == 0,
                        Err(_) => true,
                    }
                },
                Err(e) => {
                    &&& old(self).closed()
                    &&& next_step(old(self).stack(), old(self).rest()) is Err
                    &&& e.reports(next_step(old(self).stack(), old(self).rest())->Err_0)
                    &&& final(self).rest() == old(self).rest()
                    &&& final(self).stack() == old(self).stack()
                },
            },
    {
        let ghost before = self.parser;
        proof {
            self.parser.lemma_rest_is_whole_from_at();
            law_stack_after_pull(self.stack(), self.rest());
        }
        let at = self.parser.read.kept_len() - (self.parser.buf_len - self.parser.buf_pos);
        let depth = self.parser.stack.len();
        let top = if depth > 0 {
            Some(self.parser.stack[depth - 1])
        } else {
            None
        };
        let outcome: ParseResult<Option<Kind>> = match self.parser.next_token() {
            Ok(Some(ev)) => Ok(Some(Kind::of(&ev))),
            Ok(None) => Ok(None),
            Err(e) => Err(e),
        };
        let left = self.parser.buf_pos < self.parser.buf_len || self.parser.read.has_queued();
        assert(left == (self.rest().len() > 0));
        match outcome {
            Ok(Some(kind)) => {
                if self.closed || left {
                    proof {
                        if left {
                            assert forall|more: Seq<u8>| #[trigger]
                                next_step(before.stack(), before.rest() + more) == Ok::<
                                    Advance,
                                    Fault,
                                >(
                                    Advance {
                                        event: Some(kind.token(self.parser.text())),
                                        stack: self.stack(),
                                        rest: self.rest() + more,
                                    },
                                ) by {
                                law_more_input(before.stack(), before.rest(), more);
                            }
                        }
                    }
                    Ok(Pull::Event(self.lend(kind)))
                } else {
                    self.roll_back(at, depth, top, Ghost(before));
                    Ok(Pull::NeedInput)
                }
            },
            Ok(None) => {
                if self.closed {
                    Ok(Pull::End)
                } else {
                    self.roll_back(at, depth, top, Ghost(before));
                    Ok(Pull::NeedInput)
                }
            },
            Err(e) => {
                self.roll_back(at, depth, top, Ghost(before));
                if self.closed {
                    Err(e)
                } else {
                    Ok(Pull::NeedInput)
                }
            },
        }
    }

    /// Goes back to where the parser was before a pull: `at` bytes of the
    /// document consumed, and the innermost container `top` among `depth`.
    fn roll_back(&mut self, at: usize, depth: usize, top: Option<JsonStackItem>, Ghost(
        before,
    ): Ghost<JsonParser<Feed>>)
        requires
            old(self).wf(),
            before.wf(),
            old(self).parser.continues(&before),
            at == before.at(),
            depth == before.stack().len(),
            depth > 0 ==> top == Some(before.stack().last()),
            ({
                let now = old(self).parser.stack();
                let was = before.stack();
                ||| now == was
                ||| now == counted(was)
                ||| was.len() > 0 && now == was.drop_last()
                ||| now.len() == was.len() + 1 && now.drop_last() == was
                ||| now.len() == was.len() + 1 && now.drop_last() == counted(was)
            }),
        ensures
            final(self).wf(),
            final(self).closed() == old(self).closed(),
            final(self).rest() == before.rest(),
            final(self).stack() == before.stack(),
            final(self).parser.whole() == before.whole(),
            final(self).parser.at() == before.at(),
    {
        proof {
            before.lemma_rest_is_whole_from_at();
            self.parser.lemma_rest_is_whole_from_at();
        }
        let ghost whole = self.parser.whole();
        let kept = self.parser.read.kept_len();
        self.parser.read.unread(kept - at);
        self.parser.buf_pos = 0;
        self.parser.buf_len = 0;
        proof {
            assert(self.parser.buffered() =~= Seq::<u8>::empty());
            assert(self.parser.read.delivered().skip(self.parser.at())
                =~= self.parser.buffered());
            assert(self.parser.whole() =~= whole);
            assert(self.parser.rest() =~= whole.skip(at as int));
        }
        if self.parser.stack.len() > depth {
            self.parser.stack.pop();
        }
        if self.parser.stack.len() < depth {
            match top {
                Some(item) => self.parser.stack.push(item),
                None => {},
            }
        }
        if depth > 0 {
            match top {
                Some(item) => {
                    self.parser.stack[depth - 1] = item;
                },
                None => {},
            }
        }
        assert(self.parser.stack@ =~= before.stack());
    }
}

} // verus!
