//! JSON parsing by recursive descent over a stream that can be rewound: an
//! alternative is tried from a mark, and where it does not match the stream
//! goes back to the mark for the next one.

use vstd::prelude::*;
use vstd::string::*;
use crate::grammar::Fault;
use crate::internals::parsers::{
    capture_while_mand, captured, char_at, char_run_end, digit_pred, lemma_char_run_end,
    lemma_char_run_end_bounds, match_char, match_len, match_str, match_str_optional, run_broken,
    skip_whitespace, space_char, space_pred,
};
use vstd::utf8::{is_ascii_chars, is_ascii_chars_encode_utf8};
use crate::descent::{
    after_spaces, Parsed, read_array, read_list, read_member, read_number, read_object, read_string,
    read_value,
};
use crate::internals::{Mark, not_ascii, ParseErr, ParseResult, RewindableChars};
use crate::source::ByteSource;

verus! {

/// Represents a basic value in JSON, effectively the primitive types (not
/// arrays or objects), that are emitted by the parser.
#[derive(Debug)]
pub enum JsonEvent {
    /// A string value
    String(String),
    /// Even though it is a number, we leave it to the client to decide what
    /// to coerce it into (int, float or other)
    Number(String),
    /// Bool is true or false
    Boolean(bool),
    /// Null keyword
    Null,
    ObjectStart,
    ObjectEnd,
    ArrayStart,
    ArrayEnd,
}

/// What an event says, with its text as characters.
pub enum Emitted {
    String(Seq<char>),
    Number(Seq<char>),
    Boolean(bool),
    Null,
    ObjectStart,
    ObjectEnd,
    ArrayStart,
    ArrayEnd,
}

impl View for JsonEvent {
    type V = Emitted;

    open spec fn view(&self) -> Emitted {
        match *self {
            JsonEvent::String(s) => Emitted::String(s@),
            JsonEvent::Number(s) => Emitted::Number(s@),
            JsonEvent::Boolean(b) => Emitted::Boolean(b),
            JsonEvent::Null => Emitted::Null,
            JsonEvent::ObjectStart => Emitted::ObjectStart,
            JsonEvent::ObjectEnd => Emitted::ObjectEnd,
            JsonEvent::ArrayStart => Emitted::ArrayStart,
            JsonEvent::ArrayEnd => Emitted::ArrayEnd,
        }
    }
}

/// A Stream based JSON parser. The events that it emits are kept in the
/// order in which they were emitted, those of an alternative that was given
/// up too.
pub struct JsonParser<R: ByteSource> {
    rc: RewindableChars<R>,
    events: Vec<JsonEvent>,
}

/// Events that go on from events that go on from others go on from those.
pub broadcast proof fn lemma_prefix_trans(a: Seq<Emitted>, b: Seq<Emitted>, c: Seq<Emitted>)
    requires
        #[trigger] a.is_prefix_of(b),
        #[trigger] b.is_prefix_of(c),
    ensures
        a.is_prefix_of(c),
{
    assert(a =~= c.subrange(0, a.len() as int));
}

/// Events go on from themselves, and with one more event.
pub broadcast proof fn lemma_prefix_push(a: Seq<Emitted>, e: Emitted)
    ensures
        a.is_prefix_of(#[trigger] a.push(e)),
        a.is_prefix_of(a),
{
    assert(a =~= a.push(e).subrange(0, a.len() as int));
    assert(a =~= a.subrange(0, a.len() as int));
}

pub open spec fn unterminated() -> Fault {
    Fault::BadData("unterminated string"@)
}

pub open spec fn line_break() -> Fault {
    Fault::BadData("\r or \n not allowed in string"@)
}

/// The rest of a string whose opening quote was read, from index `pos` of
/// `all`: its text, or the fault, and the index after the last byte read. A
/// backslash only marks the next character as escaped. An escaped `r` is a
/// carriage return, any other escaped character stands for itself. A line
/// feed or carriage return is refused, also one that an escape gave.
pub open spec fn string_tail(all: Seq<u8>, pos: int, escaped: bool, text: Seq<char>) -> (
    Result<Seq<char>, Fault>,
    int,
)
    decreases all.len() - pos,
{
    if pos < 0 || pos >= all.len() {
        (Err(unterminated()), pos)
    } else if all[pos] >= 128 {
        (Err(not_ascii()), pos + 1)
    } else {
        let c = all[pos] as char;
        if c == '\\' {
            string_tail(all, pos + 1, true, text)
        } else if !escaped && c == '"' {
            (Ok(text), pos + 1)
        } else {
            let d = if escaped && c == 'r' {
                '\r'
            } else {
                c
            };
            if d == '\n' || d == '\r' {
                (Err(line_break()), pos + 1)
            } else {
                string_tail(all, pos + 1, false, text.push(d))
            }
        }
    }
}

impl<R: ByteSource> JsonParser<R> {
    pub closed spec fn wf(&self) -> bool {
        self.rc.wf()
    }

    /// Every byte of the document.
    pub closed spec fn all(&self) -> Seq<u8> {
        self.rc.all()
    }

    /// The index in `all` of the next byte to read.
    pub closed spec fn pos(&self) -> nat {
        self.rc.pos()
    }

    /// Whether reading from the source never fails.
    pub closed spec fn reliable(&self) -> bool {
        self.rc.reliable()
    }

    /// The events emitted so far, oldest first.
    pub closed spec fn emitted(&self) -> Seq<Emitted> {
        self.events@.map_values(|e: JsonEvent| e@)
    }

    /// The stream underneath.
    pub closed spec fn stream(&self) -> RewindableChars<R> {
        self.rc
    }

    /// Whether `after` is this parser further on in the same document: no
    /// byte has changed, the position has not gone back, and no event that
    /// was emitted is lost.
    pub open spec fn moved_on(&self, after: &Self) -> bool {
        &&& after.wf()
        &&& after.all() == self.all()
        &&& after.reliable() == self.reliable()
        &&& after.pos() >= self.pos()
        &&& after.stream().window() >= self.stream().window()
        &&& self.emitted().is_prefix_of(after.emitted())
    }

    /// Whether this parser, after a call that returned `r`, is where `want`
    /// says, with its events, and `r` is its result.
    pub open spec fn agrees(&self, r: ParseResult<()>, want: Parsed) -> bool {
        &&& self.pos() == want.pos
        &&& self.emitted() == want.events
        &&& match want.result {
            Ok(_) => r is Ok,
            Err(f) => r is Err && r->Err_0.reports(f),
        }
    }

    /// Create a new instance
    pub fn new(bytes: R) -> (p: JsonParser<R>)
        ensures
            p.wf(),
            p.all() == bytes.remaining(),
            p.pos() == 0,
            p.reliable() == bytes.reliable(),
            p.emitted() == Seq::<Emitted>::empty(),
    {
        let p = JsonParser { rc: RewindableChars::new(bytes), events: Vec::new() };
        assert(p.emitted() =~= Seq::<Emitted>::empty());
        p
    }

    pub fn mark(&mut self) -> (m: Mark)
        requires
            old(self).wf(),
        ensures
            m == Mark::Pos(old(self).pos() as usize),
            *final(self) == *old(self),
    {
        self.rc.mark()
    }

    pub fn rewind(&mut self, m: Mark)
        requires
            old(self).wf(),
        ensures
            final(self).wf(),
            final(self).all() == old(self).all(),
            final(self).reliable() == old(self).reliable(),
            final(self).emitted() == old(self).emitted(),
            final(self).stream() == old(self).stream().rewound(m),
            final(self).pos() == if m->Pos_0 <= old(self).stream().window() {
                m->Pos_0 as nat
            } else {
                old(self).stream().window()
            },
    {
        self.rc.rewind(m);
    }

    /// The events emitted so far, oldest first.
    pub fn events(&self) -> (r: &Vec<JsonEvent>)
        ensures
            r@.map_values(|e: JsonEvent| e@) == self.emitted(),
    {
        &self.events
    }

    /// Keeps one event.
    #[inline]
    fn emit_event(&mut self, val: JsonEvent)
        ensures
            final(self).stream() == old(self).stream(),
            final(self).wf() == old(self).wf(),
            final(self).all() == old(self).all(),
            final(self).pos() == old(self).pos(),
            final(self).reliable() == old(self).reliable(),
            final(self).emitted() == old(self).emitted().push(val@),
    {
        self.events.push(val);
        assert(self.emitted() =~= old(self).emitted().push(val@));
    }

    /// Matches a JSON string
    pub fn json_string(&mut self) -> (r: ParseResult<()>)
        requires
            old(self).wf(),
        ensures
            old(self).moved_on(final(self)),
            old(self).reliable() ==> final(self).agrees(
                r,
                read_string(old(self).all(), old(self).pos() as int, old(self).emitted()),
            ),
            r is Ok ==> final(self).pos() > old(self).pos(),
    {
        proof {
            self.rc.lemma_bounds();
            broadcast use {lemma_prefix_trans, lemma_prefix_push};
            reveal_strlit("\"");
        }
        // starts with a quote
        match match_str("\"", &mut self.rc) {
            Ok(_) => {},
            Err(e) => {
                return Err(e);
            },
        }
        let ghost all = self.all();
        let ghost start = old(self).pos() as int;
        let mut s = String::new();
        let mut escaped = false;
        loop
            invariant
                self.wf(),
                self.all() == all,
                all == old(self).all(),
                start == old(self).pos(),
                self.reliable() == old(self).reliable(),
                self.emitted() == old(self).emitted(),
                self.stream().window() >= old(self).stream().window(),
                self.pos() > start,
                char_at(all, start, '"'),
                string_tail(all, start + 1, false, Seq::empty()) == string_tail(
                    all,
                    self.pos() as int,
                    escaped,
                    s@,
                ),
            decreases all.len() - self.pos(),
        {
            proof {
                self.rc.lemma_bounds();
            }
            match self.rc.next() {
                Some(x) => {
                    let mut c = match x {
                        Ok(c) => c,
                        Err(e) => {
                            return Err(e);
                        },
                    };
                    if c == '\\' {
                        escaped = true;
                    } else {
                        if escaped {
                            if c == '\"' {
                                // do nothing - just a quote
                            } else if c == 'r' {
                                c = '\r';
                            }
                        } else if c == '\"' {
                            // end of string !
                            self.emit_event(JsonEvent::String(s));
                            return Ok(());
                        }
                        escaped = false;
                        if c == '\n' || c == '\r' {
                            return Err(ParseErr::bad_data("\r or \n not allowed in string"));
                        }
                        // just append to result
                        s.push(c);
                    }
                },
                None => {
                    // Unterminated string constant
                    return Err(ParseErr::bad_data("unterminated string"));
                },
            }
        }
    }

    /// Match a JSON number, the result returned as a string so that
    /// client can decide how to interpret:
    /// optional sign, digits
    pub fn json_number(&mut self) -> (r: ParseResult<()>)
        requires
            old(self).wf(),
        ensures
            old(self).moved_on(final(self)),
            old(self).reliable() ==> final(self).agrees(
                r,
                read_number(old(self).all(), old(self).pos() as int, old(self).emitted()),
            ),
            r is Ok ==> final(self).pos() > old(self).pos(),
    {
        let ghost all = self.all();
        let ghost start = self.pos() as int;
        proof {
            self.rc.lemma_bounds();
            broadcast use {lemma_prefix_trans, lemma_prefix_push};
            lemma_char_run_end_bounds(all, start, space_pred());
        }
        skip_spaces(&mut self.rc)?;
        let ghost sp = self.pos() as int;
        let mut s = String::new();
        let mut count: usize = 0;
        proof {
            reveal_strlit("-");
            assert("-"@.len() == 1 && "-"@[0] == '-');
            assert(match_len(all, sp + 1, "-"@.skip(1)) == 0);
        }
        // optional sign -- could have been "match while"
        if match_str_optional("-", &mut self.rc)? {
            s.push('-');
            count += 1;
        }
        let ghost first = self.pos() as int;
        let ghost sign = s@;
        proof {
            assert(sign =~= captured(all, sp, first));
            assert(old(self).reliable() ==> first == if char_at(all, sp, '-') {
                sp + 1
            } else {
                sp
            });
            self.rc.lemma_bounds();
        }
        let match_digit = |c: char| -> (r: bool)
            ensures
                r == ('0' <= c && c <= '9'),
            { c >= '0' && c <= '9' };
        let ghost before = self.rc;
        let res = capture_while_mand(match_digit, &mut s, &mut self.rc);
        proof {
            self.rc.lemma_bounds();
            assert(forall|c: char, r: bool| #[trigger]
                match_digit.ensures((c,), r) ==> r == digit_pred()(c));
            if res is Ok {
                lemma_char_run_end(match_digit, digit_pred(), all, first, self.pos() as int);
            } else if res->Err_0 is DidNotMatch {
                lemma_char_run_end(match_digit, digit_pred(), all, first, first);
            } else if !(res->Err_0 is Io) {
                let e = res->Err_0;
                let taken = choose|taken: Seq<char>| #[trigger]
                    run_broken(match_digit, before, self.rc, e, taken);
                lemma_char_run_end(match_digit, digit_pred(), all, first, self.pos() - 1);
            }
        }
        match res {
            Ok(_) => {},
            Err(e) => {
                return Err(e);
            },
        }
        let ghost end = self.pos() as int;
        proof {
            assert(s@ =~= captured(all, sp, end));
            assert(is_ascii_chars(s@));
            is_ascii_chars_encode_utf8(s@);
        }
        if s.as_str().len() < count {
            Err(ParseErr::DidNotMatch)
        } else {
            self.emit_event(JsonEvent::Number(s));
            Ok(())
        }
    }

    /// Starts parsing of a Json doc: reads one value.
    pub fn parse(&mut self) -> (r: ParseResult<()>)
        requires
            old(self).wf(),
        ensures
            old(self).moved_on(final(self)),
            r is Ok ==> final(self).pos() > old(self).pos(),
            old(self).reliable() ==> final(self).agrees(
                r,
                read_value(old(self).all(), old(self).pos() as int, old(self).emitted()),
            ),
    {
        self.value()?;
        Ok(())
    }

    /// One value: whitespace, then a string, a number, an object or an
    /// array, tried in this order, each from the same position.
    pub fn value(&mut self) -> (r: ParseResult<()>)
        requires
            old(self).wf(),
        ensures
            old(self).moved_on(final(self)),
            r is Ok ==> final(self).pos() > old(self).pos(),
            old(self).reliable() ==> final(self).agrees(
                r,
                read_value(old(self).all(), old(self).pos() as int, old(self).emitted()),
            ),
        decreases old(self).all().len() - old(self).pos(), 2int,
    {
        let ghost all = self.all();
        let ghost pos = self.pos() as int;
        let ghost events = self.emitted();
        proof {
            self.rc.lemma_bounds();
            broadcast use {lemma_prefix_trans, lemma_prefix_push};
        }
        skip_spaces(&mut self.rc)?;
        let ghost at0 = self.pos() as int;
        proof {
            self.rc.lemma_bounds();
        }
        let mark_or = self.rc.mark();
        let mut pr = settled(self.json_string());
        let ghost a = read_string(all, at0, events);
        if is_no_match(&pr) {
            self.rc.rewind(mark_or);
            pr = settled(self.json_number());
        }
        let ghost b = read_number(all, at0, a.events);
        if is_no_match(&pr) {
            self.rc.rewind(mark_or);
            pr = settled(self.json_object());
        }
        let ghost c = read_object(all, at0, b.events);
        if is_no_match(&pr) {
            self.rc.rewind(mark_or);
            pr = settled(self.json_array());
        }
        if is_no_match(&pr) {
            self.rc.rewind(mark_or);
        }
        pr
    }

    /// An array: `[`, its values, `]`. The step that does not match is
    /// taken back, the steps before it are not.
    pub fn json_array(&mut self) -> (r: ParseResult<()>)
        requires
            old(self).wf(),
        ensures
            old(self).moved_on(final(self)),
            r is Ok ==> final(self).pos() > old(self).pos(),
            old(self).reliable() ==> final(self).agrees(
                r,
                read_array(old(self).all(), old(self).pos() as int, old(self).emitted()),
            ),
        decreases old(self).all().len() - old(self).pos(), 1int,
    {
        let ghost all = self.all();
        let ghost pos = self.pos() as int;
        proof {
            self.rc.lemma_bounds();
            broadcast use {lemma_prefix_trans, lemma_prefix_push};
            reveal_strlit("[");
            reveal_strlit("]");
            lemma_match_one(all, pos, "["@);
        }
        let mut mark_or = self.rc.mark();
        let mut pr = settled(match_str("[", &mut self.rc));
        if pr.is_ok() {
            mark_or = self.rc.mark();
            pr = settled(skip_spaces(&mut self.rc));
        }
        if pr.is_ok() {
            proof {
                self.rc.lemma_bounds();
            }
            mark_or = self.rc.mark();
            pr = settled(self.json_value_list());
        }
        if pr.is_ok() {
            mark_or = self.rc.mark();
            pr = settled(skip_spaces(&mut self.rc));
        }
        if pr.is_ok() {
            proof {
                self.rc.lemma_bounds();
                lemma_match_one(all, self.pos() as int, "]"@);
            }
            mark_or = self.rc.mark();
            pr = settled(match_str("]", &mut self.rc));
        }
        if is_no_match(&pr) {
            self.rc.rewind(mark_or);
        }
        pr
    }

    /// An object: `{`, its members, `}`. The step that does not match is
    /// taken back, the steps before it are not.
    pub fn json_object(&mut self) -> (r: ParseResult<()>)
        requires
            old(self).wf(),
        ensures
            old(self).moved_on(final(self)),
            r is Ok ==> final(self).pos() > old(self).pos(),
            old(self).reliable() ==> final(self).agrees(
                r,
                read_object(old(self).all(), old(self).pos() as int, old(self).emitted()),
            ),
        decreases old(self).all().len() - old(self).pos(), 1int,
    {
        let ghost all = self.all();
        let ghost pos = self.pos() as int;
        proof {
            self.rc.lemma_bounds();
            broadcast use {lemma_prefix_trans, lemma_prefix_push};
            reveal_strlit("{");
            reveal_strlit("}");
            lemma_match_one(all, pos, "{"@);
        }
        let mut mark_or = self.rc.mark();
        let mut pr = settled(match_str("{", &mut self.rc));
        if pr.is_ok() {
            mark_or = self.rc.mark();
            pr = settled(skip_spaces(&mut self.rc));
        }
        if pr.is_ok() {
            proof {
                self.rc.lemma_bounds();
            }
            mark_or = self.rc.mark();
            pr = settled(self.json_member_list());
        }
        if pr.is_ok() {
            mark_or = self.rc.mark();
            pr = settled(skip_spaces(&mut self.rc));
        }
        if pr.is_ok() {
            proof {
                self.rc.lemma_bounds();
                lemma_match_one(all, self.pos() as int, "}"@);
            }
            mark_or = self.rc.mark();
            pr = settled(match_str("}", &mut self.rc));
        }
        if is_no_match(&pr) {
            self.rc.rewind(mark_or);
        }
        pr
    }

    /// One or more values with a comma between them.
    pub fn json_value_list(&mut self) -> (r: ParseResult<()>)
        requires
            old(self).wf(),
        ensures
            old(self).moved_on(final(self)),
            r is Ok ==> final(self).pos() > old(self).pos(),
            old(self).reliable() ==> final(self).agrees(
                r,
                read_list(old(self).all(), old(self).pos() as int, old(self).emitted(), false),
            ),
        decreases old(self).all().len() - old(self).pos(), 4int,
    {
        let ghost all = self.all();
        let ghost want = read_list(all, self.pos() as int, self.emitted(), false);
        proof {
            broadcast use {lemma_prefix_trans, lemma_prefix_push};
        }
        let ghost mut any = false;
        loop
            invariant_except_break
                old(self).reliable() ==> want == read_list(
                    all,
                    self.pos() as int,
                    self.emitted(),
                    false,
                ),
            invariant
                old(self).moved_on(self),
                all == old(self).all(),
                any ==> self.pos() > old(self).pos(),
                want == read_list(
                    old(self).all(),
                    old(self).pos() as int,
                    old(self).emitted(),
                    false,
                ),
            ensures
                old(self).moved_on(self),
                self.pos() > old(self).pos(),
                old(self).reliable() ==> want == (Parsed {
                    result: Ok(()),
                    pos: self.pos() as int,
                    events: self.emitted(),
                }),
            decreases self.all().len() - self.pos(),
        {
            let ghost here = self.pos() as int;
            proof {
                self.rc.lemma_bounds();
            }
            let _ = skip_spaces(&mut self.rc);
            proof {
                self.rc.lemma_bounds();
                assert(self.all() == old(self).all());
                assert(self.pos() >= old(self).pos());
                assert(self.all().len() - self.pos() <= old(self).all().len() - old(self).pos());
                assert(self.all().len() - self.pos() >= 0);
            }
            let ghost at1 = self.pos() as int;
            let ghost events = self.emitted();
            let ghost item = if false {
                read_member(all, at1, events)
            } else {
                read_value(all, at1, events)
            };
            proof {
                if old(self).reliable() {
                    assert(at1 == after_spaces(all, here).1);
                    assert(want == read_list(all, here, events, false));
                    assert(item.result is Err ==> want == item);
                }
            }
            self.value()?;
            proof {
                any = true;
                self.rc.lemma_bounds();
            }
            let _ = skip_spaces(&mut self.rc);
            proof {
                self.rc.lemma_bounds();
            }
            let m = self.rc.mark();
            match match_char(',', &mut self.rc) {
                Ok(_) => {
                    proof {
                        self.rc.lemma_bounds();
                    }
                },
                Err(_) => {
                    self.rc.rewind(m);
                    break ;
                },
            }
        }
        Ok(())
    }

    /// One or more members with a comma between them.
    pub fn json_member_list(&mut self) -> (r: ParseResult<()>)
        requires
            old(self).wf(),
        ensures
            old(self).moved_on(final(self)),
            r is Ok ==> final(self).pos() > old(self).pos(),
            old(self).reliable() ==> final(self).agrees(
                r,
                read_list(old(self).all(), old(self).pos() as int, old(self).emitted(), true),
            ),
        decreases old(self).all().len() - old(self).pos(), 4int,
    {
        let ghost all = self.all();
        let ghost want = read_list(all, self.pos() as int, self.emitted(), true);
        proof {
            broadcast use {lemma_prefix_trans, lemma_prefix_push};
        }
        let ghost mut any = false;
        // A list is such a common pattern
        loop
            invariant_except_break
                old(self).reliable() ==> want == read_list(
                    all,
                    self.pos() as int,
                    self.emitted(),
                    true,
                ),
            invariant
                old(self).moved_on(self),
                all == old(self).all(),
                any ==> self.pos() > old(self).pos(),
                want == read_list(
                    old(self).all(),
                    old(self).pos() as int,
                    old(self).emitted(),
                    true,
                ),
            ensures
                old(self).moved_on(self),
                self.pos() > old(self).pos(),
                old(self).reliable() ==> want == (Parsed {
                    result: Ok(()),
                    pos: self.pos() as int,
                    events: self.emitted(),
                }),
            decreases self.all().len() - self.pos(),
        {
            let ghost here = self.pos() as int;
            proof {
                self.rc.lemma_bounds();
            }
            let _ = skip_spaces(&mut self.rc);
            proof {
                self.rc.lemma_bounds();
                assert(self.all() == old(self).all());
                assert(self.pos() >= old(self).pos());
                assert(self.all().len() - self.pos() <= old(self).all().len() - old(self).pos());
                assert(self.all().len() - self.pos() >= 0);
            }
            let ghost at1 = self.pos() as int;
            let ghost events = self.emitted();
            let ghost item = if true {
                read_member(all, at1, events)
            } else {
                read_value(all, at1, events)
            };
            proof {
                if old(self).reliable() {
                    assert(at1 == after_spaces(all, here).1);
                    assert(want == read_list(all, here, events, true));
                    assert(item.result is Err ==> want == item);
                }
            }
            self.json_member()?;
            proof {
                any = true;
                self.rc.lemma_bounds();
            }
            let _ = skip_spaces(&mut self.rc);
            proof {
                self.rc.lemma_bounds();
            }
            let m = self.rc.mark();
            match match_char(',', &mut self.rc) {
                Ok(_) => {
                    proof {
                        self.rc.lemma_bounds();
                    }
                },
                Err(_) => {
                    self.rc.rewind(m);
                    break ;
                },
            }
        }
        Ok(())
    }

    /// One member: name, colon, value
    pub fn json_member(&mut self) -> (r: ParseResult<()>)
        requires
            old(self).wf(),
        ensures
            old(self).moved_on(final(self)),
            r is Ok ==> final(self).pos() > old(self).pos(),
            old(self).reliable() ==> final(self).agrees(
                r,
                read_member(old(self).all(), old(self).pos() as int, old(self).emitted()),
            ),
        decreases old(self).all().len() - old(self).pos(), 3int,
    {
        let ghost all = self.all();
        proof {
            self.rc.lemma_bounds();
            broadcast use {lemma_prefix_trans, lemma_prefix_push};
            reveal_strlit(":");
        }
        // name, colon, value
        self.json_string()?;
        skip_spaces(&mut self.rc)?;
        proof {
            self.rc.lemma_bounds();
            lemma_match_one(all, self.pos() as int, ":"@);
        }
        match_str(":", &mut self.rc)?;
        skip_spaces(&mut self.rc)?;
        proof {
            self.rc.lemma_bounds();
        }
        self.value()?;
        Ok(())
    }
}

/// Skips whitespace; where it ends is where the run of whitespace
/// characters ends.
fn skip_spaces<R: ByteSource>(rc: &mut RewindableChars<R>) -> (r: ParseResult<()>)
    requires
        old(rc).wf(),
    ensures
        final(rc).wf(),
        final(rc).all() == old(rc).all(),
        final(rc).reliable() == old(rc).reliable(),
        final(rc).window() >= old(rc).window(),
        final(rc).pos() >= old(rc).pos(),
        old(rc).reliable() ==> {
            let (spaces, end) = after_spaces(old(rc).all(), old(rc).pos() as int);
            &&& final(rc).pos() == end
            &&& match spaces {
                Ok(_) => r is Ok,
                Err(f) => r is Err && r->Err_0.reports(f),
            }
        },
        match r {
            Ok(_) => {
                let end = char_run_end(old(rc).all(), old(rc).pos() as int, space_pred());
                &&& final(rc).pos() == end
                &&& end < old(rc).all().len() ==> old(rc).all()[end] < 128
            },
            Err(e) => if e is Io {
                !old(rc).reliable()
            } else {
                let end = char_run_end(old(rc).all(), old(rc).pos() as int, space_pred());
                &&& e.reports(not_ascii())
                &&& final(rc).pos() == end + 1
                &&& end < old(rc).all().len() && old(rc).all()[end] >= 128
            },
        },
{
    proof {
        rc.lemma_bounds();
        lemma_char_run_end_bounds(old(rc).all(), old(rc).pos() as int, space_pred());
    }
    let r = skip_whitespace(rc);
    proof {
        rc.lemma_bounds();
        let all = old(rc).all();
        let from = old(rc).pos() as int;
        if r is Ok {
            lemma_spaces_end(all, from, rc.pos() as int);
        } else if !(r->Err_0 is Io) {
            lemma_spaces_end(all, from, rc.pos() - 1);
        }
    }
    r
}

/// A run of whitespace ends where `char_run_end` says.
proof fn lemma_spaces_end(all: Seq<u8>, from: int, to: int)
    requires
        0 <= from <= to <= all.len(),
        forall|i: int| from <= i < to ==> all[i] < 128 && space_char(all[i] as char),
        to < all.len() ==> all[to] >= 128 || !space_char(all[to] as char),
    ensures
        char_run_end(all, from, space_pred()) == to,
    decreases to - from,
{
    if from < to {
        lemma_spaces_end(all, from + 1, to);
    }
}

/// The result of one alternative or step, without what it matched.
fn settled<T>(result: ParseResult<T>) -> (pr: ParseResult<()>)
    ensures
        pr is Ok <==> result is Ok,
        result is Err ==> pr == Err::<(), ParseErr>(result->Err_0),
{
    match result {
        Ok(_) => Ok(()),
        Err(e) => Err(e),
    }
}

/// Whether a result says that the input did not match.
fn is_no_match(pr: &ParseResult<()>) -> (r: bool)
    ensures
        r == (pr is Err && pr->Err_0 is DidNotMatch),
{
    match pr {
        Err(ParseErr::DidNotMatch) => true,
        _ => false,
    }
}

/// With a pattern of one character, the match is that character or nothing.
proof fn lemma_match_one(all: Seq<u8>, pos: int, pat: Seq<char>)
    requires
        pat.len() == 1,
    ensures
        match_len(all, pos, pat) == if char_at(all, pos, pat[0]) {
            1nat
        } else {
            0nat
        },
{
    assert(match_len(all, pos + 1, pat.skip(1)) == 0);
}

} // verus!
