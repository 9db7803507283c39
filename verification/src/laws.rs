//! What holds of the token grammar as a whole: the end of a document, the
//! text of numbers, whitespace, and the pairing of the events that open and
//! close containers.

use vstd::prelude::*;
use crate::classify::{digit_byte, whitespace_byte};
use crate::grammar::{
    Advance, counted, digit_class, digits_len, Fault, JsonStackItem, lemma_run_len_bound,
    lemma_run_len_content, lemma_run_len_is, lemma_skip_ws_done, lemma_skip_ws_step, next_step,
    number_len, Scan, scan_number, scan_string, scan_value, separator, skip_ws, string_body, Token,
    U8_MINUS, U8_PERIOD,
};

verus! {

/// A pull reports the end of the document if and only if no container is
/// open and nothing but whitespace is left. Where nothing but whitespace is
/// left and a container is open, the pull fails.
pub proof fn law_end_of_document(stack: Seq<JsonStackItem>, s: Seq<u8>)
    ensures
        (next_step(stack, s) is Ok && next_step(stack, s)->Ok_0.event is None) <==> (stack.len()
            == 0 && skip_ws(s).len() == 0),
        stack.len() > 0 && skip_ws(s).len() == 0 ==> next_step(stack, s) == Err::<Advance, Fault>(
            Fault::NoMatch,
        ),
{
    reveal(next_step);
}

/// Whether every byte of `w` is whitespace.
pub open spec fn all_whitespace(w: Seq<u8>) -> bool {
    forall|i: int| 0 <= i < w.len() ==> whitespace_byte(#[trigger] w[i])
}

/// Whitespace in front of anything is skipped with the whitespace after it.
pub proof fn lemma_skip_ws_prefix(w: Seq<u8>, s: Seq<u8>)
    requires
        all_whitespace(w),
    ensures
        skip_ws(w + s) == skip_ws(s),
    decreases w.len(),
{
    if w.len() == 0 {
        assert(w + s =~= s);
    } else {
        let t = w + s;
        assert(t[0] == w[0]);
        lemma_skip_ws_step(t);
        assert(t.skip(1) =~= w.skip(1) + s);
        assert forall|i: int| 0 <= i < w.skip(1).len() implies whitespace_byte(
            #[trigger] w.skip(1)[i],
        ) by {
            assert(w.skip(1)[i] == w[i + 1]);
        }
        lemma_skip_ws_prefix(w.skip(1), s);
    }
}

/// Whitespace before a value changes nothing of what the value is read as.
pub proof fn law_whitespace_before_value(stack: Seq<JsonStackItem>, w: Seq<u8>, s: Seq<u8>)
    requires
        all_whitespace(w),
    ensures
        scan_value(stack, w + s) == scan_value(stack, s),
{
    lemma_skip_ws_prefix(w, s);
}

/// Whitespace before a pull changes nothing of what the pull returns and
/// leaves: neither the event or the failure, nor the stack, nor the unread
/// bytes.
pub proof fn law_whitespace_before_pull(stack: Seq<JsonStackItem>, w: Seq<u8>, s: Seq<u8>)
    requires
        all_whitespace(w),
    ensures
        next_step(stack, w + s) == next_step(stack, s),
{
    reveal(next_step);
    lemma_skip_ws_prefix(w, s);
}

/// The kinds of the open containers, outermost first: `true` for an object.
pub open spec fn kinds(stack: Seq<JsonStackItem>) -> Seq<bool> {
    stack.map_values(|f: JsonStackItem| f is Object)
}

/// The open containers after the events `events`, when `open` were open
/// before them: an event that opens a container adds it, one that closes a
/// container takes the innermost away and must be of its kind, and any other
/// event changes nothing. `None` where an event closes what is not open.
pub open spec fn replay(open: Seq<bool>, events: Seq<Token>) -> Option<Seq<bool>>
    decreases events.len(),
{
    if events.len() == 0 {
        Some(open)
    } else {
        let after = match events[0] {
            Token::ObjectStart => Some(open.push(true)),
            Token::ArrayStart => Some(open.push(false)),
            Token::ObjectEnd => if open.len() > 0 && open.last() {
                Some(open.drop_last())
            } else {
                None
            },
            Token::ArrayEnd => if open.len() > 0 && !open.last() {
                Some(open.drop_last())
            } else {
                None
            },
            _ => Some(open),
        };
        match after {
            Some(next) => replay(next, events.skip(1)),
            None => None,
        }
    }
}

/// The number of events that open a container.
pub open spec fn starts(events: Seq<Token>) -> nat
    decreases events.len(),
{
    if events.len() == 0 {
        0
    } else {
        (if events[0] is ObjectStart || events[0] is ArrayStart {
            1nat
        } else {
            0nat
        }) + starts(events.skip(1))
    }
}

/// The number of events that close a container.
pub open spec fn ends(events: Seq<Token>) -> nat
    decreases events.len(),
{
    if events.len() == 0 {
        0
    } else {
        (if events[0] is ObjectEnd || events[0] is ArrayEnd {
            1nat
        } else {
            0nat
        }) + ends(events.skip(1))
    }
}

/// Replaying events that pair up leaves as many containers open as were
/// open, plus those that were opened, minus those that were closed.
pub proof fn lemma_replay_depth(open: Seq<bool>, events: Seq<Token>)
    ensures
        replay(open, events) is Some ==> replay(open, events)->Some_0.len() + ends(events)
            == open.len() + starts(events),
    decreases events.len(),
{
    if events.len() > 0 {
        match events[0] {
            Token::ObjectStart => lemma_replay_depth(open.push(true), events.skip(1)),
            Token::ArrayStart => lemma_replay_depth(open.push(false), events.skip(1)),
            Token::ObjectEnd => if open.len() > 0 && open.last() {
                lemma_replay_depth(open.drop_last(), events.skip(1))
            },
            Token::ArrayEnd => if open.len() > 0 && !open.last() {
                lemma_replay_depth(open.drop_last(), events.skip(1))
            },
            _ => lemma_replay_depth(open, events.skip(1)),
        }
    }
}

/// Replaying two runs of events one after the other is replaying them as one.
pub proof fn lemma_replay_append(open: Seq<bool>, a: Seq<Token>, b: Seq<Token>)
    ensures
        replay(open, a + b) == match replay(open, a) {
            Some(mid) => replay(mid, b),
            None => None,
        },
    decreases a.len(),
{
    if a.len() == 0 {
        assert(a + b =~= b);
    } else {
        assert((a + b)[0] == a[0]);
        assert((a + b).skip(1) =~= a.skip(1) + b);
        match a[0] {
            Token::ObjectStart => lemma_replay_append(open.push(true), a.skip(1), b),
            Token::ArrayStart => lemma_replay_append(open.push(false), a.skip(1), b),
            Token::ObjectEnd => if open.len() > 0 && open.last() {
                lemma_replay_append(open.drop_last(), a.skip(1), b)
            },
            Token::ArrayEnd => if open.len() > 0 && !open.last() {
                lemma_replay_append(open.drop_last(), a.skip(1), b)
            },
            _ => lemma_replay_append(open, a.skip(1), b),
        }
    }
}

/// A value that is read opens at most one container and closes none: the
/// stack after it is the stack before it with that container on top.
pub proof fn lemma_value_event(stack: Seq<JsonStackItem>, s: Seq<u8>)
    ensures
        match scan_value(stack, s) {
            Ok(a) => {
                &&& a.event is Some
                &&& a.rest.len() < s.len()
                &&& match a.event->Some_0 {
                    Token::ObjectStart => a.stack == stack.push(JsonStackItem::Object(0)),
                    Token::ArrayStart => a.stack == stack.push(JsonStackItem::Array(0)),
                    Token::ObjectEnd => false,
                    Token::ArrayEnd => false,
                    _ => a.stack == stack,
                }
            },
            Err(_) => true,
        },
{
    let t = skip_ws(s);
    lemma_skip_ws_done(s);
    if t.len() > 0 {
        lemma_scan_string_shorter(t);
        lemma_scan_number_shorter(t);
    }
}

/// A string that is read leaves fewer bytes than it was read from.
pub proof fn lemma_scan_string_shorter(s: Seq<u8>)
    ensures
        scan_string(s) is Hit ==> scan_string(s)->Hit_1.len() < s.len(),
{
    if s.len() > 0 {
        lemma_string_body_shorter(s.skip(1), Seq::empty());
    }
}

/// The rest of a string leaves fewer bytes than it was read from.
pub proof fn lemma_string_body_shorter(s: Seq<u8>, text: Seq<u8>)
    ensures
        string_body(s, text) is Hit ==> string_body(s, text)->Hit_1.len() < s.len(),
    decreases s.len(),
{
    if s.len() == 0 {
    } else if s[0] == crate::grammar::U8_QUOTE {
    } else if s[0] == crate::grammar::U8_LF || s[0] == crate::grammar::U8_CR {
    } else if s[0] == crate::grammar::U8_ESCAPE {
        match crate::grammar::escape(s.skip(1)) {
            Ok((bytes, n)) => {
                if 1 + n <= s.len() {
                    lemma_string_body_shorter(s.skip(1 + n as int), text + bytes);
                }
            },
            Err(_) => {},
        }
    } else {
        lemma_string_body_shorter(s.skip(1), text.push(s[0]));
    }
}

/// A number that is read leaves fewer bytes than it was read from.
pub proof fn lemma_scan_number_shorter(s: Seq<u8>)
    ensures
        scan_number(s) is Hit ==> scan_number(s)->Hit_1.len() < s.len() && number_len(s)->Some_0
            <= s.len() && number_len(s)->Some_0 > 0,
{
    let sign: int = if s.len() > 0 && s[0] == U8_MINUS {
        1
    } else {
        0
    };
    lemma_run_len_bound(s.skip(sign), digit_class());
    let dot = sign + digits_len(s.skip(sign));
    if dot < s.len() {
        lemma_run_len_bound(s.skip(dot + 1), digit_class());
    }
}

/// Every pull that returns an event takes at least one byte, and changes
/// the stack as the event says: an event that opens a container puts it on
/// top, one that closes a container takes the innermost away, which is of
/// its kind, and any other event leaves as many containers open, of the same
/// kinds.
pub proof fn law_event_matches_stack(stack: Seq<JsonStackItem>, s: Seq<u8>)
    ensures
        match next_step(stack, s) {
            Ok(a) => a.event is Some ==> {
                &&& a.rest.len() < s.len()
                &&& replay(kinds(stack), seq![a.event->Some_0]) == Some(kinds(a.stack))
            },
            Err(_) => true,
        },
{
    reveal(next_step);
    let t = skip_ws(s);
    lemma_skip_ws_done(s);
    if next_step(stack, s) is Ok && next_step(stack, s)->Ok_0.event is Some {
        let a = next_step(stack, s)->Ok_0;
        let e = a.event->Some_0;
        reveal_with_fuel(replay, 3);
        assert(seq![e].skip(1) =~= Seq::<Token>::empty());
        assert(seq![e][0] == e);
        if stack.len() == 0 {
            lemma_value_event(stack, t);
            assert(kinds(stack.push(JsonStackItem::Object(0))) =~= kinds(stack).push(true));
            assert(kinds(stack.push(JsonStackItem::Array(0))) =~= kinds(stack).push(false));
        } else {
            let top = stack.len() - 1;
            assert(kinds(stack.drop_last()) =~= kinds(stack).drop_last());
            match stack.last() {
                JsonStackItem::Object(n) => {
                    let bumped = stack.update(top, JsonStackItem::Object(crate::grammar::bump(n)));
                    assert(kinds(bumped) =~= kinds(stack));
                    if !(t[0] == crate::grammar::U8_END_OBJ) {
                        let u = separator(n, t)->Hit_1;
                        lemma_separator_shorter(n, t);
                        lemma_scan_string_shorter(u);
                        let v = scan_string(u)->Hit_1;
                        lemma_skip_ws_done(v);
                        let w = skip_ws(v);
                        lemma_value_event(bumped, w.skip(1));
                        assert(kinds(bumped.push(JsonStackItem::Object(0))) =~= kinds(
                            stack,
                        ).push(true));
                        assert(kinds(bumped.push(JsonStackItem::Array(0))) =~= kinds(stack).push(
                            false,
                        ));
                    }
                },
                JsonStackItem::Array(n) => {
                    let bumped = stack.update(top, JsonStackItem::Array(crate::grammar::bump(n)));
                    assert(kinds(bumped) =~= kinds(stack));
                    if !(t[0] == crate::grammar::U8_END_ARR) {
                        let u = separator(n, t)->Hit_1;
                        lemma_separator_shorter(n, t);
                        lemma_value_event(bumped, u);
                        assert(kinds(bumped.push(JsonStackItem::Object(0))) =~= kinds(
                            stack,
                        ).push(true));
                        assert(kinds(bumped.push(JsonStackItem::Array(0))) =~= kinds(stack).push(
                            false,
                        ));
                    }
                },
            }
        }
    }
}

/// A separator leaves no more bytes than it was read from.
pub proof fn lemma_separator_shorter(n: usize, t: Seq<u8>)
    ensures
        separator(n, t) is Hit ==> separator(n, t)->Hit_1.len() <= t.len(),
{
    if n != 0 && t.len() > 0 {
        lemma_skip_ws_done(t.skip(1));
    }
}

/// What `k` pulls in a row return and leave, where each of them returns an
/// event: the events in order, the stack and the unread bytes. `None` where
/// one of them fails or reports the end of the document.
pub open spec fn pulls(stack: Seq<JsonStackItem>, s: Seq<u8>, k: nat) -> Option<
    (Seq<Token>, Seq<JsonStackItem>, Seq<u8>),
>
    decreases k,
{
    if k == 0 {
        Some((Seq::empty(), stack, s))
    } else {
        match next_step(stack, s) {
            Ok(a) => match a.event {
                Some(e) => match pulls(a.stack, a.rest, (k - 1) as nat) {
                    Some((events, last, rest)) => Some((seq![e] + events, last, rest)),
                    None => None,
                },
                None => None,
            },
            Err(_) => None,
        }
    }
}

/// After any number of pulls, the events so far pair up: each event that
/// closes a container closes the innermost open one, which is of its kind.
/// The containers that the events leave open are those on the stack, so the
/// nesting depth is the depth before the pulls, plus the events that open a
/// container, minus those that close one.
pub proof fn law_events_pair_up(stack: Seq<JsonStackItem>, s: Seq<u8>, k: nat)
    ensures
        match pulls(stack, s, k) {
            Some((events, last, rest)) => {
                &&& events.len() == k
                &&& replay(kinds(stack), events) == Some(kinds(last))
                &&& last.len() + ends(events) == stack.len() + starts(events)
                &&& rest.len() + k <= s.len()
            },
            None => true,
        },
    decreases k,
{
    if k > 0 && pulls(stack, s, k) is Some {
        let a = next_step(stack, s)->Ok_0;
        let e = a.event->Some_0;
        law_event_matches_stack(stack, s);
        law_events_pair_up(a.stack, a.rest, (k - 1) as nat);
        let (events, last, rest) = pulls(a.stack, a.rest, (k - 1) as nat)->Some_0;
        lemma_replay_append(kinds(stack), seq![e], events);
        lemma_replay_depth(kinds(stack), seq![e] + events);
    } else if k == 0 {
        assert(kinds(stack).len() == stack.len());
    }
}

/// In a document that is read from its first byte to its clean end, the
/// events pair up completely: every container that is opened is closed, by
/// an event of its kind, innermost first, and as many events open a
/// container as close one.
pub proof fn law_document_is_balanced(s: Seq<u8>, k: nat)
    requires
        pulls(Seq::empty(), s, k) is Some,
        ({
            let (events, last, rest) = pulls(Seq::empty(), s, k)->Some_0;
            next_step(last, rest) is Ok && next_step(last, rest)->Ok_0.event is None
        }),
    ensures
        ({
            let (events, last, rest) = pulls(Seq::empty(), s, k)->Some_0;
            &&& last.len() == 0
            &&& replay(Seq::empty(), events) == Some(Seq::<bool>::empty())
            &&& starts(events) == ends(events)
        }),
{
    let (events, last, rest) = pulls(Seq::empty(), s, k)->Some_0;
    law_events_pair_up(Seq::empty(), s, k);
    law_end_of_document(last, rest);
    assert(kinds(Seq::<JsonStackItem>::empty()) =~= Seq::<bool>::empty());
    assert(kinds(last) =~= Seq::<bool>::empty());
}

/// Whitespace before a run of pulls changes nothing of the events that they
/// return, nor of the stack and the unread bytes that they leave.
pub proof fn law_whitespace_before_pulls(
    stack: Seq<JsonStackItem>,
    w: Seq<u8>,
    s: Seq<u8>,
    k: nat,
)
    requires
        all_whitespace(w),
        k > 0,
    ensures
        pulls(stack, w + s, k) == pulls(stack, s, k),
{
    law_whitespace_before_pull(stack, w, s);
}

/// Whether every byte of `t` from index `from` up to `to` is a digit.
pub open spec fn digits_between(t: Seq<u8>, from: int, to: int) -> bool {
    forall|i: int| from <= i < to ==> digit_byte(#[trigger] t[i])
}

/// Whether `t` is the text of a number: an optional minus sign, one or more
/// digits, and optionally a period with one or more digits after it, and
/// nothing else.
pub open spec fn number_text(t: Seq<u8>) -> bool {
    exists|sign: int, dot: int|
        {
            &&& 0 <= sign <= 1
            &&& sign < dot <= t.len()
            &&& sign == 1 ==> t[0] == U8_MINUS
            &&& #[trigger] digits_between(t, sign, dot)
            &&& dot < t.len() ==> {
                &&& t[dot] == U8_PERIOD
                &&& dot + 1 < t.len()
                &&& digits_between(t, dot + 1, t.len() as int)
            }
        }
}

/// The text of every number that is read is the text of a number, and
/// reading that text again gives the same text, with nothing left over.
pub proof fn law_number_text_reads_back(s: Seq<u8>)
    ensures
        match scan_number(s) {
            Scan::Hit(text, rest) => {
                &&& text + rest == s
                &&& number_text(text)
                &&& scan_number(text) == Scan::Hit(text, Seq::<u8>::empty())
            },
            Scan::Miss(_) => true,
        },
{
    if scan_number(s) is Hit {
        let n = number_len(s)->Some_0 as int;
        let text = s.take(n);
        let sign: int = if s.len() > 0 && s[0] == U8_MINUS {
            1
        } else {
            0
        };
        let a = s.skip(sign);
        let whole = digits_len(a) as int;
        let dot = sign + whole;
        lemma_run_len_content(a, digit_class());
        lemma_scan_number_shorter(s);
        assert(text + s.skip(n) =~= s);
        // the digits before the period
        assert(digits_between(text, sign, dot)) by {
            assert forall|i: int| sign <= i < dot implies digit_byte(#[trigger] text[i]) by {
                assert(text[i] == a[i - sign]);
            }
        }
        let b = text.skip(sign);
        assert forall|i: int| 0 <= i < whole implies digit_class()(#[trigger] b[i]) by {
            assert(b[i] == a[i]);
        }
        if whole < b.len() {
            assert(b[whole] == a[whole]);
        }
        lemma_run_len_is(b, digit_class(), whole);
        if dot < s.len() && s[dot] == U8_PERIOD {
            let c = s.skip(dot + 1);
            let frac = digits_len(c) as int;
            lemma_run_len_content(c, digit_class());
            assert(n == dot + 1 + frac);
            assert(digits_between(text, dot + 1, text.len() as int)) by {
                assert forall|i: int| dot + 1 <= i < text.len() implies digit_byte(
                    #[trigger] text[i],
                ) by {
                    assert(text[i] == c[i - dot - 1]);
                }
            }
            let d = text.skip(dot + 1);
            assert forall|i: int| 0 <= i < frac implies digit_class()(#[trigger] d[i]) by {
                assert(d[i] == c[i]);
            }
            lemma_run_len_is(d, digit_class(), frac);
            assert(text.take(n) =~= text);
            assert(text.skip(n) =~= Seq::<u8>::empty());
            assert(text[dot] == U8_PERIOD);
            assert(number_len(text) == Some(n as nat));
            assert(digits_between(text, sign, dot) && digits_between(
                text,
                dot + 1,
                text.len() as int,
            ));
            assert(number_text(text));
        } else {
            assert(n == dot);
            assert(text.take(n) =~= text);
            assert(text.skip(n) =~= Seq::<u8>::empty());
            assert(number_len(text) == Some(n as nat));
            assert(digits_between(text, sign, dot));
            assert(number_text(text));
        }
    }
}

/// A pull changes the stack in one of few ways: not at all, or it counts a
/// member in the innermost container, and after that it may put one
/// container on top; or it takes the innermost container away.
pub proof fn law_stack_after_pull(stack: Seq<JsonStackItem>, s: Seq<u8>)
    ensures
        match next_step(stack, s) {
            Ok(a) => {
                ||| a.stack == stack
                ||| a.stack == counted(stack)
                ||| stack.len() > 0 && a.stack == stack.drop_last()
                ||| a.stack.len() == stack.len() + 1 && a.stack.drop_last() == stack
                ||| a.stack.len() == stack.len() + 1 && a.stack.drop_last() == counted(stack)
            },
            Err(_) => true,
        },
{
    reveal(next_step);
    let t = skip_ws(s);
    if next_step(stack, s) is Ok && t.len() > 0 {
        let a = next_step(stack, s)->Ok_0;
        if stack.len() == 0 {
            lemma_value_stack(stack, t);
        } else {
            match stack.last() {
                JsonStackItem::Object(n) => {
                    if t[0] != crate::grammar::U8_END_OBJ {
                        let u = separator(n, t)->Hit_1;
                        let v = scan_string(u)->Hit_1;
                        let w = skip_ws(v);
                        lemma_value_stack(counted(stack), w.skip(1));
                    }
                },
                JsonStackItem::Array(n) => {
                    if t[0] != crate::grammar::U8_END_ARR {
                        let u = separator(n, t)->Hit_1;
                        lemma_value_stack(counted(stack), u);
                    }
                },
            }
        }
    }
}

/// A value leaves the stack as it is, or puts one container on top.
pub proof fn lemma_value_stack(stack: Seq<JsonStackItem>, s: Seq<u8>)
    ensures
        match scan_value(stack, s) {
            Ok(a) => a.stack == stack || (a.stack.len() == stack.len() + 1 && a.stack.drop_last()
                == stack),
            Err(_) => true,
        },
{
    if scan_value(stack, s) is Ok {
        let a = scan_value(stack, s)->Ok_0;
        if a.stack != stack {
            assert(a.stack.drop_last() =~= stack);
        }
    }
}

} // verus!
