//! What the recursive-descent parser reads, as functions on the bytes of a
//! document, a position in them, and the events emitted before.

use vstd::prelude::*;
use crate::grammar::Fault;
use crate::internals::not_ascii;
use crate::internals::parsers::{captured, char_at, char_run_end, digit_pred, space_pred};
use crate::json::{Emitted, string_tail};

verus! {

/// What a parser made of the bytes at a position: whether it matched, the
/// position that it leaves, and the events emitted up to then.
pub struct Parsed {
    pub result: Result<(), Fault>,
    pub pos: int,
    pub events: Seq<Emitted>,
}

impl Parsed {
    /// Whether the parser did not match, which lets another be tried.
    pub open spec fn no_match(self) -> bool {
        self.result is Err && self.result->Err_0 is NoMatch
    }
}

/// A parser that does not match at `pos`, and stays there.
pub open spec fn refused(pos: int, events: Seq<Emitted>) -> Parsed {
    Parsed { result: Err(Fault::NoMatch), pos, events }
}

/// The index after the whitespace that begins at `pos`, or, where a byte
/// that is no ASCII character ends the whitespace, the fault and the index
/// after that byte.
pub open spec fn after_spaces(all: Seq<u8>, pos: int) -> (Result<(), Fault>, int) {
    let end = char_run_end(all, pos, space_pred());
    if 0 <= end < all.len() && all[end] >= 128 {
        (Err(not_ascii()), end + 1)
    } else {
        (Ok(()), end)
    }
}

/// Whether the character `c` stands at `pos`, and the index after the byte
/// at `pos`, which is read in any case.
pub open spec fn after_char(all: Seq<u8>, pos: int, c: char) -> (bool, int) {
    (
        char_at(all, pos, c),
        if 0 <= pos < all.len() {
            pos + 1
        } else {
            pos
        },
    )
}

/// A string at `pos`: a quote, and the text up to the closing quote.
pub open spec fn read_string(all: Seq<u8>, pos: int, events: Seq<Emitted>) -> Parsed {
    if !char_at(all, pos, '"') {
        refused(after_char(all, pos, '"').1, events)
    } else {
        let (text, end) = string_tail(all, pos + 1, false, Seq::empty());
        match text {
            Ok(t) => Parsed { result: Ok(()), pos: end, events: events.push(Emitted::String(t)) },
            Err(f) => Parsed { result: Err(f), pos: end, events },
        }
    }
}

/// A number at `pos`: whitespace, an optional minus sign, and one or more
/// digits. The sign stays read where no digit follows it.
pub open spec fn read_number(all: Seq<u8>, pos: int, events: Seq<Emitted>) -> Parsed {
    let (spaces, sp) = after_spaces(all, pos);
    let first = if char_at(all, sp, '-') {
        sp + 1
    } else {
        sp
    };
    let end = char_run_end(all, first, digit_pred());
    if spaces is Err {
        Parsed { result: spaces, pos: sp, events }
    } else if 0 <= end < all.len() && all[end] >= 128 {
        Parsed { result: Err(not_ascii()), pos: end + 1, events }
    } else if end == first {
        refused(first, events)
    } else {
        Parsed { result: Ok(()), pos: end, events: events.push(Emitted::Number(captured(all, sp, end))) }
    }
}

/// One value at `pos`: whitespace, then a string, a number, an object or an
/// array. They are tried in this order, each from the position after the
/// whitespace, while the one before did not match.
pub open spec fn read_value(all: Seq<u8>, pos: int, events: Seq<Emitted>) -> Parsed
    decreases all.len() - pos, 2int,
{
    let (spaces, at0) = after_spaces(all, pos);
    if spaces is Err {
        Parsed { result: spaces, pos: at0, events }
    } else if !(pos <= at0 <= all.len()) {
        refused(pos, events)
    } else {
        let a = read_string(all, at0, events);
        if !a.no_match() {
            a
        } else {
            let b = read_number(all, at0, a.events);
            if !b.no_match() {
                b
            } else {
                let c = read_container(all, at0, b.events, true);
                if !c.no_match() {
                    c
                } else {
                    let d = read_container(all, at0, c.events, false);
                    if !d.no_match() {
                        d
                    } else {
                        refused(at0, d.events)
                    }
                }
            }
        }
    }
}

/// What stands between the brackets `open` and `close` of a container at
/// `pos`, with the brackets: the opening bracket, whitespace, the list of
/// members, whitespace, and the closing bracket. The step that does not
/// match is taken back, the steps before it are not.
pub open spec fn read_container(
    all: Seq<u8>,
    pos: int,
    events: Seq<Emitted>,
    object: bool,
) -> Parsed
    decreases all.len() - pos, 1int,
{
    let (opened, at1) = after_char(
        all,
        pos,
        if object {
            '{'
        } else {
            '['
        },
    );
    let (spaces, at2) = after_spaces(all, at1);
    if !opened {
        refused(pos, events)
    } else if spaces is Err {
        Parsed { result: spaces, pos: at2, events }
    } else if !(pos < at2 <= all.len()) {
        refused(pos, events)
    } else {
        let list = read_list(all, at2, events, object);
        if list.no_match() {
            refused(at2, list.events)
        } else if list.result is Err {
            list
        } else {
            let (more_spaces, at4) = after_spaces(all, list.pos);
            let (closed, at5) = after_char(
                all,
                at4,
                if object {
                    '}'
                } else {
                    ']'
                },
            );
            if more_spaces is Err {
                Parsed { result: more_spaces, pos: at4, events: list.events }
            } else if closed {
                Parsed { result: Ok(()), pos: at5, events: list.events }
            } else {
                refused(at4, list.events)
            }
        }
    }
}

/// An object at `pos`.
pub open spec fn read_object(all: Seq<u8>, pos: int, events: Seq<Emitted>) -> Parsed {
    read_container(all, pos, events, true)
}

/// An array at `pos`.
pub open spec fn read_array(all: Seq<u8>, pos: int, events: Seq<Emitted>) -> Parsed {
    read_container(all, pos, events, false)
}

/// One or more members of an object, or values of an array, with a comma
/// between them. Whitespace before and after each is passed over, also
/// where a byte that is no ASCII character ends it. A list ends before the
/// first byte after a member that is no comma.
pub open spec fn read_list(all: Seq<u8>, pos: int, events: Seq<Emitted>, object: bool) -> Parsed
    decreases all.len() - pos, 4int,
{
    let at1 = after_spaces(all, pos).1;
    if !(pos <= at1 <= all.len()) {
        refused(pos, events)
    } else {
        let item = if object {
            read_member(all, at1, events)
        } else {
            read_value(all, at1, events)
        };
        if item.result is Err {
            item
        } else {
            let at2 = after_spaces(all, item.pos).1;
            let (comma, at3) = after_char(all, at2, ',');
            if !comma {
                Parsed { result: Ok(()), pos: at2, events: item.events }
            } else if pos < at3 <= all.len() {
                read_list(all, at3, item.events, object)
            } else {
                refused(pos, events)
            }
        }
    }
}

/// One member of an object at `pos`: its name, a colon, and its value, with
/// optional whitespace around the colon.
pub open spec fn read_member(all: Seq<u8>, pos: int, events: Seq<Emitted>) -> Parsed
    decreases all.len() - pos, 3int,
{
    let name = read_string(all, pos, events);
    let (spaces, at1) = after_spaces(all, name.pos);
    let (colon, at2) = after_char(all, at1, ':');
    let (more_spaces, at3) = after_spaces(all, at2);
    if name.result is Err {
        name
    } else if spaces is Err {
        Parsed { result: spaces, pos: at1, events: name.events }
    } else if !colon {
        refused(at2, name.events)
    } else if more_spaces is Err {
        Parsed { result: more_spaces, pos: at3, events: name.events }
    } else if pos <= at3 <= all.len() {
        read_value(all, at3, name.events)
    } else {
        refused(pos, events)
    }
}

} // verus!
