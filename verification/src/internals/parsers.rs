//! Module providing basic parsing funcs that other parsers can be built on.

use vstd::prelude::*;
use vstd::string::*;
use crate::internals::{Mark, not_ascii, ParseErr, ParseResult, RewindableChars};
use crate::source::ByteSource;

verus! {

pub fn p_chk<T: std::fmt::Debug>(pr: ParseResult<T>) -> (r: ParseResult<Option<T>>)
    ensures
        match (pr, r) {
            (Ok(x), Ok(Some(y))) => x == y,
            (Err(e), Err(f)) => e == f,
            _ => false,
        },
{
    match pr {
        Ok(x) => Ok(Some(x)),
        Err(x) => Err(x),
    }
}

/// Whether the ASCII character `c` stands at index `i` of `all`.
pub open spec fn char_at(all: Seq<u8>, i: int, c: char) -> bool {
    0 <= i < all.len() && all[i] < 128 && all[i] as char == c
}

/// The index after the byte at `i`, or `i` itself at the end of `all`.
pub open spec fn step_over(all: Seq<u8>, i: nat) -> nat {
    if i < all.len() {
        i + 1
    } else {
        i
    }
}

/// The number of characters at the front of `pat` that stand in `all` from
/// index `i` on, one after the other.
pub open spec fn match_len(all: Seq<u8>, i: int, pat: Seq<char>) -> nat
    decreases pat.len(),
{
    if pat.len() > 0 && char_at(all, i, pat[0]) {
        1 + match_len(all, i + 1, pat.skip(1))
    } else {
        0
    }
}

/// Matches a character ... quite useful. The character at the position is
/// consumed whether it matches or not.
#[inline]
pub fn match_char<R>(c: char, rc: &mut RewindableChars<R>) -> (r: ParseResult<()>) where
    R: ByteSource,

    requires
        old(rc).wf(),
    ensures
        final(rc).wf(),
        final(rc).all() == old(rc).all(),
        final(rc).reliable() == old(rc).reliable(),
        final(rc).window() >= old(rc).window(),
        final(rc).pos() == old(rc).pos() || final(rc).pos() == old(rc).pos() + 1,
        match r {
            Ok(_) => {
                &&& char_at(old(rc).all(), old(rc).pos() as int, c)
                &&& final(rc).pos() == old(rc).pos() + 1
            },
            Err(e) => {
                &&& e is DidNotMatch
                &&& old(rc).reliable() ==> {
                    &&& !char_at(old(rc).all(), old(rc).pos() as int, c)
                    &&& final(rc).pos() == step_over(old(rc).all(), old(rc).pos())
                }
            },
        },
{
    proof {
        rc.lemma_bounds();
    }
    // check the option, if None, then we are at the end
    match rc.next() {
        Some(Ok(y)) => {
            if y != c {
                Err(ParseErr::DidNotMatch)
            } else {
                Ok(())
            }
        },
        Some(Err(_)) => Err(ParseErr::DidNotMatch),
        None => Err(ParseErr::DidNotMatch),
    }
}

/// Matches a specific string
#[inline]
pub fn match_str<R>(s: &str, rc: &mut RewindableChars<R>) -> (r: ParseResult<bool>) where
    R: ByteSource,

    requires
        old(rc).wf(),
    ensures
        final(rc).wf(),
        final(rc).all() == old(rc).all(),
        final(rc).reliable() == old(rc).reliable(),
        final(rc).window() >= old(rc).window(),
        final(rc).pos() >= old(rc).pos(),
        match r {
            Ok(b) => {
                &&& b
                &&& match_len(old(rc).all(), old(rc).pos() as int, s@) == s@.len()
                &&& final(rc).pos() == old(rc).pos() + s@.len()
            },
            Err(e) => {
                &&& e is DidNotMatch
                &&& old(rc).reliable() ==> {
                    let k = match_len(old(rc).all(), old(rc).pos() as int, s@);
                    &&& k < s@.len()
                    &&& final(rc).pos() == step_over(old(rc).all(), old(rc).pos() + k)
                }
            },
        },
{
    let n = s.unicode_len();
    let mut i: usize = 0;
    let ghost all = rc.all();
    let ghost start = rc.pos() as int;
    proof {
        assert(s@.skip(0) =~= s@);
    }
    // Check each char
    while i < n
        invariant
            rc.wf(),
            rc.all() == all,
            all == old(rc).all(),
            start == old(rc).pos(),
            rc.reliable() == old(rc).reliable(),
            rc.window() >= old(rc).window(),
            n == s@.len(),
            0 <= i <= n,
            rc.pos() == start + i,
            match_len(all, start, s@) == i + match_len(all, start + i, s@.skip(i as int)),
        decreases n - i,
    {
        let c = s.get_char(i);
        proof {
            assert(s@.skip(i as int)[0] == c);
            assert(s@.skip(i as int).skip(1) =~= s@.skip(i + 1));
        }
        match_char(c, rc)?;
        i += 1;
    }
    Ok(true)
}

/// Matches a String, but leaves parse position where it is if it is not there
pub fn match_str_optional<R>(s: &str, rc: &mut RewindableChars<R>) -> (r: ParseResult<
    bool,
>) where R: ByteSource
    requires
        old(rc).wf(),
    ensures
        final(rc).wf(),
        final(rc).all() == old(rc).all(),
        final(rc).reliable() == old(rc).reliable(),
        final(rc).window() >= old(rc).window(),
        match r {
            Ok(true) => {
                &&& match_len(old(rc).all(), old(rc).pos() as int, s@) == s@.len()
                &&& final(rc).pos() == old(rc).pos() + s@.len()
            },
            Ok(false) => {
                &&& final(rc).pos() == old(rc).pos()
                &&& old(rc).reliable() ==> match_len(old(rc).all(), old(rc).pos() as int, s@)
                    < s@.len()
            },
            Err(_) => false,
        },
{
    proof {
        rc.lemma_bounds();
    }
    let m = rc.mark();
    match match_str(s, rc) {
        Ok(_) => Ok(true),
        Err(_) => {
            rc.rewind(m);
            Ok(false)
        },
    }
}

/// The bytes of `all` from index `from` up to `to`, as characters.
pub open spec fn captured(all: Seq<u8>, from: int, to: int) -> Seq<char> {
    Seq::new((to - from) as nat, |i: int| all[from + i] as char)
}

/// Whether the bytes of `all` from index `from` up to `to` are ASCII
/// characters that `f` can answer with `true`.
pub open spec fn run_of<F: Fn(char) -> bool>(f: F, all: Seq<u8>, from: int, to: int) -> bool {
    &&& 0 <= from <= to <= all.len()
    &&& forall|i: int| from <= i < to ==> all[i] < 128 && f.ensures((all[i] as char,), true)
}

/// Whether a run taken with `f` ends before index `to`: `all` ends there, or
/// an ASCII character stands there that `f` can answer with `false`.
pub open spec fn stops_at<F: Fn(char) -> bool>(f: F, all: Seq<u8>, to: int) -> bool {
    to == all.len() || (0 <= to < all.len() && all[to] < 128 && f.ensures(
        (all[to] as char,),
        false,
    ))
}

/// The index at which the run of ASCII characters that satisfy `pred` ends,
/// when it begins at index `pos` of `all`.
pub open spec fn char_run_end(all: Seq<u8>, pos: int, pred: spec_fn(char) -> bool) -> int
    decreases all.len() - pos,
{
    if 0 <= pos < all.len() && all[pos] < 128 && pred(all[pos] as char) {
        char_run_end(all, pos + 1, pred)
    } else {
        pos
    }
}

/// A run ends at or after its beginning, and inside `all` if it begins there.
pub proof fn lemma_char_run_end_bounds(all: Seq<u8>, pos: int, pred: spec_fn(char) -> bool)
    ensures
        pos <= char_run_end(all, pos, pred),
        0 <= pos <= all.len() ==> char_run_end(all, pos, pred) <= all.len(),
    decreases all.len() - pos,
{
    if 0 <= pos < all.len() && all[pos] < 128 && pred(all[pos] as char) {
        lemma_char_run_end_bounds(all, pos + 1, pred);
    }
}

/// A run taken with a predicate that computes `pred` ends where
/// `char_run_end` says: at the first byte that is no ASCII character, or is
/// one that `pred` refuses, or at the end.
pub proof fn lemma_char_run_end<F: Fn(char) -> bool>(
    f: F,
    pred: spec_fn(char) -> bool,
    all: Seq<u8>,
    from: int,
    to: int,
)
    requires
        forall|c: char, r: bool| #[trigger] f.ensures((c,), r) ==> r == pred(c),
        run_of(f, all, from, to),
        stops_at(f, all, to) || (to < all.len() && all[to] >= 128),
    ensures
        char_run_end(all, from, pred) == to,
    decreases to - from,
{
    if from < to {
        assert(f.ensures((all[from] as char,), true));
        lemma_char_run_end(f, pred, all, from + 1, to);
    } else {
        if to < all.len() && all[to] < 128 {
            assert(f.ensures((all[to] as char,), false));
        }
    }
}

/// What a failed read or a byte that is no character leaves of a run: the
/// run up to the position, or up to the byte that was passed over. `taken`
/// is what was captured of it.
pub open spec fn run_broken<R: ByteSource, F: Fn(char) -> bool>(
    f: F,
    before: RewindableChars<R>,
    after: RewindableChars<R>,
    e: ParseErr,
    taken: Seq<char>,
) -> bool {
    let end = if e is Io {
        after.pos() as int
    } else {
        after.pos() - 1
    };
    &&& run_of(f, before.all(), before.pos() as int, end)
    &&& taken == captured(before.all(), before.pos() as int, end)
    &&& if e is Io {
        !before.reliable()
    } else {
        e.reports(not_ascii()) && before.all()[end] >= 128
    }
}

/// Captures while the predicate is true: each character that it accepts is
/// added to `s`, and the first that it refuses stays unread.
pub fn capture_while<R, F>(f: F, s: &mut String, rc: &mut RewindableChars<R>) -> (r: ParseResult<
    (),
>) where R: ByteSource, F: Fn(char) -> bool
    requires
        old(rc).wf(),
        forall|c: char| f.requires((c,)),
    ensures
        final(rc).wf(),
        final(rc).all() == old(rc).all(),
        final(rc).reliable() == old(rc).reliable(),
        final(rc).window() >= old(rc).window(),
        final(rc).pos() >= old(rc).pos(),
        match r {
            Ok(_) => {
                &&& run_of(f, old(rc).all(), old(rc).pos() as int, final(rc).pos() as int)
                &&& stops_at(f, old(rc).all(), final(rc).pos() as int)
                &&& final(s)@ == old(s)@ + captured(
                    old(rc).all(),
                    old(rc).pos() as int,
                    final(rc).pos() as int,
                )
            },
            Err(e) => exists|taken: Seq<char>|
                final(s)@ == old(s)@ + taken && #[trigger] run_broken(
                    f,
                    *old(rc),
                    *final(rc),
                    e,
                    taken,
                ),
        },
{
    let ghost all = rc.all();
    let ghost start = rc.pos() as int;
    proof {
        rc.lemma_bounds();
        assert(s@ + captured(all, start, start) =~= s@);
    }
    loop
        invariant
            rc.wf(),
            rc.all() == all,
            all == old(rc).all(),
            start == old(rc).pos(),
            rc.reliable() == old(rc).reliable(),
            rc.window() >= old(rc).window(),
            rc.pos() >= start,
            forall|c: char| f.requires((c,)),
            run_of(f, all, start, rc.pos() as int),
            s@ == old(s)@ + captured(all, start, rc.pos() as int),
        decreases all.len() - rc.pos(),
    {
        let ghost here = rc.pos() as int;
        proof {
            rc.lemma_bounds();
        }
        match rc.next() {
            Some(Ok(y)) => {
                if !f(y) {
                    rc.backup();
                    return Ok(());
                } else {
                    s.push(y);
                    proof {
                        assert(captured(all, start, here).push(y) =~= captured(
                            all,
                            start,
                            here + 1,
                        ));
                    }
                }
            },
            Some(Err(e)) => {
                proof {
                    let end = if e is Io {
                        rc.pos() as int
                    } else {
                        rc.pos() - 1
                    };
                    assert(run_broken(f, *old(rc), *rc, e, captured(all, start, end)));
                }
                return Err(e);
            },
            None => {
                return Ok(());
            },
        }
    }
}

/// Captures while the predicate is true; at least one character must be there
pub fn capture_while_mand<R, F>(f: F, s: &mut String, rc: &mut RewindableChars<R>) -> (r:
    ParseResult<()>) where R: ByteSource, F: Fn(char) -> bool
    requires
        old(rc).wf(),
        forall|c: char| f.requires((c,)),
    ensures
        final(rc).wf(),
        final(rc).all() == old(rc).all(),
        final(rc).reliable() == old(rc).reliable(),
        final(rc).window() >= old(rc).window(),
        final(rc).pos() >= old(rc).pos(),
        match r {
            Ok(_) => {
                &&& final(rc).pos() > old(rc).pos()
                &&& run_of(f, old(rc).all(), old(rc).pos() as int, final(rc).pos() as int)
                &&& stops_at(f, old(rc).all(), final(rc).pos() as int)
                &&& final(s)@ == old(s)@ + captured(
                    old(rc).all(),
                    old(rc).pos() as int,
                    final(rc).pos() as int,
                )
            },
            Err(e) => if e is DidNotMatch {
                &&& final(rc).pos() == old(rc).pos()
                &&& stops_at(f, old(rc).all(), old(rc).pos() as int)
                &&& final(s)@ == old(s)@
            } else {
                exists|taken: Seq<char>|
                    final(s)@ == old(s)@ + taken && #[trigger] run_broken(
                        f,
                        *old(rc),
                        *final(rc),
                        e,
                        taken,
                    )
            },
        },
{
    proof {
        rc.lemma_bounds();
    }
    let x = rc.mark();
    let ghost marked = *rc;
    match capture_while(f, s, rc) {
        Ok(_) => {},
        Err(e) => {
            proof {
                let taken = choose|taken: Seq<char>|
                    s@ == old(s)@ + taken && #[trigger] run_broken(f, marked, *rc, e, taken);
                assert(run_broken(f, *old(rc), *rc, e, taken));
            }
            return Err(e);
        },
    }
    proof {
        rc.lemma_bounds();
    }
    let y = rc.mark();
    if x != y {
        Ok(())
    } else {
        proof {
            assert(s@ =~= old(s)@);
        }
        Err(ParseErr::DidNotMatch)
    }
}

/// Scans input while provided predicate is true; the first character that
/// it refuses stays unread.
pub fn skip_while<R, F>(f: F, rc: &mut RewindableChars<R>) -> (r: ParseResult<()>) where
    R: ByteSource,
    F: Fn(char) -> bool,

    requires
        old(rc).wf(),
        forall|c: char| f.requires((c,)),
    ensures
        final(rc).wf(),
        final(rc).all() == old(rc).all(),
        final(rc).reliable() == old(rc).reliable(),
        final(rc).window() >= old(rc).window(),
        final(rc).pos() >= old(rc).pos(),
        match r {
            Ok(_) => {
                &&& run_of(f, old(rc).all(), old(rc).pos() as int, final(rc).pos() as int)
                &&& stops_at(f, old(rc).all(), final(rc).pos() as int)
            },
            Err(e) => exists|taken: Seq<char>| #[trigger]
                run_broken(f, *old(rc), *final(rc), e, taken),
        },
{
    let ghost all = rc.all();
    let ghost start = rc.pos() as int;
    proof {
        rc.lemma_bounds();
    }
    loop
        invariant
            rc.wf(),
            rc.all() == all,
            all == old(rc).all(),
            start == old(rc).pos(),
            rc.reliable() == old(rc).reliable(),
            rc.window() >= old(rc).window(),
            rc.pos() >= start,
            forall|c: char| f.requires((c,)),
            run_of(f, all, start, rc.pos() as int),
        decreases all.len() - rc.pos(),
    {
        proof {
            rc.lemma_bounds();
        }
        match rc.next() {
            Some(Ok(y)) => {
                if !f(y) {
                    rc.backup();
                    return Ok(());
                }
            },
            Some(Err(e)) => {
                proof {
                    let end = if e is Io {
                        rc.pos() as int
                    } else {
                        rc.pos() - 1
                    };
                    assert(run_broken(f, *old(rc), *rc, e, captured(all, start, end)));
                }
                return Err(e);
            },
            None => {
                return Ok(());
            },
        }
    }
}

/// Captures exactly "n" characters that the predicate accepts. A character
/// that it refuses stays unread. With `n` zero nothing is ever captured: the
/// run is read to its end and refused.
pub fn capture_n<R, F>(rc: &mut RewindableChars<R>, f: F, n: usize) -> (r: ParseResult<
    String,
>) where R: ByteSource, F: Fn(char) -> bool
    requires
        old(rc).wf(),
        forall|c: char| f.requires((c,)),
    ensures
        final(rc).wf(),
        final(rc).all() == old(rc).all(),
        final(rc).reliable() == old(rc).reliable(),
        final(rc).window() >= old(rc).window(),
        final(rc).pos() >= old(rc).pos(),
        match r {
            Ok(text) => {
                &&& n > 0
                &&& final(rc).pos() == old(rc).pos() + n
                &&& run_of(f, old(rc).all(), old(rc).pos() as int, final(rc).pos() as int)
                &&& text@ == captured(old(rc).all(), old(rc).pos() as int, final(rc).pos() as int)
            },
            Err(e) => if e is DidNotMatch {
                &&& run_of(f, old(rc).all(), old(rc).pos() as int, final(rc).pos() as int)
                &&& stops_at(f, old(rc).all(), final(rc).pos() as int)
                &&& n == 0 || final(rc).pos() < old(rc).pos() + n
            } else {
                exists|taken: Seq<char>| #[trigger] run_broken(f, *old(rc), *final(rc), e, taken)
            },
        },
{
    let mut count = 0usize;
    let mut result = String::new();
    let ghost all = rc.all();
    let ghost start = rc.pos() as int;
    proof {
        rc.lemma_bounds();
        assert(result@ =~= captured(all, start, start));
    }
    loop
        invariant
            rc.wf(),
            rc.all() == all,
            all == old(rc).all(),
            start == old(rc).pos(),
            rc.reliable() == old(rc).reliable(),
            rc.window() >= old(rc).window(),
            rc.pos() == start + count,
            n == 0 || count < n,
            forall|c: char| f.requires((c,)),
            run_of(f, all, start, rc.pos() as int),
            result@ == captured(all, start, rc.pos() as int),
        decreases all.len() - rc.pos(),
    {
        let ghost here = rc.pos() as int;
        proof {
            rc.lemma_bounds();
        }
        match rc.next() {
            Some(Ok(y)) => {
                proof {
                    rc.lemma_bounds();
                }
                if f(y) {
                    result.push(y);
                    count += 1;
                    proof {
                        assert(captured(all, start, here).push(y) =~= captured(
                            all,
                            start,
                            here + 1,
                        ));
                    }
                    if count == n {
                        return Ok(result);
                    }
                } else {
                    // next char was not wanted .. backup
                    rc.backup();
                    return Err(ParseErr::DidNotMatch);
                }
            },
            Some(Err(e)) => {
                proof {
                    let end = if e is Io {
                        rc.pos() as int
                    } else {
                        rc.pos() - 1
                    };
                    assert(run_broken(f, *old(rc), *rc, e, captured(all, start, end)));
                }
                return Err(e);
            },
            None => {
                // not enough input
                return Err(ParseErr::DidNotMatch);
            },
        }
    }
}

/// The whitespace among the ASCII characters: tab, line feed, vertical tab,
/// form feed, carriage return and space.
pub open spec fn space_char(c: char) -> bool {
    c == '\t' || c == '\n' || c == '\u{0B}' || c == '\u{0C}' || c == '\r' || c == ' '
}

/// Whether a character of the stream is whitespace
pub fn is_space(c: char) -> (r: bool)
    ensures
        r == space_char(c),
{
    c == '\t' || c == '\n' || c == '\u{0B}' || c == '\u{0C}' || c == '\r' || c == ' '
}

/// The class of whitespace characters.
pub open spec fn space_pred() -> spec_fn(char) -> bool {
    |c: char| space_char(c)
}

/// The class of the digits `0` to `9`.
pub open spec fn digit_pred() -> spec_fn(char) -> bool {
    |c: char| '0' <= c && c <= '9'
}

/// Whether the bytes of `all` from index `from` up to `to` are whitespace,
/// and the byte at `to`, if there is one, is an ASCII character that is not.
pub open spec fn spaces_up_to(all: Seq<u8>, from: int, to: int) -> bool {
    &&& 0 <= from <= to <= all.len()
    &&& forall|i: int| from <= i < to ==> all[i] < 128 && space_char(all[i] as char)
    &&& to < all.len() ==> all[to] < 128 && !space_char(all[to] as char)
}

/// To skip whitespace in character stream
pub fn skip_whitespace<R>(rc: &mut RewindableChars<R>) -> (r: ParseResult<()>) where
    R: ByteSource,

    requires
        old(rc).wf(),
    ensures
        final(rc).wf(),
        final(rc).all() == old(rc).all(),
        final(rc).reliable() == old(rc).reliable(),
        final(rc).window() >= old(rc).window(),
        final(rc).pos() >= old(rc).pos(),
        match r {
            Ok(_) => spaces_up_to(old(rc).all(), old(rc).pos() as int, final(rc).pos() as int),
            Err(e) => if e is Io {
                !old(rc).reliable()
            } else {
                &&& e.reports(not_ascii())
                &&& final(rc).pos() > old(rc).pos()
                &&& old(rc).all()[final(rc).pos() - 1] >= 128
                &&& forall|i: int|
                    old(rc).pos() <= i < final(rc).pos() - 1 ==> old(rc).all()[i] < 128
                        && space_char(old(rc).all()[i] as char)
            },
        },
{
    // we define a closure
    let f = |c: char| -> (r: bool)
        ensures
            r == space_char(c),
        { is_space(c) };
    proof {
        rc.lemma_bounds();
    }
    skip_while(f, rc)?;
    Ok(())
}

/// Matches the first of two strings that is there, the second only from
/// where the first was tried.
pub fn option_2<R>(s1: &str, s2: &str, rc: &mut RewindableChars<R>) -> (r: ParseResult<
    bool,
>) where R: ByteSource
    requires
        old(rc).wf(),
    ensures
        final(rc).wf(),
        final(rc).all() == old(rc).all(),
        final(rc).reliable() == old(rc).reliable(),
        final(rc).window() >= old(rc).window(),
        final(rc).pos() >= old(rc).pos(),
        match r {
            Ok(b) => {
                let first = match_len(old(rc).all(), old(rc).pos() as int, s1@) == s1@.len();
                let second = match_len(old(rc).all(), old(rc).pos() as int, s2@) == s2@.len();
                &&& b
                &&& {
                    ||| first && final(rc).pos() == old(rc).pos() + s1@.len()
                    ||| {
                        &&& second && final(rc).pos() == old(rc).pos() + s2@.len()
                        &&& old(rc).reliable() ==> !first
                    }
                }
            },
            Err(e) => {
                &&& e is DidNotMatch
                &&& old(rc).reliable() ==> {
                    let k = match_len(old(rc).all(), old(rc).pos() as int, s2@);
                    &&& match_len(old(rc).all(), old(rc).pos() as int, s1@) < s1@.len()
                    &&& k < s2@.len()
                    &&& final(rc).pos() == step_over(old(rc).all(), old(rc).pos() + k)
                }
            },
        },
{
    proof {
        rc.lemma_bounds();
    }
    // Take a mark, try 1 then 2
    let mark = rc.mark();
    let mut matched = false;
    match match_str(s1, rc) {
        Ok(b) => matched = b,
        Err(e) => {
            if let ParseErr::Io(x) = e {
                return Err(ParseErr::Io(x));
            }
        },
    };
    if matched {
        return Ok(true);
    }
    // Even at the end of the input we can rewind
    rc.rewind(mark);
    return match match_str(s2, rc) {
        Ok(b) => Ok(b),
        Err(e) => Err(e),
    };
}

/// Tries the first parser and, where it does not match, the second from the
/// mark that was taken before the first. A first parser that fails for any
/// reason but a failed read counts as no match.
pub fn option_2_fn<F, R>(func1: F, func2: F, rc: &mut RewindableChars<R>) -> (r: ParseResult<
    bool,
>) where R: ByteSource, F: Fn(&mut RewindableChars<R>) -> ParseResult<bool>
    requires
        old(rc).wf(),
        forall|x: &mut RewindableChars<R>| x.wf() ==> #[trigger] func1.requires((x,)),
        forall|x: &mut RewindableChars<R>| x.wf() ==> #[trigger] func2.requires((x,)),
        forall|x: &mut RewindableChars<R>, res: ParseResult<bool>| #[trigger]
            func1.ensures((x,), res) ==> final(x).wf(),
        forall|x: &mut RewindableChars<R>, res: ParseResult<bool>| #[trigger]
            func2.ensures((x,), res) ==> final(x).wf(),
    ensures
        final(rc).wf(),
        exists|x: &mut RewindableChars<R>, first: ParseResult<bool>|
            *x == *old(rc) && #[trigger] func1.ensures((x,), first) && if first == Ok::<
                bool,
                ParseErr,
            >(true) || (first is Err && first->Err_0 is Io) {
                r == first && *final(rc) == *final(x)
            } else {
                exists|y: &mut RewindableChars<R>|
                    *y == final(x).rewound(Mark::Pos(old(rc).pos() as usize))
                        && #[trigger] func2.ensures((y,), r) && *final(rc) == *final(y)
            },
{
    // Take a mark, try 1 then 2
    let mark = rc.mark();
    let mut matched = false;
    match func1(rc) {
        Ok(b) => matched = b,
        Err(e) => {
            if let ParseErr::Io(x) = e {
                return Err(ParseErr::Io(x));
            }
        },
    };
    if matched {
        return Ok(true);
    }
    // Even at the end of the input we can rewind
    rc.rewind(mark);
    return match func2(rc) {
        Ok(b) => Ok(b),
        Err(e) => Err(e),
    };
}

} // verus!
