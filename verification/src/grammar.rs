//! The token grammar, as functions on the bytes of a document that are still
//! to be read. The tokenizer is proved against these.

use vstd::prelude::*;
use vstd::utf8::*;
use crate::classify::{digit_byte, is_digit, is_not_text, not_text_byte, whitespace_byte};

verus! {

pub const U8_START_OBJ: u8 = 0x7b;

pub const U8_END_OBJ: u8 = 0x7d;

pub const U8_START_ARR: u8 = 0x5b;

pub const U8_END_ARR: u8 = 0x5d;

pub const U8_QUOTE: u8 = 0x22;

pub const U8_ESCAPE: u8 = 0x5c;

pub const U8_MINUS: u8 = 0x2d;

pub const U8_0: u8 = 0x30;

pub const U8_9: u8 = 0x39;

pub const U8_PERIOD: u8 = 0x2e;

pub const U8_COMMA: u8 = 0x2c;

pub const U8_COLON: u8 = 0x3a;

pub const U8_LF: u8 = 0x0a;

pub const U8_CR: u8 = 0x0d;

/// One open container and the number of its members that were begun.
/// A count of zero means that no comma stands before the next member.
#[derive(Debug, Clone, Copy, PartialEq, Eq, Structural)]
pub enum JsonStackItem {
    /// An array and the number of its elements so far.
    Array(usize),
    /// An object and the number of its named members so far.
    Object(usize),
}

/// What one event says. Text is held as its UTF-8 bytes.
pub enum Token {
    String(Seq<u8>),
    Number(Seq<u8>),
    Boolean(bool),
    Null,
    ObjectStart,
    ObjectEnd,
    ArrayStart,
    ArrayEnd,
}

/// Why the bytes at the current position are refused.
pub enum Fault {
    /// The syntax that must stand here does not.
    NoMatch,
    /// A value breaks a rule; the text names the rule.
    BadData(Seq<char>),
}

/// What a scanner made of the bytes in front of it: a value and the bytes
/// that follow it, or a fault.
pub enum Scan<T> {
    Hit(T, Seq<u8>),
    Miss(Fault),
}

/// The result of one pull on a document that is not refused: the event, or
/// `None` at the end of the document, with the stack and the unread bytes
/// that the pull leaves.
pub struct Advance {
    pub event: Option<Token>,
    pub stack: Seq<JsonStackItem>,
    pub rest: Seq<u8>,
}

pub open spec fn unterminated_string() -> Fault {
    Fault::BadData("unterminated string"@)
}

pub open spec fn line_break_in_string() -> Fault {
    Fault::BadData("\\r or \\n not allowed in string"@)
}

pub open spec fn bad_escape() -> Fault {
    Fault::BadData("invalid escape sequence in string"@)
}

pub open spec fn bad_surrogate() -> Fault {
    Fault::BadData("unpaired surrogate in string"@)
}

pub open spec fn bad_utf8() -> Fault {
    Fault::BadData("string is not valid UTF-8"@)
}

/// The number of bytes at the front of `s` that all satisfy `class`.
pub open spec fn run_len(s: Seq<u8>, class: spec_fn(u8) -> bool) -> nat
    decreases s.len(),
{
    if s.len() > 0 && class(s[0]) {
        1 + run_len(s.skip(1), class)
    } else {
        0
    }
}

/// The class of whitespace bytes.
pub open spec fn ws_class() -> spec_fn(u8) -> bool {
    |c: u8| whitespace_byte(c)
}

/// The class of digits.
pub open spec fn digit_class() -> spec_fn(u8) -> bool {
    |c: u8| digit_byte(c)
}

/// The class of bytes that stand for themselves inside a string.
pub open spec fn plain_class() -> spec_fn(u8) -> bool {
    |c: u8| plain_byte(c)
}

/// The two kinds of run that a scanner takes from the buffer in one sweep.
#[derive(Debug, Clone, Copy, PartialEq, Eq, Structural)]
pub enum RunKind {
    /// Digits of a number.
    Digits,
    /// Bytes of a string that stand for themselves.
    Plain,
}

impl RunKind {
    /// The class of bytes that a run of this kind is made of.
    pub open spec fn class(self) -> spec_fn(u8) -> bool {
        match self {
            RunKind::Digits => digit_class(),
            RunKind::Plain => plain_class(),
        }
    }

    /// Whether `c` can stand in a run of this kind.
    #[inline]
    pub fn holds(self, c: u8) -> (r: bool)
        ensures
            r == (self.class())(c),
    {
        match self {
            RunKind::Digits => is_digit(c),
            RunKind::Plain => !is_not_text(c) && c != U8_LF && c != U8_CR,
        }
    }
}

/// `s` without the whitespace at its front.
pub open spec fn skip_ws(s: Seq<u8>) -> Seq<u8> {
    s.skip(run_len(s, ws_class()) as int)
}

/// The number of digits at the front of `s`.
pub open spec fn digits_len(s: Seq<u8>) -> nat {
    run_len(s, digit_class())
}

/// The length of the number at the front of `s`: an optional minus sign, one
/// or more digits, and optionally a period with one or more digits after it.
/// `None` where a digit that must stand is missing.
pub open spec fn number_len(s: Seq<u8>) -> Option<nat> {
    let sign: nat = if s.len() > 0 && s[0] == U8_MINUS { 1 } else { 0 };
    let whole = digits_len(s.skip(sign as int));
    let dot = sign + whole;
    if whole == 0 {
        None
    } else if dot < s.len() && s[dot as int] == U8_PERIOD {
        let frac = digits_len(s.skip(dot as int + 1));
        if frac == 0 {
            None
        } else {
            Some(dot + 1 + frac)
        }
    } else {
        Some(dot)
    }
}

/// The number at the front of `s`: its text, and what follows it.
pub open spec fn scan_number(s: Seq<u8>) -> Scan<Seq<u8>> {
    match number_len(s) {
        Some(n) => Scan::Hit(s.take(n as int), s.skip(n as int)),
        None => Scan::Miss(Fault::NoMatch),
    }
}

/// Whether `s` begins with the bytes of `word`.
pub open spec fn starts_with(s: Seq<u8>, word: Seq<u8>) -> bool {
    word.len() <= s.len() && s.take(word.len() as int) == word
}

pub open spec fn word_true() -> Seq<u8> {
    seq![0x74u8, 0x72u8, 0x75u8, 0x65u8]
}

pub open spec fn word_false() -> Seq<u8> {
    seq![0x66u8, 0x61u8, 0x6cu8, 0x73u8, 0x65u8]
}

pub open spec fn word_null() -> Seq<u8> {
    seq![0x6eu8, 0x75u8, 0x6cu8, 0x6cu8]
}

/// The keyword that begins with `b` at the front of `s`: `true`, `false` or
/// `null`, matched byte for byte.
pub open spec fn scan_keyword(b: u8, s: Seq<u8>) -> Scan<Token> {
    if b == 0x74 && starts_with(s, word_true()) {
        Scan::Hit(Token::Boolean(true), s.skip(4))
    } else if b == 0x66 && starts_with(s, word_false()) {
        Scan::Hit(Token::Boolean(false), s.skip(5))
    } else if b == 0x6e && starts_with(s, word_null()) {
        Scan::Hit(Token::Null, s.skip(4))
    } else {
        Scan::Miss(Fault::NoMatch)
    }
}

/// The value of a hexadecimal digit.
pub open spec fn hex_value(b: u8) -> Option<int> {
    if 0x30 <= b <= 0x39 {
        Some(b - 0x30)
    } else if 0x61 <= b <= 0x66 {
        Some(b - 0x61 + 10)
    } else if 0x41 <= b <= 0x46 {
        Some(b - 0x41 + 10)
    } else {
        None
    }
}

/// The number that the four hexadecimal digits at the front of `h` write, or
/// the fault: the document ends inside them, or one is no such digit.
pub open spec fn hex4(h: Seq<u8>) -> Result<int, Fault> {
    hex_digits(h, 4, 0)
}

/// `acc` extended by the `n` hexadecimal digits at the front of `h`.
pub open spec fn hex_digits(h: Seq<u8>, n: nat, acc: int) -> Result<int, Fault>
    decreases n,
{
    if n == 0 {
        Ok(acc)
    } else if h.len() == 0 {
        Err(unterminated_string())
    } else {
        match hex_value(h[0]) {
            Some(v) => hex_digits(h.skip(1), (n - 1) as nat, acc * 16 + v),
            None => Err(bad_escape()),
        }
    }
}

pub open spec fn high_surrogate(v: int) -> bool {
    0xD800 <= v <= 0xDBFF
}

pub open spec fn low_surrogate(v: int) -> bool {
    0xDC00 <= v <= 0xDFFF
}

/// The scalar value that follows `\u` at the front of `h`, and the number of
/// bytes of `h` that write it: four hexadecimal digits, or a high surrogate
/// and, in a second escape, the low surrogate that completes it.
pub open spec fn unicode_escape(h: Seq<u8>) -> Result<(u32, nat), Fault> {
    match hex4(h) {
        Err(f) => Err(f),
        Ok(first) => {
            if low_surrogate(first) {
                Err(bad_surrogate())
            } else if !high_surrogate(first) {
                Ok((first as u32, 4))
            } else if h.len() < 5 {
                Err(unterminated_string())
            } else if h[4] != U8_ESCAPE {
                Err(bad_surrogate())
            } else if h.len() < 6 {
                Err(unterminated_string())
            } else if h[5] != 0x75 {
                Err(bad_surrogate())
            } else {
                match hex4(h.skip(6)) {
                    Err(f) => Err(f),
                    Ok(second) => {
                        if low_surrogate(second) {
                            Ok(
                                (
                                    (0x10000 + (first - 0xD800) * 0x400 + (second
                                        - 0xDC00)) as u32,
                                    10,
                                ),
                            )
                        } else {
                            Err(bad_surrogate())
                        }
                    },
                }
            }
        },
    }
}

/// The bytes that the escape after a backslash stands for, and the number of
/// bytes of `e` that write it.
pub open spec fn escape(e: Seq<u8>) -> Result<(Seq<u8>, nat), Fault> {
    if e.len() == 0 {
        Err(unterminated_string())
    } else if e[0] == 0x22 || e[0] == 0x5c || e[0] == 0x2f {
        Ok((seq![e[0]], 1))
    } else if e[0] == 0x62 {
        Ok((seq![0x08u8], 1))
    } else if e[0] == 0x66 {
        Ok((seq![0x0cu8], 1))
    } else if e[0] == 0x6e {
        Ok((seq![0x0au8], 1))
    } else if e[0] == 0x72 {
        Ok((seq![0x0du8], 1))
    } else if e[0] == 0x74 {
        Ok((seq![0x09u8], 1))
    } else if e[0] == 0x75 {
        match unicode_escape(e.skip(1)) {
            Ok((scalar, n)) => Ok((encode_scalar(scalar), n + 1)),
            Err(f) => Err(f),
        }
    } else {
        Err(bad_escape())
    }
}

/// A byte that stands for itself inside a string.
pub open spec fn plain_byte(c: u8) -> bool {
    !not_text_byte(c) && c != U8_LF && c != U8_CR
}

/// The rest of a string whose opening quote was read: `text` extended by what
/// the bytes up to the closing quote stand for, and the bytes after that quote.
pub open spec fn string_body(s: Seq<u8>, text: Seq<u8>) -> Scan<Seq<u8>>
    decreases s.len(),
{
    if s.len() == 0 {
        Scan::Miss(unterminated_string())
    } else if s[0] == U8_QUOTE {
        Scan::Hit(text, s.skip(1))
    } else if s[0] == U8_LF || s[0] == U8_CR {
        Scan::Miss(line_break_in_string())
    } else if s[0] == U8_ESCAPE {
        match escape(s.skip(1)) {
            Ok((bytes, n)) => {
                if 1 + n <= s.len() {
                    string_body(s.skip(1 + n as int), text + bytes)
                } else {
                    Scan::Miss(unterminated_string())
                }
            },
            Err(f) => Scan::Miss(f),
        }
    } else {
        string_body(s.skip(1), text.push(s[0]))
    }
}

/// The string at the front of `s`: its decoded text, and what follows its
/// closing quote. The text must be valid UTF-8.
pub open spec fn scan_string(s: Seq<u8>) -> Scan<Seq<u8>> {
    if s.len() == 0 || s[0] != U8_QUOTE {
        Scan::Miss(Fault::NoMatch)
    } else {
        match string_body(s.skip(1), Seq::empty()) {
            Scan::Hit(text, rest) => {
                if valid_utf8(text) {
                    Scan::Hit(text, rest)
                } else {
                    Scan::Miss(bad_utf8())
                }
            },
            Scan::Miss(f) => Scan::Miss(f),
        }
    }
}

/// One value at the front of `s`, leading whitespace aside. The first byte
/// alone decides which scanner runs; a container only opens.
pub open spec fn scan_value(stack: Seq<JsonStackItem>, s: Seq<u8>) -> Result<Advance, Fault> {
    let t = skip_ws(s);
    if t.len() == 0 {
        Err(Fault::NoMatch)
    } else if t[0] == U8_QUOTE {
        match scan_string(t) {
            Scan::Hit(text, rest) => Ok(Advance { event: Some(Token::String(text)), stack, rest }),
            Scan::Miss(f) => Err(f),
        }
    } else if t[0] == U8_START_ARR {
        Ok(
            Advance {
                event: Some(Token::ArrayStart),
                stack: stack.push(JsonStackItem::Array(0)),
                rest: t.skip(1),
            },
        )
    } else if t[0] == U8_START_OBJ {
        Ok(
            Advance {
                event: Some(Token::ObjectStart),
                stack: stack.push(JsonStackItem::Object(0)),
                rest: t.skip(1),
            },
        )
    } else if digit_byte(t[0]) || t[0] == U8_MINUS {
        match scan_number(t) {
            Scan::Hit(text, rest) => Ok(Advance { event: Some(Token::Number(text)), stack, rest }),
            Scan::Miss(f) => Err(f),
        }
    } else {
        match scan_keyword(t[0], t) {
            Scan::Hit(token, rest) => Ok(Advance { event: Some(token), stack, rest }),
            Scan::Miss(f) => Err(f),
        }
    }
}

/// A member count after one more member; it stays at the largest count.
pub open spec fn bump(n: usize) -> usize {
    if n < usize::MAX {
        (n + 1) as usize
    } else {
        n
    }
}

/// The number of digits among the bytes of `s`.
pub open spec fn digit_count(s: Seq<u8>) -> nat
    decreases s.len(),
{
    if s.len() == 0 {
        0
    } else {
        (if digit_byte(s[0]) {
            1nat
        } else {
            0nat
        }) + digit_count(s.skip(1))
    }
}

/// The digits at the end of `run` followed by `s`: those after the last
/// byte that is no digit.
pub open spec fn digit_tail(s: Seq<u8>, run: Seq<u8>) -> Seq<u8>
    decreases s.len(),
{
    if s.len() == 0 {
        run
    } else if digit_byte(s[0]) {
        digit_tail(s.skip(1), run.push(s[0]))
    } else {
        digit_tail(s.skip(1), Seq::empty())
    }
}

/// The stack after one more member was counted in its innermost container.
pub open spec fn counted(stack: Seq<JsonStackItem>) -> Seq<JsonStackItem> {
    if stack.len() == 0 {
        stack
    } else {
        stack.update(
            stack.len() - 1,
            match stack.last() {
                JsonStackItem::Array(n) => JsonStackItem::Array(bump(n)),
                JsonStackItem::Object(n) => JsonStackItem::Object(bump(n)),
            },
        )
    }
}

/// The separator before a member: none before the first, a comma and
/// optional whitespace before each later one. `t` starts at the first byte
/// that is no whitespace.
pub open spec fn separator(n: usize, t: Seq<u8>) -> Scan<()> {
    if n == 0 {
        Scan::Hit((), t)
    } else if t.len() > 0 && t[0] == U8_COMMA {
        Scan::Hit((), skip_ws(t.skip(1)))
    } else {
        Scan::Miss(Fault::NoMatch)
    }
}

/// A pull inside an array that has begun `n` elements: the end of the array,
/// or the next element.
pub open spec fn array_step(stack: Seq<JsonStackItem>, n: usize, t: Seq<u8>) -> Result<
    Advance,
    Fault,
>
    recommends
        stack.len() > 0,
{
    if t.len() > 0 && t[0] == U8_END_ARR {
        Ok(Advance { event: Some(Token::ArrayEnd), stack: stack.drop_last(), rest: t.skip(1) })
    } else {
        match separator(n, t) {
            Scan::Miss(f) => Err(f),
            Scan::Hit(_, u) => scan_value(
                stack.update(stack.len() - 1, JsonStackItem::Array(bump(n))),
                u,
            ),
        }
    }
}

/// What follows the name of a member: whitespace, a colon, and the value.
pub open spec fn member_value(stack: Seq<JsonStackItem>, v: Seq<u8>) -> Result<Advance, Fault> {
    let w = skip_ws(v);
    if w.len() > 0 && w[0] == U8_COLON {
        scan_value(stack, w.skip(1))
    } else {
        Err(Fault::NoMatch)
    }
}

/// One member of an object: its name, a colon, and its value. The name is
/// read and dropped.
pub open spec fn member(stack: Seq<JsonStackItem>, u: Seq<u8>) -> Result<Advance, Fault> {
    match scan_string(u) {
        Scan::Miss(f) => Err(f),
        Scan::Hit(_, v) => member_value(stack, v),
    }
}

/// A pull inside an object that has begun `n` members: the end of the
/// object, or the next member.
pub open spec fn object_step(stack: Seq<JsonStackItem>, n: usize, t: Seq<u8>) -> Result<
    Advance,
    Fault,
>
    recommends
        stack.len() > 0,
{
    if t.len() > 0 && t[0] == U8_END_OBJ {
        Ok(Advance { event: Some(Token::ObjectEnd), stack: stack.drop_last(), rest: t.skip(1) })
    } else {
        match separator(n, t) {
            Scan::Miss(f) => Err(f),
            Scan::Hit(_, u) => member(
                stack.update(stack.len() - 1, JsonStackItem::Object(bump(n))),
                u,
            ),
        }
    }
}

/// One pull: what the tokenizer returns for the stack `stack` and the unread
/// bytes `s`, and the stack and unread bytes that it leaves.
#[verifier::opaque]
pub open spec fn next_step(stack: Seq<JsonStackItem>, s: Seq<u8>) -> Result<Advance, Fault> {
    let t = skip_ws(s);
    if t.len() == 0 {
        if stack.len() == 0 {
            Ok(Advance { event: None, stack, rest: t })
        } else {
            Err(Fault::NoMatch)
        }
    } else if stack.len() == 0 {
        scan_value(stack, t)
    } else {
        match stack.last() {
            JsonStackItem::Object(n) => object_step(stack, n, t),
            JsonStackItem::Array(n) => array_step(stack, n, t),
        }
    }
}

/// A run is no longer than the bytes it is taken from.
pub proof fn lemma_run_len_bound(s: Seq<u8>, class: spec_fn(u8) -> bool)
    ensures
        run_len(s, class) <= s.len(),
    decreases s.len(),
{
    if s.len() > 0 && class(s[0]) {
        lemma_run_len_bound(s.skip(1), class);
    }
}

/// Every byte of a run is of the class, and the byte after it, if any, is not.
pub proof fn lemma_run_len_content(s: Seq<u8>, class: spec_fn(u8) -> bool)
    ensures
        run_len(s, class) <= s.len(),
        forall|i: int| 0 <= i < run_len(s, class) ==> class(#[trigger] s[i]),
        run_len(s, class) < s.len() ==> !class(s[run_len(s, class) as int]),
    decreases s.len(),
{
    if s.len() > 0 && class(s[0]) {
        let t = s.skip(1);
        lemma_run_len_content(t, class);
        assert forall|i: int| 0 <= i < run_len(s, class) implies class(#[trigger] s[i]) by {
            if i > 0 {
                assert(s[i] == t[i - 1]);
            }
        }
        if run_len(s, class) < s.len() {
            assert(s[run_len(s, class) as int] == t[run_len(t, class) as int]);
        }
    }
}

/// The run is the one length `k` such that the first `k` bytes are of the
/// class and the byte after them, if any, is not.
pub proof fn lemma_run_len_is(s: Seq<u8>, class: spec_fn(u8) -> bool, k: int)
    requires
        0 <= k <= s.len(),
        forall|i: int| 0 <= i < k ==> class(#[trigger] s[i]),
        k < s.len() ==> !class(s[k]),
    ensures
        run_len(s, class) == k,
    decreases k,
{
    if k > 0 {
        let t = s.skip(1);
        assert forall|i: int| 0 <= i < k - 1 implies class(#[trigger] t[i]) by {
            assert(t[i] == s[i + 1]);
        }
        lemma_run_len_is(t, class, k - 1);
    }
}

/// The text of a number holds a sign, digits and a period only.
pub proof fn lemma_number_text_is_ascii(s: Seq<u8>)
    ensures
        match scan_number(s) {
            Scan::Hit(text, rest) => {
                &&& text + rest == s
                &&& forall|i: int| 0 <= i < text.len() ==> #[trigger] text[i] < 0x80
            },
            Scan::Miss(_) => true,
        },
{
    match number_len(s) {
        Some(n) => {
            let sign: int = if s.len() > 0 && s[0] == U8_MINUS { 1 } else { 0 };
            let whole = digits_len(s.skip(sign));
            let dot = sign + whole;
            lemma_run_len_content(s.skip(sign), digit_class());
            if dot < s.len() && s[dot] == U8_PERIOD {
                lemma_run_len_content(s.skip(dot + 1), digit_class());
            }
            let text = s.take(n as int);
            assert(text + s.skip(n as int) =~= s);
            assert forall|i: int| 0 <= i < text.len() implies #[trigger] text[i] < 0x80 by {
                if i < sign {
                } else if i < dot {
                    assert(s[i] == s.skip(sign)[i - sign]);
                } else if i == dot {
                } else {
                    assert(s[i] == s.skip(dot + 1)[i - dot - 1]);
                }
            }
        },
        None => {},
    }
}

/// Inside a string, a run of plain bytes goes into the text as it stands.
pub proof fn lemma_string_body_plain_run(s: Seq<u8>, text: Seq<u8>, m: int)
    requires
        0 <= m <= s.len(),
        forall|i: int| 0 <= i < m ==> plain_byte(#[trigger] s[i]),
    ensures
        string_body(s, text) == string_body(s.skip(m), text + s.take(m)),
    decreases m,
{
    if m == 0 {
        assert(s.skip(0) =~= s);
        assert(text + s.take(0) =~= text);
    } else {
        let t = s.skip(1);
        assert(plain_byte(s[0]));
        assert forall|i: int| 0 <= i < m - 1 implies plain_byte(#[trigger] t[i]) by {
            assert(t[i] == s[i + 1]);
        }
        lemma_string_body_plain_run(t, text.push(s[0]), m - 1);
        assert(t.skip(m - 1) =~= s.skip(m));
        assert(text.push(s[0]) + t.take(m - 1) =~= text + s.take(m));
    }
}

/// Hexadecimal digits that are read are there, and write a number below
/// sixteen to their count.
pub proof fn lemma_hex_digits_bound(h: Seq<u8>, n: nat, acc: int, limit: int)
    requires
        0 <= acc < limit,
    ensures
        match hex_digits(h, n, acc) {
            Ok(v) => n <= h.len() && 0 <= v < limit * vstd::arithmetic::power::pow(16, n),
            Err(_) => true,
        },
    decreases n,
{
    vstd::arithmetic::power::lemma_pow0(16);
    if n == 0 {
    } else if h.len() == 0 {
    } else {
        match hex_value(h[0]) {
            Some(v) => {
                lemma_hex_digits_bound(h.skip(1), (n - 1) as nat, acc * 16 + v, limit * 16);
                vstd::arithmetic::power::lemma_pow1(16);
                vstd::arithmetic::power::lemma_pow_adds(16, 1, (n - 1) as nat);
                assert(limit * 16 * vstd::arithmetic::power::pow(16, (n - 1) as nat) == limit
                    * vstd::arithmetic::power::pow(16, n)) by (nonlinear_arith)
                    requires
                        vstd::arithmetic::power::pow(16, n) == 16 * vstd::arithmetic::power::pow(
                            16,
                            (n - 1) as nat,
                        ),
                ;
            },
            None => {},
        }
    }
}

/// Four hexadecimal digits are four bytes and write a number below 65536.
pub proof fn lemma_hex4_bound(h: Seq<u8>)
    ensures
        hex4(h) is Ok ==> h.len() >= 4 && 0 <= hex4(h)->Ok_0 < 0x10000,
{
    lemma_hex_digits_bound(h, 4, 0, 1);
    vstd::arithmetic::power::lemma_pow1(16);
    vstd::arithmetic::power::lemma_pow_adds(16, 1, 1);
    vstd::arithmetic::power::lemma_pow_adds(16, 2, 2);
}

/// Whitespace at the front can be dropped a byte at a time.
pub proof fn lemma_skip_ws_step(s: Seq<u8>)
    ensures
        s.len() > 0 && whitespace_byte(s[0]) ==> skip_ws(s) == skip_ws(s.skip(1)),
        s.len() == 0 || !whitespace_byte(s[0]) ==> skip_ws(s) == s,
{
    if s.len() > 0 && whitespace_byte(s[0]) {
        let t = s.skip(1);
        lemma_run_len_bound(t, ws_class());
        assert(s.skip(1 + run_len(t, ws_class()) as int) =~= t.skip(run_len(t, ws_class()) as int));
    } else {
        assert(s.skip(0) =~= s);
    }
}

/// What is left after whitespace does not begin with whitespace.
pub proof fn lemma_skip_ws_done(s: Seq<u8>)
    ensures
        skip_ws(s).len() <= s.len(),
        skip_ws(s).len() > 0 ==> !whitespace_byte(skip_ws(s)[0]),
        skip_ws(skip_ws(s)) == skip_ws(s),
{
    lemma_run_len_content(s, ws_class());
    lemma_skip_ws_step(skip_ws(s));
}

} // verus!
