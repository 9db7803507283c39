//! What a pull depends on: the bytes that it takes, and of the bytes after
//! them no more than the first. So the bytes that a pull leaves can be
//! replaced by others that end the token in the same way, and the pull
//! returns the same event.

use vstd::prelude::*;
use crate::classify::{digit_byte};
use crate::laws::{
    all_whitespace, law_events_pair_up, law_whitespace_before_pull, lemma_skip_ws_prefix, pulls,
};
use crate::grammar::{
    Advance, array_step, bump, digit_class, digits_len, escape, Fault, hex_digits, hex_value,
    JsonStackItem, lemma_hex4_bound, lemma_run_len_bound, lemma_run_len_content, lemma_run_len_is,
    lemma_skip_ws_done, member, member_value, next_step, number_len, object_step, run_len, Scan, scan_keyword,
    scan_number, scan_string, scan_value, separator, skip_ws, string_body, Token, U8_COLON,
    U8_COMMA, U8_END_ARR, U8_END_OBJ, U8_ESCAPE, U8_MINUS, U8_PERIOD, U8_QUOTE, U8_START_ARR,
    U8_START_OBJ, unicode_escape, ws_class,
};

verus! {

/// A run that ends inside `x` ends at the same byte when more bytes follow.
pub proof fn lemma_run_len_append(x: Seq<u8>, y: Seq<u8>, class: spec_fn(u8) -> bool)
    requires
        run_len(x, class) < x.len(),
    ensures
        run_len(x + y, class) == run_len(x, class),
{
    let k = run_len(x, class) as int;
    lemma_run_len_content(x, class);
    let z = x + y;
    assert forall|i: int| 0 <= i < k implies class(#[trigger] z[i]) by {
        assert(z[i] == x[i]);
    }
    assert(z[k] == x[k]);
    lemma_run_len_is(z, class, k);
}

/// Whitespace that ends inside `x` is skipped alike when more bytes follow.
pub proof fn lemma_skip_ws_append(x: Seq<u8>, y: Seq<u8>)
    requires
        skip_ws(x).len() > 0,
    ensures
        skip_ws(x + y) == skip_ws(x) + y,
{
    lemma_run_len_bound(x, ws_class());
    lemma_run_len_append(x, y, ws_class());
    let k = run_len(x, ws_class()) as int;
    assert((x + y).skip(k) =~= x.skip(k) + y);
}

/// Whether the text of a number holds a period.
pub open spec fn has_fraction(text: Seq<u8>) -> bool {
    exists|i: int| 0 <= i < text.len() && #[trigger] text[i] == U8_PERIOD
}

/// Whether the number with the text `text` ends before `rest`: `rest` is
/// empty, or begins with a byte that is no digit, and no period unless the
/// number has its fraction.
pub open spec fn ends_number(text: Seq<u8>, rest: Seq<u8>) -> bool {
    rest.len() == 0 || (!digit_byte(rest[0]) && (rest[0] != U8_PERIOD || has_fraction(text)))
}

/// A number that is read ends before what it leaves, and is read the same
/// before any other bytes that it ends before.
pub proof fn lemma_number_rest(s: Seq<u8>, other: Seq<u8>)
    requires
        scan_number(s) is Hit,
    ensures
        ends_number(scan_number(s)->Hit_0, scan_number(s)->Hit_1),
        ends_number(scan_number(s)->Hit_0, other) ==> scan_number(scan_number(s)->Hit_0 + other)
            == Scan::Hit(scan_number(s)->Hit_0, other),
{
    let n = number_len(s)->Some_0 as int;
    let text = s.take(n);
    let rest = s.skip(n);
    let sign: int = if s.len() > 0 && s[0] == U8_MINUS {
        1
    } else {
        0
    };
    let a = s.skip(sign);
    let whole = digits_len(a) as int;
    let dot = sign + whole;
    lemma_run_len_content(a, digit_class());
    let with_fraction = dot < s.len() && s[dot] == U8_PERIOD;
    if with_fraction {
        let c = s.skip(dot + 1);
        lemma_run_len_content(c, digit_class());
        assert(text[dot] == U8_PERIOD);
        assert(has_fraction(text));
        if rest.len() > 0 {
            assert(rest[0] == c[n - dot - 1]);
        }
    } else {
        if rest.len() > 0 {
            assert(rest[0] == a[whole]);
            assert(rest[0] == s[dot]);
        }
    }
    assert(ends_number(text, rest));
    if ends_number(text, other) {
        let z = text + other;
        assert(z.len() > 0 && z[0] == s[0]);
        let b = z.skip(sign);
        assert forall|i: int| 0 <= i < whole implies digit_class()(#[trigger] b[i]) by {
            assert(b[i] == a[i]);
        }
        if with_fraction {
            assert(b[whole] == s[dot]);
            lemma_run_len_is(b, digit_class(), whole);
            assert(z[dot] == U8_PERIOD);
            let c = s.skip(dot + 1);
            let frac = digits_len(c) as int;
            let d = z.skip(dot + 1);
            assert forall|i: int| 0 <= i < frac implies digit_class()(#[trigger] d[i]) by {
                assert(d[i] == c[i]);
            }
            if frac < d.len() {
                assert(d[frac] == other[0]);
            }
            lemma_run_len_is(d, digit_class(), frac);
            assert(z.take(n) =~= text);
            assert(z.skip(n) =~= other);
        } else {
            assert forall|i: int| 0 <= i < text.len() implies text[i] != U8_PERIOD by {
                if i >= sign {
                    assert(text[i] == a[i - sign]);
                }
            }
            assert(!has_fraction(text));
            if whole < b.len() {
                assert(b[whole] == other[0]);
            }
            lemma_run_len_is(b, digit_class(), whole);
            if dot < z.len() {
                assert(z[dot] == other[0]);
            }
            assert(z.take(n) =~= text);
            assert(z.skip(n) =~= other);
        }
    }
}

/// A keyword is read the same before any other bytes.
pub proof fn lemma_keyword_rest(b: u8, s: Seq<u8>, other: Seq<u8>)
    requires
        scan_keyword(b, s) is Hit,
    ensures
        ({
            let rest = scan_keyword(b, s)->Hit_1;
            let k = s.len() - rest.len();
            &&& 0 < k <= s.len()
            &&& rest == s.skip(k)
            &&& scan_keyword(b, s.take(k) + other) == Scan::Hit(scan_keyword(b, s)->Hit_0, other)
        }),
{
    let rest = scan_keyword(b, s)->Hit_1;
    let k = s.len() - rest.len();
    let z = s.take(k) + other;
    assert(z.take(k) =~= s.take(k));
    assert(z.skip(k) =~= other);
}

/// Hexadecimal digits are read the same from any bytes that begin alike.
pub proof fn lemma_hex_digits_prefix(h: Seq<u8>, g: Seq<u8>, n: nat, acc: int)
    requires
        n <= h.len(),
        n <= g.len(),
        h.take(n as int) == g.take(n as int),
    ensures
        hex_digits(h, n, acc) == hex_digits(g, n, acc),
    decreases n,
{
    if n > 0 {
        assert(h[0] == h.take(n as int)[0]);
        assert(g[0] == g.take(n as int)[0]);
        match hex_value(h[0]) {
            Some(v) => {
                assert(h.skip(1).take(n - 1) =~= h.take(n as int).skip(1));
                assert(g.skip(1).take(n - 1) =~= g.take(n as int).skip(1));
                lemma_hex_digits_prefix(h.skip(1), g.skip(1), (n - 1) as nat, acc * 16 + v);
            },
            None => {},
        }
    }
}

/// A unicode escape that is read is four or ten bytes that are there.
pub proof fn lemma_unicode_escape_bound(h: Seq<u8>)
    ensures
        unicode_escape(h) is Ok ==> {
            &&& unicode_escape(h)->Ok_0.1 == 4 || unicode_escape(h)->Ok_0.1 == 10
            &&& unicode_escape(h)->Ok_0.1 <= h.len()
        },
{
    lemma_hex4_bound(h);
    if h.len() >= 6 {
        lemma_hex4_bound(h.skip(6));
    }
}

/// A unicode escape is read the same from any bytes that begin alike.
pub proof fn lemma_unicode_escape_prefix(h: Seq<u8>, g: Seq<u8>)
    requires
        unicode_escape(h) is Ok,
        unicode_escape(h)->Ok_0.1 <= g.len(),
        h.take(unicode_escape(h)->Ok_0.1 as int) == g.take(unicode_escape(h)->Ok_0.1 as int),
    ensures
        unicode_escape(g) == unicode_escape(h),
{
    let n = unicode_escape(h)->Ok_0.1 as int;
    lemma_unicode_escape_bound(h);
    assert(h.take(4) =~= h.take(n).take(4));
    assert(g.take(4) =~= g.take(n).take(4));
    lemma_hex_digits_prefix(h, g, 4, 0);
    if n == 10 {
        assert(h[4] == h.take(n)[4] && g[4] == g.take(n)[4]);
        assert(h[5] == h.take(n)[5] && g[5] == g.take(n)[5]);
        assert(h.skip(6).take(4) =~= h.take(n).skip(6));
        assert(g.skip(6).take(4) =~= g.take(n).skip(6));
        lemma_hex_digits_prefix(h.skip(6), g.skip(6), 4, 0);
    }
}

/// An escape that is read is made of bytes that are there.
pub proof fn lemma_escape_bound(e: Seq<u8>)
    ensures
        escape(e) is Ok ==> 0 < escape(e)->Ok_0.1 <= e.len(),
{
    if e.len() > 0 && e[0] == 0x75 {
        lemma_unicode_escape_bound(e.skip(1));
    }
}

/// An escape is read the same from any bytes that begin alike.
pub proof fn lemma_escape_prefix(e: Seq<u8>, g: Seq<u8>)
    requires
        escape(e) is Ok,
        escape(e)->Ok_0.1 <= g.len(),
        e.take(escape(e)->Ok_0.1 as int) == g.take(escape(e)->Ok_0.1 as int),
    ensures
        escape(g) == escape(e),
{
    let n = escape(e)->Ok_0.1 as int;
    lemma_escape_bound(e);
    assert(e[0] == e.take(n)[0]);
    assert(g[0] == g.take(n)[0]);
    if e[0] == 0x75 {
        lemma_unicode_escape_bound(e.skip(1));
        let m = unicode_escape(e.skip(1))->Ok_0.1 as int;
        assert(n == m + 1);
        assert(e.skip(1).take(m) =~= e.take(n).skip(1));
        assert(g.skip(1).take(m) =~= g.take(n).skip(1));
        lemma_unicode_escape_prefix(e.skip(1), g.skip(1));
    }
}

/// The rest of a string is read the same before any other bytes: it ends at
/// its closing quote.
#[verifier::rlimit(100)]
#[verifier::spinoff_prover]
pub proof fn lemma_string_body_rest(s: Seq<u8>, text: Seq<u8>, other: Seq<u8>)
    requires
        string_body(s, text) is Hit,
    ensures
        ({
            let rest = string_body(s, text)->Hit_1;
            let k = s.len() - rest.len();
            &&& 0 < k <= s.len()
            &&& rest == s.skip(k)
            &&& string_body(s.take(k) + other, text) == Scan::Hit(
                string_body(s, text)->Hit_0,
                other,
            )
        }),
    decreases s.len(),
{
    let rest = string_body(s, text)->Hit_1;
    let k = s.len() - rest.len();
    if s[0] == U8_QUOTE {
        let z = s.take(1) + other;
        assert(z[0] == s[0]);
        assert(z.skip(1) =~= other);
    } else if s[0] == U8_ESCAPE {
        lemma_escape_bound(s.skip(1));
        let (bytes, n) = escape(s.skip(1))->Ok_0;
        let t = s.skip(1 + n as int);
        assert(string_body(s, text) == string_body(t, text + bytes));
        lemma_string_body_rest(t, text + bytes, other);
        let j = t.len() - rest.len();
        assert(k == 1 + n + j);
        assert(t.skip(j) == s.skip(k)) by {
            assert(t.skip(j) =~= s.skip(k));
        }
        let z = s.take(k) + other;
        assert(z[0] == s[0]);
        assert(z.len() >= 1 + n);
        assert(z.skip(1).take(n as int) == s.skip(1).take(n as int)) by {
            assert(z.skip(1).take(n as int) =~= s.skip(1).take(n as int));
        }
        lemma_escape_prefix(s.skip(1), z.skip(1));
        assert(z.skip(1 + n as int) == t.take(j) + other) by {
            assert(z.skip(1 + n as int) =~= t.take(j) + other);
        }
        assert(string_body(z, text) == string_body(z.skip(1 + n as int), text + bytes));
    } else {
        let t = s.skip(1);
        assert(string_body(s, text) == string_body(t, text.push(s[0])));
        lemma_string_body_rest(t, text.push(s[0]), other);
        let j = t.len() - rest.len();
        assert(t.skip(j) == s.skip(k)) by {
            assert(t.skip(j) =~= s.skip(k));
        }
        let z = s.take(k) + other;
        assert(z[0] == s[0]);
        assert(z.skip(1) == t.take(j) + other) by {
            assert(z.skip(1) =~= t.take(j) + other);
        }
        assert(string_body(z, text) == string_body(z.skip(1), text.push(z[0])));
    }
}

/// A string is read the same before any other bytes.
pub proof fn lemma_string_rest(s: Seq<u8>, other: Seq<u8>)
    requires
        scan_string(s) is Hit,
    ensures
        ({
            let rest = scan_string(s)->Hit_1;
            let k = s.len() - rest.len();
            &&& 1 < k <= s.len()
            &&& rest == s.skip(k)
            &&& scan_string(s.take(k) + other) == Scan::Hit(scan_string(s)->Hit_0, other)
        }),
{
    let t = s.skip(1);
    lemma_string_body_rest(t, Seq::empty(), other);
    let rest = scan_string(s)->Hit_1;
    let k = s.len() - rest.len();
    let j = t.len() - rest.len();
    assert(t.skip(j) =~= s.skip(k));
    let z = s.take(k) + other;
    assert(z[0] == s[0]);
    assert(z.skip(1) =~= t.take(j) + other);
}

/// Whether the token of `event` ends before `rest`. Only a number can go on
/// into the bytes that follow it.
pub open spec fn ends_event(event: Token, rest: Seq<u8>) -> bool {
    match event {
        Token::Number(text) => ends_number(text, rest),
        _ => true,
    }
}

/// What a pull has returned and left, with other bytes left over.
pub open spec fn with_rest(a: Advance, other: Seq<u8>) -> Advance {
    Advance { event: a.event, stack: a.stack, rest: other }
}

/// Whitespace is skipped alike in the first `m` bytes of `x` with other
/// bytes after them, where those `m` bytes hold the whitespace and more.
pub proof fn lemma_skip_ws_take_append(x: Seq<u8>, m: int, other: Seq<u8>)
    requires
        x.len() - skip_ws(x).len() < m <= x.len(),
    ensures
        skip_ws(x.take(m) + other) == skip_ws(x).take(m - (x.len() - skip_ws(x).len())) + other,
        skip_ws(x) == x.skip(x.len() - skip_ws(x).len()),
{
    let c = run_len(x, ws_class()) as int;
    lemma_run_len_content(x, ws_class());
    let y = x.take(m);
    assert forall|i: int| 0 <= i < c implies ws_class()(#[trigger] y[i]) by {
        assert(y[i] == x[i]);
    }
    assert(y[c] == x[c]);
    lemma_run_len_is(y, ws_class(), c);
    assert(skip_ws(y) =~= skip_ws(x).take(m - c));
    lemma_skip_ws_append(y, other);
}

/// A value is read the same before any other bytes that its token ends
/// before.
pub proof fn lemma_value_rest(stack: Seq<JsonStackItem>, s: Seq<u8>, other: Seq<u8>)
    requires
        scan_value(stack, s) is Ok,
    ensures
        ({
            let a = scan_value(stack, s)->Ok_0;
            let k = s.len() - a.rest.len();
            &&& a.event is Some
            &&& 0 < k <= s.len()
            &&& a.rest == s.skip(k)
            &&& ends_event(a.event->Some_0, a.rest)
            &&& ends_event(a.event->Some_0, other) ==> scan_value(stack, s.take(k) + other)
                == Ok::<Advance, Fault>(with_rest(a, other))
        }),
{
    let a = scan_value(stack, s)->Ok_0;
    let k = s.len() - a.rest.len();
    let t = skip_ws(s);
    lemma_skip_ws_done(s);
    let c = s.len() - t.len();
    if t[0] == U8_QUOTE {
        lemma_string_rest(t, other);
    } else if t[0] == U8_START_ARR || t[0] == U8_START_OBJ {
    } else if digit_byte(t[0]) || t[0] == U8_MINUS {
        lemma_number_rest(t, other);
        crate::laws::lemma_scan_number_shorter(t);
    } else {
        lemma_keyword_rest(t[0], t, other);
    }
    let kt = t.len() - a.rest.len();
    assert(0 < kt <= t.len());
    assert(k == c + kt);
    lemma_skip_ws_take_append(s, k, other);
    assert(t.skip(kt) =~= s.skip(k));
    let tz = t.take(kt) + other;
    assert(skip_ws(s.take(k) + other) == tz);
    assert(tz[0] == t[0]);
    if ends_event(a.event->Some_0, other) {
        if t[0] == U8_QUOTE {
        } else if t[0] == U8_START_ARR || t[0] == U8_START_OBJ {
            assert(tz.skip(1) =~= other);
        } else if digit_byte(t[0]) || t[0] == U8_MINUS {
        } else {
        }
    }
}

/// A separator, and the whitespace after it, is read the same in the first
/// `m` bytes of `t` with other bytes after them, where those `m` bytes hold
/// it and more.
pub proof fn lemma_separator_rest(n: usize, t: Seq<u8>, m: int, other: Seq<u8>)
    requires
        separator(n, t) is Hit,
        t.len() - separator(n, t)->Hit_1.len() < m <= t.len(),
    ensures
        ({
            let u = separator(n, t)->Hit_1;
            let c = t.len() - u.len();
            &&& u == t.skip(c)
            &&& separator(n, t.take(m) + other) == Scan::Hit((), u.take(m - c) + other)
        }),
{
    let u = separator(n, t)->Hit_1;
    let c = t.len() - u.len();
    if n == 0 {
        assert(t.skip(0) =~= t);
        assert(t.take(m) + other =~= u.take(m - c) + other);
    } else {
        let x = t.skip(1);
        lemma_skip_ws_done(x);
        let z = t.take(m) + other;
        assert(z[0] == t[0]);
        assert(z.skip(1) =~= x.take(m - 1) + other);
        lemma_skip_ws_take_append(x, m - 1, other);
        assert(x.skip(x.len() - u.len()) =~= t.skip(c));
    }
}

/// A pull inside an array is read the same before any other bytes that the
/// token of its event ends before.
pub proof fn lemma_array_step_rest(
    stack: Seq<JsonStackItem>,
    n: usize,
    t: Seq<u8>,
    other: Seq<u8>,
)
    requires
        array_step(stack, n, t) is Ok,
        t.len() > 0,
    ensures
        ({
            let a = array_step(stack, n, t)->Ok_0;
            let k = t.len() - a.rest.len();
            &&& a.event is Some
            &&& 0 < k <= t.len()
            &&& a.rest == t.skip(k)
            &&& ends_event(a.event->Some_0, a.rest)
            &&& ends_event(a.event->Some_0, other) ==> array_step(stack, n, t.take(k) + other)
                == Ok::<Advance, Fault>(with_rest(a, other))
        }),
{
    let a = array_step(stack, n, t)->Ok_0;
    let k = t.len() - a.rest.len();
    if t[0] == U8_END_ARR {
        let z = t.take(1) + other;
        assert(z[0] == t[0]);
        assert(z.skip(1) =~= other);
    } else {
        let u = separator(n, t)->Hit_1;
        let c = t.len() - u.len();
        let bumped = stack.update(stack.len() - 1, JsonStackItem::Array(bump(n)));
        crate::laws::lemma_separator_shorter(n, t);
        lemma_value_rest(bumped, u, other);
        let ku = u.len() - a.rest.len();
        assert(k == c + ku);
        lemma_separator_rest(n, t, k, other);
        assert(u.skip(ku) =~= t.skip(k));
        let z = t.take(k) + other;
        assert(z[0] == t[0]);
    }
}

/// What follows the name of a member is read the same before any other
/// bytes that the token of the value ends before.
pub proof fn lemma_member_value_rest(stack: Seq<JsonStackItem>, v: Seq<u8>, other: Seq<u8>)
    requires
        member_value(stack, v) is Ok,
    ensures
        ({
            let a = member_value(stack, v)->Ok_0;
            let k = v.len() - a.rest.len();
            &&& a.event is Some
            &&& 0 < k <= v.len()
            &&& a.rest == v.skip(k)
            &&& ends_event(a.event->Some_0, a.rest)
            &&& ends_event(a.event->Some_0, other) ==> member_value(stack, v.take(k) + other)
                == Ok::<Advance, Fault>(with_rest(a, other))
        }),
{
    let a = member_value(stack, v)->Ok_0;
    let k = v.len() - a.rest.len();
    let w = skip_ws(v);
    lemma_skip_ws_done(v);
    let c = v.len() - w.len();
    let x = w.skip(1);
    lemma_value_rest(stack, x, other);
    let kx = x.len() - a.rest.len();
    assert(k == c + 1 + kx);
    lemma_skip_ws_take_append(v, k, other);
    assert(a.rest == v.skip(k)) by {
        assert(x.skip(kx) =~= w.skip(1 + kx));
        assert(w.skip(1 + kx) =~= v.skip(k));
    }
    let wz = w.take(1 + kx) + other;
    assert(skip_ws(v.take(k) + other) == wz);
    assert(wz[0] == w[0]);
    assert(wz.skip(1) == x.take(kx) + other) by {
        assert(wz.skip(1) =~= x.take(kx) + other);
    }
}

/// A member is read the same before any other bytes that the token of its
/// value ends before.
#[verifier::rlimit(50)]
pub proof fn lemma_member_rest(stack: Seq<JsonStackItem>, u: Seq<u8>, other: Seq<u8>)
    requires
        member(stack, u) is Ok,
    ensures
        ({
            let a = member(stack, u)->Ok_0;
            let k = u.len() - a.rest.len();
            &&& a.event is Some
            &&& 0 < k <= u.len()
            &&& a.rest == u.skip(k)
            &&& ends_event(a.event->Some_0, a.rest)
            &&& ends_event(a.event->Some_0, other) ==> member(stack, u.take(k) + other) == Ok::<
                Advance,
                Fault,
            >(with_rest(a, other))
        }),
{
    let a = member(stack, u)->Ok_0;
    let k = u.len() - a.rest.len();
    let v = scan_string(u)->Hit_1;
    let ku = u.len() - v.len();
    lemma_member_value_rest(stack, v, other);
    let kv = v.len() - a.rest.len();
    lemma_string_rest(u, v.take(kv) + other);
    assert(k == ku + kv);
    assert(a.rest == u.skip(k)) by {
        assert(v.skip(kv) =~= u.skip(k));
    }
    assert(u.take(k) + other == u.take(ku) + (v.take(kv) + other)) by {
        assert(u.take(k) + other =~= u.take(ku) + (v.take(kv) + other));
    }
}

/// A pull inside an object is read the same before any other bytes that the
/// token of its event ends before.
#[verifier::rlimit(40)]
pub proof fn lemma_object_step_rest(
    stack: Seq<JsonStackItem>,
    n: usize,
    t: Seq<u8>,
    other: Seq<u8>,
)
    requires
        object_step(stack, n, t) is Ok,
        t.len() > 0,
    ensures
        ({
            let a = object_step(stack, n, t)->Ok_0;
            let k = t.len() - a.rest.len();
            &&& a.event is Some
            &&& 0 < k <= t.len()
            &&& a.rest == t.skip(k)
            &&& ends_event(a.event->Some_0, a.rest)
            &&& ends_event(a.event->Some_0, other) ==> object_step(stack, n, t.take(k) + other)
                == Ok::<Advance, Fault>(with_rest(a, other))
        }),
{
    let a = object_step(stack, n, t)->Ok_0;
    let k = t.len() - a.rest.len();
    if t[0] == U8_END_OBJ {
        let z = t.take(1) + other;
        assert(z[0] == t[0]);
        assert(z.skip(1) =~= other);
    } else {
        let u = separator(n, t)->Hit_1;
        let c = t.len() - u.len();
        let bumped = stack.update(stack.len() - 1, JsonStackItem::Object(bump(n)));
        crate::laws::lemma_separator_shorter(n, t);
        lemma_member_rest(bumped, u, other);
        let ku = u.len() - a.rest.len();
        assert(k == c + ku);
        lemma_separator_rest(n, t, k, other);
        assert(a.rest == t.skip(k)) by {
            assert(u.skip(ku) =~= t.skip(k));
        }
        let z = t.take(k) + other;
        assert(z[0] == t[0]);
    }
}

/// What a pull that returns an event depends on. The bytes that it leaves
/// are the end of the bytes that it was given, and it returns the same
/// event and leaves the same stack before any other bytes that the token of
/// its event ends before.
pub proof fn law_pull_is_local(stack: Seq<JsonStackItem>, s: Seq<u8>, other: Seq<u8>)
    requires
        next_step(stack, s) is Ok,
        next_step(stack, s)->Ok_0.event is Some,
    ensures
        ({
            let a = next_step(stack, s)->Ok_0;
            let k = s.len() - a.rest.len();
            &&& 0 < k <= s.len()
            &&& a.rest == s.skip(k)
            &&& ends_event(a.event->Some_0, a.rest)
            &&& ends_event(a.event->Some_0, other) ==> next_step(stack, s.take(k) + other)
                == Ok::<Advance, Fault>(with_rest(a, other))
        }),
{
    reveal(next_step);
    let a = next_step(stack, s)->Ok_0;
    let k = s.len() - a.rest.len();
    let t = skip_ws(s);
    lemma_skip_ws_done(s);
    let c = s.len() - t.len();
    if stack.len() == 0 {
        lemma_value_rest(stack, t, other);
    } else {
        match stack.last() {
            JsonStackItem::Object(n) => lemma_object_step_rest(stack, n, t, other),
            JsonStackItem::Array(n) => lemma_array_step_rest(stack, n, t, other),
        }
    }
    let kt = t.len() - a.rest.len();
    assert(k == c + kt);
    lemma_skip_ws_take_append(s, k, other);
    assert(t.skip(kt) =~= s.skip(k));
    let tz = t.take(kt) + other;
    assert(skip_ws(s.take(k) + other) == tz);
    lemma_skip_ws_done(tz);
}

/// A token that ends before some bytes ends before any bytes that begin
/// with the same byte.
pub proof fn lemma_ends_event_alike(event: Token, rest: Seq<u8>, other: Seq<u8>)
    requires
        ends_event(event, rest),
        rest.len() > 0,
        other.len() > 0,
        other[0] == rest[0],
    ensures
        ends_event(event, other),
{
}

/// More input after a pull that has returned an event changes nothing of
/// it, where the pull has left a byte unread or its event is no number: the
/// event and the stack are the same, and the new input follows the bytes
/// that were left.
pub proof fn law_more_input(stack: Seq<JsonStackItem>, s: Seq<u8>, more: Seq<u8>)
    requires
        next_step(stack, s) is Ok,
        next_step(stack, s)->Ok_0.event is Some,
        next_step(stack, s)->Ok_0.rest.len() > 0 || !(next_step(stack, s)->Ok_0.event->Some_0
            is Number),
    ensures
        next_step(stack, s + more) == Ok::<Advance, Fault>(
            with_rest(next_step(stack, s)->Ok_0, next_step(stack, s)->Ok_0.rest + more),
        ),
{
    let a = next_step(stack, s)->Ok_0;
    let k = s.len() - a.rest.len();
    let other = a.rest + more;
    law_pull_is_local(stack, s, other);
    if a.rest.len() > 0 {
        assert(other[0] == a.rest[0]);
        lemma_ends_event_alike(a.event->Some_0, a.rest, other);
    }
    assert(s.take(k) + other =~= s + more);
}

/// A token ends before whitespace.
pub proof fn lemma_ends_before_whitespace(event: Token, w: Seq<u8>, rest: Seq<u8>)
    requires
        all_whitespace(w),
        w.len() > 0,
    ensures
        ends_event(event, w + rest),
{
    assert((w + rest)[0] == w[0]);
}

/// Whitespace put after the token of an event changes nothing of the pull
/// that returns the event: the event and the stack are the same, and the
/// whitespace is left unread before the bytes that were left.
pub proof fn law_whitespace_after_pull(stack: Seq<JsonStackItem>, s: Seq<u8>, w: Seq<u8>)
    requires
        next_step(stack, s) is Ok,
        next_step(stack, s)->Ok_0.event is Some,
        all_whitespace(w),
    ensures
        ({
            let a = next_step(stack, s)->Ok_0;
            let k = s.len() - a.rest.len();
            next_step(stack, s.take(k) + w + a.rest) == Ok::<Advance, Fault>(
                with_rest(a, w + a.rest),
            )
        }),
{
    let a = next_step(stack, s)->Ok_0;
    let k = s.len() - a.rest.len();
    law_pull_is_local(stack, s, w + a.rest);
    if w.len() > 0 {
        lemma_ends_before_whitespace(a.event->Some_0, w, a.rest);
    } else {
        assert(w + a.rest =~= a.rest);
    }
    assert(s.take(k) + w + a.rest =~= s.take(k) + (w + a.rest));
}

/// Pulls in a row are the first of them and then the others.
pub proof fn lemma_pulls_split(stack: Seq<JsonStackItem>, s: Seq<u8>, i: nat, j: nat)
    ensures
        pulls(stack, s, i + j) == match pulls(stack, s, i) {
            Some((first, mid, rest)) => match pulls(mid, rest, j) {
                Some((second, last, left)) => Some((first + second, last, left)),
                None => None,
            },
            None => None,
        },
    decreases i,
{
    if i == 0 {
        match pulls(stack, s, j) {
            Some((second, last, left)) => {
                assert(Seq::<Token>::empty() + second =~= second);
            },
            None => {},
        }
    } else {
        match next_step(stack, s) {
            Ok(a) => match a.event {
                Some(e) => {
                    lemma_pulls_split(a.stack, a.rest, (i - 1) as nat, j);
                    match pulls(a.stack, a.rest, (i - 1) as nat) {
                        Some((first, mid, rest)) => match pulls(mid, rest, j) {
                            Some((second, last, left)) => {
                                assert(seq![e] + (first + second) =~= (seq![e] + first) + second);
                            },
                            None => {},
                        },
                        None => {},
                    }
                },
                None => {},
            },
            Err(_) => {},
        }
    }
}

/// What pulls in a row depend on: they return the same events and leave the
/// same stack before any other bytes that the token of the last event ends
/// before.
pub proof fn law_pulls_are_local(stack: Seq<JsonStackItem>, s: Seq<u8>, i: nat, other: Seq<u8>)
    requires
        i > 0,
        pulls(stack, s, i) is Some,
        ends_event(pulls(stack, s, i)->Some_0.0.last(), other),
    ensures
        ({
            let (events, last, rest) = pulls(stack, s, i)->Some_0;
            let k = s.len() - rest.len();
            &&& i <= k <= s.len()
            &&& rest == s.skip(k)
            &&& pulls(stack, s.take(k) + other, i) == Some((events, last, other))
        }),
    decreases i,
{
    let (events, last, rest) = pulls(stack, s, i)->Some_0;
    let k = s.len() - rest.len();
    let a = next_step(stack, s)->Ok_0;
    let e = a.event->Some_0;
    let k1 = s.len() - a.rest.len();
    law_events_pair_up(stack, s, i);
    if i == 1 {
        assert(events =~= seq![e]);
        law_pull_is_local(stack, s, other);
        assert(pulls(a.stack, other, 0) == Some((Seq::<Token>::empty(), a.stack, other)));
    } else {
        let (later, last2, rest2) = pulls(a.stack, a.rest, (i - 1) as nat)->Some_0;
        assert(events == seq![e] + later);
        law_events_pair_up(a.stack, a.rest, (i - 1) as nat);
        assert(events.last() == later.last());
        law_pulls_are_local(a.stack, a.rest, (i - 1) as nat, other);
        let k2 = a.rest.len() - rest.len();
        let other1 = a.rest.take(k2) + other;
        law_pull_is_local(stack, s, other1);
        assert(other1[0] == a.rest[0]);
        lemma_ends_event_alike(e, a.rest, other1);
        assert(a.rest.skip(k2) =~= s.skip(k));
        assert(s.take(k1) + other1 =~= s.take(k) + other);
    }
}

/// Whitespace put between the tokens of two events changes no event: the
/// pulls up to the first of the two return the same events and leave the
/// whitespace unread, and any number of pulls beyond them return what they
/// return without the whitespace.
pub proof fn law_whitespace_between_events(
    stack: Seq<JsonStackItem>,
    s: Seq<u8>,
    i: nat,
    w: Seq<u8>,
    j: nat,
)
    requires
        i > 0,
        j > 0,
        pulls(stack, s, i) is Some,
        all_whitespace(w),
    ensures
        ({
            let (events, last, rest) = pulls(stack, s, i)->Some_0;
            let k = s.len() - rest.len();
            let spaced = s.take(k) + w + rest;
            &&& pulls(stack, spaced, i) == Some((events, last, w + rest))
            &&& pulls(stack, spaced, i + j) == pulls(stack, s, i + j)
            &&& match pulls(stack, s, i) {
                Some((_, mid, left)) => next_step(mid, w + left) == next_step(mid, left),
                None => true,
            }
        }),
{
    let (events, last, rest) = pulls(stack, s, i)->Some_0;
    let k = s.len() - rest.len();
    let spaced = s.take(k) + w + rest;
    law_events_pair_up(stack, s, i);
    if w.len() > 0 {
        lemma_ends_before_whitespace(events.last(), w, rest);
        law_pulls_are_local(stack, s, i, w + rest);
    } else {
        assert(w + rest =~= rest);
        lemma_nothing_replaced(stack, s, i);
        assert(s.take(k) + rest =~= s);
        assert(spaced =~= s);
    }
    assert(spaced =~= s.take(k) + (w + rest));
    lemma_pulls_split(stack, spaced, i, j);
    lemma_pulls_split(stack, s, i, j);
    law_whitespace_before_pull(last, w, rest);
}

/// Pulls leave the end of the bytes that they were given.
pub proof fn lemma_nothing_replaced(stack: Seq<JsonStackItem>, s: Seq<u8>, i: nat)
    requires
        pulls(stack, s, i) is Some,
    ensures
        ({
            let (events, last, rest) = pulls(stack, s, i)->Some_0;
            let k = s.len() - rest.len();
            0 <= k <= s.len() && rest == s.skip(k)
        }),
    decreases i,
{
    if i == 0 {
        assert(s.skip(0) =~= s);
    } else {
        let a = next_step(stack, s)->Ok_0;
        law_pull_is_local(stack, s, Seq::empty());
        lemma_nothing_replaced(a.stack, a.rest, (i - 1) as nat);
        let (events, last, rest) = pulls(stack, s, i)->Some_0;
        let k1 = s.len() - a.rest.len();
        let k2 = a.rest.len() - rest.len();
        assert(a.rest.skip(k2) =~= s.skip(k1 + k2));
    }
}

/// Whitespace put after the comma before an element of an array changes
/// nothing of the pull that reads the element.
pub proof fn law_whitespace_after_comma_in_array(
    stack: Seq<JsonStackItem>,
    n: usize,
    t: Seq<u8>,
    w: Seq<u8>,
)
    requires
        n != 0,
        t.len() > 0,
        t[0] == U8_COMMA,
        all_whitespace(w),
    ensures
        array_step(stack, n, t.take(1) + w + t.skip(1)) == array_step(stack, n, t),
{
    let z = t.take(1) + w + t.skip(1);
    assert(z[0] == t[0]);
    assert(z.skip(1) =~= w + t.skip(1));
    lemma_skip_ws_prefix(w, t.skip(1));
}

/// Whitespace put after the comma before a member of an object changes
/// nothing of the pull that reads the member.
pub proof fn law_whitespace_after_comma_in_object(
    stack: Seq<JsonStackItem>,
    n: usize,
    t: Seq<u8>,
    w: Seq<u8>,
)
    requires
        n != 0,
        t.len() > 0,
        t[0] == U8_COMMA,
        all_whitespace(w),
    ensures
        object_step(stack, n, t.take(1) + w + t.skip(1)) == object_step(stack, n, t),
{
    let z = t.take(1) + w + t.skip(1);
    assert(z[0] == t[0]);
    assert(z.skip(1) =~= w + t.skip(1));
    lemma_skip_ws_prefix(w, t.skip(1));
}

/// Whitespace put after the name of a member changes nothing of what the
/// member is read as.
pub proof fn law_whitespace_after_name(stack: Seq<JsonStackItem>, u: Seq<u8>, w: Seq<u8>)
    requires
        scan_string(u) is Hit,
        all_whitespace(w),
    ensures
        ({
            let after_name = scan_string(u)->Hit_1;
            let c = u.len() - after_name.len();
            &&& 0 < c <= u.len()
            &&& after_name == u.skip(c)
            &&& member(stack, u.take(c) + w + after_name) == member(stack, u)
        }),
{
    let v = scan_string(u)->Hit_1;
    let c = u.len() - v.len();
    lemma_string_rest(u, w + v);
    assert(u.take(c) + w + v == u.take(c) + (w + v)) by {
        assert(u.take(c) + w + v =~= u.take(c) + (w + v));
    }
    lemma_skip_ws_prefix(w, v);
}

/// Whitespace put after the colon of a member changes nothing of what the
/// member is read as. `v` is what follows the name of the member.
pub proof fn law_whitespace_after_colon(stack: Seq<JsonStackItem>, v: Seq<u8>, w: Seq<u8>)
    requires
        skip_ws(v).len() > 0,
        skip_ws(v)[0] == U8_COLON,
        all_whitespace(w),
    ensures
        ({
            let after_colon = skip_ws(v).skip(1);
            let c = v.len() - after_colon.len();
            &&& 0 < c <= v.len()
            &&& after_colon == v.skip(c)
            &&& member_value(stack, v.take(c) + w + after_colon) == member_value(stack, v)
        }),
{
    let x0 = skip_ws(v);
    let x = x0.skip(1);
    let c = v.len() - x.len();
    lemma_skip_ws_done(v);
    lemma_skip_ws_take_append(v, c, w + x);
    assert(x == v.skip(c)) by {
        assert(x =~= v.skip(c));
    }
    assert(v.take(c) + w + x == v.take(c) + (w + x)) by {
        assert(v.take(c) + w + x =~= v.take(c) + (w + x));
    }
    let xz = x0.take(1) + (w + x);
    assert(xz[0] == x0[0]);
    assert(xz.skip(1) == w + x) by {
        assert(xz.skip(1) =~= w + x);
    }
    lemma_skip_ws_prefix(w, x);
}

} // verus!
