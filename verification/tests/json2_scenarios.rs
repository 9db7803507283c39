use parsely::internals::ParseErr;
use parsely::json2::{JsonEvent2, JsonParser};
use parsely::source::MemSource;

/// What an event says, in a form that can be kept and compared.
#[derive(Debug, PartialEq, Clone)]
enum Ev {
    Str(String),
    Num(String),
    Bool(bool),
    Null,
    ObjStart,
    ObjEnd,
    ArrStart,
    ArrEnd,
}

/// How a document ended.
#[derive(Debug, PartialEq, Clone)]
enum End {
    Clean,
    NoMatch,
    BadData(String),
    Io,
}

fn keep(e: JsonEvent2<'_>) -> Ev {
    match e {
        JsonEvent2::String(s) => Ev::Str(s.to_owned()),
        JsonEvent2::Number(s) => Ev::Num(s.to_owned()),
        JsonEvent2::Boolean(b) => Ev::Bool(b),
        JsonEvent2::Null => Ev::Null,
        JsonEvent2::ObjectStart => Ev::ObjStart,
        JsonEvent2::ObjectEnd => Ev::ObjEnd,
        JsonEvent2::ArrayStart => Ev::ArrStart,
        JsonEvent2::ArrayEnd => Ev::ArrEnd,
    }
}

/// Pulls until the document ends or fails.
fn run(source: MemSource) -> (Vec<Ev>, End) {
    let mut p = JsonParser::new(source);
    let mut events = Vec::new();
    loop {
        match p.next_token() {
            Ok(Some(e)) => events.push(keep(e)),
            Ok(None) => return (events, End::Clean),
            Err(ParseErr::DidNotMatch) => return (events, End::NoMatch),
            Err(ParseErr::BadData(m)) => return (events, End::BadData(m)),
            Err(ParseErr::Io(_)) => return (events, End::Io),
        }
    }
}

fn run_text(s: &str) -> (Vec<Ev>, End) {
    run(MemSource::from_text(s))
}

fn num(s: &str) -> Ev {
    Ev::Num(s.to_owned())
}

fn text(s: &str) -> Ev {
    Ev::Str(s.to_owned())
}

#[test]
fn empty_object() {
    assert_eq!(run_text("{}"), (vec![Ev::ObjStart, Ev::ObjEnd], End::Clean));
}

#[test]
fn array_of_numbers_and_a_string() {
    assert_eq!(
        run_text("[1, -2.5, \"a\"]"),
        (vec![Ev::ArrStart, num("1"), num("-2.5"), text("a"), Ev::ArrEnd], End::Clean)
    );
}

#[test]
fn member_names_are_not_events() {
    assert_eq!(
        run_text("{\"k\":true,\"k2\":null}"),
        (vec![Ev::ObjStart, Ev::Bool(true), Ev::Null, Ev::ObjEnd], End::Clean)
    );
}

#[test]
fn trailing_comma_in_object() {
    assert_eq!(run_text("{\"a\":1,}"), (vec![Ev::ObjStart, num("1")], End::NoMatch));
}

#[test]
fn trailing_comma_in_array() {
    assert_eq!(run_text("[1,]"), (vec![Ev::ArrStart, num("1")], End::NoMatch));
}

#[test]
fn unterminated_string() {
    assert_eq!(run_text("\"abc"), (vec![], End::BadData("unterminated string".to_owned())));
}

#[test]
fn ten_thousand_nested_arrays() {
    let depth = 10_000;
    let mut doc = String::new();
    for _ in 0..depth {
        doc.push('[');
    }
    for _ in 0..depth {
        doc.push(']');
    }
    let (events, end) = run_text(&doc);
    assert_eq!(end, End::Clean);
    assert_eq!(events.len(), 2 * depth);
    assert!(events[..depth].iter().all(|e| *e == Ev::ArrStart));
    assert!(events[depth..].iter().all(|e| *e == Ev::ArrEnd));
}

#[test]
fn whitespace_between_tokens_changes_no_event() {
    let tight = run_text("{\"a\":[1,2.5,\"x\",true,false,null],\"b\":{\"c\":-7}}");
    let loose = run_text(
        " \t{\n \"a\" \r\n: [ 1 ,\t2.5 , \"x\" ,true , false\n,\nnull ] , \"b\" : { \"c\" :  -7 } }  \n",
    );
    assert_eq!(tight.1, End::Clean);
    assert_eq!(tight, loose);
    assert_eq!(
        tight.0,
        vec![
            Ev::ObjStart,
            Ev::ArrStart,
            num("1"),
            num("2.5"),
            text("x"),
            Ev::Bool(true),
            Ev::Bool(false),
            Ev::Null,
            Ev::ArrEnd,
            Ev::ObjStart,
            num("-7"),
            Ev::ObjEnd,
            Ev::ObjEnd
        ]
    );
}

#[test]
fn backspace_counts_as_whitespace() {
    assert_eq!(run_text("\u{8}[\u{8}]\u{8}"), (vec![Ev::ArrStart, Ev::ArrEnd], End::Clean));
}

#[test]
fn whitespace_inside_a_string_is_text() {
    assert_eq!(run_text("\" a  b\t\""), (vec![text(" a  b\t")], End::Clean));
}

#[test]
fn number_texts() {
    for t in ["0", "7", "-0", "-12", "3.25", "-0.5", "0012", "12345678901234567890.000"] {
        assert_eq!(run_text(t), (vec![num(t)], End::Clean), "number {}", t);
    }
}

#[test]
fn number_ends_at_the_first_byte_that_is_not_part_of_it() {
    assert_eq!(run_text("[12,3]"), (vec![Ev::ArrStart, num("12"), num("3"), Ev::ArrEnd], End::Clean));
    assert_eq!(run_text("[1.5]"), (vec![Ev::ArrStart, num("1.5"), Ev::ArrEnd], End::Clean));
    // a second period is not part of the number, and no comma stands there
    assert_eq!(run_text("[1.5.3]"), (vec![Ev::ArrStart, num("1.5")], End::NoMatch));
}

#[test]
fn number_without_a_digit_where_one_must_stand() {
    assert_eq!(run_text("-"), (vec![], End::NoMatch));
    assert_eq!(run_text("-x"), (vec![], End::NoMatch));
    assert_eq!(run_text("1."), (vec![], End::NoMatch));
    assert_eq!(run_text("1.x"), (vec![], End::NoMatch));
    assert_eq!(run_text("[-]"), (vec![Ev::ArrStart], End::NoMatch));
    assert_eq!(run_text(".5"), (vec![], End::NoMatch));
}

#[test]
fn keywords() {
    assert_eq!(run_text("true"), (vec![Ev::Bool(true)], End::Clean));
    assert_eq!(run_text("false"), (vec![Ev::Bool(false)], End::Clean));
    assert_eq!(run_text("null"), (vec![Ev::Null], End::Clean));
    assert_eq!(run_text("tru"), (vec![], End::NoMatch));
    assert_eq!(run_text("trux"), (vec![], End::NoMatch));
    assert_eq!(run_text("fals"), (vec![], End::NoMatch));
    assert_eq!(run_text("nul"), (vec![], End::NoMatch));
    assert_eq!(run_text("True"), (vec![], End::NoMatch));
    assert_eq!(run_text("x"), (vec![], End::NoMatch));
}

#[test]
fn end_of_document() {
    assert_eq!(run_text(""), (vec![], End::Clean));
    assert_eq!(run_text("  \n\t "), (vec![], End::Clean));
    assert_eq!(run_text("1 "), (vec![num("1")], End::Clean));
    // the source is exhausted while a container is open
    assert_eq!(run_text("["), (vec![Ev::ArrStart], End::NoMatch));
    assert_eq!(run_text("{ "), (vec![Ev::ObjStart], End::NoMatch));
    assert_eq!(run_text("[1, [2]"), (vec![Ev::ArrStart, num("1"), Ev::ArrStart, num("2"), Ev::ArrEnd], End::NoMatch));
}

#[test]
fn end_of_document_is_reported_again() {
    let mut p = JsonParser::new(MemSource::from_text("7"));
    assert!(matches!(p.next_token(), Ok(Some(JsonEvent2::Number("7")))));
    assert!(matches!(p.next_token(), Ok(None)));
    assert!(matches!(p.next_token(), Ok(None)));
}

#[test]
fn closing_bytes_are_refused_where_nothing_is_open() {
    assert_eq!(run_text("]"), (vec![], End::NoMatch));
    assert_eq!(run_text("}"), (vec![], End::NoMatch));
    assert_eq!(run_text(","), (vec![], End::NoMatch));
    assert_eq!(run_text("[}"), (vec![Ev::ArrStart], End::NoMatch));
    assert_eq!(run_text("{]"), (vec![Ev::ObjStart], End::NoMatch));
}

#[test]
fn separators_are_mandatory() {
    assert_eq!(run_text("[1 2]"), (vec![Ev::ArrStart, num("1")], End::NoMatch));
    assert_eq!(run_text("[,1]"), (vec![Ev::ArrStart], End::NoMatch));
    assert_eq!(run_text("{\"a\" 1}"), (vec![Ev::ObjStart], End::NoMatch));
    assert_eq!(run_text("{\"a\":1 \"b\":2}"), (vec![Ev::ObjStart, num("1")], End::NoMatch));
    assert_eq!(run_text("{1:2}"), (vec![Ev::ObjStart], End::NoMatch));
}

#[test]
fn escapes_are_decoded() {
    assert_eq!(
        run_text(r#""q\" b\\ s\/ \b\f\n\r\t""#),
        (vec![text("q\" b\\ s/ \u{8}\u{c}\n\r\t")], End::Clean)
    );
}

#[test]
fn unicode_escapes_are_decoded() {
    assert_eq!(run_text(r#""A""#), (vec![text("A")], End::Clean));
    assert_eq!(run_text(r#""éé""#), (vec![text("éé")], End::Clean));
    assert_eq!(run_text(r#""€""#), (vec![text("€")], End::Clean));
    assert_eq!(run_text(r#""😀""#), (vec![text("😀")], End::Clean));
    assert_eq!(run_text(r#""𝄞!""#), (vec![text("𝄞!")], End::Clean));
    assert_eq!(run_text(r#""\u0000""#), (vec![text("\u{0}")], End::Clean));
}

#[test]
fn text_that_is_not_ascii_passes_through() {
    assert_eq!(run_text("\"né €😀\""), (vec![text("né €😀")], End::Clean));
    assert_eq!(run_text("{\"clé\":\"é\"}"), (vec![Ev::ObjStart, text("é"), Ev::ObjEnd], End::Clean));
}

#[test]
fn malformed_strings() {
    let bad = |m: &str| End::BadData(m.to_owned());
    assert_eq!(run_text("\"a\nb\"").1, bad("\\r or \\n not allowed in string"));
    assert_eq!(run_text("\"a\rb\"").1, bad("\\r or \\n not allowed in string"));
    assert_eq!(run_text(r#""\x""#).1, bad("invalid escape sequence in string"));
    assert_eq!(run_text(r#""\u12g4""#).1, bad("invalid escape sequence in string"));
    assert_eq!(run_text(r#""\u12"#).1, bad("unterminated string"));
    assert_eq!(run_text("\"abc\\").1, bad("unterminated string"));
    assert_eq!(run_text(r#""\ud83d""#).1, bad("unpaired surrogate in string"));
    assert_eq!(run_text(r#""\ud83dx""#).1, bad("unpaired surrogate in string"));
    assert_eq!(run_text(r#""\ud83d\n""#).1, bad("unpaired surrogate in string"));
    assert_eq!(run_text(r#""\ud83dA""#).1, bad("unpaired surrogate in string"));
    assert_eq!(run_text(r#""\ude00""#).1, bad("unpaired surrogate in string"));
    assert_eq!(run_text(r#""\ud83d"#).1, bad("unterminated string"));
    assert_eq!(run_text(r#""\ud83d\"#).1, bad("unterminated string"));
}

#[test]
fn text_must_be_utf8() {
    let bad = End::BadData("string is not valid UTF-8".to_owned());
    assert_eq!(run(MemSource::new(vec![b'"', 0xff, b'"'])), (vec![], bad.clone()));
    assert_eq!(run(MemSource::new(vec![b'"', 0xc3, b'"'])), (vec![], bad.clone()));
    assert_eq!(
        run(MemSource::new(vec![b'{', b'"', 0x80, b'"', b':', b'1', b'}'])),
        (vec![Ev::ObjStart], bad)
    );
    assert_eq!(run(MemSource::new(vec![b'"', 0xc3, 0xa9, b'"'])), (vec![text("é")], End::Clean));
}

#[test]
fn more_than_one_value_at_the_top() {
    assert_eq!(run_text("1 2"), (vec![num("1"), num("2")], End::Clean));
    assert_eq!(run_text("[] {}"), (vec![Ev::ArrStart, Ev::ArrEnd, Ev::ObjStart, Ev::ObjEnd], End::Clean));
}

fn sample() -> &'static str {
    r#"{ "name" : "café \"x\" 😀", "list":[10, -2.75, true, null, "long string with a tail"], "o":{"deep":[[],{}]} , "n": 123456789 }"#
}

#[test]
fn chunks_of_any_size_give_the_same_events() {
    let whole = run_text(sample());
    assert_eq!(whole.1, End::Clean);
    assert_eq!(whole.0.len(), 19);
    for chunk in [1usize, 2, 3, 4, 5, 7, 8, 9, 16, 31, 1000] {
        let got = run(MemSource::with_chunk(sample().as_bytes().to_vec(), chunk));
        assert_eq!(got, whole, "chunk {}", chunk);
    }
    // a chunk of zero bytes stands for one byte
    assert_eq!(run(MemSource::with_chunk(sample().as_bytes().to_vec(), 0)), whole);
}

#[test]
fn tokens_longer_than_the_buffer() {
    let long_text = "ab\\ncd".repeat(9000);
    let long_number = "1234567890".repeat(2000);
    let doc = format!("[\"{}\", {}.{}, \"end\"]", long_text, long_number, long_number);
    let (events, end) = run_text(&doc);
    assert_eq!(end, End::Clean);
    assert_eq!(
        events,
        vec![
            Ev::ArrStart,
            text(&"ab\ncd".repeat(9000)),
            num(&format!("{}.{}", long_number, long_number)),
            text("end"),
            Ev::ArrEnd
        ]
    );
}

#[test]
fn match_keyword_reads_the_word_that_its_byte_begins() {
    let mut p = JsonParser::new(MemSource::from_text("true,"));
    assert!(matches!(p.match_keyword(b't'), Ok(JsonEvent2::Boolean(true))));
    assert!(matches!(p.next_token(), Err(ParseErr::DidNotMatch)));

    let mut p = JsonParser::new(MemSource::from_text("false"));
    assert!(matches!(p.match_keyword(b'f'), Ok(JsonEvent2::Boolean(false))));

    let mut p = JsonParser::new(MemSource::from_text("null"));
    assert!(matches!(p.match_keyword(b'n'), Ok(JsonEvent2::Null)));

    // the byte decides the word, the input must hold it
    let mut p = JsonParser::new(MemSource::from_text("null"));
    assert!(matches!(p.match_keyword(b't'), Err(ParseErr::DidNotMatch)));
    let mut p = JsonParser::new(MemSource::from_text("true"));
    assert!(matches!(p.match_keyword(b'x'), Err(ParseErr::DidNotMatch)));
}

#[test]
fn event_kinds() {
    let all = [
        JsonEvent2::String("s"),
        JsonEvent2::Number("1"),
        JsonEvent2::Boolean(false),
        JsonEvent2::Null,
        JsonEvent2::ObjectStart,
        JsonEvent2::ObjectEnd,
        JsonEvent2::ArrayStart,
        JsonEvent2::ArrayEnd,
    ];
    for (i, e) in all.iter().enumerate() {
        let kinds = [
            e.is_string(),
            e.is_number(),
            e.is_bool(),
            e.is_null(),
            e.is_obj_start(),
            e.is_obj_end(),
            e.is_arr_start(),
            e.is_arr_end(),
        ];
        for (j, k) in kinds.iter().enumerate() {
            assert_eq!(*k, i == j, "event {} kind {}", i, j);
        }
    }
}

#[test]
fn count_all_bytes_counts_the_digits_of_the_source() {
    let mut p = JsonParser::new(MemSource::from_text("a1b22c333 d4444"));
    assert_eq!(p.count_all_bytes().unwrap(), 10);
    // the digits at the very end are left as the collected text
    assert_eq!(p.collected(), b"4444");
    assert!(matches!(p.next_token(), Ok(None)));

    let mut p = JsonParser::new(MemSource::from_text("12 34 x"));
    assert_eq!(p.count_all_bytes().unwrap(), 4);
    assert_eq!(p.collected(), b"");

    let mut p = JsonParser::new(MemSource::from_text(""));
    assert_eq!(p.count_all_bytes().unwrap(), 0);
    assert_eq!(p.collected(), b"");

    let long = "7".repeat(20_000);
    let mut p = JsonParser::new(MemSource::with_chunk(long.as_bytes().to_vec(), 1000));
    assert_eq!(p.count_all_bytes().unwrap(), 20_000);
    assert_eq!(p.collected().len(), 20_000);
}

#[test]
fn count_all_bytes_drops_what_is_buffered() {
    let mut p = JsonParser::new(MemSource::with_chunk(b"[1, 2, 3] 45".to_vec(), 4));
    // the first pull moves "[1, " into the buffer and takes the bracket
    assert!(matches!(p.next_token(), Ok(Some(JsonEvent2::ArrayStart))));
    assert_eq!(p.count_all_bytes().unwrap(), 4);
    assert_eq!(p.collected(), b"45");
}

#[test]
fn collected_is_the_text_of_the_last_string_or_number() {
    let mut p = JsonParser::new(MemSource::from_text("[\"caf\\u00e9\", -1.5]"));
    assert!(matches!(p.next_token(), Ok(Some(JsonEvent2::ArrayStart))));
    assert!(matches!(p.next_token(), Ok(Some(JsonEvent2::String("café")))));
    assert_eq!(p.collected(), "café".as_bytes());
    assert!(matches!(p.next_token(), Ok(Some(JsonEvent2::Number("-1.5")))));
    assert_eq!(p.collected(), b"-1.5");
}

#[test]
fn events_that_open_and_close_pair_up() {
    let doc = r#"[{"a":[1,{"b":[]},[[2]]],"c":{}},[],{"d":{"e":[true]}}]"#;
    let (events, end) = run_text(doc);
    assert_eq!(end, End::Clean);
    // the containers that are open, innermost last: true for an object
    let mut open: Vec<bool> = Vec::new();
    let mut starts = 0usize;
    let mut ends = 0usize;
    let mut deepest = 0usize;
    for e in &events {
        match e {
            Ev::ObjStart => {
                open.push(true);
                starts += 1;
            }
            Ev::ArrStart => {
                open.push(false);
                starts += 1;
            }
            Ev::ObjEnd => {
                assert_eq!(open.pop(), Some(true));
                ends += 1;
            }
            Ev::ArrEnd => {
                assert_eq!(open.pop(), Some(false));
                ends += 1;
            }
            _ => {}
        }
        // the depth is the number of starts that no end has matched yet
        assert_eq!(open.len(), starts - ends);
        deepest = std::cmp::max(deepest, open.len());
    }
    assert!(open.is_empty());
    assert_eq!(starts, 12);
    assert_eq!(ends, 12);
    assert_eq!(deepest, 5);
}

#[test]
fn a_number_that_is_read_reads_back_as_itself() {
    let doc = "[0, -0, 12, -12.5, 0.001, 98765432109876543210, -3.14159]";
    let (events, end) = run_text(doc);
    assert_eq!(end, End::Clean);
    let mut numbers = 0;
    for e in events {
        if let Ev::Num(t) = e {
            numbers += 1;
            // an optional sign, digits, and optionally a period and digits
            let unsigned = t.strip_prefix('-').unwrap_or(&t);
            let mut parts = unsigned.split('.');
            let whole = parts.next().unwrap();
            assert!(!whole.is_empty() && whole.bytes().all(|b| b.is_ascii_digit()));
            if let Some(frac) = parts.next() {
                assert!(!frac.is_empty() && frac.bytes().all(|b| b.is_ascii_digit()));
            }
            assert!(parts.next().is_none());
            assert_eq!(run_text(&t), (vec![Ev::Num(t.clone())], End::Clean));
        }
    }
    assert_eq!(numbers, 7);
}
