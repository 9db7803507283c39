use parsely::internals::ParseErr;
use parsely::json2::{JsonEvent2, JsonParser, Pull, StreamParser};
use parsely::source::{ByteSource, Feed, MemSource};

#[derive(Debug, PartialEq, Clone)]
enum Ev {
    Str(String),
    Num(String),
    Bool(bool),
    Null,
    ObjStart,
    ObjEnd,
    ArrStart,
    ArrEnd,
}

#[derive(Debug, PartialEq, Clone)]
enum End {
    Clean,
    NoMatch,
    BadData(String),
    Io,
}

fn keep(e: JsonEvent2<'_>) -> Ev {
    match e {
        JsonEvent2::String(s) => Ev::Str(s.to_owned()),
        JsonEvent2::Number(s) => Ev::Num(s.to_owned()),
        JsonEvent2::Boolean(b) => Ev::Bool(b),
        JsonEvent2::Null => Ev::Null,
        JsonEvent2::ObjectStart => Ev::ObjStart,
        JsonEvent2::ObjectEnd => Ev::ObjEnd,
        JsonEvent2::ArrayStart => Ev::ArrStart,
        JsonEvent2::ArrayEnd => Ev::ArrEnd,
    }
}

fn end_of(e: ParseErr) -> End {
    match e {
        ParseErr::DidNotMatch => End::NoMatch,
        ParseErr::BadData(m) => End::BadData(m),
        ParseErr::Io(_) => End::Io,
    }
}

/// The events of a document that is held in memory.
fn run_whole(doc: &[u8]) -> (Vec<Ev>, End) {
    let mut p = JsonParser::new(MemSource::new(doc.to_vec()));
    let mut events = Vec::new();
    loop {
        match p.next_token() {
            Ok(Some(e)) => events.push(keep(e)),
            Ok(None) => return (events, End::Clean),
            Err(e) => return (events, end_of(e)),
        }
    }
}

/// The events of a document that is fed in chunks of the given sizes, the
/// sizes taken round and round, a chunk each time the tokenizer asks.
fn run_fed(doc: &[u8], sizes: &[usize]) -> (Vec<Ev>, End) {
    let mut p = StreamParser::new();
    let mut events = Vec::new();
    let mut fed = 0;
    let mut turn = 0;
    loop {
        match p.next_token() {
            Ok(Pull::Event(e)) => events.push(keep(e)),
            Ok(Pull::End) => return (events, End::Clean),
            Ok(Pull::NeedInput) => {
                if fed == doc.len() {
                    p.close();
                } else {
                    let n = std::cmp::min(sizes[turn % sizes.len()], doc.len() - fed);
                    p.feed(&doc[fed..fed + n]);
                    fed += n;
                    turn += 1;
                }
            }
            Err(e) => return (events, end_of(e)),
        }
    }
}

fn documents() -> Vec<Vec<u8>> {
    let mut docs: Vec<Vec<u8>> = vec![
        b"{}".to_vec(),
        b"[1, -2.5, \"a\"]".to_vec(),
        b"{\"k\":true,\"k2\":null}".to_vec(),
        b"{\"a\":1,}".to_vec(),
        b"\"abc".to_vec(),
        b"  12345  ".to_vec(),
        b"12.5".to_vec(),
        b"1.".to_vec(),
        b"-".to_vec(),
        b"tru".to_vec(),
        b"[true,false,null,nul]".to_vec(),
        b"[1 2]".to_vec(),
        b"[[[[]]]] [] 7 \"x\"".to_vec(),
        b"".to_vec(),
        b" \n ".to_vec(),
        b"[".to_vec(),
        "{ \"name\" : \"caf\u{e9} \\\"x\\\" \\ud83d\\ude00 \\u00e9\", \"list\":[10, -2.75, true, null, \"tail\"], \"o\":{\"deep\":[[],{}]} , \"n\": 123456789 }".as_bytes().to_vec(),
        b"\"a\\u12".to_vec(),
        b"\"\\ud83d\\u0041\"".to_vec(),
        vec![b'"', 0xff, b'"'],
    ];
    docs.push(format!("[\"{}\", {}]", "xy\\n".repeat(5000), "12".repeat(6000)).into_bytes());
    docs
}

#[test]
fn feeding_in_chunks_gives_the_events_of_the_whole_document() {
    for doc in documents() {
        let whole = run_whole(&doc);
        for sizes in [&[1usize][..], &[2], &[3], &[5], &[7, 1, 2], &[64], &[8192], &[100_000]] {
            if doc.len() > 1000 && sizes[0] < 64 {
                continue;
            }
            assert_eq!(run_fed(&doc, sizes), whole, "document {:?}, chunks {:?}",
                String::from_utf8_lossy(&doc[..std::cmp::min(doc.len(), 40)]), sizes);
        }
    }
}

#[test]
fn feeding_byte_by_byte_gives_the_events_of_the_whole_document() {
    for doc in documents() {
        if doc.len() > 1000 {
            continue;
        }
        assert_eq!(run_fed(&doc, &[1]), run_whole(&doc));
    }
}

#[test]
fn a_pull_that_needs_input_takes_nothing() {
    let mut p = StreamParser::new();
    assert!(matches!(p.next_token(), Ok(Pull::NeedInput)));
    p.feed(b"[12");
    assert!(matches!(p.next_token(), Ok(Pull::Event(JsonEvent2::ArrayStart))));
    // the number may go on
    assert!(matches!(p.next_token(), Ok(Pull::NeedInput)));
    assert!(matches!(p.next_token(), Ok(Pull::NeedInput)));
    p.feed(b"3");
    assert!(matches!(p.next_token(), Ok(Pull::NeedInput)));
    p.feed(b", \"ab");
    assert!(matches!(p.next_token(), Ok(Pull::Event(JsonEvent2::Number("123")))));
    assert!(matches!(p.next_token(), Ok(Pull::NeedInput)));
    p.feed(b"c\"");
    // the string is whole, but no byte after it has come
    assert!(matches!(p.next_token(), Ok(Pull::NeedInput)));
    p.feed(b" ");
    assert!(matches!(p.next_token(), Ok(Pull::Event(JsonEvent2::String("abc")))));
    assert!(matches!(p.next_token(), Ok(Pull::NeedInput)));
    p.feed(b"]");
    assert!(matches!(p.next_token(), Ok(Pull::NeedInput)));
    p.close();
    assert!(matches!(p.next_token(), Ok(Pull::Event(JsonEvent2::ArrayEnd))));
    assert!(matches!(p.next_token(), Ok(Pull::End)));
    assert!(matches!(p.next_token(), Ok(Pull::End)));
}

#[test]
fn nothing_is_fed_after_the_document_is_closed() {
    let mut p = StreamParser::new();
    p.feed(b"1");
    p.close();
    p.feed(b"2");
    assert!(matches!(p.next_token(), Ok(Pull::Event(JsonEvent2::Number("1")))));
    assert!(matches!(p.next_token(), Ok(Pull::End)));
}

#[test]
fn a_failure_is_reported_when_the_document_is_closed_and_stays() {
    let mut p = StreamParser::new();
    p.feed(b"[1 2]");
    assert!(matches!(p.next_token(), Ok(Pull::Event(JsonEvent2::ArrayStart))));
    assert!(matches!(p.next_token(), Ok(Pull::Event(JsonEvent2::Number("1")))));
    assert!(matches!(p.next_token(), Ok(Pull::NeedInput)));
    p.close();
    assert!(matches!(p.next_token(), Err(ParseErr::DidNotMatch)));
    assert!(matches!(p.next_token(), Err(ParseErr::DidNotMatch)));

    let mut p = StreamParser::new();
    p.feed(b"{\"a\": \"never ends");
    assert!(matches!(p.next_token(), Ok(Pull::Event(JsonEvent2::ObjectStart))));
    assert!(matches!(p.next_token(), Ok(Pull::NeedInput)));
    p.close();
    for _ in 0..2 {
        match p.next_token() {
            Err(ParseErr::BadData(m)) => assert_eq!(m, "unterminated string"),
            _ => panic!("the string does not end"),
        }
    }
}

#[test]
fn a_feed_hands_out_what_was_put_in() {
    let mut f = Feed::new();
    let mut buf = vec![0u8; 4];
    assert!(!f.has_queued());
    assert_eq!(f.read(&mut buf).unwrap(), 0);
    f.push(b"abcdef");
    assert!(f.has_queued());
    assert_eq!(f.read(&mut buf).unwrap(), 4);
    assert_eq!(&buf[..], b"abcd");
    assert_eq!(f.kept_len(), 4);
    f.unread(3);
    assert_eq!(f.kept_len(), 1);
    assert_eq!(f.read(&mut buf).unwrap(), 4);
    assert_eq!(&buf[..], b"bcde");
    f.forget(2);
    assert_eq!(f.kept_len(), 2);
    f.unread(2);
    f.push(b"gh");
    assert_eq!(f.read(&mut buf).unwrap(), 4);
    assert_eq!(&buf[..], b"defg");
    assert_eq!(f.read(&mut buf).unwrap(), 1);
    assert_eq!(&buf[..1], b"h");
    assert!(!f.has_queued());
    f.forget(0);
    assert_eq!(f.kept_len(), 0);
    assert_eq!(f.read(&mut buf).unwrap(), 0);
}
