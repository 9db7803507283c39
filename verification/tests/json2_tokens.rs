use parsely::internals::{ParseErr, ParseResult};
use parsely::json2::{JsonEvent2, JsonParser};
use parsely::source::{ByteSource, MemSource};

/// Create parser used during tests
fn test_parser(s: &str) -> JsonParser<MemSource> {
    JsonParser::new(MemSource::from_text(s))
}

/// Little test helper
fn token<R: ByteSource>(p: &mut JsonParser<R>) -> JsonEvent2<'_> {
    p.next_token().unwrap().unwrap()
}

#[test]
fn test_it_parse_obj() {
    let x = r##"{ 
            "hello": "world", "fruit0":"apple", "fruit1":"banana", "fruit2":"cherry", "fruit3":"damson"
            , "second": {"Aardvark":"A"}
            , "third": {
                "Albatross":"A",
                "fourth": { "x": "x"},
                "a_number": 12.34 ,
                "boolE": false
            }
        }"##;
    println!("{}", x);
    let mut p = test_parser(x);
    let p = &mut p;

    assert!(token(p).is_obj_start());
    assert!(token(p).is_string());
    assert!(token(p).is_string());
    assert!(token(p).is_string());
    assert!(token(p).is_string());
    assert!(token(p).is_string());
    assert!(token(p).is_obj_start());
    assert!(token(p).is_string()); // Aardvark
    assert!(token(p).is_obj_end());
    assert!(token(p).is_obj_start()); // third
    assert!(token(p).is_string());
    assert!(token(p).is_obj_start()); // fourth
    assert!(token(p).is_string());
    assert!(token(p).is_obj_end());
    assert!(token(p).is_number());
    assert!(token(p).is_bool());
    assert!(token(p).is_obj_end());
    assert!(token(p).is_obj_end());

    assert!((p.next_token().unwrap()).is_none());
}

#[test]
fn test_it_parse_arr() {
    let mut p =
        test_parser(r##"[1, [1.1, "1.2", 1.3], 3, {"a":"nested"}, true, false, null]"##);
    let p = &mut p;
    assert!(token(p).is_arr_start());
    assert!(token(p).is_number());
    assert!(token(p).is_arr_start());
    assert!(token(p).is_number());
    assert!(token(p).is_string());
    assert!(token(p).is_number());
    assert!(token(p).is_arr_end());
    assert!(token(p).is_number());
    assert!(token(p).is_obj_start());
    assert!(token(p).is_string());
    assert!(token(p).is_obj_end());
    assert!(token(p).is_bool());
    assert!(token(p).is_bool());
    assert!(token(p).is_null());
    assert!(token(p).is_arr_end());

    assert!((p.next_token().unwrap()).is_none());
}

#[test]
fn number_text_is_surfaced() {
    let mut p = test_parser("[1, -2.5, \"a\"]");
    assert!(matches!(p.next_token(), Ok(Some(JsonEvent2::ArrayStart))));
    assert!(matches!(p.next_token(), Ok(Some(JsonEvent2::Number("1")))));
    assert!(matches!(p.next_token(), Ok(Some(JsonEvent2::Number("-2.5")))));
    assert!(matches!(p.next_token(), Ok(Some(JsonEvent2::String("a")))));
    assert!(matches!(p.next_token(), Ok(Some(JsonEvent2::ArrayEnd))));
    assert!(matches!(p.next_token(), Ok(None)));
}

#[test]
fn trailing_comma_is_no_match() {
    let mut p = test_parser("{\"a\":1,}");
    assert!(matches!(p.next_token(), Ok(Some(JsonEvent2::ObjectStart))));
    assert!(matches!(p.next_token(), Ok(Some(JsonEvent2::Number("1")))));
    let r: ParseResult<()> = p.next_token().map(|_| ());
    assert!(matches!(r, Err(ParseErr::DidNotMatch)));
}
