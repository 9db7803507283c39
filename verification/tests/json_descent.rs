use parsely::internals::parsers::p_chk;
use parsely::internals::ParseResult;
use parsely::json::JsonParser;
use parsely::source::MemSource;

fn create_jp(s: &str) -> JsonParser<MemSource> {
    JsonParser::new(MemSource::from_text(s))
}

#[test]
fn check_json_string() -> ParseResult<()> {
    let mut jp = create_jp("\"Hello, I am a \\\"JSON String\\\"\"");
    let result = p_chk(jp.json_string())?;
    println!("{:?}", result);

    assert!(result.is_some());

    Ok(())
}

#[test]
fn check_json_member_list() {
    println!("-----");
    let mut jp = create_jp(r##""hello":2123"##);
    let mut result = jp.json_member_list();
    assert!(result.is_ok());

    println!("-----");
    jp = create_jp(r##""hello":2123","banana":123"##);
    result = jp.json_member_list();
    assert!(result.is_ok());

    println!("-----");
    jp = create_jp(r##"    "hello"  : 2123"  ,   "banana"  :  123  "##);
    result = jp.json_member_list();
    assert!(result.is_ok());
}

#[test]
fn check_json_object() {
    let mut jp = create_jp(r##"{ "hello":2123 }"##);
    let result = jp.json_object();
    assert!(result.is_ok());

    let mut jp = create_jp(r##"{ "hello":2123 , "apple": "a day", "another": 12}"##);
    let result = jp.json_object();
    assert!(result.is_ok());

    println!("-----");
    let mut jp = create_jp(r##"{ "hello":2123, }"##);
    let result = jp.json_object();
    assert!(result.is_err());
}

#[test]
fn check_nested_json_object() {
    // double nested objects!
    let mut jp = create_jp(r##"{ "hello":2123, "nested":{ "a":1, "b":"2"} }"##);
    let result = jp.json_object();
    assert!(result.is_ok());

    println!("----------");
    // double nested objects!
    let mut jp = create_jp(
        r##"{ "hello":2123, "nested":{ "a":1, "b":"2", "c": {"x2":1} }, "nested-again": {"a":3} }"##,
    );
    let result = jp.json_object();
    assert!(result.is_ok());
}

#[test]
fn check_json_value() -> ParseResult<()> {
    let mut jp = create_jp("\"banana\"");
    println!("-----");
    let result = p_chk(jp.value())?;

    assert!(result.is_some());

    // check it matches a number too
    jp = create_jp("12345");
    let result = p_chk(jp.value())?;

    assert!(result.is_some());

    Ok(())
}

#[test]
fn check_json_array() -> ParseResult<()> {
    // all numbers
    let mut jp = create_jp(r##"[1, 2, 3, 4, 5, 6, 7, 8, 9] "##);
    let mut result = p_chk(jp.json_array())?;
    assert!(result.is_some());
    println!("-----");

    // strings
    jp = create_jp(r##"["one", "two", "three", "four"] "##);
    result = p_chk(jp.json_array())?;
    assert!(result.is_some());

    // strings + numbers
    jp = create_jp(r##"["one", 99, "three", -1] "##);
    result = p_chk(jp.json_array())?;
    assert!(result.is_some());

    // objects
    jp = create_jp(r##"[ {"a":1}, { "b": { "c":1 } }, "three", -1] "##);
    result = p_chk(jp.json_array())?;
    assert!(result.is_some());

    Ok(())
}

#[test]
fn check_nested_arrays() -> ParseResult<()> {
    // nested arrays
    let mut jp = create_jp(
        r##"[ {"a":1}, { "b": { "c":1 } }, "three", [ [1, 2], [3], [4,5,"c"] ] ]"##,
    );
    let result = p_chk(jp.json_array())?;
    assert!(result.is_some());

    Ok(())
}
