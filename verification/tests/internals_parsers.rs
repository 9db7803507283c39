use parsely::internals::parsers::{
    capture_n, capture_while, match_char, match_str, option_2, skip_whitespace,
};
use parsely::internals::{ParseErr, ParseResult, RewindableChars};
use parsely::source::{ByteSource, MemSource};

/// A convenience func used in tests
fn create_rc(s: &str) -> RewindableChars<MemSource> {
    RewindableChars::new(MemSource::from_text(s))
}

/// One step of a sequence in which every step must match: it runs only
/// while the steps before it matched, and is taken back where it does not.
fn all_step<R: ByteSource, T>(
    pr: ParseResult<()>,
    rc: &mut RewindableChars<R>,
    step: impl FnOnce(&mut RewindableChars<R>) -> ParseResult<T>,
) -> ParseResult<()> {
    if let Ok(_) = pr {
        let mark_or = rc.mark();
        match step(rc) {
            Ok(_) => Ok(()),
            Err(ParseErr::DidNotMatch) => {
                rc.rewind(mark_or);
                Err(ParseErr::DidNotMatch)
            }
            Err(ParseErr::Io(x)) => Err(ParseErr::Io(x)),
            Err(ParseErr::BadData(s)) => Err(ParseErr::BadData(s)),
        }
    } else {
        pr
    }
}

/// One alternative of a choice: it runs only while none before it matched,
/// and is taken back where it does not match.
fn or_step<R: ByteSource, T>(
    pr: ParseResult<()>,
    rc: &mut RewindableChars<R>,
    step: impl FnOnce(&mut RewindableChars<R>) -> ParseResult<T>,
) -> ParseResult<()> {
    if let Err(ParseErr::DidNotMatch) = pr {
        let mark_or = rc.mark();
        match step(rc) {
            Ok(_) => Ok(()),
            Err(ParseErr::DidNotMatch) => {
                rc.rewind(mark_or);
                Err(ParseErr::DidNotMatch)
            }
            Err(ParseErr::Io(x)) => Err(ParseErr::Io(x)),
            Err(ParseErr::BadData(s)) => Err(ParseErr::BadData(s)),
        }
    } else {
        pr
    }
}

fn is_alphanum(c: char) -> bool {
    (c >= 'a' && c <= 'z') || (c >= 'A' && c <= 'Z') || (c >= '0' && c <= '9')
}

/// alpha char
fn p_alpha<R: ByteSource>(rc: &mut RewindableChars<R>) -> ParseResult<char> {
    if let Some(x) = rc.next() {
        if let Ok(c) = x {
            if (c >= 'a' && c <= 'z') || (c >= 'A' && c <= 'Z') {
                return Ok(c);
            }
        }
    }
    Err(ParseErr::DidNotMatch)
}

/// Matches a name  - in our case a param name or a function name
fn p_name<R: ByteSource>(rc: &mut RewindableChars<R>) -> ParseResult<String> {
    // at least one alpha
    let mut s = String::new();
    s.push(p_alpha(rc)?);
    capture_while(is_alphanum, &mut s, rc)?;
    Ok(s)
}

/// Matches some parameters
fn p_params<R: ByteSource>(rc: &mut RewindableChars<R>) -> ParseResult<Vec<String>> {
    let mut vec: Vec<String> = Vec::new();
    let mut first = true;

    skip_whitespace(rc)?;
    match_str("(", rc)?;
    loop {
        // expect comma seperator
        skip_whitespace(rc)?;
        if !first {
            match match_str(",", rc) {
                Ok(_) => {}
                Err(ParseErr::DidNotMatch) => {
                    rc.backup();
                    break;
                }
                Err(x) => return Err(x),
            };
            skip_whitespace(rc)?;
        }

        let name = p_name(rc)?;
        first = false;
        vec.push(name);
    }

    skip_whitespace(rc)?;
    match_str(")", rc)?;
    Ok(vec)
}

/// Matches an entire function - name and optional parameters
/// The return is tuple - the name of the func and then a vec of the Params
fn p_func<R: ByteSource>(rc: &mut RewindableChars<R>) -> ParseResult<(String, Vec<String>)> {
    skip_whitespace(rc)?;
    let s = p_name(rc)?;
    let v = p_params(rc)?;
    Ok((s, v))
}

#[test]
pub fn check_match_str() -> ParseResult<()> {
    let mut rb = create_rc("apple banana cherry");

    assert_eq!(true, match_str("apple", &mut rb)?);
    assert_eq!(true, match_str(" banana", &mut rb)?);
    assert!(match_str(" something else", &mut rb).is_err());
    Ok(())
}

#[test]
pub fn check_match_str_eof() -> ParseResult<()> {
    let mut rb = create_rc("apple banana cherry");

    assert_eq!(true, match_str("apple", &mut rb)?);
    assert_eq!(true, match_str(" banana", &mut rb)?);

    // this will run over the end
    assert!(match_str(" cherryblossome", &mut rb).is_err());
    Ok(())
}

#[test]
pub fn check_match_str_and_skip_whitespace() -> ParseResult<()> {
    let mut rb = create_rc(" apple  banana\tcherry");

    skip_whitespace(&mut rb)?;
    assert_eq!(true, match_str("apple", &mut rb)?);
    skip_whitespace(&mut rb)?;
    assert_eq!(true, match_str("banana", &mut rb)?);
    skip_whitespace(&mut rb)?;
    assert_eq!(true, match_str("cherry", &mut rb)?);
    Ok(())
}

#[test]
pub fn check_match_options() -> ParseResult<()> {
    let mut rb = create_rc("lamb carrot cabbage");

    skip_whitespace(&mut rb)?;
    assert_eq!(true, option_2("beef", "lamb", &mut rb)?);
    skip_whitespace(&mut rb)?;
    assert_eq!(true, option_2("carrot", "cabbage", &mut rb)?);
    skip_whitespace(&mut rb)?;
    assert_eq!(true, option_2("carrot", "cabbage", &mut rb)?);
    Ok(())
}

/// Function_name ( param1 [, param]*)
/// A function with zero or more params seperated by a comma
#[test]
pub fn check_func_and_params() {
    let mut rc = create_rc("myfunc12          (param1,param2,param3)");
    let mut result = p_func(&mut rc);
    assert!(result.is_ok());
    let val = result.unwrap();
    assert_eq!("myfunc12", val.0);
    assert_eq!(vec!["param1", "param2", "param3"], val.1);

    // no end parenthesis
    rc = create_rc("myfunc12( param1, param2 , param3");
    result = p_func(&mut rc);
    assert!(result.is_err());

    // mismatched parenthesis
    rc = create_rc("myfunc12( param1, param2 , param3]");
    result = p_func(&mut rc);
    assert!(result.is_err());

    // invalid func name
    rc = create_rc("myf$$unc12( param1, param2 , param3]");
    result = p_func(&mut rc);
    assert!(result.is_err());
}

#[test]
pub fn check_eof_on_options() -> ParseResult<()> {
    // Check that we can cope with the end of the input, and that it is not
    // raised too early
    let mut rc = create_rc("lamb carrot carrot");

    skip_whitespace(&mut rc)?;
    assert_eq!(true, option_2("beef", "lamb", &mut rc)?);
    skip_whitespace(&mut rc)?;
    assert_eq!(true, option_2("carrot", "cabbage", &mut rc)?);
    skip_whitespace(&mut rc)?;

    // NB: notice how cabbage (7chars) is longer than carrot (6)
    assert_eq!(true, option_2("cabbage", "carrot", &mut rc)?);
    Ok(())
}

fn p_name_or_nothing<R: ByteSource>(rc: &mut RewindableChars<R>) -> ParseResult<String> {
    let mut s = String::new();
    capture_while(is_alphanum, &mut s, rc)?;
    Ok(s)
}

#[test]
pub fn check_param_list() -> ParseResult<()> {
    let mut rc = create_rc("(param1,param2,param3)");

    match_str("(", &mut rc)?;

    let result = p_name_or_nothing(&mut rc);
    assert!(result.is_ok());
    println!("Result: {}", result.unwrap_or("Shite!".to_owned()));

    Ok(())
}

#[test]
pub fn check_capture_n() {
    let mut rc = create_rc("AAAAAAAxxxxxxx");

    let match_a = |c| return c == 'A';
    let match_x = |c| return c == 'x';

    match capture_n(&mut rc, match_a, 7) {
        Ok(s) => assert_eq!("AAAAAAA", s),
        _ => panic!("failed to match"),
    };

    match capture_n(&mut rc, match_x, 7) {
        Ok(s) => assert_eq!("xxxxxxx", s),
        _ => panic!("failed to match"),
    };
}

fn a4_a3_x1_x5_x1_a1(rc: &mut RewindableChars<MemSource>) -> ParseResult<()> {
    let match_a = |c: char| return c == 'A';
    let match_x = |c: char| return c == 'x';
    let mut pr: ParseResult<()> = Ok(());
    pr = all_step(pr, rc, |rc| capture_n(rc, match_a, 4));
    pr = all_step(pr, rc, |rc| capture_n(rc, match_a, 3));
    pr = all_step(pr, rc, |rc| capture_n(rc, match_x, 1));
    pr = all_step(pr, rc, |rc| capture_n(rc, match_x, 5));
    pr = all_step(pr, rc, |rc| capture_n(rc, match_x, 1));
    pr = all_step(pr, rc, |rc| capture_n(rc, match_a, 1));
    pr
}

#[test]
pub fn check_match_all_macro() {
    let mut rc = create_rc("AAAAAAAxxxxxxxA");
    let mut x = a4_a3_x1_x5_x1_a1(&mut rc);

    assert!(x.is_ok());

    rc = create_rc("AAAAAAAxxxxxAxxx");
    x = a4_a3_x1_x5_x1_a1(&mut rc);

    assert!(if let Err(ParseErr::DidNotMatch) = x {
        true
    } else {
        false
    });
}

#[test]
pub fn check_match_or() {
    let mut rc = create_rc("a");

    // simple version with no whitespace
    let mut x: ParseResult<()> = Err(ParseErr::DidNotMatch);
    x = or_step(x, &mut rc, |rc| match_char('x', rc));
    x = or_step(x, &mut rc, |rc| match_char('y', rc));
    x = or_step(x, &mut rc, |rc| match_char('z', rc));
    x = or_step(x, &mut rc, |rc| match_char('b', rc));

    assert!(if let Err(ParseErr::DidNotMatch) = x {
        true
    } else {
        false
    });

    x = Err(ParseErr::DidNotMatch);
    x = or_step(x, &mut rc, |rc| match_char('x', rc));
    x = or_step(x, &mut rc, |rc| match_char('y', rc));
    x = or_step(x, &mut rc, |rc| match_char('z', rc));
    x = or_step(x, &mut rc, |rc| match_char('a', rc));
    assert!(x.is_ok());
}

/// Matches a name  - in our case a param name or a function name
fn m_name<R: ByteSource>(rc: &mut RewindableChars<R>) -> ParseResult<()> {
    // at least one alpha
    let mut s = String::new();
    s.push(p_alpha(rc)?);
    capture_while(is_alphanum, &mut s, rc)?;
    println!("matched {}", s);
    Ok(())
}

/// params
///  single param (name)
///  param ","" params
fn m_params<R: ByteSource>(rc: &mut RewindableChars<R>) -> ParseResult<()> {
    let mut pr: ParseResult<()> = Err(ParseErr::DidNotMatch);
    pr = or_step(pr, rc, |rc| {
        let mut all: ParseResult<()> = Ok(());
        all = all_step(all, rc, |rc| m_name(rc));
        all = all_step(all, rc, |rc| match_char(',', rc));
        all = all_step(all, rc, |rc| m_params(rc));
        all
    });
    pr = or_step(pr, rc, |rc| m_name(rc));
    pr
}

fn m_func<R: ByteSource>(rc: &mut RewindableChars<R>) -> ParseResult<()> {
    let mut pr: ParseResult<()> = Ok(());
    pr = all_step(pr, rc, |rc| m_name(rc));
    pr = all_step(pr, rc, |rc| match_char('(', rc));
    pr = all_step(pr, rc, |rc| m_params(rc));
    pr = all_step(pr, rc, |rc| match_char(')', rc));
    pr
}

#[test]
pub fn check_func_using_macro() {
    // simple version with no whitespace

    //check one match with multiple params
    let mut rc = create_rc("myFunc(x,y,z,xx,yy,zz)");
    assert!(m_func(&mut rc).is_ok());

    // check single match with single param
    rc = create_rc("myFunc2(my1param)");
    assert!(m_func(&mut rc).is_ok());

    // repeated calls
    rc = create_rc("myFunc1(my2param)myFunc2(my2param)");
    assert!(m_func(&mut rc).is_ok());
    assert!(m_func(&mut rc).is_ok());
}
