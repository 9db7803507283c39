use parsely::internals::RewindableChars;
use parsely::source::MemSource;

#[test]
pub fn check_can_rewind() {
    let s = String::from("apple banana cherry");
    let mut rb = RewindableChars::new(MemSource::from_text(&s));
    let mut s = String::new();

    let m = rb.mark();

    // Maybe use a String and push a char onto, then can test with assert!
    for _i in 0..5 {
        s.push(rb.next().unwrap().unwrap());
    }
    println!("{:?}", s);
    assert_eq!("apple", s);

    rb.rewind(m);
    s.clear();
    for _i in 0..5 {
        s.push(rb.next().unwrap().unwrap());
    }
    println!("{:?}", s);
    assert_eq!("apple", s);

    s.clear();
    let _m = rb.accept();
    for _i in 0..7 {
        s.push(rb.next().unwrap().unwrap());
    }
    println!("{:?}", s);
    assert_eq!(" banana", s);
}
