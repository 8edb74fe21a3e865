use lox::range::Range;
use lox::string::LoxString;

#[test]
fn unescape_of_plain_text_borrows_it() {
    let raw = "no escapes here";
    let s = LoxString::unescape(raw).unwrap();
    assert_eq!(s.as_str(), raw);
    assert!(s.is_borrowed());
}

#[test]
fn unescape_replaces_simple_escapes() {
    let s = LoxString::unescape(r#"a\0b\tc\nd\re\"f\\g"#).unwrap();
    assert_eq!(s.as_str(), "a\0b\tc\nd\re\"f\\g");
    assert!(!s.is_borrowed());
}

#[test]
fn unescape_reports_unknown_escape() {
    assert_eq!(LoxString::unescape(r"ab\q").unwrap_err(), Range { start: 2, end: 4 });
}

#[test]
fn unescape_reports_escape_after_valid_one() {
    assert_eq!(LoxString::unescape(r"\n\x80").unwrap_err(), Range { start: 2, end: 6 });
}

#[test]
fn unescape_reads_braced_unicode() {
    let s = LoxString::unescape(r"\u{1F600}!").unwrap();
    assert_eq!(s.as_str(), "\u{1F600}!");
}

#[test]
fn unescape_rejects_surrogates() {
    assert_eq!(LoxString::unescape(r"\u{D800}").unwrap_err(), Range { start: 0, end: 8 });
}

#[test]
fn add_concatenates_texts() {
    let a = LoxString::from("foo");
    let b = LoxString::from(String::from("bar"));
    let c = LoxString::from("!");
    let ab = a + b;
    assert_eq!(ab, "foobar");
    assert!(!ab.is_borrowed());
    let abc = ab + c;
    assert_eq!(abc.as_str(), "foobar!");
}

#[test]
fn equality_compares_texts() {
    let a = LoxString::from("same");
    let b = LoxString::from(String::from("same"));
    assert!(a == b);
    assert!(a != LoxString::from("other"));
    assert!(b == "same");
}

#[test]
fn strings_order_as_their_texts() {
    let a = LoxString::from("abc");
    let b = LoxString::from(String::from("abd"));
    let prefix = LoxString::from("ab");
    assert!(a < b);
    assert!(prefix < a);
    assert!(b > prefix);
    assert_eq!(a.partial_cmp(&LoxString::from(String::from("abc"))), Some(std::cmp::Ordering::Equal));
    assert!(LoxString::from("é") > LoxString::from("z"));
}

#[test]
fn adding_an_empty_string_gives_back_the_other_operand_itself() {
    let lhs = LoxString::from(String::from("shared"));
    let text = lhs.as_str().as_ptr();
    let output = lhs + LoxString::from("");
    assert_eq!(output.as_str(), "shared");
    assert!(!output.is_borrowed());
    assert_eq!(output.as_str().as_ptr(), text);

    let rhs = LoxString::from(String::from("shared"));
    let text = rhs.as_str().as_ptr();
    let output = LoxString::from(String::new()) + rhs;
    assert_eq!(output.as_str(), "shared");
    assert!(!output.is_borrowed());
    assert_eq!(output.as_str().as_ptr(), text);
}
