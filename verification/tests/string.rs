use lox::range::Range;
use lox::string::LoxString;

const EMPTY: &str = "";

#[test]
fn test_unescape() {
    let raw = "\tHello,\n\tworld!\n";
    let unescaped = LoxString::unescape(raw).unwrap();
    let expected = raw;
    assert_eq!(unescaped, expected);
    assert!(unescaped.is_borrowed());

    let raw = r"\tHe\x6c\x6Co,\n\twor\u{006c}d!\n";
    let unescaped = LoxString::unescape(raw).unwrap();
    let expected = "\tHello,\n\tworld!\n";
    assert_eq!(unescaped, expected);
    assert!(!unescaped.is_borrowed());

    let raw = r"\\";
    let unescaped = LoxString::unescape(raw).unwrap();
    let expected = "\\";
    assert_eq!(unescaped, expected);
    assert!(!unescaped.is_borrowed());

    let raw = r"\";
    let range = LoxString::unescape(raw).unwrap_err();
    let expected = Range { start: 0, end: 1 };
    assert_eq!(range, expected);

    let raw = r"\x";
    let range = LoxString::unescape(raw).unwrap_err();
    let expected = Range { start: 0, end: 2 };
    assert_eq!(range, expected);

    let raw = r"\x0";
    let range = LoxString::unescape(raw).unwrap_err();
    let expected = Range { start: 0, end: 3 };
    assert_eq!(range, expected);

    let raw = r"\x0文";
    let range = LoxString::unescape(raw).unwrap_err();
    let expected = Range { start: 0, end: 6 };
    assert_eq!(range, expected);

    let raw = r"\xFF";
    let range = LoxString::unescape(raw).unwrap_err();
    let expected = Range { start: 0, end: 4 };
    assert_eq!(range, expected);

    let raw = r"\x000";
    let unescaped = LoxString::unescape(raw).unwrap();
    let expected = "\x000";
    assert_eq!(unescaped, expected);
    assert!(!unescaped.is_borrowed());

    let raw = r"\u";
    let range = LoxString::unescape(raw).unwrap_err();
    let expected = Range { start: 0, end: 2 };
    assert_eq!(range, expected);

    let raw = r"\u文";
    let range = LoxString::unescape(raw).unwrap_err();
    let expected = Range { start: 0, end: 5 };
    assert_eq!(range, expected);

    let raw = r"\u{";
    let range = LoxString::unescape(raw).unwrap_err();
    let expected = Range { start: 0, end: 3 };
    assert_eq!(range, expected);

    let raw = r"\u{0";
    let range = LoxString::unescape(raw).unwrap_err();
    let expected = Range { start: 0, end: 4 };
    assert_eq!(range, expected);

    let raw = r"\u{0文";
    let range = LoxString::unescape(raw).unwrap_err();
    let expected = Range { start: 0, end: 7 };
    assert_eq!(range, expected);

    let raw = r"\u{6587}";
    let unescaped = LoxString::unescape(raw).unwrap();
    let expected = "文";
    assert_eq!(unescaped, expected);
    assert!(!unescaped.is_borrowed());

    let raw = r"\u{006587}";
    let unescaped = LoxString::unescape(raw).unwrap();
    let expected = "文";
    assert_eq!(unescaped, expected);
    assert!(!unescaped.is_borrowed());

    let raw = r"\u{0006587}";
    let range = LoxString::unescape(raw).unwrap_err();
    let expected = Range { start: 0, end: 11 };
    assert_eq!(range, expected);

    let raw = r"\u{110000}";
    let range = LoxString::unescape(raw).unwrap_err();
    let expected = Range { start: 0, end: 10 };
    assert_eq!(range, expected);
}

#[test]
fn test_add() {
    let lhs = LoxString::from(EMPTY);
    let rhs = LoxString::from(EMPTY);
    let output = lhs + rhs;
    let expected = EMPTY;
    assert_eq!(output, expected);
    assert!(output.is_borrowed());

    let lhs = LoxString::from(EMPTY);
    let rhs = String::from(EMPTY);
    let rhs = LoxString::from(rhs);
    let output = lhs + rhs;
    let expected = EMPTY;
    assert_eq!(output, expected);
    assert!(output.is_borrowed());

    let lhs = String::from(EMPTY);
    let lhs = LoxString::from(lhs);
    let rhs = LoxString::from(EMPTY);
    let output = lhs + rhs;
    let expected = EMPTY;
    assert_eq!(output, expected);
    assert!(output.is_borrowed());

    let lhs = String::from(EMPTY);
    let lhs = LoxString::from(lhs);
    let rhs = String::from(EMPTY);
    let rhs = LoxString::from(rhs);
    let output = lhs + rhs;
    let expected = EMPTY;
    assert_eq!(output, expected);
    assert!(output.is_borrowed());

    let lhs = LoxString::from(EMPTY);
    let rhs = LoxString::from("rhs");
    let output = lhs + rhs;
    let expected = "rhs";
    assert_eq!(output, expected);
    assert!(output.is_borrowed());

    let lhs = LoxString::from(EMPTY);
    let rhs = String::from("rhs");
    let rhs = LoxString::from(rhs);
    let output = lhs + rhs;
    let expected = "rhs";
    assert_eq!(output, expected);
    assert!(!output.is_borrowed());

    let lhs = String::from(EMPTY);
    let lhs = LoxString::from(lhs);
    let rhs = LoxString::from("rhs");
    let output = lhs + rhs;
    let expected = "rhs";
    assert_eq!(output, expected);
    assert!(output.is_borrowed());

    let lhs = String::from(EMPTY);
    let lhs = LoxString::from(lhs);
    let rhs = String::from("rhs");
    let rhs = LoxString::from(rhs);
    let output = lhs + rhs;
    let expected = "rhs";
    assert_eq!(output, expected);
    assert!(!output.is_borrowed());

    let lhs = LoxString::from("lhs");
    let rhs = LoxString::from(EMPTY);
    let output = lhs + rhs;
    let expected = "lhs";
    assert_eq!(output, expected);
    assert!(output.is_borrowed());

    let lhs = LoxString::from("lhs");
    let rhs = String::from(EMPTY);
    let rhs = LoxString::from(rhs);
    let output = lhs + rhs;
    let expected = "lhs";
    assert_eq!(output, expected);
    assert!(output.is_borrowed());

    let lhs = String::from("lhs");
    let lhs = LoxString::from(lhs);
    let rhs = LoxString::from(EMPTY);
    let output = lhs + rhs;
    let expected = "lhs";
    assert_eq!(output, expected);
    assert!(!output.is_borrowed());

    let lhs = String::from("lhs");
    let lhs = LoxString::from(lhs);
    let rhs = String::from(EMPTY);
    let rhs = LoxString::from(rhs);
    let output = lhs + rhs;
    let expected = "lhs";
    assert_eq!(output, expected);
    assert!(!output.is_borrowed());

    let lhs = LoxString::from("lhs");
    let rhs = LoxString::from("rhs");
    let output = lhs + rhs;
    let expected = "lhsrhs";
    assert_eq!(output, expected);
    assert!(!output.is_borrowed());

    let lhs = LoxString::from("lhs");
    let rhs = String::from("rhs");
    let rhs = LoxString::from(rhs);
    let output = lhs + rhs;
    let expected = "lhsrhs";
    assert_eq!(output, expected);
    assert!(!output.is_borrowed());

    let lhs = String::from("lhs");
    let lhs = LoxString::from(lhs);
    let rhs = LoxString::from("rhs");
    let output = lhs + rhs;
    let expected = "lhsrhs";
    assert_eq!(output, expected);
    assert!(!output.is_borrowed());

    let lhs = String::from("lhs");
    let lhs = LoxString::from(lhs);
    let rhs = String::from("rhs");
    let rhs = LoxString::from(rhs);
    let output = lhs + rhs;
    let expected = "lhsrhs";
    assert_eq!(output, expected);
    assert!(!output.is_borrowed());
}
