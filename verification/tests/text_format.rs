use component_registry::text::{emit_document_string, parse_document};
use component_registry::value::{Field, Value};

#[test]
fn parse_simple_document() {
    let t = parse_document("a = true\nb = \"x y\"\nc = false\n").unwrap();
    assert_eq!(3, t.len());
    assert_eq!("a", t[0].key);
    assert!(matches!(t[0].value, Value::Bool(true)));
    assert_eq!("b", t[1].key);
    match &t[1].value {
        Value::Str(s) => assert_eq!("x y", s),
        _ => panic!("expected a string"),
    }
    assert_eq!("c", t[2].key);
    assert!(matches!(t[2].value, Value::Bool(false)));
}

#[test]
fn parse_skips_blank_lines_and_padding() {
    let t = parse_document("\n   \n\t left = true   \n\n").unwrap();
    assert_eq!(1, t.len());
    assert_eq!("left", t[0].key);
}

#[test]
fn parse_empty_document() {
    let t = parse_document("").unwrap();
    assert_eq!(0, t.len());
}

#[test]
fn parse_rejects_duplicate_keys() {
    assert_eq!(
        Some("duplicate key".to_owned()),
        parse_document("a = true\na = false\n").err()
    );
}

#[test]
fn parse_rejects_malformed_lines() {
    assert_eq!(Some("expected a key".to_owned()), parse_document("= true\n").err());
    assert_eq!(
        Some("expected `=` after key".to_owned()),
        parse_document("a true\n").err()
    );
    assert_eq!(Some("expected a value".to_owned()), parse_document("a = maybe\n").err());
    assert_eq!(
        Some("unterminated string".to_owned()),
        parse_document("a = \"oops\n").err()
    );
    assert_eq!(
        Some("unexpected characters after value".to_owned()),
        parse_document("a = true false\n").err()
    );
}

#[test]
fn parse_handles_missing_final_newline() {
    let t = parse_document("a = true").unwrap();
    assert_eq!(1, t.len());
    assert_eq!("a", t[0].key);
}

#[test]
fn emit_then_parse_preserves_fields() {
    let fields = vec![
        Field { key: "flag".to_owned(), value: Value::Bool(true) },
        Field { key: "name".to_owned(), value: Value::Str("hello world".to_owned()) },
    ];
    let text = emit_document_string(&"demo".to_owned(), &fields);
    assert_eq!("type = \"demo\"\nflag = true\nname = \"hello world\"\n", text);
    let parsed = parse_document(text.as_str()).unwrap();
    assert_eq!(3, parsed.len());
    assert_eq!("type", parsed[0].key);
    match &parsed[0].value {
        Value::Str(s) => assert_eq!("demo", s),
        _ => panic!("expected a string"),
    }
    assert_eq!("flag", parsed[1].key);
    assert!(matches!(parsed[1].value, Value::Bool(true)));
    assert_eq!("name", parsed[2].key);
    match &parsed[2].value {
        Value::Str(s) => assert_eq!("hello world", s),
        _ => panic!("expected a string"),
    }
}
