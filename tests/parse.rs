use json_parser::error::{ErrorKind, Expected, ParseError};
use json_parser::grammar::MAX_DEPTH;
use json_parser::parser::{parse, parse_object_document};
use json_parser::value::Value;

fn s(t: &str) -> String {
    t.to_string()
}

fn err(offset: usize, kind: ErrorKind) -> Result<Value, ParseError> {
    Err(ParseError { offset, kind })
}

fn unexpected(expected: Expected, found: Option<u8>) -> ErrorKind {
    ErrorKind::UnexpectedToken { expected, found }
}

#[test]
fn literals() {
    assert_eq!(parse("null"), Ok(Value::Null));
    assert_eq!(parse("true"), Ok(Value::Boolean(true)));
    assert_eq!(parse("false"), Ok(Value::Boolean(false)));
}

#[test]
fn integers() {
    assert_eq!(parse("123"), Ok(Value::Integer(123)));
    assert_eq!(parse("-123"), Ok(Value::Integer(-123)));
    assert_eq!(parse("0"), Ok(Value::Integer(0)));
    assert_eq!(parse("-0"), Ok(Value::Integer(0)));
}

#[test]
fn integer_limits() {
    assert_eq!(parse("9223372036854775807"), Ok(Value::Integer(i64::MAX)));
    assert_eq!(parse("-9223372036854775808"), Ok(Value::Integer(i64::MIN)));
    // Too large for 64 bits: the literal is kept as a floating-point one.
    assert_eq!(parse("9223372036854775808"), Ok(Value::Number(s("9223372036854775808"))));
    assert_eq!(
        parse("-99999999999999999999"),
        Ok(Value::Number(s("-99999999999999999999")))
    );
}

#[test]
fn fraction_is_not_an_integer() {
    assert_eq!(parse("123.45"), Ok(Value::Number(s("123.45"))));
    let Ok(Value::Number(t)) = parse("123.45") else { panic!("not a number") };
    assert_eq!(t.parse::<f64>().unwrap(), 123.45);
    assert_eq!(parse("[1.5,2]"), Ok(Value::Array(vec![Value::Number(s("1.5")), Value::Integer(2)])));
}

#[test]
fn floating_point_forms() {
    assert_eq!(parse("-123.11"), Ok(Value::Number(s("-123.11"))));
    assert_eq!(parse("1e10"), Ok(Value::Number(s("1e10"))));
    assert_eq!(parse("2.5E-3"), Ok(Value::Number(s("2.5E-3"))));
    assert_eq!(parse("+7"), Ok(Value::Number(s("+7"))));
    // A dot with no digits after it ends the literal.
    assert_eq!(parse("1."), err(1, ErrorKind::TrailingContent));
    assert_eq!(parse("1e"), err(1, ErrorKind::TrailingContent));
}

#[test]
fn strings_are_raw() {
    assert_eq!(parse("\"hello\""), Ok(Value::String(s("hello"))));
    assert_eq!(parse("\"a\\nb\""), Ok(Value::String(s("a\\nb"))));
    assert_eq!(parse("\"héllo ✓\""), Ok(Value::String(s("héllo ✓"))));
    assert_eq!(parse("\"\""), Ok(Value::String(s(""))));
}

#[test]
fn arrays() {
    assert_eq!(
        parse("[1,2,3]"),
        Ok(Value::Array(vec![Value::Integer(1), Value::Integer(2), Value::Integer(3)]))
    );
    assert_eq!(parse("[]"), Ok(Value::Array(vec![])));
    assert_eq!(parse("[ ]"), Ok(Value::Array(vec![])));
    assert_eq!(
        parse(" [ [] , [null] ] "),
        Ok(Value::Array(vec![Value::Array(vec![]), Value::Array(vec![Value::Null])]))
    );
}

#[test]
fn objects() {
    assert_eq!(
        parse("{\"a\":1,\"b\":2}"),
        Ok(Value::Object(vec![(s("a"), Value::Integer(1)), (s("b"), Value::Integer(2))]))
    );
}

#[test]
fn empty_object_is_accepted() {
    assert_eq!(parse("{}"), Ok(Value::Object(vec![])));
    assert_eq!(parse("{ \n }"), Ok(Value::Object(vec![])));
}

#[test]
fn duplicate_keys_last_write_wins() {
    assert_eq!(
        parse("{\"a\":1,\"b\":2,\"a\":3}"),
        Ok(Value::Object(vec![(s("a"), Value::Integer(3)), (s("b"), Value::Integer(2))]))
    );
}

#[test]
fn missing_value_in_object() {
    assert_eq!(parse("{\"a\": }"), err(6, unexpected(Expected::Value, Some(b'}'))));
}

#[test]
fn unclosed_brackets_hit_the_depth_limit() {
    let deep = "[".repeat(100000);
    assert_eq!(parse(&deep), err(MAX_DEPTH, ErrorKind::DepthExceeded));
    let shallow = "[".repeat(3);
    assert_eq!(parse(&shallow), err(3, ErrorKind::UnterminatedContainer { delimiter: b'[' }));
}

#[test]
fn nesting_up_to_the_limit() {
    let ok = format!("{}{}", "[".repeat(MAX_DEPTH), "]".repeat(MAX_DEPTH));
    assert!(parse(&ok).is_ok());
    let deep = format!("{}{}", "[".repeat(MAX_DEPTH + 1), "]".repeat(MAX_DEPTH + 1));
    assert_eq!(parse(&deep), err(MAX_DEPTH, ErrorKind::DepthExceeded));
}

#[test]
fn error_kinds() {
    assert_eq!(parse(""), err(0, ErrorKind::EmptyInput));
    assert_eq!(parse("  \n"), err(3, ErrorKind::EmptyInput));
    assert_eq!(parse("null x"), err(5, ErrorKind::TrailingContent));
    assert_eq!(parse("\"abc"), err(0, ErrorKind::UnterminatedString));
    assert_eq!(parse("[1, 2"), err(5, ErrorKind::UnterminatedContainer { delimiter: b'[' }));
    assert_eq!(parse("{\"a\":1,"), err(7, ErrorKind::UnterminatedContainer { delimiter: b'{' }));
    assert_eq!(parse("[1,]"), err(3, unexpected(Expected::Value, Some(b']'))));
    assert_eq!(parse("[1 2]"), err(3, unexpected(Expected::CommaOrClose, Some(b'2'))));
    assert_eq!(parse("{1:2}"), err(1, unexpected(Expected::Key, Some(b'1'))));
    assert_eq!(parse("{\"a\" 1}"), err(5, unexpected(Expected::Colon, Some(b'1'))));
    assert_eq!(parse("?"), err(0, unexpected(Expected::Value, Some(b'?'))));
    assert_eq!(parse("nul"), err(0, unexpected(Expected::Value, Some(b'n'))));
}

#[test]
fn object_only_documents() {
    assert_eq!(
        parse_object_document(" {\"k\": [true]} "),
        Ok(Value::Object(vec![(s("k"), Value::Array(vec![Value::Boolean(true)]))]))
    );
    assert_eq!(parse_object_document("[1]"), err(0, unexpected(Expected::Object, Some(b'['))));
    assert_eq!(parse_object_document(" "), err(1, ErrorKind::EmptyInput));
}

#[test]
fn nested_document() {
    let doc = r#"
    {
      "name": "John Doe",
      "age": 30,
      "is_student": false,
      "marks": [90, -80, 85.1],
      "address": { "city": "London", "zip": 10001 }
    }"#;
    assert_eq!(
        parse(doc),
        Ok(Value::Object(vec![
            (s("name"), Value::String(s("John Doe"))),
            (s("age"), Value::Integer(30)),
            (s("is_student"), Value::Boolean(false)),
            (
                s("marks"),
                Value::Array(vec![Value::Integer(90), Value::Integer(-80), Value::Number(s("85.1"))])
            ),
            (
                s("address"),
                Value::Object(vec![
                    (s("city"), Value::String(s("London"))),
                    (s("zip"), Value::Integer(10001)),
                ])
            ),
        ]))
    );
}

#[test]
fn generated_document_round_trip() {
    let doc = r#"{"a":[1,-2,3.5,"x",null,true,{"b":false}],"c":{},"d":[[],[-0.25]]}"#;
    assert_eq!(
        parse(doc),
        Ok(Value::Object(vec![
            (
                s("a"),
                Value::Array(vec![
                    Value::Integer(1),
                    Value::Integer(-2),
                    Value::Number(s("3.5")),
                    Value::String(s("x")),
                    Value::Null,
                    Value::Boolean(true),
                    Value::Object(vec![(s("b"), Value::Boolean(false))]),
                ])
            ),
            (s("c"), Value::Object(vec![])),
            (
                s("d"),
                Value::Array(vec![Value::Array(vec![]), Value::Array(vec![Value::Number(s("-0.25"))])])
            ),
        ]))
    );
}

#[test]
fn nested_duplicate_keys_collapse() {
    assert_eq!(
        parse(r#"[{"k":1,"k":2,"k":3}]"#),
        Ok(Value::Array(vec![Value::Object(vec![(s("k"), Value::Integer(3))])]))
    );
}
