use json_parser::parser::parse;
use json_parser::value::Value;

#[test]
fn pest_parse_null_should_work() {
    assert_eq!(Value::Null, parse("null").unwrap());
}

#[test]
fn pest_parse_bool_should_work() {
    assert_eq!(Value::Boolean(true), parse("true").unwrap());
}

#[test]
fn pest_parse_number_should_work() {
    assert_eq!(Value::Integer(123), parse("123").unwrap());
    assert_eq!(Value::Integer(-123), parse("-123").unwrap());
    assert_eq!(Value::Number("123.11".to_string()), parse("123.11").unwrap());
    assert_eq!(Value::Number("-123.11".to_string()), parse("-123.11").unwrap());
}

#[test]
fn pest_parse_string_should_work() {
    assert_eq!(Value::String("hello".to_string()), parse("\"hello\"").unwrap());
}

#[test]
fn pest_parse_array_should_work() {
    assert_eq!(
        Value::Array(vec![Value::Integer(1), Value::Integer(2), Value::Integer(3)]),
        parse("[1, 2, 3]").unwrap()
    );
}

#[test]
fn pest_parse_object_should_work() {
    assert_eq!(
        Value::Object(vec![
            ("a".to_string(), Value::Integer(1)),
            ("b".to_string(), Value::Integer(2)),
            ("c".to_string(), Value::Integer(3)),
        ]),
        parse(r#"{"a": 1, "b": 2, "c": 3}"#).unwrap()
    );
}
