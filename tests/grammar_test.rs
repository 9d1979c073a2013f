use json_rust_parser::{match_rule, parse, Rule, Value};

/// A value with its numbers read as `f64`, to compare against expected trees.
#[derive(Debug, PartialEq)]
enum J {
    Null,
    Boolean(bool),
    Number(f64),
    String(&'static str),
    Array(Vec<J>),
    Object(Vec<(&'static str, J)>),
}

fn same(v: &Value, j: &J) -> bool {
    match (v, j) {
        (Value::Null, J::Null) => true,
        (Value::Boolean(a), J::Boolean(b)) => a == b,
        (Value::Number(a), J::Number(b)) => a.parse::<f64>().unwrap() == *b,
        (Value::String(a), J::String(b)) => a == b,
        (Value::Array(a), J::Array(b)) => {
            a.len() == b.len() && a.iter().zip(b.iter()).all(|(x, y)| same(x, y))
        }
        (Value::Object(a), J::Object(b)) => {
            a.len() == b.len()
                && a.iter().zip(b.iter()).all(|((ka, va), (kb, vb))| ka == kb && same(va, vb))
        }
        _ => false,
    }
}

fn parse_json_file(text: &str) -> Result<Value, json_rust_parser::ParseError> {
    parse(text)
}

fn span_of(rule: Rule, input: &str) -> Option<(String, usize, usize)> {
    match match_rule(rule, input) {
        Ok(span) => Some((input[span.start..span.end].to_string(), span.start, span.end)),
        Err(_) => None,
    }
}

#[test]
fn deserialize_array() {
    assert!(same(&parse_json_file("[]").unwrap(), &J::Array(vec![])));
    assert!(same(
        &parse_json_file("[null, true, 1, \"test\"]").unwrap(),
        &J::Array(vec![J::Null, J::Boolean(true), J::Number(1.0), J::String("test")])
    ));
    assert!(same(
        &parse_json_file("[[[]]]").unwrap(),
        &J::Array(vec![J::Array(vec![J::Array(vec![])])])
    ));
    assert!(parse_json_file("[1,]").is_err());
}

#[test]
fn deserialize_object() {
    assert!(same(&parse_json_file("{}").unwrap(), &J::Object(vec![])));
    assert!(same(
        &parse_json_file(
            r#"{
                    "key": "value",
                    "num": 100,
                    "bool": false,
                    "null": null,
                    "arr": ["str", 1.5e+10]
                }"#
        )
        .unwrap(),
        &J::Object(vec![
            ("key", J::String("value")),
            ("num", J::Number(100.0)),
            ("bool", J::Boolean(false)),
            ("null", J::Null),
            ("arr", J::Array(vec![J::String("str"), J::Number(1.5e+10)]))
        ])
    ));
    assert!(parse_json_file("{\"n\":1,}").is_err());
}

#[test]
fn deserialize_null() {
    let pair = span_of(Rule::Null, "null").expect("no pair");
    assert_eq!(pair.0, "null");
    assert_eq!(pair.1, 0);
    assert_eq!(pair.2, 4);

    assert!(match_rule(Rule::Null, " null ").is_err());
    assert!(match_rule(Rule::Null, "NULL").is_err());
    assert!(match_rule(Rule::Null, "Null").is_err());
}

#[test]
fn deserialize_boolean() {
    let pair = span_of(Rule::Boolean, "true").expect("no pair");
    assert_eq!(pair.0, "true");
    assert_eq!(pair.1, 0);
    assert_eq!(pair.2, 4);

    let pair = span_of(Rule::Boolean, "false").expect("no pair");
    assert_eq!(pair.0, "false");
    assert_eq!(pair.1, 0);
    assert_eq!(pair.2, 5);

    assert!(match_rule(Rule::Boolean, "TRUE").is_err());
    assert!(match_rule(Rule::Boolean, "False").is_err());
}

#[test]
fn deserialize_number() {
    let pair = span_of(Rule::Number, "42").expect("no pair");
    assert_eq!(pair.0, "42");
    assert_eq!(pair.1, 0);
    assert_eq!(pair.2, 2);

    let pair = span_of(Rule::Number, "-3.14").expect("no pair");
    assert_eq!(pair.0, "-3.14");
    assert_eq!(pair.1, 0);
    assert_eq!(pair.2, 5);

    let pair = span_of(Rule::Number, "0.123e-5").expect("no pair");
    assert_eq!(pair.0, "0.123e-5");
    assert_eq!(pair.1, 0);
    assert_eq!(pair.2, 8);
}

#[test]
#[should_panic]
fn deserialize_invalid_number() {
    let pair = match_rule(Rule::Number, "12A");
    assert!(pair.is_err());

    let pair = match_rule(Rule::Number, "1.1.1");
    assert!(pair.is_err());
}

#[test]
fn deserialize_string() {
    let pair = span_of(Rule::String, r#""hello""#).expect("no pair");
    assert_eq!(pair.0, r#""hello""#);
    assert_eq!(pair.1, 0);
    assert_eq!(pair.2, 7);

    let pair = span_of(Rule::String, r#""escape: \"test\"""#).expect("no pair");
    assert_eq!(pair.0, r#""escape: \"test\"""#);
    assert_eq!(pair.1, 0);
    assert_eq!(pair.2, 18);

    assert!(match_rule(Rule::String, r#""unterminated_string"#).is_err());
    assert!(match_rule(Rule::String, r#"unquoted_string"#).is_err());
}

#[test]
fn deserialize_char() {
    let pair = span_of(Rule::Char, r#"a"#).expect("no pair");
    assert_eq!(pair.0, "a");
    assert_eq!(pair.1, 0);
    assert_eq!(pair.2, 1);

    let pair = span_of(Rule::Char, r#"\n"#).expect("no pair");
    assert_eq!(pair.0, "\\n");
    assert_eq!(pair.1, 0);
    assert_eq!(pair.2, 2);

    let pair = span_of(Rule::Char, r#"\""#).expect("no pair");
    assert_eq!(pair.0, r#"\""#);
    assert_eq!(pair.1, 0);
    assert_eq!(pair.2, 2);

    let pair = span_of(Rule::Char, r#"\u1234"#).expect("no pair");
    assert_eq!(pair.0, r#"\u1234"#);
    assert_eq!(pair.1, 0);
    assert_eq!(pair.2, 6);

    assert!(match_rule(Rule::Char, r#""#).is_err());
    assert!(match_rule(Rule::Char, r#"\u"#).is_err());
}
