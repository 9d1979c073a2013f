use json_rust_parser::{match_rule, parse, serialize, Expected, ParseError, Rule, Value};

fn s(t: &str) -> Value {
    Value::String(t.to_string())
}

fn n(t: &str) -> Value {
    Value::Number(t.to_string())
}

#[test]
fn empty_containers() {
    assert_eq!(parse("[]").unwrap(), Value::Array(vec![]));
    assert_eq!(parse("{}").unwrap(), Value::Object(vec![]));
    assert_eq!(parse("[ ]").unwrap(), Value::Array(vec![]));
    assert_eq!(parse("{ \n}").unwrap(), Value::Object(vec![]));
}

#[test]
fn mixed_array() {
    assert_eq!(
        parse("[null, true, 1, \"test\"]").unwrap(),
        Value::Array(vec![Value::Null, Value::Boolean(true), n("1"), s("test")])
    );
}

#[test]
fn trailing_commas_rejected() {
    assert_eq!(parse("[1,]"), Err(ParseError { offset: 0, expected: Expected::Value }));
    assert!(parse("{\"n\":1,}").is_err());
}

#[test]
fn nested_arrays() {
    let inner = Value::Array(vec![]);
    assert_eq!(
        parse("[[[]]]").unwrap(),
        Value::Array(vec![Value::Array(vec![inner])])
    );
}

#[test]
fn whitespace_boundary() {
    assert!(match_rule(Rule::Null, " null ").is_err());
    assert_eq!(parse(" null ").unwrap(), Value::Null);
    assert_eq!(parse("null").unwrap(), Value::Null);
    assert_eq!(parse("\t[ 1 , 2 ]\r\n").unwrap(), Value::Array(vec![n("1"), n("2")]));
    assert!(match_rule(Rule::Json, " null ").is_ok());
}

#[test]
fn trailing_content_rejected() {
    assert_eq!(parse("null x"), Err(ParseError { offset: 5, expected: Expected::EndOfInput }));
    assert_eq!(parse("  nul"), Err(ParseError { offset: 2, expected: Expected::Value }));
    assert!(parse("").is_err());
}

#[test]
fn escapes_decode() {
    assert_eq!(parse("\"\\u1234\"").unwrap(), s("\u{1234}"));
    assert_eq!(parse("\"\\n\"").unwrap(), s("\n"));
    assert_eq!(
        parse("\"\\\"\\\\\\/\\b\\f\\r\\t\"").unwrap(),
        s("\"\\/\u{8}\u{c}\r\t")
    );
    assert_eq!(parse("\"\\u0041\"").unwrap(), s("A"));
}

#[test]
fn escapes_reencode() {
    assert_eq!(serialize(&s("\u{1234}")), "\"\\u1234\"");
    assert_eq!(serialize(&s("\n")), "\"\\n\"");
    assert_eq!(serialize(&s("a\"b\\c")), "\"a\\\"b\\\\c\"");
    assert_eq!(serialize(&s("\u{1}")), "\"\\u0001\"");
    assert_eq!(serialize(&s("\u{1F600}")), "\"\u{1F600}\"");
}

#[test]
fn surrogate_escape_rejected() {
    assert!(parse("\"\\ud800\"").is_err());
    assert!(match_rule(Rule::String, "\"\\ud800\"").is_ok());
}

#[test]
fn malformed_escape_rejected() {
    assert!(parse("\"\\x\"").is_err());
    assert!(parse("\"\\u12\"").is_err());
    assert!(parse("\"abc").is_err());
}

#[test]
fn numbers_parse() {
    let v = parse("0.123e-5").unwrap();
    match &v {
        Value::Number(t) => assert_eq!(t.parse::<f64>().unwrap(), 0.123e-5),
        _ => panic!("not a number"),
    }
    let v = parse("-3.14").unwrap();
    match &v {
        Value::Number(t) => assert_eq!(t.parse::<f64>().unwrap(), -3.14),
        _ => panic!("not a number"),
    }
    assert_eq!(parse("1E+2").unwrap(), n("1E+2"));
}

#[test]
fn malformed_numbers_rejected() {
    assert!(parse("01").is_err());
    assert!(parse("1.").is_err());
    assert!(parse("-").is_err());
    assert!(parse("1e").is_err());
    assert!(parse("12A").is_err());
    assert!(parse("1.1.1").is_err());
    assert_eq!(match_rule(Rule::Number, "1.x").unwrap().end, 1);
}

#[test]
fn literal_casing() {
    assert!(parse("NULL").is_err());
    assert!(parse("True").is_err());
    assert_eq!(parse("false").unwrap(), Value::Boolean(false));
}

#[test]
fn duplicate_keys_kept() {
    let v = parse("{\"a\":1,\"a\":2}").unwrap();
    assert_eq!(
        v,
        Value::Object(vec![("a".to_string(), n("1")), ("a".to_string(), n("2"))])
    );
    assert_eq!(serialize(&v), "{\"a\":1,\"a\":2}");
}

#[test]
fn serialize_canonical() {
    let v = parse("{ \"k\" : [ 1 , true , null , \"x\" ] , \"o\" : { } }").unwrap();
    assert_eq!(serialize(&v), "{\"k\":[1,true,null,\"x\"],\"o\":{}}");
    assert_eq!(serialize(&Value::Array(vec![])), "[]");
    assert_eq!(serialize(&Value::Object(vec![])), "{}");
}

#[test]
fn round_trip() {
    for text in [
        "[null, true, 1, \"test\"]",
        "{\"key\": \"value\", \"num\": 100, \"arr\": [\"str\", 1.5e+10]}",
        "\"tab\\tquote\\\" \\u00e9 \\u1234\"",
        "[[[]], {}, -0.5e-3]",
    ] {
        let v = parse(text).unwrap();
        assert_eq!(parse(&serialize(&v)).unwrap(), v);
    }
}

#[test]
fn rule_spans() {
    assert_eq!(match_rule(Rule::Array, "[1, 2] tail").unwrap().end, 6);
    assert_eq!(match_rule(Rule::Object, "{\"a\":null}").unwrap().end, 10);
    assert!(match_rule(Rule::Array, "{}").is_err());
    assert_eq!(match_rule(Rule::Value, "\"x\",").unwrap().end, 3);
    assert_eq!(match_rule(Rule::Json, " [] ").unwrap().end, 4);
    assert!(match_rule(Rule::Json, "[] x").is_err());
}

#[test]
fn byte_offsets() {
    assert_eq!(match_rule(Rule::String, "\"\u{e9}\"").unwrap().end, 4);
    assert_eq!(match_rule(Rule::Char, "\u{1F600}").unwrap().end, 4);
    assert_eq!(
        parse("\"\u{e9}\" x"),
        Err(ParseError { offset: 5, expected: Expected::EndOfInput })
    );
    assert_eq!(parse("[\u{20ac}]"), Err(ParseError { offset: 0, expected: Expected::Value }));
    assert_eq!(
        match_rule(Rule::Null, "nil"),
        Err(ParseError { offset: 0, expected: Expected::Match(Rule::Null) })
    );
}
