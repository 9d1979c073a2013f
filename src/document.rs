use vstd::prelude::*;
use crate::grammar::{
    byte_len, byte_offset,
    char_at, char_end, is_at, lit_at, match_char, match_lit, match_number, match_string, number_end,
    skip_ws, string_end, ws_end,
};
use crate::parser::{
    chars_of, false_chars, false_lit, json_of, null_chars, null_lit, parse_value, true_chars, true_lit,
    value_at,
};
use crate::value::Value;

verus! {

/// What was expected where text failed to parse.
#[derive(Debug, Clone, Copy, PartialEq, Eq, Structural)]
pub enum Expected {
    /// A value, at the start of the document.
    Value,
    /// The end of the text, after the document's value and whitespace.
    EndOfInput,
    /// A match of the given rule, at the start of the text.
    Match(Rule),
}

/// Where text failed to parse, as a byte offset from its start, and what was
/// expected there.
#[derive(Debug, PartialEq, Eq, Structural)]
pub struct ParseError {
    pub offset: usize,
    pub expected: Expected,
}

/// The part `[start, end)` of the text that a rule matched, as byte offsets.
#[derive(Debug, PartialEq, Eq, Structural)]
pub struct Span {
    pub start: usize,
    pub end: usize,
}

/// The rules of the grammar, each of which can be matched at the start of a text.
#[derive(Debug, Clone, Copy, PartialEq, Eq, Structural)]
pub enum Rule {
    Null,
    Boolean,
    Number,
    Char,
    String,
    Array,
    Object,
    Value,
    Json,
}

/// Where a document fails: where its value starts if no value can be read
/// there, else where the text after the value and its whitespace goes on.
pub open spec fn error_offset(s: Seq<char>) -> int {
    let k = ws_end(s, 0);
    match value_at(s, k) {
        Some((_, e)) => ws_end(s, e),
        None => k,
    }
}

/// Where `rule`, matched at the start of `s`, ends, if it matches.
pub open spec fn rule_end(rule: Rule, s: Seq<char>) -> Option<int> {
    match rule {
        Rule::Null => if lit_at(s, 0, null_lit()) {
            Some(4)
        } else {
            None
        },
        Rule::Boolean => if lit_at(s, 0, true_lit()) {
            Some(4)
        } else if lit_at(s, 0, false_lit()) {
            Some(5)
        } else {
            None
        },
        Rule::Number => number_end(s, 0),
        Rule::Char => char_end(s, 0),
        Rule::String => string_end(s, 0),
        Rule::Array => if char_at(s, 0, '[') {
            match value_at(s, 0) {
                Some((_, e)) => Some(e),
                None => None,
            }
        } else {
            None
        },
        Rule::Object => if char_at(s, 0, '{') {
            match value_at(s, 0) {
                Some((_, e)) => Some(e),
                None => None,
            }
        } else {
            None
        },
        Rule::Value => match value_at(s, 0) {
            Some((_, e)) => Some(e),
            None => None,
        },
        Rule::Json => if json_of(s) is Some {
            Some(s.len() as int)
        } else {
            None
        },
    }
}

/// Reads a whole JSON document: optional whitespace, one value, optional
/// whitespace, and nothing else.
pub fn parse(text: &str) -> (r: Result<Value, ParseError>)
    ensures
        match r {
            Ok(v) => json_of(text@) == Some(v@),
            Err(e) => {
                &&& json_of(text@) is None
                &&& e.offset == byte_len(text@, error_offset(text@))
                &&& e.expected == if value_at(text@, ws_end(text@, 0)) is Some {
                    Expected::EndOfInput
                } else {
                    Expected::Value
                }
            },
        },
{
    let s = chars_of(text);
    let k = skip_ws(&s, 0);
    match parse_value(&s, k) {
        Some((v, e)) => {
            let m = skip_ws(&s, e);
            if m == s.len() {
                Ok(v)
            } else {
                Err(ParseError { offset: byte_offset(&s, m), expected: Expected::EndOfInput })
            }
        },
        None => Err(ParseError { offset: byte_offset(&s, k), expected: Expected::Value }),
    }
}

/// Matches `rule` at the start of `input` and reports the span it covers.
pub fn match_rule(rule: Rule, input: &str) -> (r: Result<Span, ParseError>)
    ensures
        match r {
            Ok(span) => span.start == 0 && rule_end(rule, input@) is Some && span.end == byte_len(
                input@,
                rule_end(rule, input@)->0,
            ),
            Err(e) => rule_end(rule, input@) is None && e.offset == 0 && e.expected == Expected::Match(
                rule,
            ),
        },
{
    let s = chars_of(input);
    let end: Option<usize> = match rule {
        Rule::Null => if match_lit(&s, 0, &null_chars()) {
            Some(4)
        } else {
            None
        },
        Rule::Boolean => if match_lit(&s, 0, &true_chars()) {
            Some(4)
        } else if match_lit(&s, 0, &false_chars()) {
            Some(5)
        } else {
            None
        },
        Rule::Number => match_number(&s, 0),
        Rule::Char => match_char(&s, 0),
        Rule::String => match_string(&s, 0),
        Rule::Array | Rule::Object | Rule::Value => {
            let opener = if rule == Rule::Array {
                is_at(&s, 0, '[')
            } else if rule == Rule::Object {
                is_at(&s, 0, '{')
            } else {
                true
            };
            if opener {
                match parse_value(&s, 0) {
                    Some((_, e)) => Some(e),
                    None => None,
                }
            } else {
                None
            }
        },
        Rule::Json => match parse(input) {
            Ok(_) => Some(s.len()),
            Err(_) => None,
        },
    };
    match end {
        Some(e) => Ok(Span { start: 0, end: byte_offset(&s, e) }),
        None => Err(ParseError { offset: 0, expected: Expected::Match(rule) }),
    }
}

} // verus!
