use vstd::prelude::*;
use crate::grammar::{
    byte_len,
    char_at, char_end, is_at, is_digit, is_hex, is_short_escape, lit_at, match_char, match_lit,
    match_number, number_end, skip_ws, ws_end,
};
use crate::value::{Json, Value};

verus! {

broadcast use vstd::std_specs::vec::axiom_vec_index_decreases;

/// The value of a hex digit.
pub open spec fn hex_val(c: char) -> int {
    if is_digit(c) {
        c as int - '0' as int
    } else if 'a' <= c && c <= 'f' {
        c as int - 'a' as int + 10
    } else {
        c as int - 'A' as int + 10
    }
}

/// The code unit written by the four hex digits at `i`.
pub open spec fn hex4(s: Seq<char>, i: int) -> int {
    4096 * hex_val(s[i]) + 256 * hex_val(s[i + 1]) + 16 * hex_val(s[i + 2]) + hex_val(s[i + 3])
}

/// Whether `code` is a Unicode scalar value, that is, a `char`.
pub open spec fn is_scalar(code: int) -> bool {
    (0 <= code < 0xD800) || (0xE000 <= code <= 0x10FFFF)
}

/// The code of a character.
pub open spec fn code_of(c: char) -> int {
    c as int
}

/// The character whose code is `code`.
pub open spec fn char_of(code: int) -> char {
    choose|c: char| #[trigger] code_of(c) == code
}

/// The character that a short escape `\c` stands for.
pub open spec fn unescape(c: char) -> char {
    if c == 'b' {
        '\u{8}'
    } else if c == 'f' {
        '\u{c}'
    } else if c == 'n' {
        '\n'
    } else if c == 'r' {
        '\r'
    } else if c == 't' {
        '\t'
    } else {
        c
    }
}

/// The character that the content unit at `i` decodes to, and where the unit ends.
/// An escape of a surrogate code unit decodes to nothing.
pub open spec fn decode_unit(s: Seq<char>, i: int) -> Option<(char, int)> {
    match char_end(s, i) {
        None => None,
        Some(k) => if s[i] != '\\' {
            Some((s[i], k))
        } else if is_short_escape(s[i + 1]) {
            Some((unescape(s[i + 1]), k))
        } else if is_scalar(hex4(s, i + 2)) {
            Some((char_of(hex4(s, i + 2)), k))
        } else {
            None
        },
    }
}

/// Decodes string content from `i` up to and including the closing quote,
/// appending to `acc`.
pub open spec fn decode_from(s: Seq<char>, i: int, acc: Seq<char>) -> Option<(Seq<char>, int)>
    decreases s.len() - i,
{
    if char_at(s, i, '"') {
        Some((acc, i + 1))
    } else {
        match decode_unit(s, i) {
            Some((c, k)) => if k > i { decode_from(s, k, acc.push(c)) } else { None },
            None => None,
        }
    }
}

/// The decoded text of the quoted string at `i`, and where it ends.
pub open spec fn string_at(s: Seq<char>, i: int) -> Option<(Seq<char>, int)> {
    if char_at(s, i, '"') {
        decode_from(s, i + 1, Seq::empty())
    } else {
        None
    }
}

pub open spec fn null_lit() -> Seq<char> {
    seq!['n', 'u', 'l', 'l']
}

pub open spec fn true_lit() -> Seq<char> {
    seq!['t', 'r', 'u', 'e']
}

pub open spec fn false_lit() -> Seq<char> {
    seq!['f', 'a', 'l', 's', 'e']
}

/// The value that starts at `i`, and where it ends.
pub open spec fn value_at(s: Seq<char>, i: int) -> Option<(Json, int)>
    decreases s.len() - i, 0nat,
{
    if !(0 <= i < s.len()) {
        None
    } else if lit_at(s, i, null_lit()) {
        Some((Json::Null, i + 4))
    } else if lit_at(s, i, true_lit()) {
        Some((Json::Boolean(true), i + 4))
    } else if lit_at(s, i, false_lit()) {
        Some((Json::Boolean(false), i + 5))
    } else if s[i] == '"' {
        match string_at(s, i) {
            Some((t, k)) => Some((Json::Str(t), k)),
            None => None,
        }
    } else if s[i] == '[' {
        let k = ws_end(s, i + 1);
        if char_at(s, k, ']') {
            Some((Json::Array(Seq::empty()), k + 1))
        } else {
            items_at(s, i + 1, Seq::empty())
        }
    } else if s[i] == '{' {
        let k = ws_end(s, i + 1);
        if char_at(s, k, '}') {
            Some((Json::Object(Seq::empty(), Seq::empty()), k + 1))
        } else {
            members_at(s, i + 1, Seq::empty(), Seq::empty())
        }
    } else {
        match number_end(s, i) {
            Some(k) => Some((Json::Number(s.subrange(i, k)), k)),
            None => None,
        }
    }
}

/// The rest of an array whose elements so far are `acc`, from `p`, just after
/// `[` or a comma.
pub open spec fn items_at(s: Seq<char>, p: int, acc: Seq<Json>) -> Option<(Json, int)>
    decreases s.len() - p, 1nat,
{
    let k = ws_end(s, p);
    if !(p <= k <= s.len()) {
        None
    } else {
        match value_at(s, k) {
            None => None,
            Some((v, e)) => {
                let m = ws_end(s, e);
                if char_at(s, m, ',') {
                    if m + 1 > p {
                        items_at(s, m + 1, acc.push(v))
                    } else {
                        None
                    }
                } else if char_at(s, m, ']') {
                    Some((Json::Array(acc.push(v)), m + 1))
                } else {
                    None
                }
            },
        }
    }
}

/// The rest of an object whose keys and values so far are `keys` and `vals`, from `p`, just after
/// `{` or a comma.
pub open spec fn members_at(s: Seq<char>, p: int, keys: Seq<Seq<char>>, vals: Seq<Json>) -> Option<
    (Json, int),
>
    decreases s.len() - p, 1nat,
{
    let k = ws_end(s, p);
    match string_at(s, k) {
        None => None,
        Some((key, e1)) => {
            let c = ws_end(s, e1);
            let k2 = ws_end(s, c + 1);
            if !char_at(s, c, ':') || !(p <= k2 <= s.len()) {
                None
            } else {
                match value_at(s, k2) {
                    None => None,
                    Some((v, e)) => {
                        let m = ws_end(s, e);
                        if char_at(s, m, ',') {
                            if m + 1 > p {
                                members_at(s, m + 1, keys.push(key), vals.push(v))
                            } else {
                                None
                            }
                        } else if char_at(s, m, '}') {
                            Some((Json::Object(keys.push(key), vals.push(v)), m + 1))
                        } else {
                            None
                        }
                    },
                }
            }
        },
    }
}

/// The document `s`: one value with optional whitespace around it.
pub open spec fn json_of(s: Seq<char>) -> Option<Json> {
    match value_at(s, ws_end(s, 0)) {
        Some((v, e)) => if ws_end(s, e) == s.len() {
            Some(v)
        } else {
            None
        },
        None => None,
    }
}

/// The views of a sequence of values.
pub open spec fn views(v: Seq<Value>) -> Seq<Json> {
    Seq::new(v.len(), |i: int| v[i]@)
}

/// The keys of a sequence of key and value pairs.
pub open spec fn key_views(v: Seq<(String, Value)>) -> Seq<Seq<char>> {
    Seq::new(v.len(), |i: int| v[i].0@)
}

/// The views of the values of a sequence of key and value pairs.
pub open spec fn value_views(v: Seq<(String, Value)>) -> Seq<Json> {
    Seq::new(v.len(), |i: int| v[i].1@)
}

/// Relies on `char::from_u32`: the character with the given code, if the code
/// is a Unicode scalar value.
#[verifier::external_body]
fn char_from_code(code: u32) -> (r: Option<char>)
    ensures
        r is Some <==> is_scalar(code as int),
        r matches Some(c) ==> c as int == code as int,
{
    char::from_u32(code)
}

/// Relies on collecting an iterator of `char` into a `String`: the text of the
/// characters, in order.
#[verifier::external_body]
pub(crate) fn string_from_chars(v: &Vec<char>) -> (r: String)
    ensures
        r@ == v@,
{
    v.iter().collect()
}

/// Relies on `str::chars`, reached from a `String`, collected into a `Vec`: the
/// characters of the text, in order.
#[verifier::external_body]
pub(crate) fn chars_of_string(s: &String) -> (r: Vec<char>)
    ensures
        r@ == s@,
{
    s.chars().collect()
}

/// Relies on `str::chars` collected into a `Vec`: the characters of the text, in
/// order. The text's UTF-8 bytes, whose count is at most `isize::MAX`, are the
/// encodings of those characters.
#[verifier::external_body]
pub(crate) fn chars_of(s: &str) -> (r: Vec<char>)
    ensures
        r@ == s@,
        byte_len(r@, r@.len() as int) <= isize::MAX,
{
    s.chars().collect()
}

fn hex_value(c: char) -> (r: u32)
    requires
        is_hex(c),
    ensures
        r == hex_val(c),
        r < 16,
{
    if '0' <= c && c <= '9' {
        (c as u32) - ('0' as u32)
    } else if 'a' <= c && c <= 'f' {
        (c as u32) - ('a' as u32) + 10
    } else {
        (c as u32) - ('A' as u32) + 10
    }
}

fn unescape_char(c: char) -> (r: char)
    ensures
        r == unescape(c),
{
    if c == 'b' {
        '\u{8}'
    } else if c == 'f' {
        '\u{c}'
    } else if c == 'n' {
        '\n'
    } else if c == 'r' {
        '\r'
    } else if c == 't' {
        '\t'
    } else {
        c
    }
}

/// The characters of `s` from `i` to `k`, as text.
fn copy_range(s: &Vec<char>, i: usize, k: usize) -> (r: String)
    requires
        i <= k <= s.len(),
    ensures
        r@ == s@.subrange(i as int, k as int),
{
    let mut out: Vec<char> = Vec::new();
    let mut j = i;
    while j < k
        invariant
            i <= j <= k <= s.len(),
            out@ == s@.subrange(i as int, j as int),
        decreases k - j,
    {
        out.push(s[j]);
        j = j + 1;
        assert(out@ =~= s@.subrange(i as int, j as int));
    }
    string_from_chars(&out)
}

/// Decodes the quoted string at `i`.
pub fn decode_string(s: &Vec<char>, i: usize) -> (r: Option<(String, usize)>)
    requires
        i <= s.len(),
    ensures
        match r {
            Some((t, e)) => string_at(s@, i as int) == Some((t@, e as int)) && i < e <= s.len(),
            None => string_at(s@, i as int) is None,
        },
{
    if !is_at(s, i, '"') {
        return None;
    }
    let mut acc: Vec<char> = Vec::new();
    let mut k = i + 1;
    loop
        invariant
            i < k <= s.len(),
            char_at(s@, i as int, '"'),
            decode_from(s@, i + 1, Seq::empty()) == decode_from(s@, k as int, acc@),
        decreases s.len() - k,
    {
        if is_at(s, k, '"') {
            assert(decode_from(s@, k as int, acc@) == Some((acc@, k + 1)));
            return Some((string_from_chars(&acc), k + 1));
        }
        match match_char(s, k) {
            None => {
                return None;
            },
            Some(e) => {
                let ghost old_acc = acc@;
                let c = s[k];
                if c != '\\' {
                    acc.push(c);
                } else {
                    let d = s[k + 1];
                    if d == '"' || d == '\\' || d == '/' || d == 'b' || d == 'f' || d == 'n' || d
                        == 'r' || d == 't' {
                        acc.push(unescape_char(d));
                    } else {
                        let code = 4096 * hex_value(s[k + 2]) + 256 * hex_value(s[k + 3]) + 16
                            * hex_value(s[k + 4]) + hex_value(s[k + 5]);
                        assert(code == hex4(s@, k + 2));
                        match char_from_code(code) {
                            Some(ch) => {
                                assert(code_of(ch) == code as int);
                                assert(ch == char_of(hex4(s@, k + 2)));
                                acc.push(ch);
                            },
                            None => {
                                return None;
                            },
                        }
                    }
                }
                assert(decode_unit(s@, k as int) == Some((acc@.last(), e as int)));
                assert(acc@ == old_acc.push(acc@.last()));
                k = e;
            },
        }
    }
}

pub(crate) fn null_chars() -> (r: Vec<char>)
    ensures
        r@ == null_lit(),
{
    let r = vec!['n', 'u', 'l', 'l'];
    assert(r@ =~= null_lit());
    r
}

pub(crate) fn true_chars() -> (r: Vec<char>)
    ensures
        r@ == true_lit(),
{
    let r = vec!['t', 'r', 'u', 'e'];
    assert(r@ =~= true_lit());
    r
}

pub(crate) fn false_chars() -> (r: Vec<char>)
    ensures
        r@ == false_lit(),
{
    let r = vec!['f', 'a', 'l', 's', 'e'];
    assert(r@ =~= false_lit());
    r
}

/// Parses the value that starts at `i`.
pub fn parse_value(s: &Vec<char>, i: usize) -> (r: Option<(Value, usize)>)
    requires
        i <= s.len(),
    ensures
        match r {
            Some((v, e)) => value_at(s@, i as int) == Some((v@, e as int)) && i < e <= s.len(),
            None => value_at(s@, i as int) is None,
        },
    decreases s.len() - i, 0nat,
{
    if i >= s.len() {
        return None;
    }
    if match_lit(s, i, &null_chars()) {
        return Some((Value::Null, i + 4));
    }
    if match_lit(s, i, &true_chars()) {
        return Some((Value::Boolean(true), i + 4));
    }
    if match_lit(s, i, &false_chars()) {
        return Some((Value::Boolean(false), i + 5));
    }
    let c = s[i];
    if c == '"' {
        match decode_string(s, i) {
            Some((t, k)) => Some((Value::String(t), k)),
            None => None,
        }
    } else if c == '[' {
        let k = skip_ws(s, i + 1);
        if is_at(s, k, ']') {
            let v = Value::Array(Vec::new());
            assert(v@->Array_0 =~= Seq::empty());
            Some((v, k + 1))
        } else {
            parse_items(s, i + 1)
        }
    } else if c == '{' {
        let k = skip_ws(s, i + 1);
        if is_at(s, k, '}') {
            let v = Value::Object(Vec::new());
            assert(v@->Object_0 =~= Seq::empty());
            assert(v@->Object_1 =~= Seq::empty());
            Some((v, k + 1))
        } else {
            parse_members(s, i + 1)
        }
    } else {
        match match_number(s, i) {
            Some(k) => Some((Value::Number(copy_range(s, i, k)), k)),
            None => None,
        }
    }
}

/// Parses the elements of an array from `p`, just after its `[`, through its `]`.
fn parse_items(s: &Vec<char>, p: usize) -> (r: Option<(Value, usize)>)
    requires
        p <= s.len(),
    ensures
        match r {
            Some((v, e)) => items_at(s@, p as int, Seq::empty()) == Some((v@, e as int)) && p < e
                <= s.len(),
            None => items_at(s@, p as int, Seq::empty()) is None,
        },
    decreases s.len() - p, 1nat,
{
    let mut acc: Vec<Value> = Vec::new();
    let mut q = p;
    assert(views(acc@) =~= Seq::empty());
    loop
        invariant
            p <= q <= s.len(),
            items_at(s@, p as int, Seq::empty()) == items_at(s@, q as int, views(acc@)),
        decreases s.len() - q,
    {
        let k = skip_ws(s, q);
        match parse_value(s, k) {
            None => {
                return None;
            },
            Some((v, e)) => {
                let ghost vv = v@;
                let ghost before = views(acc@);
                let m = skip_ws(s, e);
                acc.push(v);
                assert(views(acc@) =~= before.push(vv));
                if is_at(s, m, ',') {
                    q = m + 1;
                } else if is_at(s, m, ']') {
                    let r = Value::Array(acc);
                    assert(r@->Array_0 =~= before.push(vv));
                    return Some((r, m + 1));
                } else {
                    return None;
                }
            },
        }
    }
}

/// Parses the members of an object from `p`, just after its `{`, through its `}`.
fn parse_members(s: &Vec<char>, p: usize) -> (r: Option<(Value, usize)>)
    requires
        p <= s.len(),
    ensures
        match r {
            Some((v, e)) => members_at(s@, p as int, Seq::empty(), Seq::empty()) == Some((v@, e as int)) && p
                < e <= s.len(),
            None => members_at(s@, p as int, Seq::empty(), Seq::empty()) is None,
        },
    decreases s.len() - p, 1nat,
{
    let mut acc: Vec<(String, Value)> = Vec::new();
    let mut q = p;
    assert(key_views(acc@) =~= Seq::empty());
    assert(value_views(acc@) =~= Seq::empty());
    loop
        invariant
            p <= q <= s.len(),
            members_at(s@, p as int, Seq::empty(), Seq::empty()) == members_at(s@, q as int, key_views(acc@), value_views(acc@)),
        decreases s.len() - q,
    {
        let k = skip_ws(s, q);
        let (key, e1) = match decode_string(s, k) {
            None => {
                return None;
            },
            Some(x) => x,
        };
        let c = skip_ws(s, e1);
        if !is_at(s, c, ':') {
            return None;
        }
        let k2 = skip_ws(s, c + 1);
        match parse_value(s, k2) {
            None => {
                return None;
            },
            Some((v, e)) => {
                let ghost kv = key@;
                let ghost vv = v@;
                let ghost kbefore = key_views(acc@);
                let ghost vbefore = value_views(acc@);
                let m = skip_ws(s, e);
                acc.push((key, v));
                assert(key_views(acc@) =~= kbefore.push(kv));
                assert(value_views(acc@) =~= vbefore.push(vv));
                if is_at(s, m, ',') {
                    q = m + 1;
                } else if is_at(s, m, '}') {
                    let r = Value::Object(acc);
                    assert(r@->Object_0 =~= kbefore.push(kv));
                    assert(r@->Object_1 =~= vbefore.push(vv));
                    return Some((r, m + 1));
                } else {
                    return None;
                }
            },
        }
    }
}

} // verus!
