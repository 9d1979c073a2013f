use vstd::prelude::*;
use crate::grammar::{
    char_at, char_end, digit_at, digits_end, exp_end, frac_end, int_part_end, is_digit, is_hex,
    is_short_escape, number_end,
};
use crate::parser::{char_of, code_of, decode_from, decode_unit, hex4, hex_val, is_scalar, string_at, unescape};
use crate::serializer::{
    escape_char, escape_prefix, hex_digits, lemma_list_len, lemma_members_len, quote, ser, ser_list,
    ser_members, unicode_escape,
};
use crate::grammar::{lit_at, ws_end};
use crate::parser::{
    false_lit, items_at, json_of, members_at, null_lit, string_at as string_read, true_lit, value_at,
};
use crate::value::Json;

verus! {

/// `s` holds `t` from `i` on.
pub open spec fn holds_at(s: Seq<char>, i: int, t: Seq<char>) -> bool {
    0 <= i && i + t.len() <= s.len() && forall|k: int| 0 <= k < t.len() ==> s[i + k] == #[trigger] t[k]
}

proof fn lemma_hex_digit(d: int)
    requires
        0 <= d < 16,
    ensures
        is_hex(hex_digits()[d]),
        hex_val(hex_digits()[d]) == d,
{
    assert(hex_digits().len() == 16);
    if d == 0 { assert(hex_digits()[d] == '0'); }
    else if d == 1 { assert(hex_digits()[d] == '1'); }
    else if d == 2 { assert(hex_digits()[d] == '2'); }
    else if d == 3 { assert(hex_digits()[d] == '3'); }
    else if d == 4 { assert(hex_digits()[d] == '4'); }
    else if d == 5 { assert(hex_digits()[d] == '5'); }
    else if d == 6 { assert(hex_digits()[d] == '6'); }
    else if d == 7 { assert(hex_digits()[d] == '7'); }
    else if d == 8 { assert(hex_digits()[d] == '8'); }
    else if d == 9 { assert(hex_digits()[d] == '9'); }
    else if d == 10 { assert(hex_digits()[d] == 'a'); }
    else if d == 11 { assert(hex_digits()[d] == 'b'); }
    else if d == 12 { assert(hex_digits()[d] == 'c'); }
    else if d == 13 { assert(hex_digits()[d] == 'd'); }
    else if d == 14 { assert(hex_digits()[d] == 'e'); }
    else { assert(hex_digits()[d] == 'f'); }
}

proof fn lemma_four_digits(n: int)
    requires
        0 <= n <= 0xFFFF,
    ensures
        4096 * ((n / 4096) % 16) + 256 * ((n / 256) % 16) + 16 * ((n / 16) % 16) + n % 16 == n,
{
    assert(4096 * ((n / 4096) % 16) + 256 * ((n / 256) % 16) + 16 * ((n / 16) % 16) + n % 16 == n)
        by (nonlinear_arith)
        requires
            0 <= n <= 0xFFFF,
    ;
}

/// The escaped form of one character decodes back to it.
proof fn lemma_decode_escaped(s: Seq<char>, p: int, c: char)
    requires
        holds_at(s, p, escape_char(c)),
        p + escape_char(c).len() < s.len(),
    ensures
        !char_at(s, p, '"'),
        decode_unit(s, p) == Some((c, p + escape_char(c).len())),
{
    let e = escape_char(c);
    assert(s[p + 0] == e[0]);
    if c == '"' || c == '\\' || c == '\u{8}' || c == '\u{c}' || c == '\n' || c == '\r' || c == '\t' {
        assert(s[p + 1] == e[1]);
        assert(char_end(s, p) == Some(p + 2));
    } else if (c as int) < 0x20 || (0x7F <= (c as int) && (c as int) <= 0xFFFF) {
        let n = c as int;
        assert(e == unicode_escape(c));
        assert(s[p + 1] == e[1]);
        assert(s[p + 2] == e[2]);
        assert(s[p + 3] == e[3]);
        assert(s[p + 4] == e[4]);
        assert(s[p + 5] == e[5]);
        lemma_hex_digit((n / 4096) % 16);
        lemma_hex_digit((n / 256) % 16);
        lemma_hex_digit((n / 16) % 16);
        lemma_hex_digit(n % 16);
        lemma_four_digits(n);
        assert(hex4(s, p + 2) == n);
        assert(char_end(s, p) == Some(p + 6));
        assert(is_scalar(n));
        assert(code_of(c) == n);
        assert(char_of(n) == c);
    } else {
        assert(char_end(s, p) == Some(p + 1));
    }
}

proof fn lemma_escape_prefix(t: Seq<char>, k: int, n: int)
    requires
        0 <= k <= n <= t.len(),
    ensures
        escape_prefix(t, k).len() <= escape_prefix(t, n).len(),
        escape_prefix(t, n).subrange(0, escape_prefix(t, k).len() as int) =~= escape_prefix(t, k),
    decreases n,
{
    if k < n {
        lemma_escape_prefix(t, k, n - 1);
        let a = escape_prefix(t, k);
        let b = escape_prefix(t, n - 1);
        assert(escape_prefix(t, n) == b + escape_char(t[n - 1]));
        assert(escape_prefix(t, n).subrange(0, a.len() as int) =~= b.subrange(0, a.len() as int));
    }
}

proof fn lemma_decode_rest(s: Seq<char>, i: int, t: Seq<char>, k: int)
    requires
        holds_at(s, i, quote(t)),
        0 <= k <= t.len(),
    ensures
        decode_from(s, i + 1 + escape_prefix(t, k).len(), t.subrange(0, k)) == Some(
            (t, i + quote(t).len()),
        ),
    decreases t.len() - k,
{
    let n = t.len() as int;
    let q = quote(t);
    let en = escape_prefix(t, n);
    let ek = escape_prefix(t, k);
    let p = i + 1 + ek.len();
    lemma_escape_prefix(t, k, n);
    if k == n {
        assert(s[i + (1 + en.len())] == q[1 + en.len() as int]);
        assert(t.subrange(0, n) =~= t);
    } else {
        let c = t[k];
        let e = escape_char(c);
        lemma_escape_prefix(t, k + 1, n);
        assert(escape_prefix(t, k + 1) == ek + e);
        assert forall|m: int| 0 <= m < e.len() implies s[p + m] == #[trigger] e[m] by {
            assert(s[i + (1 + ek.len() + m)] == q[1 + ek.len() as int + m]);
            assert(q[1 + ek.len() as int + m] == en[ek.len() as int + m]);
            assert(en[ek.len() as int + m] == escape_prefix(t, k + 1)[ek.len() as int + m]);
        }
        assert(s[i + (1 + en.len())] == q[1 + en.len() as int]);
        lemma_decode_escaped(s, p, c);
        assert(t.subrange(0, k).push(c) =~= t.subrange(0, k + 1));
        lemma_decode_rest(s, i, t, k + 1);
    }
}

/// A quoted, escaped text decodes back to the text, and the string ends right
/// after the closing quote.
pub proof fn lemma_string_round_trip(s: Seq<char>, i: int, t: Seq<char>)
    requires
        holds_at(s, i, quote(t)),
    ensures
        string_at(s, i) == Some((t, i + quote(t).len())),
{
    assert(s[i + 0] == quote(t)[0]);
    lemma_decode_rest(s, i, t, 0);
    assert(t.subrange(0, 0) =~= Seq::<char>::empty());
}

/// Whether the character at `j` cannot continue a number: there is none, or
/// it is not a digit, `.`, `e`, `E`, `+` or `-`.
pub open spec fn stops_number(s: Seq<char>, j: int) -> bool {
    j == s.len() || (0 <= j < s.len() && !is_digit(s[j]) && s[j] != '.' && s[j] != 'e' && s[j]
        != 'E' && s[j] != '+' && s[j] != '-')
}

/// `s1` from `i1` and `s2` from `i2` agree on `len` characters.
pub open spec fn agree(s1: Seq<char>, i1: int, s2: Seq<char>, i2: int, len: int) -> bool {
    0 <= i1 && 0 <= i2 && 0 <= len && i1 + len <= s1.len() && i2 + len <= s2.len() && forall|k: int|
        0 <= k < len ==> s1[i1 + k] == #[trigger] s2[i2 + k]
}

proof fn lemma_digits_end_ge(s: Seq<char>, i: int)
    ensures
        digits_end(s, i) >= i,
    decreases s.len() - i,
{
    if 0 <= i < s.len() && is_digit(s[i]) {
        lemma_digits_end_ge(s, i + 1);
    }
}

proof fn lemma_digits_local(s1: Seq<char>, i1: int, s2: Seq<char>, i2: int, len: int, k: int)
    requires
        agree(s1, i1, s2, i2, len),
        stops_number(s2, i2 + len),
        0 <= k <= len,
        digits_end(s1, i1 + k) <= i1 + len,
    ensures
        digits_end(s2, i2 + k) - i2 == digits_end(s1, i1 + k) - i1,
    decreases len - k,
{
    if k < len {
        assert(s1[i1 + k] == s2[i2 + k]);
        if is_digit(s1[i1 + k]) {
            lemma_digits_local(s1, i1, s2, i2, len, k + 1);
        }
    } else {
        lemma_digits_end_ge(s1, i1 + k + 1);
    }
}

proof fn lemma_parts_ge(s: Seq<char>, k: int)
    ensures
        frac_end(s, k) >= k,
        exp_end(s, k) >= k,
{
    lemma_digits_end_ge(s, k + 2);
    lemma_digits_end_ge(s, k + 3);
}

/// A number that ends where `len` characters end, read again where the same
/// characters stand and are followed by something that cannot continue a number,
/// ends there too.
proof fn lemma_number_local(s1: Seq<char>, i1: int, s2: Seq<char>, i2: int, len: int)
    requires
        agree(s1, i1, s2, i2, len),
        stops_number(s2, i2 + len),
        number_end(s1, i1) == Some(i1 + len),
    ensures
        number_end(s2, i2) == Some(i2 + len),
{
    let a: int = if char_at(s1, i1, '-') { 1 } else { 0 };
    let k1 = int_part_end(s1, i1 + a)->0;
    let f1 = frac_end(s1, k1);
    let e1 = exp_end(s1, f1);
    assert(e1 == i1 + len);
    lemma_digits_end_ge(s1, i1 + a + 1);
    lemma_parts_ge(s1, k1);
    lemma_parts_ge(s1, f1);
    assert(a < len);
    assert(s1[i1 + 0] == s2[i2 + 0]);
    assert(char_at(s2, i2, '-') == (a == 1));
    // each part ends no earlier than it starts
    lemma_digits_end_ge(s1, i1 + a + 1);
    lemma_digits_end_ge(s1, k1 + 2);
    if a < len {
        assert(s1[i1 + a] == s2[i2 + a]);
    }
    if char_at(s1, i1 + a, '0') {
        assert(int_part_end(s2, i2 + a) == Some(k1 - i1 + i2));
    } else {
        lemma_digits_end_ge(s1, f1 + 1);
        lemma_digits_end_ge(s1, f1 + 2);
        lemma_digits_end_ge(s1, f1 + 3);
        lemma_digits_local(s1, i1, s2, i2, len, a + 1);
        assert(int_part_end(s2, i2 + a) == Some(k1 - i1 + i2));
    }
    let k2 = k1 - i1 + i2;
    let ko = k1 - i1;
    lemma_digits_end_ge(s1, f1 + 1);
    lemma_digits_end_ge(s1, f1 + 2);
    lemma_digits_end_ge(s1, f1 + 3);
    if ko < len {
        assert(s1[i1 + ko] == s2[i2 + ko]);
    }
    if ko + 1 < len {
        assert(s1[i1 + (ko + 1)] == s2[i2 + (ko + 1)]);
    }
    if char_at(s1, k1, '.') && digit_at(s1, k1 + 1) {
        lemma_digits_local(s1, i1, s2, i2, len, ko + 2);
    }
    assert(frac_end(s2, k2) == f1 - i1 + i2);
    let fo = f1 - i1;
    if fo < len {
        assert(s1[i1 + fo] == s2[i2 + fo]);
    }
    if fo + 1 < len {
        assert(s1[i1 + (fo + 1)] == s2[i2 + (fo + 1)]);
    }
    if fo + 2 < len {
        assert(s1[i1 + (fo + 2)] == s2[i2 + (fo + 2)]);
    }
    if char_at(s1, f1, 'e') || char_at(s1, f1, 'E') {
        let m = if char_at(s1, f1 + 1, '+') || char_at(s1, f1 + 1, '-') { fo + 2 } else { fo + 1 };
        if digit_at(s1, i1 + m) {
            lemma_digits_local(s1, i1, s2, i2, len, m + 1);
        }
    }
    assert(exp_end(s2, f1 - i1 + i2) == i2 + len);
}

/// A value that has a canonical text: each number is one whole number literal,
/// and an object has as many keys as values.
pub open spec fn wf(v: Json) -> bool
    decreases v, 0int,
{
    match v {
        Json::Number(n) => number_end(n, 0) == Some(n.len() as int),
        Json::Array(items) => all_wf(items, items.len() as int),
        Json::Object(keys, vals) => keys.len() == vals.len() && all_wf(vals, vals.len() as int),
        _ => true,
    }
}

/// The first `n` of `items` are well formed.
pub open spec fn all_wf(items: Seq<Json>, n: int) -> bool
    decreases items, n,
{
    if n <= 0 {
        true
    } else {
        n <= items.len() && all_wf(items, n - 1) && wf(items[n - 1])
    }
}

proof fn lemma_all_wf(items: Seq<Json>, n: int, k: int)
    requires
        all_wf(items, n),
        0 <= k < n,
    ensures
        wf(items[k]),
    decreases n,
{
    if k < n - 1 {
        lemma_all_wf(items, n - 1, k);
    }
}

/// What may follow a member of an array or object, or the whole document.
pub open spec fn follows(s: Seq<char>, j: int) -> bool {
    j == s.len() || (0 <= j < s.len() && (s[j] == ',' || s[j] == ']' || s[j] == '}'))
}

/// What the canonical text of a value starts with.
proof fn lemma_first_char(v: Json)
    requires
        wf(v),
    ensures
        ser(v).len() > 0,
        ser(v)[0] == 'n' || ser(v)[0] == 't' || ser(v)[0] == 'f' || ser(v)[0] == '"' || ser(v)[0]
            == '[' || ser(v)[0] == '{' || ser(v)[0] == '-' || is_digit(ser(v)[0]),
        ser(v)[0] == 'n' ==> v is Null,
        ser(v)[0] == 't' ==> v is Boolean,
        ser(v)[0] == 'f' ==> v is Boolean,
{
    match v {
        Json::Number(n) => {
            let a: int = if char_at(n, 0, '-') { 1 } else { 0 };
            let k1 = int_part_end(n, a)->0;
            lemma_digits_end_ge(n, a + 1);
            lemma_parts_ge(n, k1);
            lemma_parts_ge(n, frac_end(n, k1));
        },
        _ => {},
    }
}

proof fn lemma_list_prefix(items: Seq<Json>, j: int, n: int)
    requires
        1 <= j <= n <= items.len(),
    ensures
        ser_list(items, j).len() <= ser_list(items, n).len(),
        ser_list(items, n).subrange(0, ser_list(items, j).len() as int) =~= ser_list(items, j),
    decreases n,
{
    if j < n {
        lemma_list_prefix(items, j, n - 1);
        let a = ser_list(items, j);
        let b = ser_list(items, n - 1);
        assert(ser_list(items, n).subrange(0, a.len() as int) =~= b.subrange(0, a.len() as int));
    }
}

proof fn lemma_members_prefix(keys: Seq<Seq<char>>, vals: Seq<Json>, j: int, n: int)
    requires
        1 <= j <= n <= vals.len(),
    ensures
        ser_members(keys, vals, j).len() <= ser_members(keys, vals, n).len(),
        ser_members(keys, vals, n).subrange(0, ser_members(keys, vals, j).len() as int)
            =~= ser_members(keys, vals, j),
    decreases n,
{
    if j < n {
        lemma_members_prefix(keys, vals, j, n - 1);
        let a = ser_members(keys, vals, j);
        let b = ser_members(keys, vals, n - 1);
        assert(ser_members(keys, vals, n).subrange(0, a.len() as int) =~= b.subrange(
            0,
            a.len() as int,
        ));
    }
}

/// Where element `j` of an array written at `i` starts: after `[` or a comma.
pub open spec fn item_start(i: int, items: Seq<Json>, j: int) -> int {
    if j == 0 {
        i + 1
    } else {
        i + 1 + ser_list(items, j).len() + 1
    }
}

/// Where member `j` of an object written at `i` starts: after `{` or a comma.
pub open spec fn member_start(i: int, keys: Seq<Seq<char>>, vals: Seq<Json>, j: int) -> int {
    if j == 0 {
        i + 1
    } else {
        i + 1 + ser_members(keys, vals, j).len() + 1
    }
}

#[verifier::rlimit(50)]
proof fn lemma_items(s: Seq<char>, i: int, items: Seq<Json>, j: int)
    requires
        wf(Json::Array(items)),
        holds_at(s, i, ser(Json::Array(items))),
        0 <= j < items.len(),
    ensures
        items_at(s, item_start(i, items, j), items.subrange(0, j)) == Some(
            (Json::Array(items), i + ser(Json::Array(items)).len()),
        ),
    decreases ser(Json::Array(items)).len() - 1, items.len() - j,
{
    let v = Json::Array(items);
    let n = items.len() as int;
    let whole = ser(v);
    let ln = ser_list(items, n);
    let lj1 = ser_list(items, j + 1);
    let x = items[j];
    let p = item_start(i, items, j);
    lemma_list_prefix(items, j + 1, n);
    assert(whole == seq!['['] + ln + seq![']']);
    let off = if j == 0 { 0 } else { ser_list(items, j).len() + 1 };
    if j > 0 {
        assert(lj1 == ser_list(items, j) + seq![','] + ser(x));
    }
    assert(lj1.len() == off + ser(x).len());
    assert forall|m: int| 0 <= m < ser(x).len() implies s[p + m] == #[trigger] ser(x)[m] by {
        assert(s[i + (1 + off + m)] == whole[1 + off as int + m]);
        assert(whole[1 + off as int + m] == ln[off as int + m]);
        assert(ln[off as int + m] == lj1[off as int + m]);
    }
    let e = i + 1 + lj1.len();
    if j + 1 < n {
        lemma_list_prefix(items, j + 2, n);
        assert(ser_list(items, j + 2) == lj1 + seq![','] + ser(items[j + 1]));
        assert(s[i + (1 + lj1.len())] == whole[1 + lj1.len() as int]);
        assert(whole[1 + lj1.len() as int] == ln[lj1.len() as int]);
        assert(ln[lj1.len() as int] == ser_list(items, j + 2)[lj1.len() as int]);
    } else {
        assert(s[i + (1 + ln.len())] == whole[1 + ln.len() as int]);
    }
    lemma_list_len(items, n, j);
    lemma_all_wf(items, n, j);
    lemma_value(s, p, x);
    lemma_first_char(x);
    assert(s[p + 0] == ser(x)[0]);
    assert(ws_end(s, p) == p);
    assert(ws_end(s, e) == e);
    assert(items.subrange(0, j).push(x) =~= items.subrange(0, j + 1));
    if j + 1 < n {
        assert(item_start(i, items, j + 1) == e + 1);
        lemma_items(s, i, items, j + 1);
    } else {
        assert(items.subrange(0, j + 1) =~= items);
    }
}

#[verifier::rlimit(50)]
proof fn lemma_members(s: Seq<char>, i: int, keys: Seq<Seq<char>>, vals: Seq<Json>, j: int)
    requires
        wf(Json::Object(keys, vals)),
        holds_at(s, i, ser(Json::Object(keys, vals))),
        0 <= j < vals.len(),
    ensures
        members_at(s, member_start(i, keys, vals, j), keys.subrange(0, j), vals.subrange(0, j))
            == Some((Json::Object(keys, vals), i + ser(Json::Object(keys, vals)).len())),
    decreases ser(Json::Object(keys, vals)).len() - 1, vals.len() - j,
{
    let v = Json::Object(keys, vals);
    let n = vals.len() as int;
    let whole = ser(v);
    let ln = ser_members(keys, vals, n);
    let lj1 = ser_members(keys, vals, j + 1);
    let key = keys[j];
    let x = vals[j];
    let qk = quote(key);
    let p = member_start(i, keys, vals, j);
    lemma_members_prefix(keys, vals, j + 1, n);
    assert(whole == seq!['{'] + ln + seq!['}']);
    let off = if j == 0 { 0 } else { ser_members(keys, vals, j).len() + 1 };
    let unit = qk + seq![':'] + ser(x);
    if j > 0 {
        assert(lj1 =~= ser_members(keys, vals, j) + seq![','] + unit);
    } else {
        assert(lj1 =~= unit);
    }
    assert(lj1.len() == off + unit.len());
    assert forall|m: int| 0 <= m < unit.len() implies s[p + m] == #[trigger] unit[m] by {
        assert(s[i + (1 + off + m)] == whole[1 + off as int + m]);
        assert(whole[1 + off as int + m] == ln[off as int + m]);
        assert(ln[off as int + m] == lj1[off as int + m]);
    }
    assert forall|m: int| 0 <= m < qk.len() implies s[p + m] == #[trigger] qk[m] by {
        assert(s[p + m] == unit[m]);
    }
    lemma_string_round_trip(s, p, key);
    let e1 = p + qk.len();
    assert(s[p + qk.len()] == unit[qk.len() as int]);
    let k2 = e1 + 1;
    assert forall|m: int| 0 <= m < ser(x).len() implies s[k2 + m] == #[trigger] ser(x)[m] by {
        assert(s[p + (qk.len() + 1 + m)] == unit[qk.len() as int + 1 + m]);
    }
    let e = i + 1 + lj1.len();
    if j + 1 < n {
        lemma_members_prefix(keys, vals, j + 2, n);
        assert(s[i + (1 + lj1.len())] == whole[1 + lj1.len() as int]);
        assert(whole[1 + lj1.len() as int] == ln[lj1.len() as int]);
        assert(ln[lj1.len() as int] == ser_members(keys, vals, j + 2)[lj1.len() as int]);
    } else {
        assert(s[i + (1 + ln.len())] == whole[1 + ln.len() as int]);
    }
    lemma_members_len(keys, vals, n, j);
    lemma_all_wf(vals, n, j);
    lemma_value(s, k2, x);
    lemma_first_char(x);
    assert(s[k2 + 0] == ser(x)[0]);
    assert(s[p + 0] == qk[0]);
    assert(ws_end(s, p) == p);
    assert(ws_end(s, e1) == e1);
    assert(ws_end(s, k2) == k2);
    assert(ws_end(s, e) == e);
    assert(keys.subrange(0, j).push(key) =~= keys.subrange(0, j + 1));
    assert(vals.subrange(0, j).push(x) =~= vals.subrange(0, j + 1));
    if j + 1 < n {
        assert(member_start(i, keys, vals, j + 1) == e + 1);
        lemma_members(s, i, keys, vals, j + 1);
    } else {
        assert(keys.subrange(0, j + 1) =~= keys);
        assert(vals.subrange(0, j + 1) =~= vals);
    }
}

/// The canonical text of a well-formed value, followed by the end, a comma or a
/// closing bracket, reads back as that value.
proof fn lemma_value(s: Seq<char>, i: int, v: Json)
    requires
        wf(v),
        holds_at(s, i, ser(v)),
        follows(s, i + ser(v).len()),
    ensures
        value_at(s, i) == Some((v, i + ser(v).len())),
    decreases ser(v).len(), 0int,
{
    let t = ser(v);
    lemma_first_char(v);
    assert(s[i + 0] == t[0]);
    if t[0] != 'n' {
        assert(!lit_at(s, i, null_lit())) by {
            if lit_at(s, i, null_lit()) {
                assert(s.subrange(i, i + 4)[0] == s[i]);
            }
        }
    }
    if t[0] != 't' {
        assert(!lit_at(s, i, true_lit())) by {
            if lit_at(s, i, true_lit()) {
                assert(s.subrange(i, i + 4)[0] == s[i]);
            }
        }
    }
    match v {
        Json::Null => {
            assert(s.subrange(i, i + 4) =~= null_lit());
        },
        Json::Boolean(b) => {
            if b {
                assert(s.subrange(i, i + 4) =~= true_lit());
            } else {
                assert(s.subrange(i, i + 5) =~= false_lit());
            }
        },
        Json::Number(n) => {
            assert(!lit_at(s, i, false_lit())) by {
                if lit_at(s, i, false_lit()) {
                    assert(s.subrange(i, i + 5)[0] == s[i]);
                }
            }
            assert(agree(n, 0, s, i, n.len() as int)) by {
                assert forall|k: int| 0 <= k < n.len() implies n[0 + k] == #[trigger] s[i + k] by {
                    assert(s[i + k] == t[k]);
                }
            }
            lemma_number_local(n, 0, s, i, n.len() as int);
            assert(s.subrange(i, i + n.len()) =~= n);
        },
        Json::Str(text) => {
            lemma_string_round_trip(s, i, text);
            assert(!lit_at(s, i, false_lit())) by {
                if lit_at(s, i, false_lit()) {
                    assert(s.subrange(i, i + 5)[0] == s[i]);
                }
            }
        },
        Json::Array(items) => {
            assert(!lit_at(s, i, false_lit())) by {
                if lit_at(s, i, false_lit()) {
                    assert(s.subrange(i, i + 5)[0] == s[i]);
                }
            }
            if items.len() == 0 {
                assert(s[i + 1] == t[1]);
                assert(items =~= Seq::<Json>::empty());
            } else {
                lemma_items(s, i, items, 0);
                lemma_all_wf(items, items.len() as int, 0);
                lemma_first_char(items[0]);
                lemma_list_prefix(items, 1, items.len() as int);
                assert(s[i + 1] == t[1]);
                assert(t[1] == ser_list(items, items.len() as int)[0]);
                assert(ser_list(items, items.len() as int)[0] == ser(items[0])[0]);
                assert(ws_end(s, i + 1) == i + 1);
                assert(items.subrange(0, 0) =~= Seq::<Json>::empty());
            }
        },
        Json::Object(keys, vals) => {
            assert(!lit_at(s, i, false_lit())) by {
                if lit_at(s, i, false_lit()) {
                    assert(s.subrange(i, i + 5)[0] == s[i]);
                }
            }
            if vals.len() == 0 {
                assert(s[i + 1] == t[1]);
                assert(keys =~= Seq::<Seq<char>>::empty());
                assert(vals =~= Seq::<Json>::empty());
            } else {
                lemma_members(s, i, keys, vals, 0);
                lemma_members_prefix(keys, vals, 1, vals.len() as int);
                assert(s[i + 1] == t[1]);
                assert(t[1] == ser_members(keys, vals, vals.len() as int)[0]);
                let l1 = ser_members(keys, vals, 1);
                assert(ser_members(keys, vals, vals.len() as int)[0] == l1[0]);
                assert(l1 == quote(keys[0]) + seq![':'] + ser(vals[0]));
                assert(l1[0] == quote(keys[0])[0]);
                assert(ws_end(s, i + 1) == i + 1);
                assert(keys.subrange(0, 0) =~= Seq::<Seq<char>>::empty());
                assert(vals.subrange(0, 0) =~= Seq::<Json>::empty());
            }
        },
    }
}

/// Reading the canonical text of a well-formed value gives the value back.
pub proof fn lemma_serialize_then_parse(v: Json)
    requires
        wf(v),
    ensures
        json_of(ser(v)) == Some(v),
{
    let s = ser(v);
    lemma_first_char(v);
    assert(holds_at(s, 0, s));
    lemma_value(s, 0, v);
    assert(ws_end(s, 0) == 0);
}

proof fn lemma_all_wf_push(acc: Seq<Json>, v: Json, n: int)
    requires
        0 <= n <= acc.len(),
    ensures
        all_wf(acc.push(v), n) == all_wf(acc, n),
    decreases n,
{
    if n > 0 {
        lemma_all_wf_push(acc, v, n - 1);
        assert(acc.push(v)[n - 1] == acc[n - 1]);
    }
}

proof fn lemma_push_wf(acc: Seq<Json>, v: Json)
    requires
        all_wf(acc, acc.len() as int),
        wf(v),
    ensures
        all_wf(acc.push(v), acc.push(v).len() as int),
{
    lemma_all_wf_push(acc, v, acc.len() as int);
    assert(acc.push(v)[acc.len() as int] == v);
}

proof fn lemma_value_wf(s: Seq<char>, i: int)
    requires
        value_at(s, i) is Some,
    ensures
        wf((value_at(s, i)->0).0),
    decreases s.len() - i, 0nat,
{
    if lit_at(s, i, null_lit()) || lit_at(s, i, true_lit()) || lit_at(s, i, false_lit()) {
    } else if s[i] == '"' {
    } else if s[i] == '[' {
        if !char_at(s, ws_end(s, i + 1), ']') {
            lemma_items_wf(s, i + 1, Seq::empty());
        }
    } else if s[i] == '{' {
        if !char_at(s, ws_end(s, i + 1), '}') {
            lemma_members_wf(s, i + 1, Seq::empty(), Seq::empty());
        }
    } else {
        let k = number_end(s, i)->0;
        let n = s.subrange(i, k);
        lemma_digits_end_ge(s, i);
        let a: int = if char_at(s, i, '-') { 1 } else { 0 };
        let k1 = int_part_end(s, i + a)->0;
        lemma_digits_end_ge(s, i + a + 1);
        lemma_parts_ge(s, k1);
        lemma_parts_ge(s, frac_end(s, k1));
        assert(k <= s.len()) by {
            lemma_number_le(s, i);
        }
        assert(agree(s, i, n, 0, k - i));
        lemma_number_local(s, i, n, 0, k - i);
    }
}

proof fn lemma_digits_end_le(s: Seq<char>, i: int)
    ensures
        i <= s.len() ==> digits_end(s, i) <= s.len(),
    decreases s.len() - i,
{
    if 0 <= i < s.len() && is_digit(s[i]) {
        lemma_digits_end_le(s, i + 1);
    }
}

proof fn lemma_number_le(s: Seq<char>, i: int)
    requires
        0 <= i,
        number_end(s, i) is Some,
    ensures
        number_end(s, i)->0 <= s.len(),
{
    let a: int = if char_at(s, i, '-') { 1 } else { 0 };
    let k1 = int_part_end(s, i + a)->0;
    lemma_digits_end_le(s, i + a + 1);
    let f1 = frac_end(s, k1);
    lemma_digits_end_le(s, k1 + 2);
    lemma_digits_end_le(s, f1 + 2);
    lemma_digits_end_le(s, f1 + 3);
}

proof fn lemma_items_wf(s: Seq<char>, p: int, acc: Seq<Json>)
    requires
        items_at(s, p, acc) is Some,
        all_wf(acc, acc.len() as int),
    ensures
        wf((items_at(s, p, acc)->0).0),
    decreases s.len() - p, 1nat,
{
    let k = ws_end(s, p);
    lemma_value_wf(s, k);
    let (v, e) = value_at(s, k)->0;
    lemma_push_wf(acc, v);
    let m = ws_end(s, e);
    if char_at(s, m, ',') {
        lemma_items_wf(s, m + 1, acc.push(v));
    }
}

proof fn lemma_members_wf(s: Seq<char>, p: int, keys: Seq<Seq<char>>, vals: Seq<Json>)
    requires
        members_at(s, p, keys, vals) is Some,
        keys.len() == vals.len(),
        all_wf(vals, vals.len() as int),
    ensures
        wf((members_at(s, p, keys, vals)->0).0),
    decreases s.len() - p, 1nat,
{
    let k = ws_end(s, p);
    let (key, e1) = string_read(s, k)->0;
    let c = ws_end(s, e1);
    let k2 = ws_end(s, c + 1);
    lemma_value_wf(s, k2);
    let (v, e) = value_at(s, k2)->0;
    lemma_push_wf(vals, v);
    let m = ws_end(s, e);
    if char_at(s, m, ',') {
        lemma_members_wf(s, m + 1, keys.push(key), vals.push(v));
    }
}

/// Any document that parses is well formed, and reading its canonical text gives
/// the same value again.
pub proof fn lemma_parse_serialize_parse(s: Seq<char>)
    requires
        json_of(s) is Some,
    ensures
        wf(json_of(s)->0),
        json_of(ser(json_of(s)->0)) == json_of(s),
{
    lemma_value_wf(s, ws_end(s, 0));
    lemma_serialize_then_parse(json_of(s)->0);
}

} // verus!
