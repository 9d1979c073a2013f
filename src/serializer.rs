use vstd::prelude::*;
use crate::parser::{chars_of_string, string_from_chars};
use crate::value::{Json, Value};

verus! {

broadcast use vstd::std_specs::vec::axiom_vec_index_decreases, vstd::seq::axiom_seq_index_decreases;

pub open spec fn hex_digits() -> Seq<char> {
    seq!['0', '1', '2', '3', '4', '5', '6', '7', '8', '9', 'a', 'b', 'c', 'd', 'e', 'f']
}

/// `\u` and the code of `c` in four lowercase hex digits.
pub open spec fn unicode_escape(c: char) -> Seq<char> {
    let n = c as int;
    seq![
        '\\',
        'u',
        hex_digits()[(n / 4096) % 16],
        hex_digits()[(n / 256) % 16],
        hex_digits()[(n / 16) % 16],
        hex_digits()[n % 16],
    ]
}

/// How one character of a string is written: `"` and `\` and the control
/// characters with a short escape where one exists, the other control
/// characters and those from U+007F to U+FFFF as `\u` escapes, the rest as they
/// are.
pub open spec fn escape_char(c: char) -> Seq<char> {
    if c == '"' {
        seq!['\\', '"']
    } else if c == '\\' {
        seq!['\\', '\\']
    } else if c == '\u{8}' {
        seq!['\\', 'b']
    } else if c == '\u{c}' {
        seq!['\\', 'f']
    } else if c == '\n' {
        seq!['\\', 'n']
    } else if c == '\r' {
        seq!['\\', 'r']
    } else if c == '\t' {
        seq!['\\', 't']
    } else if (c as int) < 0x20 || (0x7F <= (c as int) && (c as int) <= 0xFFFF) {
        unicode_escape(c)
    } else {
        seq![c]
    }
}

/// The escaped form of the first `n` characters of `t`.
pub open spec fn escape_prefix(t: Seq<char>, n: int) -> Seq<char>
    decreases n,
{
    if n <= 0 {
        Seq::empty()
    } else {
        escape_prefix(t, n - 1) + escape_char(t[n - 1])
    }
}

/// The text `t` in quotes, escaped.
pub open spec fn quote(t: Seq<char>) -> Seq<char> {
    seq!['"'] + escape_prefix(t, t.len() as int) + seq!['"']
}

/// The canonical text of a value: no whitespace, members in order.
pub open spec fn ser(v: Json) -> Seq<char>
    decreases v, 0int,
{
    match v {
        Json::Null => seq!['n', 'u', 'l', 'l'],
        Json::Boolean(b) => if b {
            seq!['t', 'r', 'u', 'e']
        } else {
            seq!['f', 'a', 'l', 's', 'e']
        },
        Json::Number(n) => n,
        Json::Str(t) => quote(t),
        Json::Array(items) => seq!['['] + ser_list(items, items.len() as int) + seq![']'],
        Json::Object(keys, vals) => seq!['{'] + ser_members(keys, vals, vals.len() as int)
            + seq!['}'],
    }
}

/// The first `n` of `items` written and joined by commas.
pub open spec fn ser_list(items: Seq<Json>, n: int) -> Seq<char>
    decreases items, n,
{
    if n <= 0 || n > items.len() {
        Seq::empty()
    } else if n == 1 {
        ser(items[0])
    } else {
        ser_list(items, n - 1) + seq![','] + ser(items[n - 1])
    }
}

/// The first `n` members written as `"key":value` and joined by commas.
pub open spec fn ser_members(keys: Seq<Seq<char>>, vals: Seq<Json>, n: int) -> Seq<char>
    decreases vals, n,
{
    if n <= 0 || n > vals.len() {
        Seq::empty()
    } else if n == 1 {
        quote(keys[0]) + seq![':'] + ser(vals[0])
    } else {
        ser_members(keys, vals, n - 1) + seq![','] + quote(keys[n - 1]) + seq![':'] + ser(
            vals[n - 1],
        )
    }
}

pub(crate) proof fn lemma_list_len(m: Seq<Json>, n: int, j: int)
    requires
        0 <= j < n <= m.len(),
    ensures
        ser(m[j]).len() <= ser_list(m, n).len(),
    decreases n,
{
    if j < n - 1 {
        lemma_list_len(m, n - 1, j);
    }
}

pub(crate) proof fn lemma_members_len(ks: Seq<Seq<char>>, vs: Seq<Json>, n: int, j: int)
    requires
        0 <= j < n <= vs.len(),
    ensures
        ser(vs[j]).len() <= ser_members(ks, vs, n).len(),
    decreases n,
{
    if j < n - 1 {
        lemma_members_len(ks, vs, n - 1, j);
    }
}

fn push_all(out: &mut Vec<char>, t: &Vec<char>)
    ensures
        final(out)@ == old(out)@ + t@,
{
    let mut i: usize = 0;
    while i < t.len()
        invariant
            i <= t.len(),
            out@ == old(out)@ + t@.subrange(0, i as int),
        decreases t.len() - i,
    {
        out.push(t[i]);
        i = i + 1;
        assert(out@ =~= old(out)@ + t@.subrange(0, i as int));
    }
    assert(t@.subrange(0, t.len() as int) =~= t@);
}

fn hex_digit(n: u32) -> (r: char)
    requires
        n < 16,
    ensures
        r == hex_digits()[n as int],
{
    let digits = vec!['0', '1', '2', '3', '4', '5', '6', '7', '8', '9', 'a', 'b', 'c', 'd', 'e', 'f'];
    assert(digits@ =~= hex_digits());
    digits[n as usize]
}

fn write_char(c: char, out: &mut Vec<char>)
    ensures
        final(out)@ == old(out)@ + escape_char(c),
{
    let short = if c == '"' {
        '"'
    } else if c == '\\' {
        '\\'
    } else if c == '\u{8}' {
        'b'
    } else if c == '\u{c}' {
        'f'
    } else if c == '\n' {
        'n'
    } else if c == '\r' {
        'r'
    } else if c == '\t' {
        't'
    } else {
        ' '
    };
    if short != ' ' {
        out.push('\\');
        out.push(short);
        assert(out@ =~= old(out)@ + escape_char(c));
    } else if (c as u32) < 0x20 || (0x7F <= (c as u32) && (c as u32) <= 0xFFFF) {
        let n = c as u32;
        out.push('\\');
        out.push('u');
        out.push(hex_digit((n / 4096) % 16));
        out.push(hex_digit((n / 256) % 16));
        out.push(hex_digit((n / 16) % 16));
        out.push(hex_digit(n % 16));
        assert(out@ =~= old(out)@ + escape_char(c));
    } else {
        out.push(c);
        assert(out@ =~= old(out)@ + escape_char(c));
    }
}

fn write_string(t: &String, out: &mut Vec<char>)
    ensures
        final(out)@ == old(out)@ + quote(t@),
{
    let cs = chars_of_string(t);
    out.push('"');
    let ghost start = out@;
    let mut i: usize = 0;
    while i < cs.len()
        invariant
            i <= cs.len(),
            cs@ == t@,
            out@ == start + escape_prefix(t@, i as int),
        decreases cs.len() - i,
    {
        write_char(cs[i], out);
        i = i + 1;
        assert(out@ =~= start + escape_prefix(t@, i as int));
    }
    out.push('"');
    assert(out@ =~= old(out)@ + quote(t@));
}

fn write_value(v: &Value, out: &mut Vec<char>)
    ensures
        final(out)@ == old(out)@ + ser(v@),
    decreases ser(v@).len(),
{
    match v {
        Value::Null => {
            push_all(out, &vec!['n', 'u', 'l', 'l']);
            assert(out@ =~= old(out)@ + ser(v@));
        },
        Value::Boolean(b) => {
            if *b {
                push_all(out, &vec!['t', 'r', 'u', 'e']);
            } else {
                push_all(out, &vec!['f', 'a', 'l', 's', 'e']);
            }
            assert(out@ =~= old(out)@ + ser(v@));
        },
        Value::Number(n) => {
            push_all(out, &chars_of_string(n));
        },
        Value::String(t) => {
            write_string(t, out);
        },
        Value::Array(items) => {
            let ghost m = v@->Array_0;
            assert(m.len() == items.len());
            out.push('[');
            let ghost start = out@;
            let mut j: usize = 0;
            while j < items.len()
                invariant
                    j <= items.len(),
                    v@ == Json::Array(m),
                    m.len() == items.len(),
                    forall|i: int| 0 <= i < items.len() ==> m[i] == #[trigger] items[i]@,
                    out@ == start + ser_list(m, j as int),
                decreases items.len() - j,
            {
                if j > 0 {
                    out.push(',');
                }
                proof {
                    lemma_list_len(m, m.len() as int, j as int);
                }
                write_value(&items[j], out);
                j = j + 1;
                assert(out@ =~= start + ser_list(m, j as int));
            }
            out.push(']');
            assert(out@ =~= old(out)@ + ser(v@));
        },
        Value::Object(pairs) => {
            let ghost ks = v@->Object_0;
            let ghost vs = v@->Object_1;
            assert(vs.len() == pairs.len());
            out.push('{');
            let ghost start = out@;
            let mut j: usize = 0;
            while j < pairs.len()
                invariant
                    j <= pairs.len(),
                    v@ == Json::Object(ks, vs),
                    vs.len() == pairs.len(),
                    ks.len() == pairs.len(),
                    forall|i: int|
                        0 <= i < pairs.len() ==> vs[i] == (#[trigger] pairs[i]).1@ && ks[i]
                            == pairs[i].0@,
                    out@ == start + ser_members(ks, vs, j as int),
                decreases pairs.len() - j,
            {
                if j > 0 {
                    out.push(',');
                }
                proof {
                    lemma_members_len(ks, vs, vs.len() as int, j as int);
                }
                write_string(&pairs[j].0, out);
                out.push(':');
                write_value(&pairs[j].1, out);
                j = j + 1;
                assert(out@ =~= start + ser_members(ks, vs, j as int));
            }
            out.push('}');
            assert(out@ =~= old(out)@ + ser(v@));
        },
    }
}

/// The canonical JSON text of `v`.
pub fn serialize(v: &Value) -> (r: String)
    ensures
        r@ == ser(v@),
{
    let mut out: Vec<char> = Vec::new();
    write_value(v, &mut out);
    assert(out@ =~= ser(v@));
    string_from_chars(&out)
}

} // verus!
