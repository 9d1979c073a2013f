use vstd::prelude::*;

verus! {

/// Space, tab, line feed or carriage return.
pub open spec fn is_ws(c: char) -> bool {
    c == ' ' || c == '\t' || c == '\n' || c == '\r'
}

pub open spec fn is_digit(c: char) -> bool {
    '0' <= c && c <= '9'
}

pub open spec fn is_hex(c: char) -> bool {
    is_digit(c) || ('a' <= c && c <= 'f') || ('A' <= c && c <= 'F')
}

/// The characters that may follow a backslash on their own.
pub open spec fn is_short_escape(c: char) -> bool {
    c == '"' || c == '\\' || c == '/' || c == 'b' || c == 'f' || c == 'n' || c == 'r' || c == 't'
}

/// The end of the run of whitespace that starts at `i`.
pub open spec fn ws_end(s: Seq<char>, i: int) -> int
    decreases s.len() - i,
{
    if 0 <= i < s.len() && is_ws(s[i]) {
        ws_end(s, i + 1)
    } else {
        i
    }
}

/// The end of the run of decimal digits that starts at `i`.
pub open spec fn digits_end(s: Seq<char>, i: int) -> int
    decreases s.len() - i,
{
    if 0 <= i < s.len() && is_digit(s[i]) {
        digits_end(s, i + 1)
    } else {
        i
    }
}

/// Whether `lit` stands in `s` at `i`.
pub open spec fn lit_at(s: Seq<char>, i: int, lit: Seq<char>) -> bool {
    0 <= i && i + lit.len() <= s.len() && s.subrange(i, i + lit.len()) == lit
}

pub open spec fn digit_at(s: Seq<char>, i: int) -> bool {
    0 <= i < s.len() && is_digit(s[i])
}

pub open spec fn char_at(s: Seq<char>, i: int, c: char) -> bool {
    0 <= i < s.len() && s[i] == c
}

/// The integer part of a number: a lone `0`, or a nonzero digit and more digits.
pub open spec fn int_part_end(s: Seq<char>, i: int) -> Option<int> {
    if char_at(s, i, '0') {
        Some(i + 1)
    } else if digit_at(s, i) {
        Some(digits_end(s, i + 1))
    } else {
        None
    }
}

/// An optional fraction: `.` and at least one digit.
pub open spec fn frac_end(s: Seq<char>, k: int) -> int {
    if char_at(s, k, '.') && digit_at(s, k + 1) {
        digits_end(s, k + 2)
    } else {
        k
    }
}

/// An optional exponent: `e` or `E`, an optional sign, and at least one digit.
pub open spec fn exp_end(s: Seq<char>, k: int) -> int {
    if char_at(s, k, 'e') || char_at(s, k, 'E') {
        let m = if char_at(s, k + 1, '+') || char_at(s, k + 1, '-') { k + 2 } else { k + 1 };
        if digit_at(s, m) {
            digits_end(s, m + 1)
        } else {
            k
        }
    } else {
        k
    }
}

/// The end of the number that starts at `i`, if one does.
pub open spec fn number_end(s: Seq<char>, i: int) -> Option<int> {
    let j = if char_at(s, i, '-') { i + 1 } else { i };
    match int_part_end(s, j) {
        Some(k) => Some(exp_end(s, frac_end(s, k))),
        None => None,
    }
}

/// The end of the one unit of string content that starts at `i`, if one does:
/// a character other than `"` and `\`, a short escape, or `\u` and four hex digits.
pub open spec fn char_end(s: Seq<char>, i: int) -> Option<int> {
    if !(0 <= i < s.len()) || s[i] == '"' {
        None
    } else if s[i] == '\\' {
        if i + 1 < s.len() && is_short_escape(s[i + 1]) {
            Some(i + 2)
        } else if 5 < s.len() - i && s[i + 1] == 'u' && is_hex(s[i + 2]) && is_hex(s[i + 3])
            && is_hex(s[i + 4]) && is_hex(s[i + 5]) {
            Some(i + 6)
        } else {
            None
        }
    } else {
        Some(i + 1)
    }
}

/// The end of the longest run of string content units that starts at `i`.
pub open spec fn chars_end(s: Seq<char>, i: int) -> int
    decreases s.len() - i,
{
    match char_end(s, i) {
        Some(k) => if k > i { chars_end(s, k) } else { i },
        None => i,
    }
}

/// The end of the quoted string that starts at `i`, if one does.
pub open spec fn string_end(s: Seq<char>, i: int) -> Option<int> {
    if char_at(s, i, '"') {
        let k = chars_end(s, i + 1);
        if char_at(s, k, '"') {
            Some(k + 1)
        } else {
            None
        }
    } else {
        None
    }
}

pub fn skip_ws(s: &Vec<char>, i: usize) -> (r: usize)
    requires
        i <= s.len(),
    ensures
        r == ws_end(s@, i as int),
        i <= r <= s.len(),
{
    let mut k = i;
    while k < s.len() && (s[k] == ' ' || s[k] == '\t' || s[k] == '\n' || s[k] == '\r')
        invariant
            i <= k <= s.len(),
            ws_end(s@, k as int) == ws_end(s@, i as int),
        decreases s.len() - k,
    {
        k = k + 1;
    }
    k
}

pub fn skip_digits(s: &Vec<char>, i: usize) -> (r: usize)
    requires
        i <= s.len(),
    ensures
        r == digits_end(s@, i as int),
        i <= r <= s.len(),
{
    let mut k = i;
    while k < s.len() && '0' <= s[k] && s[k] <= '9'
        invariant
            i <= k <= s.len(),
            digits_end(s@, k as int) == digits_end(s@, i as int),
        decreases s.len() - k,
    {
        k = k + 1;
    }
    k
}

pub fn is_at(s: &Vec<char>, i: usize, c: char) -> (r: bool)
    ensures
        r == char_at(s@, i as int, c),
{
    i < s.len() && s[i] == c
}

pub fn has_digit(s: &Vec<char>, i: usize) -> (r: bool)
    ensures
        r == digit_at(s@, i as int),
{
    i < s.len() && '0' <= s[i] && s[i] <= '9'
}

pub fn hex_char(c: char) -> (r: bool)
    ensures
        r == is_hex(c),
{
    ('0' <= c && c <= '9') || ('a' <= c && c <= 'f') || ('A' <= c && c <= 'F')
}

/// Matches `lit` at `i`.
pub fn match_lit(s: &Vec<char>, i: usize, lit: &Vec<char>) -> (r: bool)
    requires
        i <= s.len(),
    ensures
        r == lit_at(s@, i as int, lit@),
{
    if lit.len() > s.len() - i {
        return false;
    }
    let mut k: usize = 0;
    while k < lit.len()
        invariant
            i + lit.len() <= s.len(),
            k <= lit.len(),
            forall|j: int| 0 <= j < k ==> s@[i + j] == lit@[j],
        decreases lit.len() - k,
    {
        if s[i + k] != lit[k] {
            assert(s@.subrange(i as int, i + lit.len())[k as int] != lit@[k as int]);
            return false;
        }
        k = k + 1;
    }
    assert(s@.subrange(i as int, i + lit.len()) =~= lit@);
    true
}

/// Matches a number at `i`.
pub fn match_number(s: &Vec<char>, i: usize) -> (r: Option<usize>)
    requires
        i <= s.len(),
    ensures
        match r {
            Some(e) => number_end(s@, i as int) == Some(e as int) && i < e <= s.len(),
            None => number_end(s@, i as int) is None,
        },
{
    let j = if is_at(s, i, '-') { i + 1 } else { i };
    let k = if is_at(s, j, '0') {
        j + 1
    } else if has_digit(s, j) {
        skip_digits(s, j + 1)
    } else {
        return None;
    };
    let k = if is_at(s, k, '.') && has_digit(s, k + 1) { skip_digits(s, k + 2) } else { k };
    let e = if is_at(s, k, 'e') || is_at(s, k, 'E') {
        let m = if is_at(s, k + 1, '+') || is_at(s, k + 1, '-') { k + 2 } else { k + 1 };
        if has_digit(s, m) { skip_digits(s, m + 1) } else { k }
    } else {
        k
    };
    Some(e)
}

/// Matches one unit of string content at `i`.
pub fn match_char(s: &Vec<char>, i: usize) -> (r: Option<usize>)
    requires
        i <= s.len(),
    ensures
        match r {
            Some(e) => char_end(s@, i as int) == Some(e as int) && i < e <= s.len(),
            None => char_end(s@, i as int) is None,
        },
{
    if i >= s.len() || s[i] == '"' {
        None
    } else if s[i] == '\\' {
        if i + 1 < s.len() {
            let c = s[i + 1];
            if c == '"' || c == '\\' || c == '/' || c == 'b' || c == 'f' || c == 'n' || c == 'r'
                || c == 't' {
                return Some(i + 2);
            }
        }
        if 5 < s.len() - i && s[i + 1] == 'u' && hex_char(s[i + 2]) && hex_char(s[i + 3])
            && hex_char(s[i + 4]) && hex_char(s[i + 5]) {
            Some(i + 6)
        } else {
            None
        }
    } else {
        Some(i + 1)
    }
}

/// Matches a quoted string at `i`.
pub fn match_string(s: &Vec<char>, i: usize) -> (r: Option<usize>)
    requires
        i <= s.len(),
    ensures
        match r {
            Some(e) => string_end(s@, i as int) == Some(e as int) && i < e <= s.len(),
            None => string_end(s@, i as int) is None,
        },
{
    if !is_at(s, i, '"') {
        return None;
    }
    let mut k = i + 1;
    loop
        invariant
            i < k <= s.len(),
            chars_end(s@, k as int) == chars_end(s@, i + 1),
        ensures
            i < k <= s.len(),
            chars_end(s@, i + 1) == k,
        decreases s.len() - k,
    {
        match match_char(s, k) {
            Some(e) => {
                assert(chars_end(s@, k as int) == chars_end(s@, e as int));
                k = e;
            },
            None => {
                assert(chars_end(s@, k as int) == k);
                break ;
            },
        }
    }
    if is_at(s, k, '"') {
        Some(k + 1)
    } else {
        None
    }
}

/// How many bytes the UTF-8 encoding of `c` takes.
pub open spec fn utf8_width(c: char) -> int {
    if (c as int) < 0x80 {
        1
    } else if (c as int) < 0x800 {
        2
    } else if (c as int) < 0x10000 {
        3
    } else {
        4
    }
}

/// How many bytes the UTF-8 encoding of the first `n` characters of `s` takes.
pub open spec fn byte_len(s: Seq<char>, n: int) -> int
    decreases n,
{
    if n <= 0 || n > s.len() {
        0
    } else {
        byte_len(s, n - 1) + utf8_width(s[n - 1])
    }
}

proof fn lemma_byte_len_mono(s: Seq<char>, k: int, n: int)
    requires
        0 <= k <= n <= s.len(),
    ensures
        byte_len(s, k) <= byte_len(s, n),
    decreases n,
{
    if k < n {
        lemma_byte_len_mono(s, k, n - 1);
    }
}

fn utf8_width_of(c: char) -> (r: usize)
    ensures
        r == utf8_width(c),
{
    if (c as u32) < 0x80 {
        1
    } else if (c as u32) < 0x800 {
        2
    } else if (c as u32) < 0x10000 {
        3
    } else {
        4
    }
}

/// The byte offset of character position `n` of `s`.
pub fn byte_offset(s: &Vec<char>, n: usize) -> (r: usize)
    requires
        n <= s.len(),
        byte_len(s@, s.len() as int) <= isize::MAX,
    ensures
        r == byte_len(s@, n as int),
{
    let mut total: usize = 0;
    let mut k: usize = 0;
    while k < n
        invariant
            k <= n <= s.len(),
            byte_len(s@, s.len() as int) <= isize::MAX,
            total == byte_len(s@, k as int),
        decreases n - k,
    {
        proof {
            lemma_byte_len_mono(s@, k + 1, s.len() as int);
        }
        total = total + utf8_width_of(s[k]);
        k = k + 1;
    }
    total
}

} // verus!
