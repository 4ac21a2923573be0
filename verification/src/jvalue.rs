//! JSON values, as far as the calls of tools need them: texts, lists and objects.

use crate::json;
use crate::text;
use vstd::prelude::*;

verus! {

/// A character code names a character unless it is a surrogate or too large.
pub open spec fn scalar(code: int) -> bool {
    (0 <= code && code < 0xD800) || (0xE000 <= code && code <= 0x10FFFF)
}

/// `char::from_u32`: the character with this code, where the code is a Unicode
/// scalar value; otherwise nothing.
pub assume_specification[ char::from_u32 ](code: u32) -> (r: Option<char>)
    ensures
        match r {
            Some(c) => scalar(code as int) && c as int == code as int,
            None => !scalar(code as int),
        },
;

/// A JSON value; numbers, truth values and null are all one.
#[derive(Debug, PartialEq)]
pub enum Jv {
    S(String),
    A(Vec<Jv>),
    O(Vec<(String, Jv)>),
    Other,
}

/// A JSON value, as values.
pub enum GJv {
    S(Seq<char>),
    A(Seq<GJv>),
    O(Seq<(Seq<char>, GJv)>),
    Other,
}

impl Jv {
    pub open spec fn view(&self) -> GJv
        decreases self,
    {
        match self {
            Jv::S(t) => GJv::S(t@),
            Jv::A(v) => GJv::A(
                Seq::new(
                    v@.len(),
                    |i: int|
                        if 0 <= i < v@.len() {
                            v@[i].view()
                        } else {
                            GJv::Other
                        },
                ),
            ),
            Jv::O(v) => GJv::O(
                Seq::new(
                    v@.len(),
                    |i: int|
                        if 0 <= i < v@.len() {
                            (v@[i].0@, v@[i].1.view())
                        } else {
                            (Seq::empty(), GJv::Other)
                        },
                ),
            ),
            Jv::Other => GJv::Other,
        }
    }
}

/// Values as values.
pub open spec fn item_views(v: Seq<Jv>) -> Seq<GJv> {
    v.map_values(|x: Jv| x@)
}

/// Fields as values.
pub open spec fn field_views(v: Seq<(String, Jv)>) -> Seq<(Seq<char>, GJv)> {
    v.map_values(|p: (String, Jv)| (p.0@, p.1@))
}

/// A list is the list of its values.
pub proof fn lemma_list(v: Vec<Jv>)
    ensures
        Jv::A(v)@ == GJv::A(item_views(v@)),
{
    match Jv::A(v)@ {
        GJv::A(s) => {
            assert(s =~= item_views(v@));
        },
        _ => {},
    }
}

/// An object is the list of its fields.
pub proof fn lemma_object(v: Vec<(String, Jv)>)
    ensures
        Jv::O(v)@ == GJv::O(field_views(v@)),
{
    match Jv::O(v)@ {
        GJv::O(s) => {
            assert(s =~= field_views(v@));
        },
        _ => {},
    }
}

// ── Strings ──

/// The white space between values.
pub open spec fn is_gap(c: char) -> bool {
    c == ' ' || c == '\t' || c == '\n' || c == '\r' || c == '\u{c}'
}

/// The first position from `i` on that holds no white space.
pub open spec fn skip(s: Seq<char>, i: int) -> int
    decreases s.len() - i,
{
    if 0 <= i < s.len() && is_gap(s[i]) {
        skip(s, i + 1)
    } else {
        i
    }
}

/// The value of a hexadecimal digit.
pub open spec fn hex_value(c: char) -> Option<int> {
    if '0' <= c && c <= '9' {
        Some(c as int - '0' as int)
    } else if 'a' <= c && c <= 'f' {
        Some(c as int - 'a' as int + 10)
    } else if 'A' <= c && c <= 'F' {
        Some(c as int - 'A' as int + 10)
    } else {
        None
    }
}

/// The number that the first `n` hexadecimal digits give.
pub open spec fn hex_number(s: Seq<char>, n: int) -> Option<int>
    decreases n,
{
    if n <= 0 {
        Some(0)
    } else {
        match (hex_number(s, n - 1), hex_value(s[n - 1])) {
            (Some(a), Some(d)) => Some(a * 16 + d),
            _ => None,
        }
    }
}

/// The code that four characters give; the first may be a plus sign.
pub open spec fn code_of(s: Seq<char>) -> Option<int> {
    if s.len() == 4 && s[0] == '+' {
        hex_number(s.skip(1), 3)
    } else {
        hex_number(s, 4)
    }
}

/// What an escaped character stands for.
pub open spec fn escape_of(c: char) -> char {
    if c == 'n' {
        '\n'
    } else if c == 't' {
        '\t'
    } else if c == 'r' {
        '\r'
    } else if c == 'b' {
        '\u{8}'
    } else if c == 'f' {
        '\u{c}'
    } else {
        c
    }
}

/// The code that a pair of surrogates stands for.
pub open spec fn pair_code(high: int, low: int) -> int {
    0x10000 + (high - 0xD800) * 1024 + (low - 0xDC00)
}

/// The low surrogate that the escape behind the `k`-th character gives.
pub open spec fn low_after(s: Seq<char>, k: int) -> Option<int> {
    if k + 6 < s.len() && s[k + 1] == '\\' && s[k + 2] == 'u' {
        match code_of(s.subrange(k + 3, k + 7)) {
            Some(low) if 0xDC00 <= low && low < 0xE000 => Some(low),
            _ => None,
        }
    } else {
        None
    }
}

/// The rest of a string from the `i`-th character on and where it ends. A code
/// that names no character adds nothing.
pub open spec fn string_rest(s: Seq<char>, i: int, acc: Seq<char>) -> Option<(Seq<char>, int)>
    decreases s.len() - i,
{
    if i < 0 || i >= s.len() {
        None
    } else if s[i] == '"' {
        Some((acc, i + 1))
    } else if s[i] != '\\' {
        string_rest(s, i + 1, acc.push(s[i]))
    } else if i + 1 >= s.len() {
        None
    } else if s[i + 1] != 'u' {
        string_rest(s, i + 2, acc.push(escape_of(s[i + 1])))
    } else if i + 5 >= s.len() {
        None
    } else {
        match code_of(s.subrange(i + 2, i + 6)) {
            None => None,
            Some(code) => if 0xD800 <= code && code < 0xDC00 && low_after(s, i + 5) is Some {
                string_rest(
                    s,
                    i + 12,
                    acc.push(pair_code(code, low_after(s, i + 5)->0) as char),
                )
            } else if scalar(code) {
                string_rest(s, i + 6, acc.push(code as char))
            } else {
                string_rest(s, i + 6, acc)
            },
        }
    }
}

/// The string at the `i`-th character and where it ends.
pub open spec fn string_at(s: Seq<char>, i: int) -> Option<(Seq<char>, int)> {
    if 0 <= i < s.len() && s[i] == '"' {
        string_rest(s, i + 1, Seq::empty())
    } else {
        None
    }
}

/// The first position from `i` on that no number or word goes beyond.
pub open spec fn word_end(s: Seq<char>, i: int) -> int
    decreases s.len() - i,
{
    if 0 <= i < s.len() && s[i] != ',' && s[i] != ']' && s[i] != '}' {
        word_end(s, i + 1)
    } else {
        i
    }
}

// ── Values ──

/// Behind the comma that may follow the `i`-th character.
pub open spec fn behind_comma(s: Seq<char>, i: int) -> int {
    let k = skip(s, i);
    if 0 <= k < s.len() && s[k] == ',' {
        k + 1
    } else {
        k
    }
}

/// The value at the `i`-th character and where it ends.
pub open spec fn value_at(s: Seq<char>, i: int) -> Option<(GJv, int)>
    decreases s.len() - i, 0int,
{
    let k = skip(s, i);
    if i < 0 || k < i || k >= s.len() {
        None
    } else if s[k] == '"' {
        match string_at(s, k) {
            Some((t, e)) => Some((GJv::S(t), e)),
            None => None,
        }
    } else if s[k] == '[' {
        match items_at(s, k + 1, Seq::empty()) {
            Some((items, e)) => Some((GJv::A(items), e)),
            None => None,
        }
    } else if s[k] == '{' {
        match fields_at(s, k + 1, Seq::empty()) {
            Some((fields, e)) => Some((GJv::O(fields), e)),
            None => None,
        }
    } else if word_end(s, k) > k {
        Some((GJv::Other, word_end(s, k)))
    } else {
        None
    }
}

/// The values of a list from the `i`-th character on and where it ends.
pub open spec fn items_at(s: Seq<char>, i: int, acc: Seq<GJv>) -> Option<(Seq<GJv>, int)>
    decreases s.len() - i, 1int,
{
    let k = skip(s, i);
    if i < 0 || k < i || k >= s.len() {
        None
    } else if s[k] == ']' {
        Some((acc, k + 1))
    } else {
        match value_at(s, k) {
            Some((v, e)) if k < e => {
                let next = behind_comma(s, e);
                if i < next <= s.len() {
                    items_at(s, next, acc.push(v))
                } else {
                    None
                }
            },
            _ => None,
        }
    }
}

/// The fields of an object from the `i`-th character on and where it ends.
pub open spec fn fields_at(s: Seq<char>, i: int, acc: Seq<(Seq<char>, GJv)>) -> Option<
    (Seq<(Seq<char>, GJv)>, int),
>
    decreases s.len() - i, 1int,
{
    let k = skip(s, i);
    if i < 0 || k < i || k >= s.len() {
        None
    } else if s[k] == '}' {
        Some((acc, k + 1))
    } else {
        match string_at(s, k) {
            Some((key, b)) if k < b => {
                let c = skip(s, b);
                if c < b || c >= s.len() || s[c] != ':' {
                    None
                } else {
                    match value_at(s, c + 1) {
                        Some((v, e)) if c < e => {
                            let next = behind_comma(s, e);
                            if i < next <= s.len() {
                                fields_at(s, next, acc.push((key, v)))
                            } else {
                                None
                            }
                        },
                        _ => None,
                    }
                }
            },
            _ => None,
        }
    }
}

/// The first position from `i` on that holds no white space.
fn skip_gaps(chars: &Vec<char>, i: usize) -> (r: usize)
    requires
        i <= chars@.len(),
    ensures
        r == skip(chars@, i as int),
        i <= r <= chars@.len(),
{
    let mut k: usize = i;
    while k < chars.len() && (chars[k] == ' ' || chars[k] == '\t' || chars[k] == '\n' || chars[k]
        == '\r' || chars[k] == '\u{c}')
        invariant
            i <= k <= chars@.len(),
            skip(chars@, i as int) == skip(chars@, k as int),
        decreases chars@.len() - k,
    {
        k += 1;
    }
    k
}

/// The value of a hexadecimal digit.
fn digit_value(c: char) -> (r: Option<u32>)
    ensures
        match r {
            Some(d) => hex_value(c) == Some(d as int) && d < 16,
            None => hex_value(c) is None,
        },
{
    if '0' <= c && c <= '9' {
        Some(c as u32 - 48)
    } else if 'a' <= c && c <= 'f' {
        Some(c as u32 - 97 + 10)
    } else if 'A' <= c && c <= 'F' {
        Some(c as u32 - 65 + 10)
    } else {
        None
    }
}

proof fn lemma_hex_none(s: Seq<char>, n: int, m: int)
    requires
        n <= m,
        hex_number(s, n) is None,
    ensures
        hex_number(s, m) is None,
    decreases m - n,
{
    if n < m {
        lemma_hex_none(s, n, m - 1);
    }
}

/// The code that the four characters from the `i`-th on give.
fn code_at(chars: &Vec<char>, i: usize) -> (r: Option<u32>)
    requires
        i + 4 <= chars@.len(),
    ensures
        match r {
            Some(c) => code_of(chars@.subrange(i as int, i + 4)) == Some(c as int) && c < 0x10000,
            None => code_of(chars@.subrange(i as int, i + 4)) is None,
        },
{
    let ghost four = chars@.subrange(i as int, i + 4);
    let first: usize = if chars[i] == '+' {
        1
    } else {
        0
    };
    let ghost digits = if first == 1 {
        four.skip(1)
    } else {
        four
    };
    let count: usize = 4 - first;
    let len: usize = chars.len();
    let mut n: usize = 0;
    let mut code: u32 = 0;
    assert(four[0] == chars@[i as int]);
    while n < count
        invariant
            n <= count,
            count == 4 - first,
            first <= 1,
            len == chars@.len(),
            i + 4 <= len,
            four == chars@.subrange(i as int, i + 4),
            digits == (if first == 1 {
                four.skip(1)
            } else {
                four
            }),
            code_of(four) == hex_number(digits, count as int),
            hex_number(digits, n as int) == Some(code as int),
            n == 0 ==> code == 0,
            n == 1 ==> code < 16,
            n == 2 ==> code < 256,
            n == 3 ==> code < 4096,
            n == 4 ==> code < 0x10000,
        decreases count - n,
    {
        let c = chars[i + first + n];
        assert(c == digits[n as int]);
        match digit_value(c) {
            Some(d) => {
                code = code * 16 + d;
            },
            None => {
                proof {
                    lemma_hex_none(digits, n + 1, count as int);
                }
                return None;
            },
        }
        n += 1;
    }
    Some(code)
}

/// The low surrogate that the escape behind the `k`-th character gives.
fn find_low(chars: &Vec<char>, k: usize) -> (r: Option<u32>)
    requires
        k < chars@.len(),
    ensures
        match r {
            Some(low) => low_after(chars@, k as int) == Some(low as int) && 0xDC00 <= low && low
                < 0xE000 && k + 6 < chars@.len(),
            None => low_after(chars@, k as int) is None,
        },
{
    let n: usize = chars.len();
    if n - k > 6 && chars[k + 1] == '\\' && chars[k + 2] == 'u' {
        match code_at(chars, k + 3) {
            Some(low) => if 0xDC00 <= low && low < 0xE000 {
                Some(low)
            } else {
                None
            },
            None => None,
        }
    } else {
        None
    }
}

/// The string at the `i`-th character and where it ends.
fn parse_string(chars: &Vec<char>, i: usize) -> (r: Option<(String, usize)>)
    requires
        i <= chars@.len(),
    ensures
        match r {
            Some((t, e)) => string_at(chars@, i as int) == Some((t@, e as int)) && i < e
                <= chars@.len(),
            None => string_at(chars@, i as int) is None,
        },
{
    let n: usize = chars.len();
    if i >= n || chars[i] != '"' {
        return None;
    }
    let mut out = String::new();
    let mut k: usize = i + 1;
    assert(out@ =~= Seq::<char>::empty());
    while k < n
        invariant
            i < k <= n,
            n == chars@.len(),
            string_at(chars@, i as int) == string_rest(chars@, k as int, out@),
        decreases n - k,
    {
        let c = chars[k];
        if c == '"' {
            return Some((out, k + 1));
        }
        if c != '\\' {
            out.push(c);
            k += 1;
        } else if n - k <= 1 {
            return None;
        } else if chars[k + 1] != 'u' {
            let e = chars[k + 1];
            let u = if e == 'n' {
                '\n'
            } else if e == 't' {
                '\t'
            } else if e == 'r' {
                '\r'
            } else if e == 'b' {
                '\u{8}'
            } else if e == 'f' {
                '\u{c}'
            } else {
                e
            };
            out.push(u);
            k += 2;
        } else if n - k <= 5 {
            return None;
        } else {
            match code_at(chars, k + 2) {
                None => {
                    return None;
                },
                Some(code) => {
                    let low = if 0xD800 <= code && code < 0xDC00 {
                        find_low(chars, k + 5)
                    } else {
                        None
                    };
                    match low {
                        Some(l) => {
                            let full: u32 = 0x10000 + (code - 0xD800) * 1024 + (l - 0xDC00);
                            match char::from_u32(full) {
                                Some(ch) => {
                                    assert(ch == pair_code(code as int, l as int) as char);
                                    out.push(ch);
                                },
                                None => {},
                            }
                            k += 12;
                        },
                        None => {
                            match char::from_u32(code) {
                                Some(ch) => {
                                    assert(ch == code as int as char);
                                    out.push(ch);
                                },
                                None => {},
                            }
                            k += 6;
                        },
                    }
                },
            }
        }
    }
    None
}

/// The first position from `i` on that no number or word goes beyond.
fn find_word_end(chars: &Vec<char>, i: usize) -> (r: usize)
    requires
        i <= chars@.len(),
    ensures
        r == word_end(chars@, i as int),
        i <= r <= chars@.len(),
{
    let mut k: usize = i;
    while k < chars.len() && chars[k] != ',' && chars[k] != ']' && chars[k] != '}'
        invariant
            i <= k <= chars@.len(),
            word_end(chars@, i as int) == word_end(chars@, k as int),
        decreases chars@.len() - k,
    {
        k += 1;
    }
    k
}

/// Behind the comma that may follow the `i`-th character.
fn pass_comma(chars: &Vec<char>, i: usize) -> (r: usize)
    requires
        i <= chars@.len(),
    ensures
        r == behind_comma(chars@, i as int),
        i <= r <= chars@.len(),
{
    let k = skip_gaps(chars, i);
    if k < chars.len() && chars[k] == ',' {
        k + 1
    } else {
        k
    }
}

/// The value at the `i`-th character and where it ends.
fn parse_value(chars: &Vec<char>, i: usize) -> (r: Option<(Jv, usize)>)
    requires
        i <= chars@.len(),
    ensures
        match r {
            Some((v, e)) => value_at(chars@, i as int) == Some((v@, e as int)) && i < e
                <= chars@.len(),
            None => value_at(chars@, i as int) is None,
        },
    decreases chars@.len() - i, 0int,
{
    let n: usize = chars.len();
    let k = skip_gaps(chars, i);
    if k >= n {
        return None;
    }
    let c = chars[k];
    if c == '"' {
        match parse_string(chars, k) {
            Some((t, e)) => Some((Jv::S(t), e)),
            None => None,
        }
    } else if c == '[' {
        match parse_items(chars, k + 1) {
            Some((items, e)) => {
                proof {
                    lemma_list(items);
                }
                Some((Jv::A(items), e))
            },
            None => None,
        }
    } else if c == '{' {
        match parse_fields(chars, k + 1) {
            Some((fields, e)) => {
                proof {
                    lemma_object(fields);
                }
                Some((Jv::O(fields), e))
            },
            None => None,
        }
    } else {
        let e = find_word_end(chars, k);
        if e > k {
            Some((Jv::Other, e))
        } else {
            None
        }
    }
}

/// The values of a list from the `i`-th character on and where it ends.
fn parse_items(chars: &Vec<char>, i: usize) -> (r: Option<(Vec<Jv>, usize)>)
    requires
        i <= chars@.len(),
    ensures
        match r {
            Some((v, e)) => items_at(chars@, i as int, Seq::empty()) == Some(
                (item_views(v@), e as int),
            ) && i < e <= chars@.len(),
            None => items_at(chars@, i as int, Seq::empty()) is None,
        },
    decreases chars@.len() - i, 1int,
{
    let n: usize = chars.len();
    let mut out: Vec<Jv> = Vec::new();
    let mut at: usize = i;
    assert(item_views(out@) =~= Seq::<GJv>::empty());
    loop
        invariant
            i <= at <= n,
            n == chars@.len(),
            items_at(chars@, i as int, Seq::empty()) == items_at(
                chars@,
                at as int,
                item_views(out@),
            ),
        decreases n - at,
    {
        let k = skip_gaps(chars, at);
        if k >= n {
            return None;
        }
        if chars[k] == ']' {
            return Some((out, k + 1));
        }
        match parse_value(chars, k) {
            None => {
                return None;
            },
            Some((v, e)) => {
                let ghost before = item_views(out@);
                let ghost vv = v@;
                out.push(v);
                assert(item_views(out@) =~= before.push(vv));
                at = pass_comma(chars, e);
            },
        }
    }
}

/// The fields of an object from the `i`-th character on and where it ends.
fn parse_fields(chars: &Vec<char>, i: usize) -> (r: Option<(Vec<(String, Jv)>, usize)>)
    requires
        i <= chars@.len(),
    ensures
        match r {
            Some((v, e)) => fields_at(chars@, i as int, Seq::empty()) == Some(
                (field_views(v@), e as int),
            ) && i < e <= chars@.len(),
            None => fields_at(chars@, i as int, Seq::empty()) is None,
        },
    decreases chars@.len() - i, 1int,
{
    let n: usize = chars.len();
    let mut out: Vec<(String, Jv)> = Vec::new();
    let mut at: usize = i;
    assert(field_views(out@) =~= Seq::<(Seq<char>, GJv)>::empty());
    loop
        invariant
            i <= at <= n,
            n == chars@.len(),
            fields_at(chars@, i as int, Seq::empty()) == fields_at(
                chars@,
                at as int,
                field_views(out@),
            ),
        decreases n - at,
    {
        let k = skip_gaps(chars, at);
        if k >= n {
            return None;
        }
        if chars[k] == '}' {
            return Some((out, k + 1));
        }
        match parse_string(chars, k) {
            None => {
                return None;
            },
            Some((key, b)) => {
                let c = skip_gaps(chars, b);
                if c >= n || chars[c] != ':' {
                    return None;
                }
                match parse_value(chars, c + 1) {
                    None => {
                        return None;
                    },
                    Some((v, e)) => {
                        let ghost before = field_views(out@);
                        let ghost pv = (key@, v@);
                        out.push((key, v));
                        assert(field_views(out@) =~= before.push(pv));
                        at = pass_comma(chars, e);
                    },
                }
            },
        }
    }
}

/// The value at the `i`-th character, and moves on behind it; what follows it
/// does not count.
pub fn jparse(s: &str, i: &mut usize) -> (r: Option<Jv>)
    ensures
        match r {
            Some(v) => value_at(s@, *old(i) as int) == Some((v@, *final(i) as int)),
            None => value_at(s@, *old(i) as int) is None && *final(i) == *old(i),
        },
{
    let chars = text::chars_of(s);
    if *i > chars.len() {
        assert(skip(s@, *i as int) == *i);
        return None;
    }
    match parse_value(&chars, *i) {
        Some((v, e)) => {
            *i = e;
            Some(v)
        },
        None => None,
    }
}

/// The string at the `i`-th character, and moves on behind it.
pub fn jparse_str(s: &str, i: &mut usize) -> (r: Option<String>)
    ensures
        match r {
            Some(t) => string_at(s@, *old(i) as int) == Some((t@, *final(i) as int)),
            None => string_at(s@, *old(i) as int) is None && *final(i) == *old(i),
        },
{
    let chars = text::chars_of(s);
    if *i > chars.len() {
        return None;
    }
    match parse_string(&chars, *i) {
        Some((t, e)) => {
            *i = e;
            Some(t)
        },
        None => None,
    }
}

// ── Laws ──

/// The first character of an escaped text is escaped by itself.
pub proof fn lemma_escaped_first(t: Seq<char>)
    requires
        t.len() > 0,
    ensures
        json::escaped(t) == json::escaped_char(t[0]) + json::escaped(t.skip(1)),
    decreases t.len(),
{
    let a = t.drop_last();
    if t.len() == 1 {
        assert(json::escaped(a) =~= Seq::<char>::empty());
        assert(json::escaped(t.skip(1)) =~= Seq::<char>::empty());
        assert(json::escaped(t) =~= json::escaped_char(t[0]) + json::escaped(t.skip(1)));
    } else {
        lemma_escaped_first(a);
        assert(a.skip(1) =~= t.skip(1).drop_last());
        assert(t.skip(1).last() == t.last());
        assert(json::escaped(t) =~= json::escaped_char(t[0]) + json::escaped(t.skip(1)));
    }
}

/// An escaped character is read as the character.
proof fn lemma_read_char(s: Seq<char>, i: int, c: char, acc: Seq<char>)
    requires
        0 <= i,
        i + json::escaped_char(c).len() <= s.len(),
        s.subrange(i, i + json::escaped_char(c).len()) == json::escaped_char(c),
    ensures
        string_rest(s, i, acc) == string_rest(
            s,
            i + json::escaped_char(c).len(),
            acc.push(c),
        ),
{
    reveal_strlit("\\\"");
    reveal_strlit("\\\\");
    reveal_strlit("\\n");
    reveal_strlit("\\r");
    reveal_strlit("\\t");
    reveal_strlit("\\u00");
    let e = json::escaped_char(c);
    assert(forall|k: int|
        0 <= k < e.len() ==> s[i + k] == #[trigger] s.subrange(i, i + e.len())[k]);
    assert(s[i + 0] == e[0]);
    if e.len() == 2 {
        assert(s[i + 1] == e[1]);
    } else if e.len() == 6 {
        assert(s[i + 1] == e[1] && s[i + 2] == e[2] && s[i + 3] == e[3]);
        assert(s[i + 4] == e[4] && s[i + 5] == e[5]);
        let h = s.subrange(i + 2, i + 6);
        assert(h[0] == '0' && h[1] == '0' && h[2] == e[4] && h[3] == e[5]);
        let d = c as int;
        assert(0 <= d < 32);
        assert(hex_value(json::hex_digit(d / 16)) == Some(d / 16));
        assert(hex_value(json::hex_digit(d % 16)) == Some(d % 16));
        reveal_with_fuel(hex_number, 5);
        assert(hex_number(h, 4) == Some(d));
        assert(scalar(d));
        assert(d as char == c);
    }
}

/// A text that stands escaped in front of a quote is read as the text.
pub proof fn lemma_read_text(s: Seq<char>, i: int, t: Seq<char>, acc: Seq<char>)
    requires
        0 <= i,
        i + json::escaped(t).len() < s.len(),
        s.subrange(i, i + json::escaped(t).len()) == json::escaped(t),
        s[i + json::escaped(t).len()] == '"',
    ensures
        string_rest(s, i, acc) == Some((acc + t, i + json::escaped(t).len() + 1)),
    decreases t.len(),
{
    if t.len() == 0 {
        assert(acc + t =~= acc);
    } else {
        lemma_escaped_first(t);
        let e = json::escaped_char(t[0]);
        let rest = json::escaped(t.skip(1));
        let all = json::escaped(t);
        assert(all.len() == e.len() + rest.len());
        assert(s.subrange(i, i + e.len()) =~= e) by {
            assert forall|k: int| 0 <= k < e.len() implies s.subrange(i, i + e.len())[k] == e[k] by {
                assert(s.subrange(i, i + all.len())[k] == all[k]);
            }
        }
        lemma_read_char(s, i, t[0], acc);
        assert(s.subrange(i + e.len(), i + e.len() + rest.len()) =~= rest) by {
            assert forall|k: int| 0 <= k < rest.len() implies s.subrange(
                i + e.len(),
                i + e.len() + rest.len(),
            )[k] == rest[k] by {
                assert(s.subrange(i, i + all.len())[e.len() + k] == all[e.len() + k]);
            }
        }
        lemma_read_text(s, i + e.len(), t.skip(1), acc.push(t[0]));
        assert(acc.push(t[0]) + t.skip(1) =~= acc + t);
    }
}

/// A text that is written as a JSON string is read back as it was, whatever it
/// holds.
pub proof fn law_strings_read_back(t: Seq<char>)
    ensures
        string_at(seq!['"'] + json::escaped(t) + seq!['"'], 0) == Some(
            (t, json::escaped(t).len() as int + 2),
        ),
{
    let s = seq!['"'] + json::escaped(t) + seq!['"'];
    let n = json::escaped(t).len() as int;
    assert(s.subrange(1, 1 + n) =~= json::escaped(t));
    assert(s[1 + n] == '"');
    lemma_read_text(s, 1, t, Seq::empty());
    assert(Seq::<char>::empty() + t =~= t);
}

} // verus!
