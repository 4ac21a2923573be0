//! Texts inside JSON strings.

use crate::text;
use vstd::prelude::*;

verus! {

/// The hexadecimal digit of `d`.
pub open spec fn hex_digit(d: int) -> char {
    if d < 10 {
        text::digit(d)
    } else if d == 10 {
        'a'
    } else if d == 11 {
        'b'
    } else if d == 12 {
        'c'
    } else if d == 13 {
        'd'
    } else if d == 14 {
        'e'
    } else {
        'f'
    }
}

/// A character inside a JSON string.
pub open spec fn escaped_char(c: char) -> Seq<char> {
    if c == '"' {
        "\\\""@
    } else if c == '\\' {
        "\\\\"@
    } else if c == '\n' {
        "\\n"@
    } else if c == '\r' {
        "\\r"@
    } else if c == '\t' {
        "\\t"@
    } else if (c as int) < 32 {
        "\\u00"@.push(hex_digit(c as int / 16)).push(hex_digit(c as int % 16))
    } else {
        seq![c]
    }
}

/// A text inside a JSON string.
pub open spec fn escaped(s: Seq<char>) -> Seq<char>
    decreases s.len(),
{
    if s.len() == 0 {
        Seq::empty()
    } else {
        escaped(s.drop_last()) + escaped_char(s.last())
    }
}

/// The hexadecimal digit of `d`.
fn hex_char(d: u32) -> (r: char)
    requires
        d < 16,
    ensures
        r == hex_digit(d as int),
{
    if d == 0 {
        '0'
    } else if d == 1 {
        '1'
    } else if d == 2 {
        '2'
    } else if d == 3 {
        '3'
    } else if d == 4 {
        '4'
    } else if d == 5 {
        '5'
    } else if d == 6 {
        '6'
    } else if d == 7 {
        '7'
    } else if d == 8 {
        '8'
    } else if d == 9 {
        '9'
    } else if d == 10 {
        'a'
    } else if d == 11 {
        'b'
    } else if d == 12 {
        'c'
    } else if d == 13 {
        'd'
    } else if d == 14 {
        'e'
    } else {
        'f'
    }
}

/// Adds a character of a JSON string.
fn push_escaped(out: &mut String, c: char)
    ensures
        final(out)@ == old(out)@ + escaped_char(c),
{
    let ghost before = out@;
    if c == '"' {
        out.append("\\\"");
    } else if c == '\\' {
        out.append("\\\\");
    } else if c == '\n' {
        out.append("\\n");
    } else if c == '\r' {
        out.append("\\r");
    } else if c == '\t' {
        out.append("\\t");
    } else {
        let code: u32 = c as u32;
        if code < 32 {
            out.append("\\u00");
            out.push(hex_char(code / 16));
            out.push(hex_char(code % 16));
            assert(out@ =~= before + escaped_char(c));
        } else {
            out.push(c);
            assert(out@ =~= before + seq![c]);
        }
    }
}

/// A text inside a JSON string.
pub fn escape(s: &str) -> (r: String)
    ensures
        r@ == escaped(s@),
{
    let v = text::chars_of(s);
    let mut out = String::new();
    let mut i: usize = 0;
    assert(out@ =~= escaped(s@.take(0)));
    while i < v.len()
        invariant
            i <= v@.len(),
            v@ == s@,
            out@ == escaped(s@.take(i as int)),
        decreases v@.len() - i,
    {
        push_escaped(&mut out, v[i]);
        assert(s@.take(i + 1).drop_last() =~= s@.take(i as int));
        i += 1;
    }
    assert(s@.take(i as int) =~= s@);
    out
}

/// Whether a text can stand inside a JSON string: every quote and backslash is
/// part of an escape.
pub open spec fn sound(s: Seq<char>) -> bool
    decreases s.len(),
{
    if s.len() == 0 {
        true
    } else if s[0] == '"' || (s[0] as int) < 32 {
        false
    } else if s[0] == '\\' {
        s.len() >= 2 && (s[1] as int) >= 32 && sound(s.skip(2))
    } else {
        sound(s.skip(1))
    }
}

/// A sound text behind a sound text is sound.
proof fn lemma_sound_join(a: Seq<char>, b: Seq<char>)
    requires
        sound(a),
        sound(b),
    ensures
        sound(a + b),
    decreases a.len(),
{
    if a.len() == 0 {
        assert(a + b =~= b);
    } else if a[0] == '\\' {
        lemma_sound_join(a.skip(2), b);
        assert((a + b).skip(2) =~= a.skip(2) + b);
    } else {
        lemma_sound_join(a.skip(1), b);
        assert((a + b).skip(1) =~= a.skip(1) + b);
    }
}

/// An escaped character is sound.
proof fn lemma_char_sound(c: char)
    ensures
        sound(escaped_char(c)),
{
    reveal_strlit("\\\"");
    reveal_strlit("\\\\");
    reveal_strlit("\\n");
    reveal_strlit("\\r");
    reveal_strlit("\\t");
    reveal_strlit("\\u00");
    reveal_with_fuel(sound, 8);
    let e = escaped_char(c);
    if (c as int) < 32 && c != '\n' && c != '\r' && c != '\t' {
        assert(e.len() == 6);
        assert(e[0] == '\\' && e[1] == 'u' && e[2] == '0' && e[3] == '0');
        assert(e[4] == hex_digit(c as int / 16) && e[5] == hex_digit(c as int % 16));
        assert(e.skip(2).skip(1).skip(1).skip(1).skip(1) =~= Seq::<char>::empty());
        assert(e.skip(2)[0] == '0');
        assert(e.skip(2).skip(1)[0] == '0');
        assert(e.skip(2).skip(1).skip(1)[0] == e[4]);
        assert(e.skip(2).skip(1).skip(1).skip(1)[0] == e[5]);
    } else if e.len() == 2 {
        assert(e.skip(2) =~= Seq::<char>::empty());
    } else {
        assert(e.skip(1) =~= Seq::<char>::empty());
    }
}

/// An escaped text can stand inside a JSON string, whatever it holds.
pub proof fn law_escaped_sound(s: Seq<char>)
    ensures
        sound(escaped(s)),
    decreases s.len(),
{
    if s.len() > 0 {
        law_escaped_sound(s.drop_last());
        lemma_char_sound(s.last());
        lemma_sound_join(escaped(s.drop_last()), escaped_char(s.last()));
    }
}

// ── Reading a field ──

/// What an escaped character stands for.
pub open spec fn unescaped_char(c: char) -> char {
    if c == 'n' {
        '\n'
    } else if c == 't' {
        '\t'
    } else {
        c
    }
}

/// The string that goes on at the `i`-th character, and whether it ends.
pub open spec fn string_from(s: Seq<char>, i: int, acc: Seq<char>) -> (Seq<char>, bool)
    decreases s.len() - i,
{
    if i < 0 || i >= s.len() {
        (acc, false)
    } else if s[i] == '\\' {
        if i + 1 < s.len() {
            string_from(s, i + 2, acc.push(unescaped_char(s[i + 1])))
        } else {
            (acc, false)
        }
    } else if s[i] == '"' {
        (acc, true)
    } else {
        string_from(s, i + 1, acc.push(s[i]))
    }
}

/// Where the value of a key goes on: behind the first colon that follows the key.
pub open spec fn value_start(s: Seq<char>, key: Seq<char>) -> Option<int> {
    match text::find_str_spec(s, "\""@ + key + "\""@) {
        None => None,
        Some(k) => match text::find_char_from(s, ':', k + key.len() + 2) {
            None => None,
            Some(c) => Some(c + 1),
        },
    }
}

/// The text of a key, and whether it ends: the string that starts at the first
/// quote behind the colon.
pub open spec fn text_field(s: Seq<char>, key: Seq<char>) -> Option<(Seq<char>, bool)> {
    match value_start(s, key) {
        None => None,
        Some(c) => match text::find_char_from(s, '"', c) {
            None => None,
            Some(q) => Some(string_from(s, q + 1, Seq::empty())),
        },
    }
}

/// Where the value of a key goes on.
pub fn find_value(s: &str, key: &str) -> (r: Option<usize>)
    ensures
        text::opt_int(r) == value_start(s@, key@),
        match r {
            Some(i) => i <= s@.len(),
            None => true,
        },
{
    let chars = text::chars_of(s);
    let mut p = "\"".to_owned();
    p.append(key);
    p.append("\"");
    proof {
        reveal_strlit("\"");
        assert(p@.len() == key@.len() + 2);
    }
    let pat = text::chars_of(p.as_str());
    let n: usize = chars.len();
    assert(n == s@.len());
    match text::find_chars(chars.as_slice(), pat.as_slice(), 0) {
        None => None,
        Some(k) => {
            proof {
                text::lemma_find_from(s@, p@, 0);
            }
            match text::find_char_in(chars.as_slice(), ':', k + pat.len()) {
                None => None,
                Some(c) => {
                    proof {
                        text::lemma_find_char_from(s@, ':', k + pat@.len());
                    }
                    Some(c + 1)
                },
            }
        },
    }
}

/// The text of a key, and whether it ends.
pub fn read_text_field(s: &str, key: &str) -> (r: Option<(String, bool)>)
    ensures
        match r {
            Some((t, closed)) => text_field(s@, key@) == Some((t@, closed)),
            None => text_field(s@, key@) is None,
        },
{
    let chars = text::chars_of(s);
    let start = match find_value(s, key) {
        Some(c) => c,
        None => {
            return None;
        },
    };
    let q = match text::find_char_in(chars.as_slice(), '"', start) {
        Some(q) => q,
        None => {
            return None;
        },
    };
    proof {
        text::lemma_find_char_from(s@, '"', start as int);
    }
    let n: usize = chars.len();
    let ghost all = string_from(s@, q + 1, Seq::empty());
    let mut out = String::new();
    let mut i: usize = q + 1;
    assert(out@ =~= Seq::<char>::empty());
    while i < n
        invariant
            i <= n,
            n == chars@.len(),
            chars@ == s@,
            all == string_from(s@, i as int, out@),
            text_field(s@, key@) == Some(all),
        decreases n - i,
    {
        let c = chars[i];
        if c == '\\' {
            if i + 1 < n {
                let e = chars[i + 1];
                let u = if e == 'n' {
                    '\n'
                } else if e == 't' {
                    '\t'
                } else {
                    e
                };
                out.push(u);
                i += 2;
            } else {
                return Some((out, false));
            }
        } else if c == '"' {
            return Some((out, true));
        } else {
            out.push(c);
            i += 1;
        }
    }
    Some((out, false))
}

/// The truth value of a key.
pub open spec fn flag_field(s: Seq<char>, key: Seq<char>) -> Option<bool> {
    match value_start(s, key) {
        None => None,
        Some(c) => {
            let rest = text::trim_start_spec(s.skip(c));
            if "true"@.is_prefix_of(rest) {
                Some(true)
            } else if "false"@.is_prefix_of(rest) {
                Some(false)
            } else {
                None
            }
        },
    }
}

/// The truth value of a key.
pub fn read_flag_field(s: &str, key: &str) -> (r: Option<bool>)
    ensures
        r == flag_field(s@, key@),
{
    match find_value(s, key) {
        None => None,
        Some(c) => {
            let chars = text::chars_of(s);
            let rest = text::string_of_range(chars.as_slice(), c, chars.len());
            assert(rest@ =~= s@.skip(c as int));
            let t = text::trim_start(rest.as_str());
            if text::starts_with(t.as_str(), "true") {
                Some(true)
            } else if text::starts_with(t.as_str(), "false") {
                Some(false)
            } else {
                None
            }
        },
    }
}

} // verus!
