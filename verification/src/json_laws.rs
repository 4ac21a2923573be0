//! What is written as JSON, and what is read of it.

use crate::json;
use crate::jvalue;
use crate::jvalue::GJv;
use crate::text;
use vstd::prelude::*;

verus! {

// ── Writing ──

/// Quotes, backslashes, line feeds, returns and tabs have an escape of two
/// characters, any other control character one of six with its number in
/// hexadecimal, and every other character stands for itself.
pub proof fn law_escapes_of_characters(c: char)
    ensures
        c == '"' ==> json::escaped_char(c) == seq!['\\', '"'],
        c == '\\' ==> json::escaped_char(c) == seq!['\\', '\\'],
        c == '\n' ==> json::escaped_char(c) == seq!['\\', 'n'],
        c == '\r' ==> json::escaped_char(c) == seq!['\\', 'r'],
        c == '\t' ==> json::escaped_char(c) == seq!['\\', 't'],
        (c as int) < 32 && c != '\n' && c != '\r' && c != '\t' ==> json::escaped_char(c).len() == 6
            && json::escaped_char(c).take(4) == seq!['\\', 'u', '0', '0'] && jvalue::code_of(
            json::escaped_char(c).skip(2),
        ) == Some(c as int),
        (c as int) >= 32 && c != '"' && c != '\\' ==> json::escaped_char(c) == seq![c],
{
    reveal_strlit("\\\"");
    reveal_strlit("\\\\");
    reveal_strlit("\\n");
    reveal_strlit("\\r");
    reveal_strlit("\\t");
    reveal_strlit("\\u00");
    let e = json::escaped_char(c);
    if (c as int) < 32 && c != '\n' && c != '\r' && c != '\t' {
        assert(e.take(4) =~= seq!['\\', 'u', '0', '0']);
        let h = e.skip(2);
        let d = c as int;
        law_hexadecimal_digits_read_back(d / 16);
        law_hexadecimal_digits_read_back(d % 16);
        assert(h.len() == 4 && h[0] == '0' && h[1] == '0');
        assert(h[2] == json::hex_digit(d / 16) && h[3] == json::hex_digit(d % 16));
        reveal_with_fuel(jvalue::hex_number, 5);
        assert(jvalue::hex_number(h, 4) == Some(d));
    } else if c == '"' {
        assert(e =~= seq!['\\', '"']);
    } else if c == '\\' {
        assert(e =~= seq!['\\', '\\']);
    } else if c == '\n' {
        assert(e =~= seq!['\\', 'n']);
    } else if c == '\r' {
        assert(e =~= seq!['\\', 'r']);
    } else if c == '\t' {
        assert(e =~= seq!['\\', 't']);
    }
}

/// A hexadecimal digit has its value, small or large.
pub proof fn law_hexadecimal_digits_read_back(d: int)
    requires
        0 <= d < 16,
    ensures
        jvalue::hex_value(json::hex_digit(d)) == Some(d),
        jvalue::hex_value('A') == Some(10int),
        jvalue::hex_value('C') == Some(12int),
        jvalue::hex_value('F') == Some(15int),
        jvalue::hex_value('G') is None,
        jvalue::hex_value('g') is None,
        jvalue::hex_value(' ') is None,
{
}

/// A text is escaped part by part.
pub proof fn law_parts_are_escaped(a: Seq<char>, b: Seq<char>)
    ensures
        json::escaped(a + b) == json::escaped(a) + json::escaped(b),
    decreases b.len(),
{
    if b.len() == 0 {
        assert(a + b =~= a);
        assert(json::escaped(a) + json::escaped(b) =~= json::escaped(a));
    } else {
        assert((a + b).drop_last() =~= a + b.drop_last());
        law_parts_are_escaped(a, b.drop_last());
        assert((json::escaped(a) + json::escaped(b.drop_last())) + json::escaped_char(b.last())
            =~= json::escaped(a) + json::escaped(b));
    }
}

/// A text of one character is escaped as the character.
pub proof fn law_one_character_is_escaped(c: char)
    ensures
        json::escaped(seq![c]) == json::escaped_char(c),
{
    assert(seq![c].drop_last() =~= Seq::<char>::empty());
    assert(json::escaped(Seq::<char>::empty()) =~= Seq::<char>::empty());
    assert(Seq::<char>::empty() + json::escaped_char(c) =~= json::escaped_char(c));
}

// ── Reading a field ──

/// Whether a character is read back by the reading of fields, which knows the
/// escapes of line feeds and tabs alone.
pub open spec fn simple(c: char) -> bool {
    (c as int) >= 32 || c == '\n' || c == '\t'
}

#[verifier::rlimit(60)]
proof fn lemma_field_text(s: Seq<char>, i: int, t: Seq<char>, acc: Seq<char>)
    requires
        0 <= i,
        i + json::escaped(t).len() < s.len(),
        s.subrange(i, i + json::escaped(t).len()) == json::escaped(t),
        s[i + json::escaped(t).len()] == '"',
        forall|j: int| 0 <= j < t.len() ==> simple(#[trigger] t[j]),
    ensures
        json::string_from(s, i, acc) == (acc + t, true),
    decreases t.len(),
{
    if t.len() == 0 {
        assert(acc + t =~= acc);
    } else {
        jvalue::lemma_escaped_first(t);
        law_escapes_of_characters(t[0]);
        assert(simple(t[0]));
        let e = json::escaped_char(t[0]);
        let rest = json::escaped(t.skip(1));
        let all = json::escaped(t);
        assert forall|k: int| 0 <= k < all.len() implies s[i + k] == #[trigger] all[k] by {
            assert(s.subrange(i, i + all.len())[k] == all[k]);
        }
        assert(s[i + 0] == all[0]);
        assert(all[0] == e[0]);
        if e.len() == 2 {
            assert(s[i + 1] == all[1]);
            assert(all[1] == e[1]);
        }
        assert(s.subrange(i + e.len(), i + e.len() + rest.len()) =~= rest) by {
            assert forall|k: int| 0 <= k < rest.len() implies s.subrange(
                i + e.len(),
                i + e.len() + rest.len(),
            )[k] == rest[k] by {
                assert(s[i + (e.len() + k)] == all[e.len() + k]);
            }
        }
        assert forall|j: int| 0 <= j < t.skip(1).len() implies simple(#[trigger] t.skip(1)[j]) by {
            assert(simple(t[j + 1]));
        }
        lemma_field_text(s, i + e.len(), t.skip(1), acc.push(t[0]));
        assert(acc.push(t[0]) + t.skip(1) =~= acc + t);
    }
}

/// The text of a key is the escaped text between the quotes behind its colon.
#[verifier::rlimit(60)]
pub proof fn law_text_fields_are_read(
    a: Seq<char>,
    key: Seq<char>,
    gap: Seq<char>,
    t: Seq<char>,
    b: Seq<char>,
)
    requires
        ({
            let s = a + ("\""@ + key + "\""@) + seq![':'] + gap + seq!['"'] + json::escaped(t)
                + seq!['"'] + b;
            text::find_str_spec(s, "\""@ + key + "\""@) == Some(a.len() as int)
        }),
        forall|j: int| 0 <= j < gap.len() ==> #[trigger] gap[j] != '"',
        forall|j: int| 0 <= j < t.len() ==> simple(#[trigger] t[j]),
    ensures
        ({
            let s = a + ("\""@ + key + "\""@) + seq![':'] + gap + seq!['"'] + json::escaped(t)
                + seq!['"'] + b;
            json::text_field(s, key) == Some((t, true))
        }),
{
    reveal_strlit("\"");
    let k = "\""@ + key + "\""@;
    let e = json::escaped(t);
    let s = a + k + seq![':'] + gap + seq!['"'] + e + seq!['"'] + b;
    let c = (a.len() + key.len()) as int + 2;
    assert(k.len() == key.len() + 2);
    assert(s[c] == ':');
    text::lemma_find_char_is(s, ':', c, c);
    let q = c + 1 + gap.len();
    assert forall|j: int| c + 1 <= j < q implies s[j] != '"' by {
        assert(s[j] == gap[j - (c + 1)]);
    }
    assert(s[q] == '"');
    text::lemma_find_char_is(s, '"', c + 1, q);
    assert(s.subrange(q + 1, q + 1 + e.len()) =~= e);
    assert(s[q + 1 + e.len()] == '"');
    lemma_field_text(s, q + 1, t, Seq::empty());
    assert(Seq::<char>::empty() + t =~= t);
}

/// The truth value of a key is the word behind its colon; any other word is none,
/// and so is a key that does not occur.
pub proof fn law_truth_fields_are_read(a: Seq<char>, key: Seq<char>, b: Seq<char>)
    requires
        text::find_str_spec(a + ("\""@ + key + "\""@) + seq![':'] + b, "\""@ + key + "\""@)
            == Some(a.len() as int),
    ensures
        ({
            let s = a + ("\""@ + key + "\""@) + seq![':'] + b;
            let rest = text::trim_start_spec(b);
            &&& json::flag_field(s, key) == Some(true) <==> "true"@.is_prefix_of(rest)
            &&& json::flag_field(s, key) == Some(false) <==> "false"@.is_prefix_of(rest)
        }),
{
    reveal_strlit("\"");
    reveal_strlit("true");
    reveal_strlit("false");
    let k = "\""@ + key + "\""@;
    let s = a + k + seq![':'] + b;
    let c = (a.len() + key.len()) as int + 2;
    assert(k.len() == key.len() + 2);
    assert(s[c] == ':');
    text::lemma_find_char_is(s, ':', c, c);
    assert(s.skip(c + 1) =~= b);
    let rest = text::trim_start_spec(b);
    if "true"@.is_prefix_of(rest) && "false"@.is_prefix_of(rest) {
        assert("true"@[0] == rest[0]);
        assert("false"@[0] == rest[0]);
    }
}

/// A key that does not occur has no value.
pub proof fn law_missing_fields_are_not_read(s: Seq<char>, key: Seq<char>)
    requires
        !text::has(s, "\""@ + key + "\""@),
    ensures
        json::text_field(s, key) is None,
        json::flag_field(s, key) is None,
{
    text::lemma_has_iff_found(s, "\""@ + key + "\""@);
}

// ── Reading values ──

/// White space is passed over, and nothing else is.
pub proof fn law_gaps_are_passed_over(s: Seq<char>, i: int, k: int)
    requires
        0 <= i <= k <= s.len(),
        forall|j: int|
            i <= j < k ==> #[trigger] s[j] == ' ' || s[j] == '\t' || s[j] == '\n' || s[j] == '\r'
                || s[j] == '\u{c}',
        k < s.len() ==> s[k] != ' ' && s[k] != '\t' && s[k] != '\n' && s[k] != '\r' && s[k]
            != '\u{c}',
    ensures
        jvalue::skip(s, i) == k,
    decreases k - i,
{
    if i < k {
        assert(s[i] == s[i]);
        law_gaps_are_passed_over(s, i + 1, k);
    }
}

/// An escape stands for a line feed, a tab, a return, a backspace or a form feed by
/// its letter, and any other for its own character.
pub proof fn law_escapes_stand_for_characters(s: Seq<char>, i: int, acc: Seq<char>)
    requires
        0 <= i,
        i + 1 < s.len(),
        s[i] == '\\',
        s[i + 1] != 'u',
    ensures
        ({
            let c = s[i + 1];
            let means = if c == 'n' {
                '\u{a}'
            } else if c == 't' {
                '\u{9}'
            } else if c == 'r' {
                '\u{d}'
            } else if c == 'b' {
                '\u{8}'
            } else if c == 'f' {
                '\u{c}'
            } else {
                c
            };
            jvalue::string_rest(s, i, acc) == jvalue::string_rest(s, i + 2, acc.push(means))
        }),
{
}

/// Four hexadecimal digits stand for the character with that number.
pub proof fn law_numbers_stand_for_characters(s: Seq<char>, i: int, acc: Seq<char>, c: char)
    requires
        0 <= i,
        i + 5 < s.len(),
        s[i] == '\\',
        s[i + 1] == 'u',
        s[i + 2] != '+',
        (c as int) < 0x10000,
        jvalue::hex_value(s[i + 2]) == Some(c as int / 4096),
        jvalue::hex_value(s[i + 3]) == Some(c as int / 256 % 16),
        jvalue::hex_value(s[i + 4]) == Some(c as int / 16 % 16),
        jvalue::hex_value(s[i + 5]) == Some(c as int % 16),
    ensures
        jvalue::string_rest(s, i, acc) == jvalue::string_rest(s, i + 6, acc.push(c)),
{
    let h = s.subrange(i + 2, i + 6);
    assert(h[0] == s[i + 2] && h[1] == s[i + 3] && h[2] == s[i + 4] && h[3] == s[i + 5]);
    reveal_with_fuel(jvalue::hex_number, 5);
    let d = c as int;
    assert(((d / 4096 * 16 + d / 256 % 16) * 16 + d / 16 % 16) * 16 + d % 16 == d);
    assert(jvalue::hex_number(h, 4) == Some(d));
    assert(jvalue::scalar(d));
    assert(d as char == c);
}

/// A character beyond the first plane is written as two numbers, and read back.
pub proof fn law_pairs_stand_for_one_character(c: char)
    requires
        (c as int) >= 0x10000,
    ensures
        ({
            let n = c as int - 0x10000;
            let high = 0xD800 + n / 1024;
            let low = 0xDC00 + n % 1024;
            &&& 0xD800 <= high < 0xDC00
            &&& 0xDC00 <= low < 0xE000
            &&& jvalue::pair_code(high, low) == c as int
            &&& !jvalue::scalar(high)
            &&& !jvalue::scalar(low)
        }),
        jvalue::scalar(c as int),
{
}

/// A quoted text.
pub open spec fn quoted(t: Seq<char>) -> Seq<char> {
    seq!['"'] + json::escaped(t) + seq!['"']
}

proof fn lemma_behind(s: Seq<char>, i: int, a: Seq<char>, b: Seq<char>)
    requires
        0 <= i <= s.len(),
        s.skip(i) == a + b,
    ensures
        s.len() == i + a.len() + b.len(),
        s.subrange(i, i + a.len()) == a,
        s.skip(i + a.len()) == b,
        a.len() > 0 ==> s[i] == a[0],
        a.len() == 0 && b.len() > 0 ==> s[i] == b[0],
{
    let r = s.skip(i);
    assert(r.len() == s.len() - i);
    assert(s.subrange(i, i + a.len()) =~= r.take(a.len() as int));
    assert(r.take(a.len() as int) =~= a);
    assert(s.skip(i + a.len()) =~= r.skip(a.len() as int));
    assert(r.skip(a.len() as int) =~= b);
    if r.len() > 0 {
        assert(s[i] == r[0]);
    }
}

#[verifier::rlimit(60)]
proof fn lemma_quoted(s: Seq<char>, i: int, t: Seq<char>, rest: Seq<char>)
    requires
        0 <= i <= s.len(),
        s.skip(i) == quoted(t) + rest,
    ensures
        s[i] == '"',
        jvalue::skip(s, i) == i,
        jvalue::string_at(s, i) == Some((t, i + quoted(t).len())),
        jvalue::value_at(s, i) == Some((GJv::S(t), i + quoted(t).len())),
        s.skip(i + quoted(t).len()) == rest,
        s.len() == i + quoted(t).len() + rest.len(),
        quoted(t).len() >= 2,
{
    let e = json::escaped(t);
    let q = quoted(t);
    let n = e.len() as int;
    lemma_behind(s, i, q, rest);
    let m = s.subrange(i, i + q.len());
    assert(s.subrange(i + 1, i + 1 + e.len()) =~= m.subrange(1, 1 + n));
    assert(q.subrange(1, 1 + n) =~= e);
    assert(s[i + 1 + e.len()] == m[1 + n]);
    assert(q[1 + n] == '"');
    jvalue::lemma_read_text(s, i + 1, t, Seq::empty());
    assert(Seq::<char>::empty() + t =~= t);
    law_gaps_are_passed_over(s, i, i);
}

/// The rest of a list of texts, with its bracket.
pub open spec fn list_of(ts: Seq<Seq<char>>) -> Seq<char>
    decreases ts.len(),
{
    if ts.len() == 0 {
        seq![']']
    } else if ts.len() == 1 {
        quoted(ts[0]) + seq![']']
    } else {
        quoted(ts[0]) + (seq![','] + list_of(ts.skip(1)))
    }
}

#[verifier::rlimit(60)]
proof fn lemma_list_of(
    s: Seq<char>,
    i: int,
    ts: Seq<Seq<char>>,
    rest: Seq<char>,
    acc: Seq<GJv>,
)
    requires
        0 <= i <= s.len(),
        s.skip(i) == list_of(ts) + rest,
    ensures
        jvalue::items_at(s, i, acc) == Some(
            (acc + ts.map_values(|t: Seq<char>| GJv::S(t)), i + list_of(ts).len()),
        ),
    decreases ts.len(),
{
    let f = |t: Seq<char>| GJv::S(t);
    if ts.len() == 0 {
        lemma_behind(s, i, list_of(ts), rest);
        law_gaps_are_passed_over(s, i, i);
        assert(acc + ts.map_values(f) =~= acc);
    } else {
        let q = quoted(ts[0]);
        let tail = if ts.len() == 1 {
            seq![']']
        } else {
            seq![','] + list_of(ts.skip(1))
        };
        let now = acc.push(GJv::S(ts[0]));
        assert(list_of(ts) == q + tail);
        assert(s.skip(i) =~= q + (tail + rest));
        lemma_quoted(s, i, ts[0], tail + rest);
        let e = i + q.len();
        if ts.len() == 1 {
            lemma_behind(s, e, seq![']'], rest);
            law_gaps_are_passed_over(s, e, e);
            assert(jvalue::behind_comma(s, e) == e);
            assert(jvalue::items_at(s, e, now) == Some((now, e + 1)));
            assert(now =~= acc + ts.map_values(f));
        } else {
            assert(tail + rest =~= seq![','] + (list_of(ts.skip(1)) + rest));
            lemma_behind(s, e, seq![','], list_of(ts.skip(1)) + rest);
            law_gaps_are_passed_over(s, e, e);
            assert(jvalue::behind_comma(s, e) == e + 1);
            lemma_list_of(s, e + 1, ts.skip(1), rest, now);
            assert(now + ts.skip(1).map_values(f) =~= acc + ts.map_values(f));
        }
    }
}

/// A list of texts is read back, whatever the texts hold.
pub proof fn law_lists_read_back(ts: Seq<Seq<char>>, rest: Seq<char>)
    ensures
        jvalue::value_at(seq!['['] + list_of(ts) + rest, 0) == Some(
            (
                GJv::A(ts.map_values(|t: Seq<char>| GJv::S(t))),
                1 + list_of(ts).len() as int,
            ),
        ),
{
    let s = seq!['['] + list_of(ts) + rest;
    assert(s.skip(1) =~= list_of(ts) + rest);
    law_gaps_are_passed_over(s, 0, 0);
    lemma_list_of(s, 1, ts, rest, Seq::empty());
    assert(Seq::<GJv>::empty() + ts.map_values(|t: Seq<char>| GJv::S(t)) =~= ts.map_values(
        |t: Seq<char>| GJv::S(t),
    ));
}

/// The rest of an object of texts, with its bracket.
pub open spec fn object_of(fs: Seq<(Seq<char>, Seq<char>)>) -> Seq<char>
    decreases fs.len(),
{
    if fs.len() == 0 {
        seq!['}']
    } else if fs.len() == 1 {
        quoted(fs[0].0) + (seq![':'] + (quoted(fs[0].1) + seq!['}']))
    } else {
        quoted(fs[0].0) + (seq![':'] + (quoted(fs[0].1) + (seq![','] + object_of(fs.skip(1)))))
    }
}

/// A field of a text.
pub open spec fn field_of(f: (Seq<char>, Seq<char>)) -> (Seq<char>, GJv) {
    (f.0, GJv::S(f.1))
}

#[verifier::rlimit(60)]
proof fn lemma_field(s: Seq<char>, i: int, key: Seq<char>, t: Seq<char>, rest: Seq<char>)
    requires
        0 <= i <= s.len(),
        s.skip(i) == quoted(key) + (seq![':'] + (quoted(t) + rest)),
    ensures
        ({
            let c = i + quoted(key).len();
            let e = c + 1 + quoted(t).len();
            &&& s[i] == '"'
            &&& i < c < e
            &&& jvalue::skip(s, i) == i
            &&& jvalue::string_at(s, i) == Some((key, c))
            &&& s[c] == ':'
            &&& jvalue::skip(s, c) == c
            &&& jvalue::value_at(s, c + 1) == Some((GJv::S(t), e))
            &&& s.skip(e) == rest
            &&& s.len() == e + rest.len()
        }),
{
    lemma_quoted(s, i, key, seq![':'] + (quoted(t) + rest));
    let c = i + quoted(key).len();
    lemma_behind(s, c, seq![':'], quoted(t) + rest);
    law_gaps_are_passed_over(s, c, c);
    lemma_quoted(s, c + 1, t, rest);
}

#[verifier::rlimit(60)]
proof fn lemma_object_of(
    s: Seq<char>,
    i: int,
    fs: Seq<(Seq<char>, Seq<char>)>,
    rest: Seq<char>,
    acc: Seq<(Seq<char>, GJv)>,
)
    requires
        0 <= i <= s.len(),
        s.skip(i) == object_of(fs) + rest,
    ensures
        jvalue::fields_at(s, i, acc) == Some(
            (
                acc + fs.map_values(|f: (Seq<char>, Seq<char>)| field_of(f)),
                i + object_of(fs).len(),
            ),
        ),
    decreases fs.len(),
{
    let f = |f: (Seq<char>, Seq<char>)| field_of(f);
    if fs.len() == 0 {
        lemma_behind(s, i, object_of(fs), rest);
        law_gaps_are_passed_over(s, i, i);
        assert(acc + fs.map_values(f) =~= acc);
    } else {
        let k = quoted(fs[0].0);
        let v = quoted(fs[0].1);
        let tail = if fs.len() == 1 {
            seq!['}']
        } else {
            seq![','] + object_of(fs.skip(1))
        };
        assert(object_of(fs) == k + (seq![':'] + (v + tail)));
        assert(s.skip(i) =~= k + (seq![':'] + (v + (tail + rest))));
        lemma_field(s, i, fs[0].0, fs[0].1, tail + rest);
        let e = i + k.len() + 1 + v.len();
        let now = acc.push((fs[0].0, GJv::S(fs[0].1)));
        if fs.len() == 1 {
            lemma_behind(s, e, seq!['}'], rest);
            law_gaps_are_passed_over(s, e, e);
            assert(jvalue::behind_comma(s, e) == e);
            assert(jvalue::fields_at(s, e, now) == Some((now, e + 1)));
            assert(now =~= acc + fs.map_values(f));
        } else {
            assert(tail + rest =~= seq![','] + (object_of(fs.skip(1)) + rest));
            lemma_behind(s, e, seq![','], object_of(fs.skip(1)) + rest);
            law_gaps_are_passed_over(s, e, e);
            assert(jvalue::behind_comma(s, e) == e + 1);
            lemma_object_of(s, e + 1, fs.skip(1), rest, now);
            assert(now + fs.skip(1).map_values(f) =~= acc + fs.map_values(f));
        }
    }
}

/// An object of texts is read back, whatever its keys and texts hold.
pub proof fn law_objects_read_back(fs: Seq<(Seq<char>, Seq<char>)>, rest: Seq<char>)
    ensures
        jvalue::value_at(seq!['{'] + object_of(fs) + rest, 0) == Some(
            (
                GJv::O(fs.map_values(|f: (Seq<char>, Seq<char>)| field_of(f))),
                1 + object_of(fs).len() as int,
            ),
        ),
{
    let s = seq!['{'] + object_of(fs) + rest;
    assert(s.skip(1) =~= object_of(fs) + rest);
    law_gaps_are_passed_over(s, 0, 0);
    lemma_object_of(s, 1, fs, rest, Seq::empty());
    assert(Seq::<(Seq<char>, GJv)>::empty() + fs.map_values(
        |f: (Seq<char>, Seq<char>)| field_of(f),
    ) =~= fs.map_values(|f: (Seq<char>, Seq<char>)| field_of(f)));
}

/// A number or a word goes up to the next comma or bracket.
pub proof fn law_words_go_up_to_a_comma(s: Seq<char>, i: int, k: int)
    requires
        0 <= i < k <= s.len(),
        s[i] != '"' && s[i] != '[' && s[i] != '{',
        jvalue::skip(s, i) == i,
        forall|j: int| i <= j < k ==> #[trigger] s[j] != ',' && s[j] != ']' && s[j] != '}',
        k < s.len() ==> s[k] == ',' || s[k] == ']' || s[k] == '}',
    ensures
        jvalue::value_at(s, i) == Some((GJv::Other, k)),
{
    lemma_word(s, i, k);
}

proof fn lemma_word(s: Seq<char>, i: int, k: int)
    requires
        0 <= i <= k <= s.len(),
        forall|j: int| i <= j < k ==> #[trigger] s[j] != ',' && s[j] != ']' && s[j] != '}',
        k < s.len() ==> s[k] == ',' || s[k] == ']' || s[k] == '}',
    ensures
        jvalue::word_end(s, i) == k,
    decreases k - i,
{
    if i < k {
        assert(s[i] == s[i]);
        lemma_word(s, i + 1, k);
    }
}

} // verus!
