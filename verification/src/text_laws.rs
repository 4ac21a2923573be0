//! What holds of texts that are cut, put together, trimmed, searched and read.

use crate::dslresult;
use crate::text;
use vstd::prelude::*;

verus! {

// ── Cutting and joining ──

/// The pieces of a text between the occurrences of a character hold none of it
/// and are the text when they are joined by it again.
pub proof fn law_pieces_join_back(s: Seq<char>, c: char)
    ensures
        text::join_spec(text::split_char_spec(s, c), seq![c]) == s,
        text::split_char_spec(s, c).len() > 0,
        forall|i: int, j: int|
            #![trigger text::split_char_spec(s, c)[i][j]]
            0 <= i < text::split_char_spec(s, c).len() && 0 <= j < text::split_char_spec(
                s,
                c,
            )[i].len() ==> text::split_char_spec(s, c)[i][j] != c,
    decreases s.len(),
{
    text::lemma_find_char_from(s, c, 0);
    let ps = text::split_char_spec(s, c);
    match text::find_char_spec(s, c) {
        Some(k) => {
            let rest = s.skip(k + 1);
            law_pieces_join_back(rest, c);
            let qs = text::split_char_spec(rest, c);
            assert(ps =~= seq![s.take(k)] + qs);
            dslresult::lemma_join_first(ps, seq![c]);
            assert(ps.skip(1) =~= qs);
            assert(s =~= s.take(k) + seq![c] + rest);
            assert forall|i: int, j: int|
                #![trigger ps[i][j]]
                0 <= i < ps.len() && 0 <= j < ps[i].len() implies ps[i][j] != c by {
                if i > 0 {
                    assert(ps[i] == qs[i - 1]);
                    assert(qs[i - 1][j] != c);
                }
            }
        },
        None => {
            assert(ps =~= seq![s]);
        },
    }
}

/// The pieces of a text between the occurrences of a part are the text when they
/// are joined by it again, and the part stands in none of them.
pub proof fn law_parts_join_back(s: Seq<char>, p: Seq<char>)
    requires
        p.len() > 0,
    ensures
        text::join_spec(text::split_str_spec(s, p), p) == s,
        text::split_str_spec(s, p).len() > 0,
        text::split_str_spec(s, p).len() == 1 <==> !text::has(s, p),
    decreases s.len(),
{
    text::lemma_find_from(s, p, 0);
    let ps = text::split_str_spec(s, p);
    match text::find_str_spec(s, p) {
        Some(k) => {
            let rest = s.skip(k + p.len());
            law_parts_join_back(rest, p);
            let qs = text::split_str_spec(rest, p);
            assert(ps =~= seq![s.take(k)] + qs);
            dslresult::lemma_join_first(ps, p);
            assert(ps.skip(1) =~= qs);
            assert(s.subrange(k, k + p.len()) == p);
            assert(s =~= s.take(k) + p + rest);
            assert(text::occurs_at(s, p, k));
        },
        None => {
            assert(ps =~= seq![s]);
        },
    }
}

/// Replacing changes nothing where there is nothing to replace; else it puts the
/// new text in the place of the first occurrence and goes on behind it.
pub proof fn law_replacing_goes_on(s: Seq<char>, from: Seq<char>, to: Seq<char>, k: int)
    requires
        from.len() > 0,
    ensures
        !text::has(s, from) ==> text::replace_spec(s, from, to) == s,
        text::occurs_at(s, from, k) && (forall|j: int|
            0 <= j < k ==> !#[trigger] text::occurs_at(s, from, j)) ==> text::replace_spec(
            s,
            from,
            to,
        ) == s.take(k) + to + text::replace_spec(s.skip(k + from.len()), from, to),
{
    text::lemma_find_from(s, from, 0);
    let ps = text::split_str_spec(s, from);
    match text::find_str_spec(s, from) {
        Some(i) => {
            assert(text::has(s, from)) by {
                assert(text::occurs_at(s, from, i));
            }
            if text::occurs_at(s, from, k) && (forall|j: int|
                0 <= j < k ==> !#[trigger] text::occurs_at(s, from, j)) {
                if i < k {
                    assert(!text::occurs_at(s, from, i));
                }
                assert(i == k);
                let rest = s.skip(k + from.len());
                law_parts_join_back(rest, from);
                let qs = text::split_str_spec(rest, from);
                assert(ps =~= seq![s.take(k)] + qs);
                dslresult::lemma_join_first(ps, to);
                assert(ps.skip(1) =~= qs);
            }
        },
        None => {
            assert(ps =~= seq![s]);
        },
    }
}

/// A text is cut once at the first of the characters.
pub proof fn law_cut_at_the_first(a: Seq<char>, c: char, b: Seq<char>)
    requires
        forall|i: int| 0 <= i < a.len() ==> #[trigger] a[i] != c,
    ensures
        text::split_once_spec(a + seq![c] + b, c) == Some((a, b)),
        text::split_once_spec(a, c) is None,
{
    let s = a + seq![c] + b;
    text::lemma_find_char_none(a, c, 0);
    assert forall|j: int| 0 <= j < a.len() implies s[j] != c by {
        assert(s[j] == a[j]);
    }
    assert(s[a.len() as int] == c);
    text::lemma_find_char_is(s, c, 0, a.len() as int);
    assert(s.take(a.len() as int) =~= a);
    assert(s.skip(a.len() as int + 1) =~= b);
}

/// What stands behind a beginning is found exactly where the text has it.
pub proof fn law_beginnings_come_off(p: Seq<char>, s: Seq<char>)
    ensures
        text::after_prefix(p + s, p) == Some(s),
        text::after_prefix(s, p) is Some <==> p.is_prefix_of(s),
        text::after_prefix(s, p) matches Some(t) ==> s == p + t,
{
    let t = p + s;
    assert(t.subrange(0, p.len() as int) =~= p);
    assert(t.skip(p.len() as int) =~= s);
    if p.is_prefix_of(s) {
        assert(s =~= p + s.skip(p.len() as int));
    }
}

/// A text that is cut keeps its beginning, and is cut only where it is longer.
pub proof fn law_cut_texts_are_beginnings(s: Seq<char>, n: nat)
    ensures
        text::cut_spec(s, n).is_prefix_of(s),
        text::cut_spec(s, n).len() == (if s.len() <= n {
            s.len()
        } else {
            n
        }),
{
    let c = text::cut_spec(s, n);
    assert(s.subrange(0, c.len() as int) =~= c);
}

// ── White space ──

/// Trimming takes white space off both ends and nothing else.
pub proof fn law_trimming_takes_the_ends(a: Seq<char>, s: Seq<char>, b: Seq<char>)
    requires
        text::blank(a),
        text::blank(b),
        s.len() > 0 ==> !text::is_space(s[0]) && !text::is_space(s.last()),
    ensures
        text::trimmed(a + s + b) == s,
{
    let t = a + s + b;
    lemma_trim_front(a, s + b);
    assert(a + (s + b) =~= t);
    if s.len() > 0 {
        assert((s + b)[0] == s[0]);
        lemma_trim_back(s, b);
    } else {
        assert(s + b =~= b);
        lemma_trim_front(b, Seq::empty());
        assert(b + Seq::<char>::empty() =~= b);
    }
}

proof fn lemma_trim_front(a: Seq<char>, s: Seq<char>)
    requires
        text::blank(a),
    ensures
        text::trim_start_spec(a + s) == text::trim_start_spec(s),
    decreases a.len(),
{
    if a.len() > 0 {
        let t = a + s;
        assert(t[0] == a[0]);
        assert(text::is_space(a[0]));
        assert(t.skip(1) =~= a.skip(1) + s);
        assert forall|i: int| 0 <= i < a.skip(1).len() implies text::is_space(a.skip(1)[i]) by {
            assert(a.skip(1)[i] == a[i + 1]);
            assert(text::is_space(a[i + 1]));
        }
        lemma_trim_front(a.skip(1), s);
    } else {
        assert(a + s =~= s);
    }
}

proof fn lemma_trim_back(s: Seq<char>, b: Seq<char>)
    requires
        text::blank(b),
        s.len() > 0,
        !text::is_space(s.last()),
    ensures
        text::trim_end_spec(s + b) == s,
    decreases b.len(),
{
    let t = s + b;
    if b.len() > 0 {
        assert(t.last() == b.last());
        assert(text::is_space(b[b.len() - 1]));
        assert(t.drop_last() =~= s + b.drop_last());
        assert forall|i: int| 0 <= i < b.drop_last().len() implies text::is_space(
            b.drop_last()[i],
        ) by {
            assert(text::is_space(b[i]));
        }
        lemma_trim_back(s, b.drop_last());
    } else {
        assert(t =~= s);
    }
}

/// The words of a text are its runs without white space: no word holds any, and
/// what a text starts with up to its first white space is its first word.
pub proof fn law_words_stand_between_spaces(w: Seq<char>, gap: Seq<char>, s: Seq<char>)
    requires
        w.len() > 0,
        forall|i: int| 0 <= i < w.len() ==> !text::is_space(#[trigger] w[i]),
        gap.len() > 0,
        text::blank(gap),
    ensures
        text::words_spec(w + gap + s) == seq![w] + text::words_spec(s),
        text::words_spec(gap + s) == text::words_spec(s),
        text::words_spec(w) == seq![w],
{
    let t = w + gap + s;
    assert(t[0] == w[0]);
    assert(!text::is_space(w[0]));
    lemma_word_len(w, gap + s);
    assert(w + (gap + s) =~= t);
    assert((gap + s)[0] == gap[0]);
    assert(text::is_space(gap[0]));
    assert(t.take(w.len() as int) =~= w);
    assert(t.skip(w.len() as int) =~= gap + s);
    lemma_trim_front(gap, s);
    lemma_words_trim(gap + s);
    lemma_words_trim(s);
    let e = Seq::<char>::empty();
    lemma_word_len(w, e);
    assert(w + e =~= w);
    assert(w.take(w.len() as int) =~= w);
    assert(w.skip(w.len() as int) =~= e);
    assert(text::words_spec(e) =~= Seq::<Seq<char>>::empty());
    assert(text::words_spec(w) =~= seq![w]);
}

/// Words do not see white space in front.
proof fn lemma_words_trim(s: Seq<char>)
    ensures
        text::words_spec(s) == text::words_spec(text::trim_start_spec(s)),
{
    let t = text::trim_start_spec(s);
    text::lemma_trim_start(s);
    assert(text::trim_start_spec(t) == t);
}

proof fn lemma_word_len(w: Seq<char>, s: Seq<char>)
    requires
        forall|i: int| 0 <= i < w.len() ==> !text::is_space(#[trigger] w[i]),
        s.len() > 0 ==> text::is_space(s[0]),
    ensures
        text::word_len(w + s) == w.len(),
    decreases w.len(),
{
    let t = w + s;
    if w.len() > 0 {
        assert(t[0] == w[0]);
        assert(!text::is_space(w[0]));
        assert(t.skip(1) =~= w.skip(1) + s);
        assert forall|i: int| 0 <= i < w.skip(1).len() implies !text::is_space(
            #[trigger] w.skip(1)[i],
        ) by {
            assert(w.skip(1)[i] == w[i + 1]);
        }
        lemma_word_len(w.skip(1), s);
    } else {
        assert(t =~= s);
    }
}

// ── Lines ──

/// A line ends at its line feed, with or without a carriage return before it;
/// what follows are the lines behind it.
pub proof fn law_lines_end_at_line_feeds(l: Seq<char>, s: Seq<char>)
    requires
        forall|i: int| 0 <= i < l.len() ==> #[trigger] l[i] != '\n',
        l.len() > 0 ==> l.last() != '\r',
    ensures
        text::lines_spec(l + seq!['\n'] + s) == seq![l] + text::lines_spec(s),
        text::lines_spec(l + seq!['\r', '\n'] + s) == seq![l] + text::lines_spec(s),
        l.len() > 0 ==> text::lines_spec(l) == seq![l],
        text::lines_spec(Seq::empty()) == Seq::<Seq<char>>::empty(),
{
    let a = l + seq!['\n'] + s;
    assert forall|j: int| 0 <= j < l.len() implies a[j] != '\n' by {
        assert(a[j] == l[j]);
    }
    text::lemma_find_char_is(a, '\n', 0, l.len() as int);
    assert(a.take(l.len() as int) =~= l);
    assert(a.skip(l.len() as int + 1) =~= s);
    let b = l + seq!['\r', '\n'] + s;
    assert forall|j: int| 0 <= j < l.len() + 1 implies b[j] != '\n' by {
        if j < l.len() {
            assert(b[j] == l[j]);
        }
    }
    text::lemma_find_char_is(b, '\n', 0, l.len() as int + 1);
    assert(b.take(l.len() as int + 1) =~= l.push('\r'));
    assert(l.push('\r').drop_last() =~= l);
    assert(b.skip(l.len() as int + 2) =~= s);
    text::lemma_find_char_none(l, '\n', 0);
}

// ── Numbers ──

/// A number in decimal is read back: it holds digits only, the first is no zero
/// unless it is the only one, and their value is the number.
pub proof fn law_decimals_read_back(n: nat)
    ensures
        text::all_digits(text::dec(n)),
        text::dec(n).len() > 0,
        text::digits_value(text::dec(n)) == n,
        text::dec(n).len() > 1 ==> text::dec(n)[0] != '0',
    decreases n,
{
    let d = text::dec(n);
    if n < 10 {
        lemma_digit(n as int);
        assert(d.drop_last() =~= Seq::<char>::empty());
        assert(text::digits_value(d.drop_last()) == 0);
    } else {
        law_decimals_read_back(n / 10);
        lemma_digit((n % 10) as int);
        let e = text::dec(n / 10);
        assert(d.drop_last() =~= e);
        assert forall|i: int| 0 <= i < d.len() implies text::is_digit(d[i]) by {
            if i < e.len() {
                assert(d[i] == e[i]);
            }
        }
        assert(d[0] == e[0]);
        if e.len() == 1 {
            assert(n / 10 < 10) by {
                if n / 10 >= 10 {
                    law_decimals_read_back(n / 10 / 10);
                }
            }
            lemma_digit((n / 10) as int);
        }
    }
}

proof fn lemma_digit(d: int)
    requires
        0 <= d < 10,
    ensures
        text::is_digit(text::digit(d)),
        text::digit(d) as u32 - '0' as u32 == d,
        d > 0 ==> text::digit(d) != '0',
{
}

/// A number not above the bound is read, with or without a plus, and none above
/// it; a text with anything but digits behind that is no number.
pub proof fn law_numbers_are_read(n: nat, max: nat, s: Seq<char>)
    ensures
        n <= max ==> text::unsigned_spec(text::dec(n), max) == Some(n) && text::unsigned_spec(
            seq!['+'] + text::dec(n),
            max,
        ) == Some(n),
        n > max ==> text::unsigned_spec(text::dec(n), max) is None,
        text::unsigned_spec(s, max) matches Some(m) ==> m <= max && s.len() > 0 && forall|i: int|
            1 <= i < s.len() ==> text::is_digit(#[trigger] s[i]),
        text::unsigned_spec(s, max) is Some ==> text::is_digit(s[0]) || (s[0] == '+' && s.len() > 1),
{
    let d = text::dec(n);
    law_decimals_read_back(n);
    assert(text::is_digit(d[0]));
    assert(d[0] != '+');
    let p = seq!['+'] + d;
    assert(p[0] == '+');
    assert(p.skip(1) =~= d);
    if text::unsigned_spec(s, max) is Some {
        let u = text::unsigned_part(s);
        assert forall|i: int| 1 <= i < s.len() implies text::is_digit(#[trigger] s[i]) by {
            if s.len() > 1 && s[0] == '+' {
                assert(u[i - 1] == s[i]);
                assert(text::is_digit(u[i - 1]));
            } else {
                assert(text::is_digit(u[i]));
            }
        }
    }
}

/// Trimming takes the characters of a set off both ends and nothing else.
pub proof fn law_trimming_takes_the_set(
    a: Seq<char>,
    s: Seq<char>,
    b: Seq<char>,
    set: Seq<char>,
)
    requires
        forall|i: int| 0 <= i < a.len() ==> set.contains(#[trigger] a[i]),
        forall|i: int| 0 <= i < b.len() ==> set.contains(#[trigger] b[i]),
        s.len() > 0 ==> !set.contains(s[0]) && !set.contains(s.last()),
    ensures
        text::trim_set_spec(a + s + b, set) == s,
{
    let t = a + s + b;
    assert(a + (s + b) =~= t);
    lemma_front_set(a, s + b, set);
    if s.len() > 0 {
        assert((s + b)[0] == s[0]);
        lemma_back_set(s, b, set);
    } else {
        assert(s + b =~= b);
        lemma_front_set(b, Seq::empty(), set);
        assert(b + Seq::<char>::empty() =~= b);
    }
}

proof fn lemma_front_set(a: Seq<char>, s: Seq<char>, set: Seq<char>)
    requires
        forall|i: int| 0 <= i < a.len() ==> set.contains(#[trigger] a[i]),
    ensures
        text::front_spec(a + s, set) == text::front_spec(s, set),
    decreases a.len(),
{
    if a.len() > 0 {
        let t = a + s;
        assert(t[0] == a[0]);
        assert(t.skip(1) =~= a.skip(1) + s);
        assert forall|i: int| 0 <= i < a.skip(1).len() implies set.contains(
            #[trigger] a.skip(1)[i],
        ) by {
            assert(a.skip(1)[i] == a[i + 1]);
        }
        lemma_front_set(a.skip(1), s, set);
    } else {
        assert(a + s =~= s);
    }
}

proof fn lemma_back_set(s: Seq<char>, b: Seq<char>, set: Seq<char>)
    requires
        forall|i: int| 0 <= i < b.len() ==> set.contains(#[trigger] b[i]),
        s.len() > 0,
        !set.contains(s.last()),
    ensures
        text::back_spec(s + b, set) == s,
    decreases b.len(),
{
    let t = s + b;
    if b.len() > 0 {
        assert(t.last() == b.last());
        assert(set.contains(b[b.len() - 1]));
        assert(t.drop_last() =~= s + b.drop_last());
        assert forall|i: int| 0 <= i < b.drop_last().len() implies set.contains(
            #[trigger] b.drop_last()[i],
        ) by {
            assert(b.drop_last()[i] == b[i]);
        }
        lemma_back_set(s, b.drop_last(), set);
    } else {
        assert(t =~= s);
    }
}

/// A text is cut at every character of a set: what stands before the first is the
/// first piece, and the pieces of the rest follow.
pub proof fn law_sets_cut(a: Seq<char>, c: char, s: Seq<char>, set: Seq<char>)
    requires
        forall|i: int| 0 <= i < a.len() ==> !set.contains(#[trigger] a[i]),
        set.contains(c),
    ensures
        text::split_set_spec(a + seq![c] + s, set) == seq![a] + text::split_set_spec(s, set),
        text::split_set_spec(a, set) == seq![a],
{
    let t = a + seq![c] + s;
    assert forall|i: int| 0 <= i < a.len() implies !set.contains(#[trigger] t[i]) by {
        assert(t[i] == a[i]);
    }
    assert(t[a.len() as int] == c);
    lemma_find_set(t, set, 0, a.len() as int);
    lemma_find_set(a, set, 0, a.len() as int);
    assert(t.take(a.len() as int) =~= a);
    assert(t.skip(a.len() as int + 1) =~= s);
}

proof fn lemma_find_set(s: Seq<char>, set: Seq<char>, i: int, k: int)
    requires
        0 <= i <= k <= s.len(),
        forall|j: int| i <= j < k ==> !set.contains(#[trigger] s[j]),
        k < s.len() ==> set.contains(s[k]),
    ensures
        text::find_set_from(s, set, i) == (if k < s.len() {
            Some(k)
        } else {
            None
        }),
    decreases k - i,
{
    if i < k {
        lemma_find_set(s, set, i + 1, k);
    }
}

/// In lower case the capital letters of ASCII are small and every other character
/// is as it was.
pub proof fn law_small_letters(s: Seq<char>, i: int, c: char)
    requires
        0 <= i < s.len(),
        c == s[i],
    ensures
        text::lower_ascii_spec(s).len() == s.len(),
        'A' as u32 <= c as u32 <= 'Z' as u32 ==> text::lower_ascii_spec(s)[i] as u32 - 'a' as u32
            == c as u32 - 'A' as u32,
        !('A' as u32 <= c as u32 <= 'Z' as u32) ==> text::lower_ascii_spec(s)[i] == c,
{
    assert(text::lower_ascii_spec(s)[i] == text::lower_ascii(c));
}

/// The last of the characters is found: none stands behind it.
pub proof fn law_the_last_is_found(a: Seq<char>, c: char, b: Seq<char>)
    requires
        forall|i: int| 0 <= i < b.len() ==> #[trigger] b[i] != c,
    ensures
        text::rfind_char_spec(a + seq![c] + b, c) == Some(a.len() as int),
        text::rfind_char_spec(b, c) is None,
{
    let s = a + seq![c] + b;
    text::lemma_rfind_char(s, c, s.len() as int);
    text::lemma_rfind_char(b, c, b.len() as int);
    assert(s[a.len() as int] == c);
    assert forall|i: int| a.len() < i < s.len() implies s[i] != c by {
        assert(s[i] == b[i - a.len() - 1]);
    }
}

/// A number with its sign is read back.
pub proof fn law_signs_are_written(n: int)
    ensures
        n >= 0 ==> text::digits_value(text::signed_dec(n)) == n,
        n < 0 ==> text::signed_dec(n)[0] == '-' && text::digits_value(text::signed_dec(n).skip(1))
            == -n,
        text::signed_dec(n)[0] == '-' <==> n < 0,
{
    reveal_strlit("-");
    if n < 0 {
        law_decimals_read_back((-n) as nat);
        assert(text::signed_dec(n).skip(1) =~= text::dec((-n) as nat));
    } else {
        law_decimals_read_back(n as nat);
        assert(text::is_digit(text::dec(n as nat)[0]));
    }
}

} // verus!
