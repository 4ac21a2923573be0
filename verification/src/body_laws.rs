//! What a body calls, what it refers to, and what its quoted arguments are.

use crate::body;
use crate::text;
use crate::text_laws;
use vstd::prelude::*;

verus! {

// ── The function ──

proof fn lemma_filter_all(s: Seq<char>)
    requires
        forall|i: int| 0 <= i < s.len() ==> body::word_char(#[trigger] s[i]),
    ensures
        s.filter(|c: char| body::word_char(c)) == s,
    decreases s.len(),
{
    reveal(Seq::filter);
    if s.len() > 0 {
        let t = s.drop_last();
        assert forall|i: int| 0 <= i < t.len() implies body::word_char(#[trigger] t[i]) by {
            assert(t[i] == s[i]);
        }
        lemma_filter_all(t);
        assert(body::word_char(s[s.len() - 1]));
        assert(t.push(s.last()) =~= s);
    }
}

/// A body calls the function whose name stands in front of its first bracket; a
/// body without a name there, or without a bracket, calls no function of its own.
pub proof fn law_the_name_before_the_bracket_is_called(
    f: Seq<char>,
    rest: Seq<char>,
    plain: Seq<char>,
)
    requires
        f.len() > 0,
        forall|i: int| 0 <= i < f.len() ==> body::word_char(#[trigger] f[i]) && f[i] != '(',
        !text::is_space(f[0]),
        rest.len() > 0 ==> !text::is_space(rest.last()),
        forall|i: int| 0 <= i < plain.len() ==> #[trigger] plain[i] != '(',
        text::trimmed(plain) == plain,
    ensures
        body::body_op_spec(f + seq!['('] + rest) == f,
        body::body_op_spec(seq!['('] + rest) == "call"@,
        body::body_op_spec(plain) == "call"@,
{
    let e = Seq::<char>::empty();
    let s = f + seq!['('] + rest;
    text_laws::law_trimming_takes_the_ends(e, s, e);
    assert(e + s + e =~= s);
    assert forall|j: int| 0 <= j < f.len() implies s[j] != '(' by {
        assert(s[j] == f[j]);
    }
    assert(s[f.len() as int] == '(');
    text::lemma_find_char_is(s, '(', 0, f.len() as int);
    assert(s.take(f.len() as int) =~= f);
    lemma_filter_all(f);
    let t = seq!['('] + rest;
    text_laws::law_trimming_takes_the_ends(e, t, e);
    assert(e + t + e =~= t);
    text::lemma_find_char_is(t, '(', 0, 0);
    assert(t.take(0) =~= e);
    lemma_filter_all(e);
    text::lemma_find_char_none(plain, '(', 0);
}

// ── References ──

proof fn lemma_ref_end(s: Seq<char>, i: int, k: int)
    requires
        0 <= i <= k <= s.len(),
        forall|j: int| i <= j < k ==> body::ref_char(#[trigger] s[j]),
        k < s.len() ==> !body::ref_char(s[k]),
    ensures
        body::ref_end(s, i) == k,
    decreases k - i,
{
    if i < k {
        assert(body::ref_char(s[i]));
        lemma_ref_end(s, i + 1, k);
    }
}

proof fn lemma_ref_end_shift(s: Seq<char>, i: int, d: int)
    requires
        0 <= d <= i,
        d <= s.len(),
    ensures
        body::ref_end(s, i) == body::ref_end(s.skip(d), i - d) + d,
    decreases s.len() - i,
{
    if i < s.len() {
        assert(s.skip(d)[i - d] == s[i]);
        lemma_ref_end_shift(s, i + 1, d);
    }
}

proof fn lemma_refs_shift(s: Seq<char>, i: int, d: int)
    requires
        0 <= d <= i,
        d <= s.len(),
    ensures
        body::refs_from(s, i) == body::refs_from(s.skip(d), i - d),
    decreases s.len() - i,
{
    if i < s.len() {
        let t = s.skip(d);
        assert(t[i - d] == s[i]);
        lemma_refs_shift(s, i + 1, d);
        if i + 1 < s.len() {
            assert(t[i - d + 1] == s[i + 1]);
            lemma_ref_end_shift(s, i + 1, d);
            let e = body::ref_end(s, i + 1);
            if i + 1 < e <= s.len() {
                lemma_refs_shift(s, e, d);
                assert(s.subrange(i + 1, e) =~= t.subrange(i - d + 1, e - d));
            }
        }
    }
}

proof fn lemma_no_refs(s: Seq<char>, i: int, k: int)
    requires
        0 <= i <= k <= s.len(),
        forall|j: int| i <= j < k ==> #[trigger] s[j] != '@',
    ensures
        body::refs_from(s, i) == body::refs_from(s, k),
    decreases k - i,
{
    if i < k {
        assert(s[i] != '@');
        lemma_no_refs(s, i + 1, k);
    }
}

/// A body refers to every name that stands behind an at sign, as long as it goes,
/// and to those behind it; without the sign it refers to nothing.
pub proof fn law_names_behind_the_sign_are_references(a: Seq<char>, n: Seq<char>, b: Seq<char>)
    requires
        forall|i: int| 0 <= i < a.len() ==> #[trigger] a[i] != '@',
        n.len() > 0,
        text::alnum(n[0]),
        forall|i: int| 0 <= i < n.len() ==> body::ref_char(#[trigger] n[i]),
        b.len() > 0 ==> !body::ref_char(b[0]),
    ensures
        body::body_refs_spec(a + seq!['@'] + n + b) == seq![n] + body::body_refs_spec(b),
        body::body_refs_spec(a) == Seq::<Seq<char>>::empty(),
{
    let s = a + seq!['@'] + n + b;
    let k = a.len() as int;
    let e = k + 1 + n.len();
    assert forall|j: int| 0 <= j < k implies #[trigger] s[j] != '@' by {
        assert(s[j] == a[j]);
    }
    lemma_no_refs(s, 0, k);
    assert(s[k] == '@');
    assert(s[k + 1] == n[0]);
    assert forall|j: int| k + 1 <= j < e implies body::ref_char(#[trigger] s[j]) by {
        assert(s[j] == n[j - k - 1]);
    }
    if b.len() > 0 {
        assert(s[e] == b[0]);
    }
    lemma_ref_end(s, k + 1, e);
    assert(s.subrange(k + 1, e) =~= n);
    lemma_refs_shift(s, e, e);
    assert(s.skip(e) =~= b);
    lemma_no_refs(a, 0, a.len() as int);
}

// ── Arguments ──

proof fn lemma_skip_space(s: Seq<char>, i: int, k: int)
    requires
        0 <= i <= k <= s.len(),
        forall|j: int| i <= j < k ==> body::arg_space(#[trigger] s[j]),
        k < s.len() ==> !body::arg_space(s[k]),
    ensures
        body::skip_arg_space(s, i) == k,
    decreases k - i,
{
    if i < k {
        assert(body::arg_space(s[i]));
        lemma_skip_space(s, i + 1, k);
    }
}

/// An argument is what stands between the quotes behind its name, with whatever
/// blanks around the equals sign, where its name is a word of its own.
pub proof fn law_quoted_arguments_are_read(
    a: Seq<char>,
    key: Seq<char>,
    x: Seq<char>,
    y: Seq<char>,
    q: char,
    v: Seq<char>,
    b: Seq<char>,
)
    requires
        key.len() > 0,
        q == '"' || q == '\'',
        a.len() > 0 ==> !body::word_char(a.last()),
        forall|i: int| 0 <= i < x.len() ==> body::arg_space(#[trigger] x[i]),
        forall|i: int| 0 <= i < y.len() ==> body::arg_space(#[trigger] y[i]),
        forall|i: int| 0 <= i < v.len() ==> #[trigger] v[i] != q,
        text::find_from(a + key + x + seq!['='] + y + seq![q] + v + seq![q] + b, key, 0) == Some(
            a.len() as int,
        ),
    ensures
        body::quoted_arg_from(a + key + x + seq!['='] + y + seq![q] + v + seq![q] + b, key, 0)
            == Some(v),
{
    let s = a + key + x + seq!['='] + y + seq![q] + v + seq![q] + b;
    let k = a.len() as int;
    let end = k + key.len();
    let eq = end + x.len();
    let o = eq + 1 + y.len();
    let c = o + 1 + v.len();
    if k > 0 {
        assert(s[k - 1] == a.last());
    }
    assert forall|j: int| end <= j < eq implies body::arg_space(#[trigger] s[j]) by {
        assert(s[j] == x[j - end]);
    }
    assert(s[eq] == '=');
    lemma_skip_space(s, end, eq);
    assert forall|j: int| eq + 1 <= j < o implies body::arg_space(#[trigger] s[j]) by {
        assert(s[j] == y[j - eq - 1]);
    }
    assert(s[o] == q);
    lemma_skip_space(s, eq + 1, o);
    assert forall|j: int| o + 1 <= j < c implies s[j] != q by {
        assert(s[j] == v[j - o - 1]);
    }
    assert(s[c] == q);
    text::lemma_find_char_is(s, q, o + 1, c);
    assert(s.subrange(o + 1, c) =~= v);
}

/// An argument that is not named is not there.
pub proof fn law_unnamed_arguments_are_not_there(s: Seq<char>, key: Seq<char>)
    requires
        !text::has(s, key),
    ensures
        body::quoted_arg_from(s, key, 0) is None,
{
    text::lemma_find_from(s, key, 0);
    match text::find_from(s, key, 0) {
        Some(k) => {
            assert(text::occurs_at(s, key, k));
        },
        None => {},
    }
}

} // verus!
