//! What the words, the lists and the arguments of a hypergraph's text say.

use crate::hyper;
use crate::hyper::{GStage, GVertex, HedgeKind, HyperRequire, HyperRole};
use crate::hyper_args;
use crate::hyper_args::GPorts;
use crate::text;
use crate::text_laws;
use vstd::prelude::*;

verus! {

// ── Words ──

/// A role has its words, in whatever case and with whatever white space, and a word
/// has one role or none.
pub proof fn law_words_name_roles(s: Seq<char>)
    ensures
        ({
            let w = text::lower_ascii_spec(text::trimmed(s));
            let r = hyper::role_word(s);
            &&& r == Some(HyperRole::Judge) <==> w == "judge"@ || w == "gate"@
            &&& r == Some(HyperRole::Source) <==> w == "source"@ || w == "ingest"@
            &&& r == Some(HyperRole::Sink) <==> w == "sink"@ || w == "deliver"@ || w == "out"@
            &&& r == Some(HyperRole::Default) <==> w.len() == 0 || w == "default"@ || w == "worker"@
            &&& hyper::role_result(s) is Ok <==> r is Some
            &&& r matches Some(x) ==> hyper::role_result(s) == Ok::<_, Seq<char>>(x)
        }),
{
    reveal_strlit("default");
    reveal_strlit("worker");
    reveal_strlit("judge");
    reveal_strlit("gate");
    reveal_strlit("source");
    reveal_strlit("ingest");
    reveal_strlit("sink");
    reveal_strlit("deliver");
    reveal_strlit("out");
    let w = text::lower_ascii_spec(text::trimmed(s));
    assert("default"@.len() == 7 && "default"@[2] == 'f' && "deliver"@.len() == 7 && "deliver"@[2]
        == 'l');
    assert("worker"@.len() == 6 && "worker"@[0] == 'w' && "source"@.len() == 6 && "source"@[0]
        == 's' && "ingest"@.len() == 6 && "ingest"@[0] == 'i');
    assert("judge"@.len() == 5 && "gate"@.len() == 4 && "gate"@[0] == 'g' && "sink"@.len() == 4
        && "sink"@[0] == 's' && "out"@.len() == 3);
}

/// A kind of edge has its words, in whatever case and with whatever white space,
/// and a word has one kind or none.
pub proof fn law_words_name_kinds(s: Seq<char>)
    ensures
        ({
            let w = text::lower_ascii_spec(text::trimmed(s));
            let r = hyper::kind_word(s);
            &&& r == Some(HedgeKind::Chain) <==> w == "chain"@ || w == "path"@ || w == "flow"@
            &&& r == Some(HedgeKind::Bundle) <==> w == "bundle"@ || w == "and"@ || w == "co"@
            &&& r == Some(HedgeKind::Gate) <==> w == "gate"@ || w == "judge"@
            &&& r == Some(HedgeKind::Xor) <==> w == "xor"@ || w == "alt"@ || w == "or"@
            &&& hyper::kind_result(s) is Ok <==> r is Some
            &&& r matches Some(x) ==> hyper::kind_result(s) == Ok::<_, Seq<char>>(x)
        }),
{
    reveal_strlit("chain");
    reveal_strlit("path");
    reveal_strlit("flow");
    reveal_strlit("bundle");
    reveal_strlit("and");
    reveal_strlit("co");
    reveal_strlit("gate");
    reveal_strlit("judge");
    reveal_strlit("xor");
    reveal_strlit("alt");
    reveal_strlit("or");
    assert("chain"@.len() == 5 && "chain"@[0] == 'c' && "judge"@.len() == 5 && "judge"@[0] == 'j');
    assert("path"@.len() == 4 && "path"@[0] == 'p' && "flow"@.len() == 4 && "flow"@[0] == 'f'
        && "gate"@.len() == 4 && "gate"@[0] == 'g');
    assert("bundle"@.len() == 6);
    assert("and"@.len() == 3 && "and"@[1] == 'n' && "xor"@.len() == 3 && "xor"@[1] == 'o'
        && "alt"@.len() == 3 && "alt"@[1] == 'l');
    assert("co"@.len() == 2 && "co"@[0] == 'c' && "or"@.len() == 2 && "or"@[0] == 'o');
}

/// A truth value has three words each, in whatever case.
pub proof fn law_words_name_truth(v: Seq<char>)
    ensures
        ({
            let w = text::lower_ascii_spec(v);
            &&& hyper_args::bool_result(v) == Ok::<_, Seq<char>>(true) <==> w == "true"@ || w
                == "1"@ || w == "yes"@
            &&& hyper_args::bool_result(v) == Ok::<_, Seq<char>>(false) <==> w == "false"@ || w
                == "0"@ || w == "no"@
        }),
{
    reveal_strlit("true");
    reveal_strlit("1");
    reveal_strlit("yes");
    reveal_strlit("false");
    reveal_strlit("0");
    reveal_strlit("no");
    assert("true"@.len() == 4 && "false"@.len() == 5 && "yes"@.len() == 3 && "no"@.len() == 2
        && "1"@.len() == 1 && "0"@.len() == 1 && "1"@[0] == '1' && "0"@[0] == '0');
}

// ── Quotes and brackets ──

/// A comment comes off a line.
pub proof fn law_slashes_start_comments(a: Seq<char>, b: Seq<char>)
    requires
        !text::has(a, "//"@),
        a.len() > 0 ==> a.last() != '/',
    ensures
        hyper_args::uncommented(a) == a,
        hyper_args::uncommented(a + "//"@ + b) == a,
{
    reveal_strlit("//");
    let m = "//"@;
    let s = a + m + b;
    let n = a.len() as int;
    assert(text::occurs_at(s, m, n)) by {
        assert(s.subrange(n, n + 2) =~= m);
    }
    text::lemma_find_from(s, m, 0);
    text::lemma_find_from(a, m, 0);
    match text::find_str_spec(a, m) {
        Some(k) => {
            assert(text::occurs_at(a, m, k));
        },
        None => {},
    }
    match text::find_str_spec(s, m) {
        Some(k) => {
            if k < n {
                assert(text::occurs_at(s, m, k));
                assert(s.subrange(k, k + 2)[0] == '/' && s.subrange(k, k + 2)[1] == '/');
                if k + 2 <= n {
                    assert(a.subrange(k, k + 2) =~= m);
                    assert(text::occurs_at(a, m, k));
                } else {
                    assert(s[k] == a[k]);
                }
            }
            assert(s.take(n) =~= a);
        },
        None => {},
    }
}

proof fn lemma_quotes(a: Seq<char>, q: Seq<char>, b: Seq<char>)
    requires
        forall|i: int| 0 <= i < a.len() ==> #[trigger] a[i] != '"',
        forall|i: int| 0 <= i < q.len() ==> #[trigger] q[i] != '"',
    ensures
        hyper_args::quotes(a + seq!['"'] + q + seq!['"'] + b) == Some(
            (a.len() as int, a.len() + 1int + q.len()),
        ),
{
    let s = a + seq!['"'] + q + seq!['"'] + b;
    let n = a.len() as int;
    let m = n + 1 + q.len();
    assert forall|j: int| 0 <= j < n implies s[j] != '"' by {
        assert(s[j] == a[j]);
    }
    assert(s[n] == '"');
    text::lemma_find_char_is(s, '"', 0, n);
    assert forall|j: int| n + 1 <= j < m implies s[j] != '"' by {
        assert(s[j] == q[j - n - 1]);
    }
    assert(s[m] == '"');
    text::lemma_find_char_is(s, '"', n + 1, m);
}

/// The first quoted piece is read, and behind it what follows its comma.
pub proof fn law_the_first_quoted_piece_is_read(a: Seq<char>, q: Seq<char>, r: Seq<char>)
    requires
        forall|i: int| 0 <= i < a.len() ==> #[trigger] a[i] != '"',
        forall|i: int| 0 <= i < q.len() ==> #[trigger] q[i] != '"',
        r.len() > 0,
        !text::is_space(r[0]),
        !text::is_space(r.last()),
        r[0] != ',',
    ensures
        hyper_args::first_quoted(a + seq!['"'] + q + seq!['"'] + seq![',', ' '] + r) == Some(q),
        hyper_args::behind_quoted(a + seq!['"'] + q + seq!['"'] + seq![',', ' '] + r) == r,
        hyper_args::first_quoted(a) is None,
        hyper_args::behind_quoted(a) == a,
{
    reveal_strlit(",");
    let e = Seq::<char>::empty();
    let b = seq![',', ' '] + r;
    let s = a + seq!['"'] + q + seq!['"'] + seq![',', ' '] + r;
    lemma_quotes(a, q, b);
    assert(a + seq!['"'] + q + seq!['"'] + b =~= s);
    let m = (a.len() + 1 + q.len()) as int;
    assert(s.subrange(a.len() + 1int, m) =~= q);
    assert(s.skip(m + 1) =~= b);
    text_laws::law_trimming_takes_the_ends(e, b, e);
    assert(e + b + e =~= b);
    assert(","@[0] == ',');
    assert(","@.contains(','));
    let t = seq![' '] + r;
    assert(b.skip(1) =~= t);
    assert(b[0] == ',');
    assert(!","@.contains(t[0]));
    assert(text::front_spec(t, ","@) == t);
    assert(text::front_spec(b, ","@) == t);
    text_laws::law_trimming_takes_the_ends(seq![' '], r, e);
    assert(seq![' '] + r + e =~= t);
    text::lemma_find_char_none(a, '"', 0);
}

proof fn lemma_closing_skip(s: Seq<char>, i: int, k: int, depth: int)
    requires
        0 <= i <= k <= s.len(),
        forall|j: int| i <= j < k ==> #[trigger] s[j] != '(' && s[j] != ')',
    ensures
        hyper_args::closing(s, i, depth) == hyper_args::closing(s, k, depth),
    decreases k - i,
{
    if i < k {
        assert(s[i] != '(');
        lemma_closing_skip(s, i + 1, k, depth);
    }
}

/// A text without round brackets.
pub open spec fn unbracketed(s: Seq<char>) -> bool {
    forall|j: int| 0 <= j < s.len() ==> #[trigger] s[j] != '(' && s[j] != ')'
}

/// A directive is its word and what stands between its brackets, where a bracket
/// inside them closes nothing else; without a bracket, or with one that does not
/// close, it is none.
pub proof fn law_directives_are_a_word_and_arguments(
    w: Seq<char>,
    x: Seq<char>,
    y: Seq<char>,
    z: Seq<char>,
    rest: Seq<char>,
)
    requires
        unbracketed(w),
        unbracketed(x),
        unbracketed(y),
        unbracketed(z),
    ensures
        hyper_args::directive(seq!['.'] + w + seq!['('] + x + seq![')'] + rest) == Ok::<
            _,
            Seq<char>,
        >((text::trimmed(w), text::trimmed(x))),
        hyper_args::directive(
            seq!['.'] + w + seq!['('] + x + seq!['('] + y + seq![')'] + z + seq![')'] + rest,
        ) == Ok::<_, Seq<char>>(
            (text::trimmed(w), text::trimmed(x + seq!['('] + y + seq![')'] + z)),
        ),
        hyper_args::directive(seq!['.'] + w) is Err,
        hyper_args::directive(seq!['.'] + w + seq!['('] + x) is Err,
{
    let n = w.len() as int;
    let m = n + 1 + x.len();
    let a = w + seq!['('] + x + seq![')'] + rest;
    let la = seq!['.'] + w + seq!['('] + x + seq![')'] + rest;
    assert(la.skip(1) =~= a);
    assert forall|j: int| 0 <= j < n implies #[trigger] a[j] != '(' && a[j] != ')' by {
        assert(a[j] == w[j]);
    }
    assert(a[n] == '(');
    text::lemma_find_char_is(a, '(', 0, n);
    lemma_closing_skip(a, 0, n, 0);
    assert forall|j: int| n + 1 <= j < m implies #[trigger] a[j] != '(' && a[j] != ')' by {
        assert(a[j] == x[j - n - 1]);
    }
    lemma_closing_skip(a, n + 1, m, 1);
    assert(a[m] == ')');
    assert(a.take(n) =~= w);
    assert(a.subrange(n + 1, m) =~= x);
    let b = w + seq!['('] + x + seq!['('] + y + seq![')'] + z + seq![')'] + rest;
    let lb = seq!['.'] + w + seq!['('] + x + seq!['('] + y + seq![')'] + z + seq![')'] + rest;
    assert(lb.skip(1) =~= b);
    let k = m + 1 + y.len();
    let l = k + 1 + z.len();
    assert forall|j: int| 0 <= j < n implies #[trigger] b[j] != '(' && b[j] != ')' by {
        assert(b[j] == w[j]);
    }
    assert(b[n] == '(');
    text::lemma_find_char_is(b, '(', 0, n);
    lemma_closing_skip(b, 0, n, 0);
    assert forall|j: int| n + 1 <= j < m implies #[trigger] b[j] != '(' && b[j] != ')' by {
        assert(b[j] == x[j - n - 1]);
    }
    lemma_closing_skip(b, n + 1, m, 1);
    assert(b[m] == '(');
    assert forall|j: int| m + 1 <= j < k implies #[trigger] b[j] != '(' && b[j] != ')' by {
        assert(b[j] == y[j - m - 1]);
    }
    lemma_closing_skip(b, m + 1, k, 2);
    assert(b[k] == ')');
    assert forall|j: int| k + 1 <= j < l implies #[trigger] b[j] != '(' && b[j] != ')' by {
        assert(b[j] == z[j - k - 1]);
    }
    lemma_closing_skip(b, k + 1, l, 1);
    assert(b[l] == ')');
    assert(b.take(n) =~= w);
    assert(b.subrange(n + 1, l) =~= x + seq!['('] + y + seq![')'] + z);
    let lw = seq!['.'] + w;
    assert(lw.skip(1) =~= w);
    text::lemma_find_char_none(w, '(', 0);
    let lo = seq!['.'] + w + seq!['('] + x;
    let o = w + seq!['('] + x;
    assert(lo.skip(1) =~= o);
    assert forall|j: int| 0 <= j < n implies #[trigger] o[j] != '(' && o[j] != ')' by {
        assert(o[j] == w[j]);
    }
    assert(o[n] == '(');
    text::lemma_find_char_is(o, '(', 0, n);
    lemma_closing_skip(o, 0, n, 0);
    assert forall|j: int| n + 1 <= j < m implies #[trigger] o[j] != '(' && o[j] != ')' by {
        assert(o[j] == x[j - n - 1]);
    }
    lemma_closing_skip(o, n + 1, m, 1);
}

// ── Pieces ──

/// A text without quotes, brackets and commas.
pub open spec fn smooth(s: Seq<char>) -> bool {
    forall|j: int|
        0 <= j < s.len() ==> {
            let c = #[trigger] s[j];
            c != '"' && c != '(' && c != '[' && c != ')' && c != ']' && c != ','
        }
}

proof fn lemma_pieces_skip(s: Seq<char>, i: int, k: int, start: int, depth: int)
    requires
        0 <= i <= k <= s.len(),
        smooth(s.subrange(i, k)),
    ensures
        hyper_args::top_pieces(s, i, start, depth, false) == hyper_args::top_pieces(
            s,
            k,
            start,
            depth,
            false,
        ),
    decreases k - i,
{
    if i < k {
        assert(s.subrange(i, k)[0] == s[i]);
        let t = s.subrange(i + 1, k);
        assert forall|j: int| 0 <= j < t.len() implies {
            let c = #[trigger] t[j];
            c != '"' && c != '(' && c != '[' && c != ')' && c != ']' && c != ','
        } by {
            assert(t[j] == s.subrange(i, k)[j + 1]);
        }
        lemma_pieces_skip(s, i + 1, k, start, depth);
    }
}

proof fn lemma_pieces_quoted(s: Seq<char>, i: int, k: int, start: int, depth: int)
    requires
        0 <= i <= k < s.len(),
        forall|j: int| i <= j < k ==> #[trigger] s[j] != '"',
        s[k] == '"',
    ensures
        hyper_args::top_pieces(s, i, start, depth, true) == hyper_args::top_pieces(
            s,
            k + 1,
            start,
            depth,
            false,
        ),
    decreases k - i,
{
    if i < k {
        assert(s[i] != '"');
        lemma_pieces_quoted(s, i + 1, k, start, depth);
    }
}

proof fn lemma_pieces_shift(s: Seq<char>, i: int, start: int, depth: int, quoted: bool, d: int)
    requires
        0 <= d <= start <= i <= s.len(),
    ensures
        hyper_args::top_pieces(s, i, start, depth, quoted) == hyper_args::top_pieces(
            s.skip(d),
            i - d,
            start - d,
            depth,
            quoted,
        ),
    decreases s.len() - i,
{
    let t = s.skip(d);
    if i < s.len() {
        assert(t[i - d] == s[i]);
        if s[i] == '"' {
            lemma_pieces_shift(s, i + 1, start, depth, !quoted, d);
        } else if (s[i] == '(' || s[i] == '[') && !quoted {
            lemma_pieces_shift(s, i + 1, start, depth + 1, quoted, d);
        } else if (s[i] == ')' || s[i] == ']') && !quoted {
            lemma_pieces_shift(s, i + 1, start, depth - 1, quoted, d);
        } else if s[i] == ',' && !quoted && depth == 0 {
            lemma_pieces_shift(s, i + 1, i + 1, depth, quoted, d);
            assert(s.subrange(start, i) =~= t.subrange(start - d, i - d));
        } else {
            lemma_pieces_shift(s, i + 1, start, depth, quoted, d);
        }
    } else {
        assert(s.subrange(start, s.len() as int) =~= t.subrange(start - d, t.len() as int));
    }
}

/// Arguments are cut at their commas, but not at one between quotes or brackets.
pub proof fn law_arguments_stand_between_commas(
    a: Seq<char>,
    q: Seq<char>,
    b: Seq<char>,
    rest: Seq<char>,
)
    requires
        smooth(a),
        smooth(b),
        forall|j: int| 0 <= j < q.len() ==> #[trigger] q[j] != '"',
    ensures
        hyper_args::top_pieces(a + seq![','] + rest, 0, 0, 0, false) == seq![a]
            + hyper_args::top_pieces(rest, 0, 0, 0, false),
        hyper_args::top_pieces(
            a + seq!['"'] + q + seq!['"'] + b + seq![','] + rest,
            0,
            0,
            0,
            false,
        ) == seq![a + seq!['"'] + q + seq!['"'] + b] + hyper_args::top_pieces(
            rest,
            0,
            0,
            0,
            false,
        ),
        hyper_args::top_pieces(a, 0, 0, 0, false) == (if text::trimmed(a).len() > 0 {
            seq![a]
        } else {
            Seq::empty()
        }),
{
    let n = a.len() as int;
    let s = a + seq![','] + rest;
    assert(s.subrange(0, n) =~= a);
    lemma_pieces_skip(s, 0, n, 0, 0);
    assert(s[n] == ',');
    lemma_pieces_shift(s, n + 1, n + 1, 0, false, n + 1);
    assert(s.skip(n + 1) =~= rest);
    let t = a + seq!['"'] + q + seq!['"'] + b + seq![','] + rest;
    let m = n + 1 + q.len();
    let k = m + 1 + b.len();
    assert(t.subrange(0, n) =~= a);
    lemma_pieces_skip(t, 0, n, 0, 0);
    assert(t[n] == '"');
    assert forall|j: int| n + 1 <= j < m implies #[trigger] t[j] != '"' by {
        assert(t[j] == q[j - n - 1]);
    }
    assert(t[m] == '"');
    lemma_pieces_quoted(t, n + 1, m, 0, 0);
    assert(t.subrange(m + 1, k) =~= b);
    lemma_pieces_skip(t, m + 1, k, 0, 0);
    assert(t[k] == ',');
    assert(t.subrange(0, k) =~= a + seq!['"'] + q + seq!['"'] + b);
    lemma_pieces_shift(t, k + 1, k + 1, 0, false, k + 1);
    assert(t.skip(k + 1) =~= rest);
    assert(a.subrange(0, n) =~= a);
    lemma_pieces_skip(a, 0, n, 0, 0);
}

/// A piece that is no list of tags stays, without white space around it; the tags
/// behind a list of tags belong to it.
pub proof fn law_lists_of_tags_go_on(parts: Seq<Seq<char>>, i: int)
    requires
        0 <= i < parts.len(),
    ensures
        !"tags="@.is_prefix_of(text::trimmed(parts[i])) ==> hyper_args::rejoined(parts, i) == seq![
            text::trimmed(parts[i]),
        ] + hyper_args::rejoined(parts, i + 1),
        "tags="@.is_prefix_of(text::trimmed(parts[i])) && (i + 1 == parts.len()
            || !hyper_args::more_tags(parts[i + 1])) ==> hyper_args::rejoined(parts, i) == seq![
            text::trimmed(parts[i]),
        ] + hyper_args::rejoined(parts, i + 1),
        "tags="@.is_prefix_of(text::trimmed(parts[i])) && i + 1 < parts.len()
            && hyper_args::more_tags(parts[i + 1]) && (i + 2 == parts.len()
            || !hyper_args::more_tags(parts[i + 2])) ==> hyper_args::rejoined(parts, i) == seq![
            text::trimmed(parts[i]) + ","@ + text::trimmed(parts[i + 1]),
        ] + hyper_args::rejoined(parts, i + 2),
{
    reveal_with_fuel(hyper_args::tag_blob, 3);
}

proof fn lemma_tags(ps: Seq<Seq<char>>, n: int, t: Seq<char>)
    requires
        0 <= n <= ps.len(),
    ensures
        hyper_args::tags_of_pieces(ps, n).contains(t) <==> t.len() > 0 && exists|i: int|
            0 <= i < n && t == hyper_args::bare_tag(#[trigger] ps[i]),
    decreases n,
{
    if n > 0 {
        lemma_tags(ps, n - 1, t);
        assert(ps[n - 1] == ps[n - 1]);
    }
}

/// The tags of a list stand between its commas, without the marks in front and the
/// white space around them, and empty ones do not count.
pub proof fn law_tags_are_listed(v: Seq<char>, t: Seq<char>)
    ensures
        hyper_args::tag_list(v).contains(t) <==> t.len() > 0 && exists|i: int|
            0 <= i < text::split_char_spec(v, ',').len() && t == text::front_spec(
                text::trimmed(#[trigger] text::split_char_spec(v, ',')[i]),
                "#"@,
            ),
{
    let ps = text::split_char_spec(v, ',');
    lemma_tags(ps, ps.len() as int, t);
    if exists|i: int| 0 <= i < ps.len() && t == hyper_args::bare_tag(#[trigger] ps[i]) {
        let i = choose|i: int| 0 <= i < ps.len() && t == hyper_args::bare_tag(#[trigger] ps[i]);
        assert(t == text::front_spec(text::trimmed(ps[i]), "#"@));
    }
    if exists|i: int|
        0 <= i < ps.len() && t == text::front_spec(text::trimmed(#[trigger] ps[i]), "#"@) {
        let i = choose|i: int|
            0 <= i < ps.len() && t == text::front_spec(text::trimmed(#[trigger] ps[i]), "#"@);
        assert(t == hyper_args::bare_tag(ps[i]));
    }
}

proof fn lemma_names(ps: Seq<Seq<char>>, n: int)
    requires
        0 <= n <= ps.len(),
    ensures
        hyper_args::names_of_pieces(ps, n) == ps.take(n).map_values(
            |p: Seq<char>| hyper_args::bare_name(text::trimmed(p)),
        ).filter(|p: Seq<char>| p.len() > 0),
    decreases n,
{
    let bare = |p: Seq<char>| hyper_args::bare_name(text::trimmed(p));
    let full = |p: Seq<char>| p.len() > 0;
    if n > 0 {
        lemma_names(ps, n - 1);
        let t = ps.take(n - 1).map_values(bare);
        assert(ps.take(n).map_values(bare) =~= t.push(bare(ps[n - 1])));
        t.lemma_filter_push(bare(ps[n - 1]), full);
    } else {
        reveal(Seq::filter);
        assert(ps.take(0).map_values(bare) =~= Seq::empty());
    }
}

/// The names of a list stand between its plus signs and commas, in order, without
/// the marks in front and the white space around them, and empty ones do not
/// count.
pub proof fn law_names_are_listed(v: Seq<char>)
    ensures
        hyper_args::name_list(v) == text::split_set_spec(
            text::trim_set_spec(text::trimmed(v), "\"'"@),
            "+,"@,
        ).map_values(
            |p: Seq<char>| text::front_spec(text::trimmed(text::trimmed(p)), "@"@),
        ).filter(|p: Seq<char>| p.len() > 0),
{
    let ps = text::split_set_spec(text::trim_set_spec(text::trimmed(v), "\"'"@), "+,"@);
    lemma_names(ps, ps.len() as int);
    assert(ps.take(ps.len() as int) =~= ps);
    assert(ps.map_values(|p: Seq<char>| hyper_args::bare_name(text::trimmed(p))) =~= ps.map_values(
        |p: Seq<char>| text::front_spec(text::trimmed(text::trimmed(p)), "@"@),
    ));
}

// ── Arguments ──

/// A piece of a name and a value.
pub open spec fn says(p: Seq<char>, key: Seq<char>, val: Seq<char>) -> bool {
    text::trimmed(p).len() > 0 && (text::split_once_spec(text::trimmed(p), '=') matches Some(kv)
        && text::trimmed(kv.0) == key && text::trimmed(kv.1) == val)
}

proof fn lemma_keys()
    ensures
        "role"@ != "tags"@,
        "role"@ != "after"@,
        "role"@ != "gated_by"@,
        "role"@ != "gate"@,
        "tags"@ != "after"@,
        "tags"@ != "gated_by"@,
        "tags"@ != "gate"@,
        "after"@ != "gated_by"@,
        "after"@ != "gate"@,
        "judge"@ != "min_impls"@,
        "kind"@ != "judge"@,
        "kind"@ != "producers"@,
        "kind"@ != "producer"@,
        "kind"@ != "consumers"@,
        "kind"@ != "consumer"@,
        "judge"@ != "producers"@,
        "judge"@ != "producer"@,
        "judge"@ != "consumers"@,
        "judge"@ != "consumer"@,
        "producers"@ != "consumers"@,
        "producers"@ != "consumer"@,
        "producer"@ != "consumers"@,
        "producer"@ != "consumer"@,
{
    reveal_strlit("role");
    reveal_strlit("tags");
    reveal_strlit("after");
    reveal_strlit("gated_by");
    reveal_strlit("gate");
    reveal_strlit("judge");
    reveal_strlit("min_impls");
    reveal_strlit("kind");
    reveal_strlit("producers");
    reveal_strlit("producer");
    reveal_strlit("consumers");
    reveal_strlit("consumer");
    assert("role"@[0] == 'r' && "tags"@[0] == 't' && "after"@[0] == 'a' && "gated_by"@[0] == 'g'
        && "gate"@[0] == 'g' && "judge"@[0] == 'j' && "min_impls"@[0] == 'm' && "kind"@[0] == 'k'
        && "producers"@[0] == 'p' && "producer"@[0] == 'p' && "consumers"@[0] == 'c'
        && "consumer"@[0] == 'c');
}

/// A requirement changes what it names and nothing else: whether there must be a
/// judge, and how many ways every stage must have, which is at least one.
pub proof fn law_requirements_are_named(
    req: HyperRequire,
    ps: Seq<Seq<char>>,
    i: int,
    k: Seq<char>,
    v: Seq<char>,
    n: nat,
)
    requires
        0 <= i < ps.len(),
        n <= usize::MAX,
    ensures
        says(ps[i], "judge"@, v) && hyper_args::bool_result(v) is Ok
            ==> hyper_args::require_from(req, ps, i) == hyper_args::require_from(
            (HyperRequire { judge: hyper_args::bool_result(v)->Ok_0, min_impls: req.min_impls }),
            ps,
            i + 1,
        ),
        says(ps[i], "judge"@, v) && hyper_args::bool_result(v) is Err ==> hyper_args::require_from(
            req,
            ps,
            i,
        ) is Err,
        says(ps[i], "min_impls"@, text::dec(n)) && n > 0 ==> hyper_args::require_from(req, ps, i)
            == hyper_args::require_from(
            (HyperRequire { judge: req.judge, min_impls: n as usize }),
            ps,
            i + 1,
        ),
        says(ps[i], "min_impls"@, text::dec(0)) ==> hyper_args::require_from(req, ps, i) is Err,
        says(ps[i], k, v) && k != "judge"@ && k != "min_impls"@ ==> hyper_args::require_from(
            req,
            ps,
            i,
        ) is Err,
        hyper_args::require_from(req, ps, ps.len() as int) == Ok::<_, Seq<char>>(req),
{
    lemma_keys();
    text_laws::law_numbers_are_read(n, usize::MAX as nat, Seq::empty());
    text_laws::law_numbers_are_read(0, usize::MAX as nat, Seq::empty());
}

/// An argument of a vertex changes what it names and nothing else.
pub proof fn law_vertex_arguments_are_named(
    v: GVertex,
    ps: Seq<Seq<char>>,
    i: int,
    x: Seq<char>,
    role: HyperRole,
)
    requires
        0 <= i < ps.len(),
    ensures
        says(ps[i], "role"@, x) && hyper::role_word(x) == Some(role) ==> hyper_args::vertex_from(
            v,
            ps,
            i,
        ) == hyper_args::vertex_from(
            (GVertex { name: v.name, role: role, tags: v.tags }),
            ps,
            i + 1,
        ),
        says(ps[i], "role"@, x) && hyper::role_word(x) is None ==> hyper_args::vertex_from(
            v,
            ps,
            i,
        ) is Err,
        says(ps[i], "tags"@, x) ==> hyper_args::vertex_from(v, ps, i) == hyper_args::vertex_from(
            (GVertex { name: v.name, role: v.role, tags: hyper_args::tag_list(x) }),
            ps,
            i + 1,
        ),
        hyper_args::vertex_from(v, ps, ps.len() as int) == Ok::<_, Seq<char>>(v),
{
    lemma_keys();
}

/// An argument of a stage changes what it names and nothing else.
pub proof fn law_stage_arguments_are_named(
    s: GStage,
    ps: Seq<Seq<char>>,
    i: int,
    x: Seq<char>,
    role: HyperRole,
)
    requires
        0 <= i < ps.len(),
    ensures
        says(ps[i], "role"@, x) && hyper::role_word(x) == Some(role) ==> hyper_args::stage_from(
            s,
            ps,
            i,
        ) == hyper_args::stage_from((GStage { role: role, ..s }), ps, i + 1),
        says(ps[i], "tags"@, x) ==> hyper_args::stage_from(s, ps, i) == hyper_args::stage_from(
            (GStage { tags: hyper_args::tag_list(x), ..s }),
            ps,
            i + 1,
        ),
        says(ps[i], "after"@, x) ==> hyper_args::stage_from(s, ps, i) == hyper_args::stage_from(
            (GStage { after: hyper_args::name_list(x), ..s }),
            ps,
            i + 1,
        ),
        says(ps[i], "gated_by"@, x) || says(ps[i], "gate"@, x) ==> hyper_args::stage_from(s, ps, i)
            == hyper_args::stage_from(
            (GStage { gated_by: Some(text::front_spec(text::trimmed(x), "@"@)), ..s }),
            ps,
            i + 1,
        ),
        hyper_args::stage_from(s, ps, ps.len() as int) == Ok::<_, Seq<char>>(s),
{
    lemma_keys();
}

/// A stage that says no more than its name works, has no tags, no inputs and no
/// judge, and needs one way.
pub proof fn law_bare_stages_are_plain(args: Seq<char>, name: Seq<char>)
    requires
        hyper_args::first_quoted(args) == Some(name),
        hyper_args::named_pieces(args).len() == 0,
    ensures
        hyper_args::stage_result(args) is Ok,
        ({
            let s = hyper_args::stage_result(args)->Ok_0;
            &&& s.name == name && s.role == HyperRole::Default && s.after.len() == 0
            &&& s.gated_by is None && s.min_impls == 1
            &&& forall|t: Seq<char>| !s.tags.contains(t)
        }),
        hyper_args::vertex_result(args) is Ok,
        hyper_args::vertex_result(args)->Ok_0.name == name,
        hyper_args::vertex_result(args)->Ok_0.role == HyperRole::Default,
        forall|t: Seq<char>| !hyper_args::vertex_result(args)->Ok_0.tags.contains(t),
{
}

/// An argument of an edge changes what it names and nothing else; one without a
/// name is a member.
pub proof fn law_edge_arguments_are_named(
    h: GPorts,
    ps: Seq<Seq<char>>,
    i: int,
    x: Seq<char>,
    kind: HedgeKind,
)
    requires
        0 <= i < ps.len(),
    ensures
        says(ps[i], "kind"@, x) && hyper::kind_word(x) == Some(kind) ==> hyper_args::ports_from(
            h,
            ps,
            i,
        ) == hyper_args::ports_from((GPorts { kind: kind, ..h }), ps, i + 1),
        says(ps[i], "kind"@, x) && hyper::kind_word(x) is None ==> hyper_args::ports_from(
            h,
            ps,
            i,
        ) is Err,
        says(ps[i], "judge"@, x) ==> hyper_args::ports_from(h, ps, i) == hyper_args::ports_from(
            (GPorts { judge: Some(hyper_args::bare_name(text::trim_set_spec(x, "\"'"@))), ..h }),
            ps,
            i + 1,
        ),
        says(ps[i], "producers"@, x) || says(ps[i], "producer"@, x) ==> hyper_args::ports_from(
            h,
            ps,
            i,
        ) == hyper_args::ports_from(
            (GPorts { producers: h.producers + hyper_args::name_list(x), ..h }),
            ps,
            i + 1,
        ),
        says(ps[i], "consumers"@, x) || says(ps[i], "consumer"@, x) ==> hyper_args::ports_from(
            h,
            ps,
            i,
        ) == hyper_args::ports_from(
            (GPorts { consumers: h.consumers + hyper_args::name_list(x), ..h }),
            ps,
            i + 1,
        ),
        text::trimmed(ps[i]).len() > 0 && text::find_char_spec(text::trimmed(ps[i]), '=') is None
            ==> hyper_args::ports_from(h, ps, i) == hyper_args::ports_from(
            (GPorts {
                members: h.members.push(
                    hyper_args::bare_name(text::trim_set_spec(text::trimmed(ps[i]), "\"'"@)),
                ),
                ..h
            }),
            ps,
            i + 1,
        ),
        hyper_args::ports_from(h, ps, ps.len() as int) == Ok::<_, Seq<char>>(h),
{
    lemma_keys();
}

// ── Edges ──

proof fn lemma_with_new(ms: Seq<Seq<char>>, more: Seq<Seq<char>>, n: int, x: Seq<char>)
    requires
        0 <= n <= more.len(),
        ms.no_duplicates(),
    ensures
        hyper_args::with_new(ms, more, n).no_duplicates(),
        hyper_args::with_new(ms, more, n).contains(x) <==> ms.contains(x) || more.take(n).contains(
            x,
        ),
    decreases n,
{
    let t = more.take(n);
    if n > 0 {
        lemma_with_new(ms, more, n - 1, x);
        let u = more.take(n - 1);
        let before = hyper_args::with_new(ms, more, n - 1);
        let now = hyper_args::with_new(ms, more, n);
        assert(t[n - 1] == more[n - 1]);
        if u.contains(x) {
            let i = choose|i: int| 0 <= i < u.len() && u[i] == x;
            assert(t[i] == x);
        }
        if t.contains(x) {
            let i = choose|i: int| 0 <= i < t.len() && t[i] == x;
            if i < n - 1 {
                assert(u[i] == x);
            }
        }
        if !before.contains(more[n - 1]) {
            assert(now[before.len() as int] == more[n - 1]);
            if before.contains(x) {
                let i = choose|i: int| 0 <= i < before.len() && before[i] == x;
                assert(now[i] == x);
            }
            if now.contains(x) {
                let i = choose|i: int| 0 <= i < now.len() && now[i] == x;
                if i < before.len() {
                    assert(before[i] == x);
                }
            }
            assert forall|i: int, j: int|
                0 <= i < now.len() && 0 <= j < now.len() && i != j implies now[i] != now[j] by {
                if i == before.len() {
                    assert(before.contains(before[j]));
                }
                if j == before.len() {
                    assert(before.contains(before[i]));
                }
            }
        }
    }
}

/// The members of a gate are its producers, its judge and its consumers, each
/// once.
pub proof fn law_gates_list_their_ports(
    name: Seq<char>,
    judge: Seq<char>,
    producers: Seq<Seq<char>>,
    consumers: Seq<Seq<char>>,
    x: Seq<char>,
)
    ensures
        ({
            let g = hyper_args::gate_of(name, judge, producers, consumers);
            &&& g.name == name && g.kind == HedgeKind::Gate && g.judge == Some(judge)
            &&& g.producers == producers && g.consumers == consumers
            &&& g.members.no_duplicates()
            &&& g.members.contains(x) <==> x == judge || producers.contains(x)
                || consumers.contains(x)
        }),
{
    let e = Seq::<Seq<char>>::empty();
    let a = hyper_args::with_new(e, producers, producers.len() as int);
    let one = seq![judge];
    let b = hyper_args::with_new(a, one, 1);
    lemma_with_new(e, producers, producers.len() as int, x);
    lemma_with_new(a, one, 1, x);
    lemma_with_new(b, consumers, consumers.len() as int, x);
    assert(producers.take(producers.len() as int) =~= producers);
    assert(one.take(1) =~= one);
    assert(one[0] == judge);
    assert(consumers.take(consumers.len() as int) =~= consumers);
}

/// A gate is made of a judge and consumers and of no bare members; any other edge
/// of members and of no ports. What does not fit makes no edge.
pub proof fn law_edges_have_members_or_ports(name: Seq<char>, h: GPorts)
    ensures
        hyper_args::hedge_of(name, h) is Ok <==> (if h.kind == HedgeKind::Gate {
            h.judge is Some && h.consumers.len() > 0 && h.members.len() == 0
        } else {
            h.members.len() > 0 && h.judge is None && h.producers.len() == 0 && h.consumers.len()
                == 0
        }),
        hyper_args::hedge_of(name, h) matches Ok(g) ==> g.name == name && g.kind == h.kind
            && g.judge == h.judge && g.producers == h.producers && g.consumers == h.consumers && (
        h.kind != HedgeKind::Gate ==> g.members == h.members),
{
}

} // verus!
