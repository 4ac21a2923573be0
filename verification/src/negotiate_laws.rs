//! What a model can ask for, what it is given, and how that is put on record.

use crate::ast;
use crate::ast::GValue;
use crate::dslresult;
use crate::negotiate;
use crate::negotiate::GMissing;
use crate::script_card::GCard;
use crate::text;
use crate::text_laws;
use vstd::prelude::*;

verus! {

// ── Asking ──

/// A model asks for something exactly where it says that it does not have enough
/// and declares something.
pub proof fn law_models_ask_in_so_many_words(enough: Seq<char>, raw: Seq<char>)
    ensures
        negotiate::asked(enough, raw) is Some <==> (enough == "false"@ || enough == "0"@)
            && !text::blank(raw),
        negotiate::asked(enough, raw) matches Some(ms) ==> ms == negotiate::declared(raw),
{
}

proof fn lemma_find_shift(s: Seq<char>, c: char, i: int, d: int)
    requires
        0 <= d <= i,
        d <= s.len(),
    ensures
        text::find_char_from(s, c, i) == (match text::find_char_from(s.skip(d), c, i - d) {
            Some(k) => Some(k + d),
            None => None,
        }),
    decreases s.len() - i,
{
    if i < s.len() {
        assert(s.skip(d)[i - d] == s[i]);
        lemma_find_shift(s, c, i + 1, d);
    }
}

proof fn lemma_declared_shift(s: Seq<char>, i: int, d: int)
    requires
        0 <= d <= i,
        d <= s.len(),
    ensures
        negotiate::declared_from(s, i) == negotiate::declared_from(s.skip(d), i - d),
    decreases s.len() - i,
{
    let t = s.skip(d);
    lemma_find_shift(s, '{', i, d);
    match text::find_char_from(s, '{', i) {
        Some(a) => {
            if i <= a < s.len() {
                lemma_find_shift(s, '}', a, d);
                match text::find_char_from(s, '}', a) {
                    Some(b) => {
                        if a < b < s.len() {
                            lemma_declared_shift(s, b, d);
                            assert(s.subrange(a, b + 1) =~= t.subrange(a - d, b + 1 - d));
                        }
                    },
                    None => {},
                }
            }
        },
        None => {},
    }
}

/// Every object of a list that names something declares it, with what it is for;
/// one that names nothing declares nothing, and those behind it follow.
pub proof fn law_objects_declare_in_turn(a: Seq<char>, x: Seq<char>, b: Seq<char>)
    requires
        forall|i: int| 0 <= i < a.len() ==> #[trigger] a[i] != '{',
        forall|i: int| 0 <= i < x.len() ==> #[trigger] x[i] != '}',
    ensures
        ({
            let o = seq!['{'] + x + seq!['}'];
            let r = negotiate::text_or_empty(o, "ref"@);
            let rest = negotiate::declared_from(b, 0);
            &&& r.len() > 0 ==> negotiate::declared_from(a + o + b, 0) == seq![
                (GMissing { ref_str: r, why: negotiate::text_or_empty(o, "why"@) }),
            ] + rest
            &&& r.len() == 0 ==> negotiate::declared_from(a + o + b, 0) == rest
        }),
        negotiate::declared_from(a, 0) == Seq::<GMissing>::empty(),
{
    let o = seq!['{'] + x + seq!['}'];
    let s = a + o + b;
    let n = a.len() as int;
    let m = n + 1 + x.len();
    assert forall|j: int| 0 <= j < n implies s[j] != '{' by {
        assert(s[j] == a[j]);
    }
    assert(s[n] == '{');
    text::lemma_find_char_is(s, '{', 0, n);
    assert forall|j: int| n <= j < m implies s[j] != '}' by {
        if j > n {
            assert(s[j] == x[j - n - 1]);
        }
    }
    assert(s[m] == '}');
    text::lemma_find_char_is(s, '}', n, m);
    assert(s.subrange(n, m + 1) =~= o);
    lemma_declared_shift(s, m, m);
    let t = s.skip(m);
    assert(t =~= seq!['}'] + b);
    assert(t[0] == '}');
    lemma_skip_one(t);
    lemma_declared_shift(t, 1, 1);
    assert(t.skip(1) =~= b);
    text::lemma_find_char_none(a, '{', 0);
    assert(Seq::<GMissing>::empty() + negotiate::declared_from(b, 0) =~= negotiate::declared_from(
        b,
        0,
    ));
}

proof fn lemma_skip_one(t: Seq<char>)
    requires
        t.len() > 0,
        t[0] == '}',
    ensures
        negotiate::declared_from(t, 0) == negotiate::declared_from(t, 1),
{
    assert(text::find_char_from(t, '{', 0) == text::find_char_from(t, '{', 1));
    text::lemma_find_char_from(t, '{', 1);
}

/// What is declared stands between the first square bracket and the last; without
/// brackets nothing is.
pub proof fn law_lists_stand_between_brackets(a: Seq<char>, x: Seq<char>, b: Seq<char>)
    requires
        forall|i: int| 0 <= i < a.len() ==> #[trigger] a[i] != '[',
        forall|i: int| 0 <= i < b.len() ==> #[trigger] b[i] != ']',
    ensures
        negotiate::declared(a + seq!['['] + x + seq![']'] + b) == negotiate::declared_from(
            seq!['['] + x + seq![']'],
            0,
        ),
        negotiate::declared(a) == Seq::<GMissing>::empty(),
        negotiate::declared(b) == Seq::<GMissing>::empty(),
{
    let s = a + seq!['['] + x + seq![']'] + b;
    let n = a.len() as int;
    assert forall|j: int| 0 <= j < n implies s[j] != '[' by {
        assert(s[j] == a[j]);
    }
    assert(s[n] == '[');
    text::lemma_find_char_is(s, '[', 0, n);
    text_laws::law_the_last_is_found(a + seq!['['] + x, ']', b);
    assert(s.subrange(n, n + x.len() + 2) =~= seq!['['] + x + seq![']']);
    text::lemma_find_char_none(a, '[', 0);
    text_laws::law_the_last_is_found(a, ']', b);
}

// ── Giving ──

/// A word that trimming leaves as it is.
pub open spec fn tight(s: Seq<char>) -> bool {
    text::trimmed(s) == s
}

/// The topic is given whole; a script by its card, where there is one; the result
/// of a proc whole, and a field of it up to two thousand characters, where it is
/// there. Nothing else is given.
pub proof fn law_references_are_resolved(
    topic: Seq<char>,
    results: Map<Seq<char>, GValue>,
    card: Option<GCard>,
    proc: Seq<char>,
    field: Seq<char>,
)
    requires
        tight(seq!['@'] + proc),
        tight(seq!['@'] + proc + seq!['.'] + field),
        forall|i: int| 0 <= i < proc.len() ==> #[trigger] proc[i] != '.',
    ensures
        negotiate::resolved("topic"@, topic, results, card) == Ok::<_, Seq<char>>(topic),
        results.dom().contains(proc) ==> negotiate::resolved(
            seq!['@'] + proc,
            topic,
            results,
            card,
        ) == Ok::<_, Seq<char>>(ast::value_text(results[proc])),
        !results.dom().contains(proc) ==> negotiate::resolved(
            seq!['@'] + proc,
            topic,
            results,
            card,
        ) is Err && negotiate::resolved(
            seq!['@'] + proc + seq!['.'] + field,
            topic,
            results,
            card,
        ) is Err,
        results.dom().contains(proc) ==> ({
            let v = dslresult::field_of(field, ast::value_text(results[proc]));
            let r = negotiate::resolved(
                seq!['@'] + proc + seq!['.'] + field,
                topic,
                results,
                card,
            );
            &&& v is None ==> r is Err
            &&& v matches Some(t) ==> t.len() <= 2000 ==> r == Ok::<_, Seq<char>>(t)
            &&& v matches Some(t) ==> t.len() > 2000 ==> r == Ok::<_, Seq<char>>(t.take(2000))
        }),
{
    reveal_strlit("topic");
    reveal_strlit("@");
    reveal_strlit("script:");
    let e = Seq::<char>::empty();
    let at = "@"@;
    assert(at =~= seq!['@']);
    text_laws::law_trimming_takes_the_ends(e, "topic"@, e);
    assert(e + "topic"@ + e =~= "topic"@);
    let a = seq!['@'] + proc;
    let b = seq!['@'] + proc + seq!['.'] + field;
    assert(a[0] == '@' && b[0] == '@');
    assert("topic"@[0] == 't' && "script:"@[0] == 's');
    lemma_not_prefix(a, "script:"@);
    lemma_not_prefix(b, "script:"@);
    text_laws::law_beginnings_come_off(at, proc);
    text_laws::law_beginnings_come_off(at, proc + seq!['.'] + field);
    assert(at + (proc + seq!['.'] + field) =~= b);
    text_laws::law_cut_at_the_first(proc, '.', field);
}

proof fn lemma_not_prefix(s: Seq<char>, p: Seq<char>)
    requires
        s.len() > 0,
        p.len() > 0,
        s[0] != p[0],
    ensures
        !p.is_prefix_of(s),
{
    if p.is_prefix_of(s) {
        assert(s.subrange(0, p.len() as int)[0] == p[0]);
    }
}

/// A script is given by its card where it is registered, and refused where it is
/// not; a reference of no known form is refused.
pub proof fn law_scripts_are_given_by_card(
    topic: Seq<char>,
    results: Map<Seq<char>, GValue>,
    card: Option<GCard>,
    name: Seq<char>,
    w: Seq<char>,
)
    requires
        tight("script:"@ + name),
        tight(w),
        w.len() > 0,
        w[0] != '@',
        w != "topic"@,
        !"script:"@.is_prefix_of(w),
    ensures
        card is Some <==> negotiate::resolved("script:"@ + name, topic, results, card) is Ok,
        card matches Some(c) ==> negotiate::resolved("script:"@ + name, topic, results, card)
            == Ok::<_, Seq<char>>(negotiate::card_text(name, c)),
        negotiate::script_named("script:"@ + name) == Some(name),
        negotiate::resolved(w, topic, results, card) is Err,
        negotiate::script_named(w) is None,
{
    reveal_strlit("topic");
    reveal_strlit("script:");
    reveal_strlit("@");
    let s = "script:"@ + name;
    assert(s[0] == 's' && "topic"@[0] == 't');
    text_laws::law_beginnings_come_off("script:"@, name);
    assert("@"@[0] == '@');
    lemma_not_prefix(w, "@"@);
}

/// What is given stands in the addition behind the mark of what was asked for.
pub proof fn law_what_is_given_stands_behind_its_mark(
    items: Seq<(Seq<char>, Seq<char>)>,
    n: int,
    k: int,
)
    requires
        0 <= k < n <= items.len(),
    ensures
        text::has(
            negotiate::additions(items, n),
            "## 补充 ["@ + text::trimmed(items[k].0) + "]"@ + "\n"@ + items[k].1,
        ),
    decreases n,
{
    let p = "## 补充 ["@ + text::trimmed(items[k].0) + "]"@ + "\n"@ + items[k].1;
    let now = negotiate::additions(items, n);
    let before = negotiate::additions(items, n - 1);
    if k < n - 1 {
        law_what_is_given_stands_behind_its_mark(items, n - 1, k);
        let i = choose|i: int| text::occurs_at(before, p, i);
        assert(now.subrange(i, i + p.len()) =~= before.subrange(i, i + p.len()));
        assert(text::occurs_at(now, p, i));
    } else {
        let i = before.len() as int;
        assert(now.subrange(i, i + p.len()) =~= p);
        assert(text::occurs_at(now, p, i));
    }
}

// ── The log ──

/// A text without quotes, backslashes and line feeds is put on record as it is.
pub proof fn law_plain_texts_are_logged_as_they_are(s: Seq<char>)
    requires
        forall|i: int| 0 <= i < s.len() ==> #[trigger] s[i] != '"' && s[i] != '\\' && s[i] != '\n',
    ensures
        negotiate::quoted(s) == s,
        negotiate::string_json(s) == seq!['"'] + s + seq!['"'],
{
    reveal_strlit("\\");
    reveal_strlit("\"");
    reveal_strlit("\n");
    lemma_absent(s, "\\"@);
    lemma_absent(s, "\""@);
    lemma_absent(s, "\n"@);
    text_laws::law_replacing_goes_on(s, "\\"@, "\\\\"@, 0);
    text_laws::law_replacing_goes_on(s, "\""@, "\\\""@, 0);
    text_laws::law_replacing_goes_on(s, "\n"@, "\\n"@, 0);
    assert("\""@ =~= seq!['"']);
}

proof fn lemma_absent(s: Seq<char>, p: Seq<char>)
    requires
        p.len() == 1,
        forall|i: int| 0 <= i < s.len() ==> #[trigger] s[i] != p[0],
    ensures
        !text::has(s, p),
{
    if text::has(s, p) {
        let i = choose|i: int| text::occurs_at(s, p, i);
        assert(s.subrange(i, i + 1)[0] == p[0]);
    }
}

} // verus!
