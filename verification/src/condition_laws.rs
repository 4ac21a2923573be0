//! What a condition says: which relation of which value to which word, and when
//! it holds of numbers.

use crate::ast;
use crate::ast::GValue;
use crate::condition;
use crate::condition::{GDecimal, Relation};
use crate::dslresult;
use crate::text;
use crate::text_laws;
use vstd::prelude::*;

verus! {

// ── Reading a condition ──

/// A word that no relation is written in, without white space at its ends.
pub open spec fn plain(w: Seq<char>) -> bool {
    &&& w.len() > 0
    &&& !text::is_space(w[0])
    &&& !text::is_space(w.last())
    &&& forall|i: int| 0 <= i < w.len() ==> !relational(#[trigger] w[i])
}

/// A character that a relation is written with.
pub open spec fn relational(c: char) -> bool {
    c == '=' || c == '!' || c == '<' || c == '>'
}

/// How a relation is written.
pub open spec fn written(r: Relation) -> Seq<char> {
    match r {
        Relation::Equal => seq!['=', '='],
        Relation::Unequal => seq!['!', '='],
        Relation::AtMost => seq!['<', '='],
        Relation::AtLeast => seq!['>', '='],
        Relation::Less => seq!['<'],
        Relation::More => seq!['>'],
    }
}

proof fn lemma_spaces_are_plain(c: char)
    ensures
        text::is_space(c) ==> !relational(c),
{
}

proof fn lemma_first_relation(s: Seq<char>, i: int, k: int, r: Relation)
    requires
        0 <= i <= k < s.len(),
        forall|j: int| 0 <= j < k ==> !relational(#[trigger] s[j]),
        condition::relation_at(s, k) == Some(r),
    ensures
        condition::first_relation(s, i) == Some((k, r)),
    decreases k - i,
{
    if i < k {
        assert(!relational(s[i]));
        lemma_first_relation(s, i + 1, k, r);
    }
}

/// A condition of two words and a relation between them, with whatever white space
/// around them, holds exactly where the left word has a value, the right one
/// stands for one, and the two are so related.
pub proof fn law_conditions_relate_two_words(
    params: Map<Seq<char>, Seq<char>>,
    results: Map<Seq<char>, GValue>,
    left: Seq<char>,
    a: Seq<char>,
    r: Relation,
    b: Seq<char>,
    right: Seq<char>,
)
    requires
        plain(left),
        text::blank(a),
        text::blank(b),
        right.len() > 0,
        !text::is_space(right[0]),
        !text::is_space(right.last()),
        right[0] != '=',
    ensures
        condition::holds(params, results, left + a + written(r) + b + right) <==> (
        condition::operand(params, results, left) is Some && condition::literal(right) is Some
            && condition::related(
            r,
            condition::operand(params, results, left)->0,
            condition::literal(right)->0,
        )),
{
    let w = written(r);
    let c = left + a + w + b + right;
    let e = Seq::<char>::empty();
    assert(c[0] == left[0]);
    assert(c.last() == right.last());
    text_laws::law_trimming_takes_the_ends(e, c, e);
    assert(e + c + e =~= c);
    let k = (left.len() + a.len()) as int;
    assert forall|j: int| 0 <= j < k implies !relational(#[trigger] c[j]) by {
        if j < left.len() {
            assert(c[j] == left[j]);
        } else {
            assert(c[j] == a[j - left.len()]);
            assert(text::is_space(a[j - left.len()]));
            lemma_spaces_are_plain(c[j]);
        }
    }
    assert(c[k] == w[0]);
    if w.len() == 2 {
        assert(c[k + 1] == w[1]);
    } else {
        if b.len() > 0 {
            assert(c[k + 1] == b[0]);
            assert(text::is_space(b[0]));
            lemma_spaces_are_plain(b[0]);
        } else {
            assert(c[k + 1] == right[0]);
        }
    }
    assert(condition::relation_at(c, k) == Some(r));
    lemma_first_relation(c, 0, k, r);
    assert(c.take(k) =~= e + left + a);
    text_laws::law_trimming_takes_the_ends(e, left, a);
    assert(c.skip(k + w.len()) =~= b + right + e);
    text_laws::law_trimming_takes_the_ends(b, right, e);
}

/// A condition without anything in it holds; one without a relation does not.
pub proof fn law_empty_conditions_hold(
    params: Map<Seq<char>, Seq<char>>,
    results: Map<Seq<char>, GValue>,
    a: Seq<char>,
    w: Seq<char>,
)
    requires
        text::blank(a),
        plain(w),
    ensures
        condition::holds(params, results, a),
        !condition::holds(params, results, w),
{
    let e = Seq::<char>::empty();
    text_laws::law_trimming_takes_the_ends(a, e, e);
    assert(a + e + e =~= a);
    text_laws::law_trimming_takes_the_ends(e, w, e);
    assert(e + w + e =~= w);
    lemma_no_relation(w, 0);
}

proof fn lemma_no_relation(s: Seq<char>, i: int)
    requires
        0 <= i <= s.len(),
        forall|j: int| 0 <= j < s.len() ==> !relational(#[trigger] s[j]),
    ensures
        condition::first_relation(s, i) is None,
    decreases s.len() - i,
{
    if i < s.len() {
        assert(!relational(s[i]));
        lemma_no_relation(s, i + 1);
    }
}

/// The left word of a condition is a parameter; behind an at sign it is the result
/// of a proc, or with a dot a field of it. It has no value where there is none of
/// that name.
pub proof fn law_words_stand_for_values(
    params: Map<Seq<char>, Seq<char>>,
    results: Map<Seq<char>, GValue>,
    w: Seq<char>,
    proc: Seq<char>,
    field: Seq<char>,
)
    requires
        w.len() > 0 ==> w[0] != '@',
        forall|i: int| 0 <= i < proc.len() ==> #[trigger] proc[i] != '.',
    ensures
        condition::operand(params, results, w) == (if params.dom().contains(w) {
            Some(params[w])
        } else {
            None
        }),
        condition::operand(params, results, seq!['@'] + proc) == (if results.dom().contains(proc) {
            Some(ast::value_text(results[proc]))
        } else {
            None
        }),
        condition::operand(params, results, seq!['@'] + proc + seq!['.'] + field) == (
        if results.dom().contains(proc) {
            dslresult::field_of(field, ast::value_text(results[proc]))
        } else {
            None
        }),
{
    reveal_strlit("@");
    assert("@"@ =~= seq!['@']);
    text_laws::law_beginnings_come_off("@"@, proc);
    text_laws::law_beginnings_come_off("@"@, proc + seq!['.'] + field);
    assert("@"@ + (proc + seq!['.'] + field) =~= seq!['@'] + proc + seq!['.'] + field);
    text_laws::law_cut_at_the_first(proc, '.', field);
    text_laws::law_beginnings_come_off("@"@, w);
    if "@"@.is_prefix_of(w) {
        assert(w == "@"@ + w.skip(1));
        assert(w[0] == '@');
    }
}

/// A word between double quotes stands for what is between them, any other for
/// itself, and the empty one for nothing.
pub proof fn law_quotes_come_off(w: Seq<char>)
    ensures
        condition::literal(seq!['"'] + w + seq!['"']) == Some(w),
        w.len() > 0 && w[0] != '"' ==> condition::literal(w) == Some(w),
        condition::literal(Seq::empty()) is None,
{
    let q = seq!['"'] + w + seq!['"'];
    assert(q.subrange(1, q.len() - 1) =~= w);
}

// ── Numbers ──

proof fn lemma_numeral(n: int)
    ensures
        condition::decimal_of(text::signed_dec(n)) is Some,
        condition::decimal_of(text::signed_dec(n))->0.fraction.len() == 0,
        condition::scaled(condition::decimal_of(text::signed_dec(n))->0, 0) == n,
{
    reveal_strlit("-");
    let s = text::signed_dec(n);
    let m: nat = if n < 0 {
        (-n) as nat
    } else {
        n as nat
    };
    let d = text::dec(m);
    text_laws::law_decimals_read_back(m);
    assert(text::is_digit(d[0]));
    assert(d[0] != '-');
    if n < 0 {
        assert(s[0] == '-');
        assert(s.skip(1) =~= d);
    }
    assert forall|i: int| 0 <= i < d.len() implies d[i] != '.' by {
        assert(text::is_digit(d[i]));
    }
    text::lemma_find_char_none(d, '.', 0);
    let x = condition::decimal_of(s)->0;
    assert(x.whole == d);
    assert(x.whole + condition::filled(x.fraction, 0) =~= d);
}

/// Whole numbers are related as numbers.
pub proof fn law_numbers_are_compared(a: int, b: int)
    ensures
        condition::related(Relation::Equal, text::signed_dec(a), text::signed_dec(b)) <==> a == b,
        condition::related(Relation::Unequal, text::signed_dec(a), text::signed_dec(b)) <==> a != b,
        condition::related(Relation::AtMost, text::signed_dec(a), text::signed_dec(b)) <==> a <= b,
        condition::related(Relation::AtLeast, text::signed_dec(a), text::signed_dec(b)) <==> a >= b,
        condition::related(Relation::Less, text::signed_dec(a), text::signed_dec(b)) <==> a < b,
        condition::related(Relation::More, text::signed_dec(a), text::signed_dec(b)) <==> a > b,
{
    lemma_numeral(a);
    lemma_numeral(b);
}

/// Words that are not both numbers are equal or not, and have no order.
pub proof fn law_words_have_no_order(a: Seq<char>, b: Seq<char>, i: int)
    requires
        0 <= i < a.len(),
        !text::is_digit(a[i]),
        a[i] != '.',
        a[i] != '-',
    ensures
        condition::related(Relation::Equal, a, b) <==> a == b,
        condition::related(Relation::Unequal, a, b) <==> a != b,
        !condition::related(Relation::AtMost, a, b),
        !condition::related(Relation::AtLeast, a, b),
        !condition::related(Relation::Less, a, b),
        !condition::related(Relation::More, a, b),
{
    if condition::decimal_of(a) is Some {
        let negative = a[0] == '-';
        let body = if negative {
            a.skip(1)
        } else {
            a
        };
        let j = if negative {
            i - 1
        } else {
            i
        };
        assert(body[j] == a[i]);
        text::lemma_find_char_from(body, '.', 0);
        match text::find_char_spec(body, '.') {
            Some(k) => {
                if j < k {
                    assert(body.take(k)[j] == a[i]);
                } else {
                    assert(body.skip(k + 1)[j - k - 1] == a[i]);
                }
            },
            None => {},
        }
    }
}

/// Another place after the dot does not change a number: in units ten times as
/// small there are ten times as many.
pub proof fn law_places_do_not_matter(d: GDecimal, n: nat)
    requires
        d.fraction.len() <= n,
    ensures
        condition::scaled(d, n + 1) == 10 * condition::scaled(d, n),
        condition::scaled(d, d.fraction.len()) == (if d.negative {
            -text::digits_value(d.whole + d.fraction)
        } else {
            text::digits_value(d.whole + d.fraction) as int
        }),
{
    let a = d.whole + condition::filled(d.fraction, n);
    let b = d.whole + condition::filled(d.fraction, n + 1);
    assert(b.last() == '0');
    assert(b.drop_last() =~= a);
    assert(text::digits_value(b) == text::digits_value(a) * 10);
    assert(condition::filled(d.fraction, d.fraction.len()) =~= d.fraction);
}

/// A number with a dot has the digits before it and behind it, and its sign.
pub proof fn law_dots_part_digits(w: Seq<char>, f: Seq<char>)
    requires
        text::all_digits(w),
        text::all_digits(f),
        w.len() > 0,
        f.len() > 0,
    ensures
        condition::decimal_of(w + seq!['.'] + f) == Some(
            (GDecimal { negative: false, whole: w, fraction: f }),
        ),
        condition::decimal_of(seq!['-'] + w + seq!['.'] + f) == Some(
            (GDecimal { negative: true, whole: w, fraction: f }),
        ),
{
    assert forall|i: int| 0 <= i < w.len() implies #[trigger] w[i] != '.' by {
        assert(text::is_digit(w[i]));
    }
    assert(text::is_digit(w[0]));
    text_laws::law_cut_at_the_first(w, '.', f);
    let s = seq!['-'] + w + seq!['.'] + f;
    assert(s.skip(1) =~= w + seq!['.'] + f);
    assert((w + seq!['.'] + f)[0] == w[0]);
}

} // verus!
