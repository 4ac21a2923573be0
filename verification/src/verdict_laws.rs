//! When a review can object, and what it says.

use crate::ast;
use crate::ast::{GValue, Proc};
use crate::critical;
use crate::review;
use crate::review::{GVerdict, L4Phase, Reviewer};
use crate::text;
use vstd::prelude::*;

verus! {

/// Reviews can object exactly once eight have been labelled and seven of ten agree
/// with their label.
pub proof fn law_reviews_object_once_they_are_trusted(labeled: int, agree: int)
    ensures
        review::phase(labeled, agree) == L4Phase::Enforcing <==> labeled >= 8 && 10 * agree >= 7
            * labeled,
{
}

/// An objection is raised exactly where the review fails the run and can object;
/// it holds what the review saw.
pub proof fn law_failed_reviews_object(v: GVerdict, p: L4Phase)
    ensures
        review::objection_of(v, p) is Some <==> v.fail && p == L4Phase::Enforcing,
        review::objection_of(v, p) matches Some(o) ==> v.evidence.is_suffix_of(o),
{
    match review::objection_of(v, p) {
        Some(o) => {
            assert(o.subrange(o.len() - v.evidence.len(), o.len() as int) =~= v.evidence);
        },
        None => {},
    }
}

/// A run with a fatal failure is failed whoever is asked, and the evidence is that
/// failure. Without one only an answer that starts with the word fails it: whoever
/// is silent or not asked does not.
pub proof fn law_only_answers_and_failures_fail_a_run(
    fatal: Option<Seq<char>>,
    who: Reviewer,
    shown: Seq<char>,
)
    ensures
        fatal is Some ==> review::run_verdict(fatal, who, shown).fail,
        fatal matches Some(m) ==> m.len() <= 2000 ==> review::run_verdict(fatal, who, shown).evidence
            == "critical: "@ + m,
        fatal is None && !(who is Answered) ==> !review::run_verdict(fatal, who, shown).fail,
        fatal is None && !(who is Answered) && 0 < shown.len() <= 1800 ==> shown.is_suffix_of(
            review::run_verdict(fatal, who, shown).evidence,
        ),
{
    let e = review::run_verdict(fatal, who, shown).evidence;
    if fatal is None && !(who is Answered) && 0 < shown.len() <= 1800 {
        assert(text::cut_spec(shown, 1800) == shown);
        assert(e.subrange(e.len() - shown.len(), e.len() as int) =~= shown);
    }
}

/// The line of an answer that decides is the first with something on it.
pub proof fn law_the_first_full_line_decides(lines: Seq<Seq<char>>, k: int)
    requires
        0 <= k < lines.len(),
        text::trimmed(lines[k]).len() > 0,
        forall|j: int| 0 <= j < k ==> text::trimmed(#[trigger] lines[j]).len() == 0,
    ensures
        review::first_full_line(lines, 0) == text::trimmed(lines[k]),
{
    lemma_first_line(lines, k, 0);
}

proof fn lemma_first_line(lines: Seq<Seq<char>>, k: int, i: int)
    requires
        0 <= i <= k < lines.len(),
        text::trimmed(lines[k]).len() > 0,
        forall|j: int| 0 <= j < k ==> text::trimmed(#[trigger] lines[j]).len() == 0,
    ensures
        review::first_full_line(lines, i) == text::trimmed(lines[k]),
    decreases k - i,
{
    if i < k {
        lemma_first_line(lines, k, i + 1);
    }
}

/// An answer fails a run exactly where its first line, in small letters, starts
/// with `fail`; the line is the evidence.
pub proof fn law_answers_fail_by_their_first_word(first: Seq<char>, lower: Seq<char>)
    ensures
        review::answer_verdict(first, lower).fail <==> lower.len() >= 4 && lower[0] == 'f'
            && lower[1] == 'a' && lower[2] == 'i' && lower[3] == 'l',
        first.len() <= 2000 ==> first.is_suffix_of(review::answer_verdict(first, lower).evidence),
{
    reveal_strlit("fail");
    let w = "fail"@;
    if lower.len() >= 4 && lower[0] == 'f' && lower[1] == 'a' && lower[2] == 'i' && lower[3]
        == 'l' {
        assert(lower.subrange(0, 4) =~= w);
    }
    if w.is_prefix_of(lower) {
        assert(lower.subrange(0, 4)[0] == w[0] && lower.subrange(0, 4)[1] == w[1]
            && lower.subrange(0, 4)[2] == w[2] && lower.subrange(0, 4)[3] == w[3]);
    }
    if first.len() <= 2000 {
        let e = review::answer_verdict(first, lower).evidence;
        assert(e.subrange(e.len() - first.len(), e.len() as int) =~= first);
    }
}

/// A word is a verdict exactly where it is `pass` or `fail`, and a label exactly
/// where it is `ok` or `bad`, whatever white space is around it.
pub proof fn law_words_of_reviews(a: Seq<char>, w: Seq<char>, b: Seq<char>)
    requires
        text::trimmed(a + w + b) == w,
    ensures
        review::verdict_word(a + w + b) is Ok <==> w == "pass"@ || w == "fail"@,
        review::verdict_word(a + w + b) matches Ok(t) ==> t == w,
        review::label_word(a + w + b) is Ok <==> w == "ok"@ || w == "bad"@,
        review::label_word(a + w + b) matches Ok(t) ==> t == w,
{
}

/// A review agrees with its label where it passed what was well, or failed what
/// was not, and only a review with a label can agree.
pub proof fn law_agreement_is_of_both(verdict: Seq<char>, label: Seq<char>)
    ensures
        label == "ok"@ ==> (review::agrees(verdict, label) <==> verdict == "pass"@),
        label == "bad"@ ==> (review::agrees(verdict, label) <==> verdict == "fail"@),
        label != "ok"@ && label != "bad"@ ==> !review::agrees(verdict, label)
            && !review::labelled(label),
        review::agrees(verdict, label) ==> review::labelled(label),
        label == "ok"@ || label == "bad"@ ==> review::labelled(label),
{
    reveal_strlit("ok");
    reveal_strlit("bad");
    reveal_strlit("pass");
    reveal_strlit("fail");
    assert("ok"@.len() == 2 && "bad"@.len() == 3);
    assert("pass"@[0] != "fail"@[0]);
}

/// What is shown of a run are the delivered results and nothing else, in the order
/// of their names.
pub proof fn law_delivered_results_are_shown(
    procs: Seq<Proc>,
    names: Seq<Seq<char>>,
    results: Map<Seq<char>, GValue>,
)
    ensures
        review::summaries(procs, names, results, names.len() as int) == names.filter(
            |x: Seq<char>| critical::delivered(procs, x),
        ).map_values(
            |x: Seq<char>| x + ": "@ + text::cut_spec(ast::value_text(results[x]), 2000),
        ),
{
    lemma_summaries(procs, names, results, names.len() as int);
    assert(names.take(names.len() as int) =~= names);
}

proof fn lemma_summaries(
    procs: Seq<Proc>,
    names: Seq<Seq<char>>,
    results: Map<Seq<char>, GValue>,
    n: int,
)
    requires
        0 <= n <= names.len(),
    ensures
        review::summaries(procs, names, results, n) == names.take(n).filter(
            |x: Seq<char>| critical::delivered(procs, x),
        ).map_values(
            |x: Seq<char>| x + ": "@ + text::cut_spec(ast::value_text(results[x]), 2000),
        ),
    decreases n,
{
    let keep = |x: Seq<char>| critical::delivered(procs, x);
    let show = |x: Seq<char>| x + ": "@ + text::cut_spec(ast::value_text(results[x]), 2000);
    if n > 0 {
        lemma_summaries(procs, names, results, n - 1);
        let t = names.take(n - 1);
        assert(names.take(n) =~= t.push(names[n - 1]));
        t.lemma_filter_push(names[n - 1], keep);
        if keep(names[n - 1]) {
            assert(t.filter(keep).push(names[n - 1]).map_values(show) =~= t.filter(
                keep,
            ).map_values(show).push(show(names[n - 1])));
        }
    } else {
        reveal(Seq::filter);
        assert(names.take(0) =~= Seq::empty());
        assert(names.take(0).filter(keep).map_values(show) =~= Seq::empty());
    }
}

} // verus!
