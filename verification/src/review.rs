//! The review of what a pipeline delivers: who may object, and with what.

use crate::ast;
use crate::ast::{GValue, Pipeline, Proc, Value};
use crate::critical;
use crate::order;
use crate::order::TextMap;
use crate::text;
use vstd::prelude::*;

verus! {

// ── Phases ──

/// How many reviews must have been labelled before one can object.
pub const L4_ENFORCE_MIN_LABELED: i64 = 8;

/// How many of ten labels the reviews must agree with.
pub const L4_ENFORCE_MIN_AGREEMENT_TENTHS: i64 = 7;

/// Whether a review is only put on record or can object.
#[derive(Debug, Clone, Copy, PartialEq, Eq, Structural)]
pub enum L4Phase {
    LogOnly,
    Enforcing,
}

/// The name of a phase.
pub open spec fn phase_name(p: L4Phase) -> Seq<char> {
    match p {
        L4Phase::LogOnly => "log_only"@,
        L4Phase::Enforcing => "enforcing"@,
    }
}

impl L4Phase {
    /// The name of a phase.
    pub fn as_str(&self) -> (r: &'static str)
        ensures
            r@ == phase_name(*self),
    {
        match self {
            L4Phase::LogOnly => "log_only",
            L4Phase::Enforcing => "enforcing",
        }
    }
}

/// The phase with so many labelled reviews, of which so many agree with their
/// label: reviews can object once there are enough labels and seven of ten
/// agree.
pub open spec fn phase(labeled: int, agree: int) -> L4Phase {
    if labeled >= L4_ENFORCE_MIN_LABELED && agree * 10 >= labeled
        * L4_ENFORCE_MIN_AGREEMENT_TENTHS {
        L4Phase::Enforcing
    } else {
        L4Phase::LogOnly
    }
}

/// The phase with so many labelled reviews, of which so many agree with their
/// label.
pub fn phase_for(labeled: i64, agree: i64) -> (r: L4Phase)
    ensures
        r == phase(labeled as int, agree as int),
{
    if labeled >= L4_ENFORCE_MIN_LABELED && (agree as i128) * 10 >= (labeled as i128)
        * (L4_ENFORCE_MIN_AGREEMENT_TENTHS as i128) {
        L4Phase::Enforcing
    } else {
        L4Phase::LogOnly
    }
}

/// Whether a review agrees with its label.
pub open spec fn agrees(verdict: Seq<char>, label: Seq<char>) -> bool {
    (verdict == "pass"@ && label == "ok"@) || (verdict == "fail"@ && label == "bad"@)
}

/// Whether a review has a label.
pub open spec fn labelled(label: Seq<char>) -> bool {
    label == "ok"@ || label == "bad"@
}

/// More agreement never takes the right to object away.
pub proof fn law_agreement_counts(labeled: int, a: int, b: int)
    requires
        a <= b,
    ensures
        phase(labeled, a) == L4Phase::Enforcing ==> phase(labeled, b) == L4Phase::Enforcing,
        labeled < L4_ENFORCE_MIN_LABELED ==> phase(labeled, b) == L4Phase::LogOnly,
{
}

// ── Words ──

/// A verdict, or what is wrong with the word.
pub open spec fn verdict_word(v: Seq<char>) -> Result<Seq<char>, Seq<char>> {
    let t = text::trimmed(v);
    if t == "pass"@ || t == "fail"@ {
        Ok(t)
    } else {
        Err("verdict must be pass/fail, got "@ + text::debug_quoted(t))
    }
}

/// A label, or what is wrong with the word.
pub open spec fn label_word(l: Seq<char>) -> Result<Seq<char>, Seq<char>> {
    let t = text::trimmed(l);
    if t == "ok"@ || t == "bad"@ {
        Ok(t)
    } else {
        Err("label must be ok/bad, got "@ + text::debug_quoted(t))
    }
}

/// A word, or what is wrong with it, as values.
pub open spec fn word_result(r: Result<&'static str, String>) -> Result<Seq<char>, Seq<char>> {
    match r {
        Ok(w) => Ok(w@),
        Err(e) => Err(e@),
    }
}

/// A verdict, or what is wrong with the word.
pub fn normalize_verdict(v: &str) -> (r: Result<&'static str, String>)
    ensures
        word_result(r) == verdict_word(v@),
{
    let t = text::trim(v);
    if text::same(t.as_str(), "pass") {
        Ok("pass")
    } else if text::same(t.as_str(), "fail") {
        Ok("fail")
    } else {
        let mut m = "verdict must be pass/fail, got ".to_owned();
        m.append(text::debug_quote(t.as_str()).as_str());
        Err(m)
    }
}

/// A label, or what is wrong with the word.
pub fn normalize_label(l: &str) -> (r: Result<&'static str, String>)
    ensures
        word_result(r) == label_word(l@),
{
    let t = text::trim(l);
    if text::same(t.as_str(), "ok") {
        Ok("ok")
    } else if text::same(t.as_str(), "bad") {
        Ok("bad")
    } else {
        let mut m = "label must be ok/bad, got ".to_owned();
        m.append(text::debug_quote(t.as_str()).as_str());
        Err(m)
    }
}

/// Where a label comes from: the blind comparison, or a human.
pub fn label_source(source: &str) -> (r: &'static str)
    ensures
        r@ == (if source@ == "blind:regcheck3"@ {
            "blind:regcheck3"@
        } else {
            "human"@
        }),
{
    if text::same(source, "blind:regcheck3") {
        "blind:regcheck3"
    } else {
        "human"
    }
}

/// The question to an independent judge: what was wanted and what was
/// delivered, and nothing of what happened in between.
pub fn review_prompt(intent: &str, deliver_summary: &str) -> (r: String)
    ensures
        r@
            == "你是独立复核者。只依据给定的任务意图与最终交付物，判断交付是否达成了意图。不要参考任何管线内部执行细节。输出一行判断：pass 或 fail，加一句话证据。\n\n## 任务意图\n"@
            + intent@ + "\n\n## 交付物摘要\n"@ + deliver_summary@,
{
    let mut s = "你是独立复核者。只依据给定的任务意图与最终交付物，判断交付是否达成了意图。不要参考任何管线内部执行细节。输出一行判断：pass 或 fail，加一句话证据。\n\n## 任务意图\n".to_owned();
    s.append(intent);
    s.append("\n\n## 交付物摘要\n");
    s.append(deliver_summary);
    s
}

// ── The end of a run ──

/// Whether some proc delivers `x`.
pub open spec fn is_target(procs: Seq<Proc>, x: Seq<char>) -> bool {
    critical::delivered(procs, x)
}

/// The results that are delivered, from the `i`-th name on.
pub open spec fn summaries(
    procs: Seq<Proc>,
    names: Seq<Seq<char>>,
    results: Map<Seq<char>, GValue>,
    n: int,
) -> Seq<Seq<char>>
    decreases n,
{
    if n <= 0 {
        Seq::empty()
    } else if is_target(procs, names[n - 1]) {
        summaries(procs, names, results, n - 1).push(
            names[n - 1] + ": "@ + text::cut_spec(ast::value_text(results[names[n - 1]]), 2000),
        )
    } else {
        summaries(procs, names, results, n - 1)
    }
}

/// What was delivered, in short.
pub open spec fn summary(procs: Seq<Proc>, results: Map<Seq<char>, GValue>) -> Seq<char> {
    let names = order::in_order(results.dom());
    text::join_spec(summaries(procs, names, results, names.len() as int), " | "@)
}

/// Whether some proc delivers `x`.
fn delivers(procs: &Vec<Proc>, x: &str) -> (r: bool)
    ensures
        r == is_target(procs@, x@),
{
    let mut i: usize = 0;
    while i < procs.len()
        invariant
            i <= procs@.len(),
            forall|k: int|
                0 <= k < i ==> !((#[trigger] procs@[k]).deliver && text::views(
                    procs@[k].deliver_refs@,
                ).contains(x@)),
        decreases procs@.len() - i,
    {
        if procs[i].deliver && text::is_one_of(x, &procs[i].deliver_refs) {
            assert(procs@[i as int].deliver && text::views(
                procs@[i as int].deliver_refs@,
            ).contains(x@));
            return true;
        }
        i += 1;
    }
    false
}

/// What was delivered, in short.
pub fn deliver_summary(pl: &Pipeline, results: &TextMap<Value>) -> (r: String)
    requires
        results.wf(),
    ensures
        r@ == summary(pl.procs@, ast::result_views(*results)),
{
    let ghost rv = ast::result_views(*results);
    let ghost names = results.keys();
    proof {
        critical::lemma_result_names(*results);
    }
    let mut out: Vec<String> = Vec::new();
    let mut i: usize = 0;
    assert(text::views(out@) =~= Seq::<Seq<char>>::empty());
    while i < results.len()
        invariant
            i <= names.len(),
            results.wf(),
            rv == ast::result_views(*results),
            names == results.keys(),
            text::views(out@) == summaries(pl.procs@, names, rv, i as int),
        decreases names.len() - i,
    {
        let name = results.key_at(i);
        if delivers(&pl.procs, name.as_str()) {
            proof {
                results.lemma_entry(i as int);
            }
            let v = results.value_at(i);
            let mut s = name.clone();
            s.append(": ");
            s.append(text::cut(v.as_text(), 2000).as_str());
            let ghost sv = s@;
            let ghost before = out@;
            out.push(s);
            assert(rv[names[i as int]] == v@);
            assert(text::views(out@) =~= text::views(before).push(sv));
        }
        i += 1;
    }
    text::join(out.as_slice(), " | ")
}

/// The first line with something on it from the `i`-th on, trimmed.
pub open spec fn first_full_line(lines: Seq<Seq<char>>, i: int) -> Seq<char>
    decreases lines.len() - i,
{
    if i >= lines.len() {
        Seq::empty()
    } else if text::trimmed(lines[i]).len() > 0 {
        text::trimmed(lines[i])
    } else {
        first_full_line(lines, i + 1)
    }
}

/// The first line with something on it, trimmed.
fn first_line(s: &str) -> (r: String)
    ensures
        r@ == first_full_line(text::lines_spec(s@), 0),
{
    let lines = text::lines(s);
    let ghost lv = text::views(lines@);
    let mut i: usize = 0;
    while i < lines.len()
        invariant
            i <= lines@.len(),
            lv == text::views(lines@),
            lv == text::lines_spec(s@),
            first_full_line(lv, 0) == first_full_line(lv, i as int),
        decreases lines@.len() - i,
    {
        let t = text::trim(lines[i].as_str());
        if !t.as_str().is_empty() {
            return t;
        }
        i += 1;
    }
    let e = String::new();
    assert(e@ =~= Seq::<char>::empty());
    e
}

/// What the review of a run says.
#[derive(Debug)]
pub struct Verdict {
    pub verdict: &'static str,
    pub evidence: String,
}

/// What the review of a run says, as values.
pub struct GVerdict {
    pub fail: bool,
    pub evidence: Seq<char>,
}

impl Verdict {
    pub open spec fn view(&self) -> GVerdict {
        GVerdict { fail: self.verdict@ == "fail"@, evidence: self.evidence@ }
    }

    /// The verdict is one of the two words.
    pub open spec fn wf(self) -> bool {
        self.verdict@ == "fail"@ || self.verdict@ == "pass"@
    }
}

/// Who was asked about a run that went well.
#[derive(Debug)]
pub enum Reviewer {
    /// Nobody.
    Nobody,
    /// The independent judge, who did not answer.
    Silent,
    /// The independent judge, with this answer.
    Answered(String),
}

/// The verdict on an answer: its first line, which starts with `fail` in
/// whatever letters where something is wrong.
pub open spec fn answer_verdict(first: Seq<char>, lower: Seq<char>) -> GVerdict {
    GVerdict {
        fail: "fail"@.is_prefix_of(lower),
        evidence: "[independent review] "@ + text::cut_spec(first, 2000),
    }
}

/// What the review of a run says: a fatal failure is a failure without asking
/// anybody.
pub open spec fn run_verdict(fatal: Option<Seq<char>>, who: Reviewer, shown: Seq<char>) -> GVerdict {
    match fatal {
        Some(m) => GVerdict {
            fail: true,
            evidence: "critical: "@ + text::cut_spec(m, 2000),
        },
        None => match who {
            Reviewer::Answered(out) => {
                let first = first_full_line(text::lines_spec(out@), 0);
                answer_verdict(first, text::lower(first))
            },
            Reviewer::Silent => GVerdict {
                fail: false,
                evidence: "[no independent review: bridge unavailable] "@ + text::cut_spec(
                    shown,
                    1800,
                ),
            },
            Reviewer::Nobody => GVerdict {
                fail: false,
                evidence: if shown.len() == 0 {
                    "no deliver proc; all procs completed"@
                } else {
                    "[no independent review] "@ + text::cut_spec(shown, 1800)
                },
            },
        },
    }
}

/// The verdict on an answer, given its first line and that line in small
/// letters.
pub fn judge_answer(first: &str, lower: &str) -> (r: Verdict)
    ensures
        r.wf(),
        r@ == answer_verdict(first@, lower@),
{
    let mut evidence = "[independent review] ".to_owned();
    evidence.append(text::cut(first, 2000).as_str());
    proof {
        reveal_strlit("fail");
        reveal_strlit("pass");
        assert("fail"@[0] != "pass"@[0]);
    }
    let verdict = if text::starts_with(lower, "fail") {
        "fail"
    } else {
        "pass"
    };
    Verdict { verdict, evidence }
}

/// What the review of a run says: a fatal failure is a failure without asking
/// anybody.
pub fn review_run(fatal: &Option<String>, who: &Reviewer, shown: &str) -> (r: Verdict)
    ensures
        r.wf(),
        r@ == run_verdict(text::opt_view(*fatal), *who, shown@),
{
    proof {
        reveal_strlit("fail");
        reveal_strlit("pass");
        assert("fail"@[0] != "pass"@[0]);
    }
    match fatal {
        Some(m) => {
            let mut evidence = "critical: ".to_owned();
            evidence.append(text::cut(m.as_str(), 2000).as_str());
            return Verdict { verdict: "fail", evidence };
        },
        None => {},
    }
    match who {
        Reviewer::Answered(out) => {
            let first = first_line(out.as_str());
            let lower = text::lowercase(first.as_str());
            judge_answer(first.as_str(), lower.as_str())
        },
        Reviewer::Silent => {
            let mut evidence = "[no independent review: bridge unavailable] ".to_owned();
            evidence.append(text::cut(shown, 1800).as_str());
            Verdict { verdict: "pass", evidence }
        },
        Reviewer::Nobody => {
            if shown.is_empty() {
                Verdict {
                    verdict: "pass",
                    evidence: "no deliver proc; all procs completed".to_owned(),
                }
            } else {
                let mut evidence = "[no independent review] ".to_owned();
                evidence.append(text::cut(shown, 1800).as_str());
                Verdict { verdict: "pass", evidence }
            }
        },
    }
}

/// The objection of a review, where it can object.
pub open spec fn objection_of(v: GVerdict, p: L4Phase) -> Option<Seq<char>> {
    if v.fail && p == L4Phase::Enforcing {
        Some("L4 enforcing: end-to-end review failed — "@ + v.evidence)
    } else {
        None
    }
}

/// The objection of a review, where it can object.
pub fn objection(v: &Verdict, p: L4Phase) -> (r: Option<String>)
    ensures
        text::opt_view(r) == objection_of(v@, p),
{
    if text::same(v.verdict, "fail") && p == L4Phase::Enforcing {
        let mut m = "L4 enforcing: end-to-end review failed — ".to_owned();
        m.append(v.evidence.as_str());
        Some(m)
    } else {
        None
    }
}

/// A review that is only put on record never objects, and one that says that
/// all is well never does either.
pub proof fn law_objections_are_earned(v: GVerdict, labeled: int, agree: int)
    ensures
        objection_of(v, phase(labeled, agree)) is Some ==> v.fail && labeled
            >= L4_ENFORCE_MIN_LABELED,
{
}

// ── Listing ──

/// A review in the store.
#[derive(Debug)]
pub struct L4ReviewRow {
    pub id: i64,
    pub pipeline: String,
    pub verdict: String,
    pub evidence: String,
    pub label: String,
    pub run_id: Option<i64>,
    pub reviewed_at: String,
}

/// A review as a line.
pub open spec fn review_line(r: L4ReviewRow) -> Seq<char> {
    "#"@ + text::signed_dec(r.id as int) + " ["@ + r.verdict@ + "] "@ + r.pipeline@ + " evidence="@
        + r.evidence@ + " label="@ + (if r.label@.len() == 0 {
        "-"@
    } else {
        r.label@
    }) + "\n"@
}

/// The first `n` reviews as lines.
pub open spec fn review_lines(rows: Seq<L4ReviewRow>, n: int) -> Seq<char>
    decreases n,
{
    if n <= 0 {
        Seq::empty()
    } else {
        review_lines(rows, n - 1) + review_line(rows[n - 1])
    }
}

/// The phase, the rate of agreement as text, and the reviews.
pub open spec fn review_list(p: L4Phase, rate: Option<Seq<char>>, rows: Seq<L4ReviewRow>) -> Seq<
    char,
> {
    "L4 phase: "@ + phase_name(p) + " (agreement: "@ + (match rate {
        Some(a) => a,
        None => "n/a"@,
    }) + ")\n"@ + (if rows.len() == 0 {
        "(no l4 reviews)"@
    } else {
        review_lines(rows, rows.len() as int)
    })
}

/// The phase, the rate of agreement as text, and the reviews.
pub fn render_reviews(p: L4Phase, rate: &Option<String>, rows: &Vec<L4ReviewRow>) -> (r: String)
    ensures
        r@ == review_list(p, text::opt_view(*rate), rows@),
{
    let mut s = "L4 phase: ".to_owned();
    s.append(p.as_str());
    s.append(" (agreement: ");
    match rate {
        Some(a) => {
            s.append(a.as_str());
        },
        None => {
            s.append("n/a");
        },
    }
    s.append(")\n");
    if rows.len() == 0 {
        s.append("(no l4 reviews)");
        return s;
    }
    let ghost head = s@;
    let mut i: usize = 0;
    assert(head + review_lines(rows@, 0) =~= head);
    while i < rows.len()
        invariant
            i <= rows@.len(),
            s@ == head + review_lines(rows@, i as int),
        decreases rows@.len() - i,
    {
        let r: &L4ReviewRow = &rows[i];
        let mut t = "#".to_owned();
        t.append(text::signed_decimal(r.id).as_str());
        t.append(" [");
        t.append(r.verdict.as_str());
        t.append("] ");
        t.append(r.pipeline.as_str());
        t.append(" evidence=");
        t.append(r.evidence.as_str());
        t.append(" label=");
        if r.label.as_str().is_empty() {
            t.append("-");
        } else {
            t.append(r.label.as_str());
        }
        t.append("\n");
        assert(t@ == review_line(rows@[i as int]));
        s.append(t.as_str());
        assert(s@ =~= head + review_lines(rows@, i + 1));
        i += 1;
    }
    s
}

} // verus!
