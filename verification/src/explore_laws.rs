//! What every exploration does: what a curriculum must say, which tasks are run
//! and in which order, and what is kept of them.

use crate::explore;
use crate::explore::{
    ExploreBudget,
    GAt,
    GCurriculum,
    GExplore,
    GOutcome,
    GStop,
    GTask,
    Stages,
    TaskKind,
};
use crate::text;
use vstd::prelude::*;

verus! {

// ── Curricula ──

/// Whether an object has a whole text under a key.
pub open spec fn whole(obj: Seq<char>, key: Seq<char>) -> bool {
    explore::whole_text(obj, key) is Some
}

/// A task is taken exactly where its five texts are there and whole, its kind is
/// one of the two, and it says by what it is judged; it is what they say.
pub proof fn law_tasks_are_whole(obj: Seq<char>)
    ensures
        explore::task_of(obj) is Ok <==> whole(obj, "id"@) && whole(obj, "goal"@) && whole(
            obj,
            "kind"@,
        ) && whole(obj, "plan"@) && whole(obj, "judge"@) && (text::trimmed(
            explore::whole_text(obj, "kind"@)->0,
        ) == "broad"@ || text::trimmed(explore::whole_text(obj, "kind"@)->0) == "deep"@)
            && !text::blank(explore::whole_text(obj, "judge"@)->0),
        explore::task_of(obj) matches Ok(t) ==> t.id == explore::whole_text(obj, "id"@)->0 && t.goal
            == explore::whole_text(obj, "goal"@)->0 && t.plan == explore::whole_text(
            obj,
            "plan"@,
        )->0 && t.judge == explore::whole_text(obj, "judge"@)->0 && (t.kind == TaskKind::Broad
            <==> text::trimmed(explore::whole_text(obj, "kind"@)->0) == "broad"@),
{
    reveal_strlit("broad");
    reveal_strlit("deep");
    assert("broad"@.len() == 5 && "deep"@.len() == 4);
}

proof fn lemma_skip_plain(s: Seq<char>, i: int, k: int, open: char, close: char, depth: int)
    requires
        0 <= i <= k <= s.len(),
        forall|j: int|
            i <= j < k ==> #[trigger] s[j] != open && s[j] != close && s[j] != '"',
    ensures
        explore::close_from(s, i, open, close, depth, false) == explore::close_from(
            s,
            k,
            open,
            close,
            depth,
            false,
        ),
    decreases k - i,
{
    if i < k {
        assert(s[i] != open);
        lemma_skip_plain(s, i + 1, k, open, close, depth);
    }
}

proof fn lemma_skip_text(s: Seq<char>, i: int, k: int, open: char, close: char, depth: int)
    requires
        0 <= i <= k < s.len(),
        forall|j: int| i <= j < k ==> #[trigger] s[j] != '"' && s[j] != '\\',
        s[k] == '"',
    ensures
        explore::close_from(s, i, open, close, depth, true) == explore::close_from(
            s,
            k + 1,
            open,
            close,
            depth,
            false,
        ),
    decreases k - i,
{
    if i < k {
        assert(s[i] != '"');
        lemma_skip_text(s, i + 1, k, open, close, depth);
    }
}

/// A text without brackets of a kind and without quotes.
pub open spec fn level(x: Seq<char>, open: char, close: char) -> bool {
    forall|j: int| 0 <= j < x.len() ==> #[trigger] x[j] != open && x[j] != close && x[j] != '"'
}

/// A bracket closes where its own closing one stands: not at that of a bracket
/// inside it, and not at one inside a string.
pub proof fn law_brackets_close_each_other(
    open: char,
    close: char,
    x: Seq<char>,
    y: Seq<char>,
    z: Seq<char>,
    q: Seq<char>,
    rest: Seq<char>,
)
    requires
        open != close,
        open != '"',
        close != '"',
        level(x, open, close),
        level(y, open, close),
        level(z, open, close),
        forall|j: int| 0 <= j < q.len() ==> #[trigger] q[j] != '"' && q[j] != '\\',
    ensures
        explore::close_from(seq![open] + x + seq![close] + rest, 0, open, close, 0, false) == Some(
            x.len() + 1int,
        ),
        explore::close_from(
            seq![open] + x + seq![open] + y + seq![close] + z + seq![close] + rest,
            0,
            open,
            close,
            0,
            false,
        ) == Some(x.len() + y.len() + z.len() + 3int),
        explore::close_from(
            seq![open] + x + seq!['"'] + q + seq!['"'] + y + seq![close] + rest,
            0,
            open,
            close,
            0,
            false,
        ) == Some(x.len() + q.len() + y.len() + 3int),
        explore::close_from(seq![open] + x, 0, open, close, 0, false) is None,
{
    let n = x.len() as int;
    let a = seq![open] + x + seq![close] + rest;
    assert(a[0] == open);
    assert forall|j: int| 1 <= j < n + 1 implies #[trigger] a[j] != open && a[j] != close && a[j]
        != '"' by {
        assert(a[j] == x[j - 1]);
    }
    lemma_skip_plain(a, 1, n + 1, open, close, 1);
    assert(a[n + 1] == close);
    let b = seq![open] + x + seq![open] + y + seq![close] + z + seq![close] + rest;
    let m = n + 2 + y.len();
    let k = m + 1 + z.len();
    assert(b[0] == open);
    assert forall|j: int| 1 <= j < n + 1 implies #[trigger] b[j] != open && b[j] != close && b[j]
        != '"' by {
        assert(b[j] == x[j - 1]);
    }
    lemma_skip_plain(b, 1, n + 1, open, close, 1);
    assert(b[n + 1] == open);
    assert forall|j: int| n + 2 <= j < m implies #[trigger] b[j] != open && b[j] != close && b[j]
        != '"' by {
        assert(b[j] == y[j - n - 2]);
    }
    lemma_skip_plain(b, n + 2, m, open, close, 2);
    assert(b[m] == close);
    assert forall|j: int| m + 1 <= j < k implies #[trigger] b[j] != open && b[j] != close && b[j]
        != '"' by {
        assert(b[j] == z[j - m - 1]);
    }
    lemma_skip_plain(b, m + 1, k, open, close, 1);
    assert(b[k] == close);
    let c = seq![open] + x + seq!['"'] + q + seq!['"'] + y + seq![close] + rest;
    let e = n + 2 + q.len();
    let f = e + 1 + y.len();
    assert(c[0] == open);
    assert forall|j: int| 1 <= j < n + 1 implies #[trigger] c[j] != open && c[j] != close && c[j]
        != '"' by {
        assert(c[j] == x[j - 1]);
    }
    lemma_skip_plain(c, 1, n + 1, open, close, 1);
    assert(c[n + 1] == '"');
    assert forall|j: int| n + 2 <= j < e implies #[trigger] c[j] != '"' && c[j] != '\\' by {
        assert(c[j] == q[j - n - 2]);
    }
    assert(c[e] == '"');
    lemma_skip_text(c, n + 2, e, open, close, 1);
    assert forall|j: int| e + 1 <= j < f implies #[trigger] c[j] != open && c[j] != close && c[j]
        != '"' by {
        assert(c[j] == y[j - e - 1]);
    }
    lemma_skip_plain(c, e + 1, f, open, close, 1);
    assert(c[f] == close);
    let d = seq![open] + x;
    assert(d[0] == open);
    assert forall|j: int| 1 <= j < n + 1 implies #[trigger] d[j] != open && d[j] != close && d[j]
        != '"' by {
        assert(d[j] == x[j - 1]);
    }
    lemma_skip_plain(d, 1, n + 1, open, close, 1);
}

// ── Stages ──

/// Whether a word asks for a part of an exploration.
pub open spec fn asks(w: Seq<char>) -> bool {
    text::trimmed(w) == "brs"@ || text::trimmed(w) == "drs"@
}

proof fn lemma_stages(parts: Seq<Seq<char>>, n: int)
    requires
        0 <= n <= parts.len(),
    ensures
        explore::stages_until(parts, n) is Ok <==> forall|i: int|
            0 <= i < n ==> asks(#[trigger] parts[i]),
        explore::stages_until(parts, n) matches Ok(s) ==> (s.brs <==> exists|i: int|
            0 <= i < n && text::trimmed(#[trigger] parts[i]) == "brs"@) && (s.drs <==> exists|
            i: int,
        |
            0 <= i < n && text::trimmed(#[trigger] parts[i]) == "drs"@),
    decreases n,
{
    reveal_strlit("brs");
    reveal_strlit("drs");
    assert("brs"@[0] != "drs"@[0]);
    if n > 0 {
        lemma_stages(parts, n - 1);
        assert(parts[n - 1] == parts[n - 1]);
        if asks(parts[n - 1]) {
        } else {
            assert(!asks(parts[n - 1]));
        }
    }
}

/// Without words both parts of an exploration are wanted; else those that are
/// named, and a word that names none is refused.
pub proof fn law_stages_are_named(s: Seq<char>)
    ensures
        text::blank(s) ==> explore::stages_of(s) == Ok::<_, Seq<char>>(
            (Stages { brs: true, drs: true }),
        ),
        !text::blank(s) ==> ({
            let ps = text::split_char_spec(s, ',');
            &&& explore::stages_of(s) is Ok <==> forall|i: int|
                0 <= i < ps.len() ==> asks(#[trigger] ps[i])
            &&& explore::stages_of(s) matches Ok(t) ==> (t.brs <==> exists|i: int|
                0 <= i < ps.len() && text::trimmed(#[trigger] ps[i]) == "brs"@) && (t.drs
                <==> exists|i: int|
                0 <= i < ps.len() && text::trimmed(#[trigger] ps[i]) == "drs"@)
        }),
{
    let ps = text::split_char_spec(s, ',');
    lemma_stages(ps, ps.len() as int);
}

// ── Going on ──

/// An exploration begins with its waves where it has any, else with its steps
/// where it has any, and is over where it has neither; its report is empty.
pub proof fn law_explorations_begin(topic: Seq<char>, budget: ExploreBudget, stages: Stages)
    ensures
        ({
            let e = explore::begun(topic, budget, stages);
            &&& e.at is BroadAsk <==> stages.brs && budget.waves > 0
            &&& e.at is DeepAsk <==> !(stages.brs && budget.waves > 0) && stages.drs
                && budget.deep_steps > 0
            &&& e.at is BroadAsk || e.at is DeepAsk || e.at is Over
            &&& e.waves == budget.waves && e.deep_steps == budget.deep_steps && e.stages == stages
            &&& e.report.topic == topic && e.report.waves_run == 0 && e.report.deep_steps_run == 0
            &&& e.report.results.dom() == Set::<Seq<char>>::empty()
            &&& e.report.consolidated.len() == 0 && e.report.stop_reason is None
                && !e.report.frozen
        }),
{
    assert(explore::empty_report(topic).results.dom() =~= Set::<Seq<char>>::empty());
}

proof fn lemma_broad(tasks: Seq<GTask>, n: int)
    requires
        0 <= n <= tasks.len(),
    ensures
        explore::broad_of(tasks, n) == tasks.take(n).filter(
            |t: GTask| t.kind == TaskKind::Broad,
        ),
    decreases n,
{
    let broad = |t: GTask| t.kind == TaskKind::Broad;
    if n > 0 {
        lemma_broad(tasks, n - 1);
        assert(tasks.take(n) =~= tasks.take(n - 1).push(tasks[n - 1]));
        tasks.take(n - 1).lemma_filter_push(tasks[n - 1], broad);
    } else {
        reveal(Seq::filter);
        assert(tasks.take(0) =~= Seq::empty());
    }
}

proof fn lemma_deep(tasks: Seq<GTask>, i: int)
    requires
        0 <= i <= tasks.len(),
    ensures
        match explore::deep_from(tasks, i) {
            Some(k) => i <= k < tasks.len() && tasks[k].kind == TaskKind::Deep && forall|j: int|
                i <= j < k ==> (#[trigger] tasks[j]).kind != TaskKind::Deep,
            None => forall|j: int|
                i <= j < tasks.len() ==> (#[trigger] tasks[j]).kind != TaskKind::Deep,
        },
    decreases tasks.len() - i,
{
    if i < tasks.len() && tasks[i].kind != TaskKind::Deep {
        lemma_deep(tasks, i + 1);
    }
}

/// A round that breaks its contract ends an exploration at once, with its fault as
/// the reason.
pub proof fn law_broken_rounds_end_it(e: GExplore, x: Seq<char>)
    requires
        e.at is BroadAsk || e.at is DeepAsk,
    ensures
        ({
            let f = explore::after_round(e, Err(x));
            &&& f.at is Over
            &&& f.report.stop_reason == Some(GStop::FailClosed(x))
            &&& f.report.results == e.report.results
            &&& f.report.waves_run == e.report.waves_run
            &&& f.report.deep_steps_run == e.report.deep_steps_run
        }),
{
}

/// A round of waves runs all its broad tasks in order and none of the others;
/// where it has none, or stops, the steps follow if they are wanted and can be
/// paid.
pub proof fn law_waves_run_the_broad_tasks(e: GExplore, c: GCurriculum)
    requires
        e.at is BroadAsk,
    ensures
        ({
            let f = explore::after_round(e, Ok(c));
            let broad = c.tasks.filter(|t: GTask| t.kind == TaskKind::Broad);
            let deeper = e.stages.drs && e.report.deep_steps_run < e.deep_steps;
            &&& !c.stop && broad.len() > 0 ==> f.at == GAt::BroadRun(broad, 0) && f.report
                == e.report
            &&& !c.stop && broad.len() == 0 ==> f.report == e.report && (if deeper {
                f.at is DeepAsk
            } else {
                f.at is Over
            })
            &&& c.stop ==> f.report.stop_reason == Some(GStop::CurriculumStop) && (if deeper {
                f.at is DeepAsk
            } else {
                f.at is Over
            })
        }),
{
    lemma_broad(c.tasks, c.tasks.len() as int);
    assert(c.tasks.take(c.tasks.len() as int) =~= c.tasks);
}

/// A round of steps runs its first deep task; where it has none, or stops, the
/// exploration is over.
pub proof fn law_steps_run_the_first_deep_task(e: GExplore, c: GCurriculum, k: int)
    requires
        e.at is DeepAsk,
    ensures
        ({
            let f = explore::after_round(e, Ok(c));
            &&& c.stop ==> f.at is Over && f.report.stop_reason == Some(GStop::CurriculumStop)
            &&& !c.stop && 0 <= k < c.tasks.len() && c.tasks[k].kind == TaskKind::Deep && (forall|
                j: int,
            |
                0 <= j < k ==> (#[trigger] c.tasks[j]).kind != TaskKind::Deep) ==> f.at
                == GAt::DeepRun(c.tasks[k]) && f.report == e.report
            &&& !c.stop && (forall|j: int|
                0 <= j < c.tasks.len() ==> (#[trigger] c.tasks[j]).kind != TaskKind::Deep)
                ==> f.at is Over && f.report == e.report
        }),
{
    lemma_deep(c.tasks, 0);
    match explore::deep_from(c.tasks, 0) {
        Some(i) => {
            if 0 <= k < c.tasks.len() && c.tasks[k].kind == TaskKind::Deep && (forall|j: int|
                0 <= j < k ==> (#[trigger] c.tasks[j]).kind != TaskKind::Deep) {
                if i < k {
                    assert(c.tasks[i].kind != TaskKind::Deep);
                }
                if k < i {
                    assert(c.tasks[k].kind != TaskKind::Deep);
                }
            }
        },
        None => {},
    }
}

/// What became of a task is kept under its name, and what became of all others
/// stays. The next task of the wave follows; behind the last the wave counts, and
/// the curriculum is asked again while waves are left.
pub proof fn law_outcomes_are_kept(e: GExplore, o: GOutcome, y: Seq<char>)
    requires
        e.at is BroadRun,
        0 <= e.at->BroadRun_1 < e.at->BroadRun_0.len(),
    ensures
        ({
            let tasks = e.at->BroadRun_0;
            let i = e.at->BroadRun_1;
            let t = tasks[i];
            let f = explore::after_outcome(e, o);
            let last = i == tasks.len() - 1;
            &&& f.report.results.dom().contains(t.id)
            &&& f.report.results[t.id] == (t.kind, o)
            &&& y != t.id ==> (f.report.results.dom().contains(y) <==> e.report.results.dom().contains(
                y,
            )) && (e.report.results.dom().contains(y) ==> f.report.results[y]
                == e.report.results[y])
            &&& !last ==> f.at == GAt::BroadRun(tasks, i + 1) && f.report.waves_run
                == e.report.waves_run
            &&& last ==> f.report.waves_run == e.report.waves_run + 1
            &&& last && e.report.waves_run + 1 < e.waves ==> f.at is BroadAsk
                && f.report.stop_reason == e.report.stop_reason
            &&& last && e.report.waves_run + 1 >= e.waves ==> !(f.at is BroadAsk)
                && f.report.stop_reason == Some(GStop::Budget)
            &&& f.report.deep_steps_run == e.report.deep_steps_run
        }),
{
}

/// What became of a step is kept under its name and counts as one step; the
/// curriculum is asked again while steps are left.
pub proof fn law_steps_are_counted(e: GExplore, o: GOutcome)
    requires
        e.at is DeepRun,
    ensures
        ({
            let t = e.at->DeepRun_0;
            let f = explore::after_outcome(e, o);
            &&& f.report.results == e.report.results.insert(t.id, (t.kind, o))
            &&& f.report.deep_steps_run == e.report.deep_steps_run + 1
            &&& f.report.waves_run == e.report.waves_run
            &&& e.report.deep_steps_run + 1 < e.deep_steps ==> f.at is DeepAsk
                && f.report.stop_reason == e.report.stop_reason
            &&& e.report.deep_steps_run + 1 >= e.deep_steps ==> f.at is Over
                && f.report.stop_reason == Some(GStop::Budget)
        }),
{
}

} // verus!
