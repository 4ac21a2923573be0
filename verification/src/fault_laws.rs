//! What is said where a pipeline does not keep to a hypergraph.

use crate::ast;
use crate::ast::{Impl, Proc};
use crate::check_laws;
use crate::egraph;
use crate::hyper::{GHedge, GSpec, GStage, HedgeKind, HyperRole};
use crate::hyper_check;
use crate::hyper_emit;
use crate::text;
use vstd::prelude::*;

verus! {

/// What is said of an input that a proc does not name.
pub open spec fn unread_text(stage: Seq<char>, x: Seq<char>) -> Seq<char> {
    "stage "@ + text::debug_quoted(stage) + " should depend on "@ + text::debug_quoted(x)
        + " via @ref (after=)"@
}

/// The inputs that a proc does not name are said, each in its place, and no others.
pub proof fn law_unread_inputs_are_said(s: GStage, after: Seq<Seq<char>>, p: Proc, n: int)
    requires
        0 <= n <= after.len(),
    ensures
        hyper_check::input_errors(s, after, p, n) == after.take(n).filter(
            |x: Seq<char>| !check_laws::reads(p, x),
        ).map_values(|x: Seq<char>| unread_text(s.name, x)),
    decreases n,
{
    let keep = |x: Seq<char>| !check_laws::reads(p, x);
    let say = |x: Seq<char>| unread_text(s.name, x);
    if n > 0 {
        law_unread_inputs_are_said(s, after, p, n - 1);
        let t = after.take(n - 1);
        let x = after[n - 1];
        assert(after.take(n) =~= t.push(x));
        t.lemma_filter_push(x, keep);
        lemma_reads(p, x);
        if keep(x) {
            assert(t.filter(keep).push(x).map_values(say) =~= t.filter(keep).map_values(say).push(
                say(x),
            ));
        }
    } else {
        reveal(Seq::filter);
        assert(after.take(0) =~= Seq::empty());
        assert(after.take(0).filter(keep).map_values(say) =~= Seq::empty());
    }
}

proof fn lemma_reads(p: Proc, x: Seq<char>)
    ensures
        hyper_check::depends_on(p, x) <==> check_laws::reads(p, x),
        hyper_check::gated_by(p, x) <==> check_laws::held_back_by(p, x),
{
    if hyper_check::gated_by(p, x) {
        let k = choose|k: int|
            0 <= k < p.plan@.len() && #[trigger] hyper_check::waits_on(p.plan@[k], x);
        assert(p.plan@[k].when is Some);
    }
    if check_laws::held_back_by(p, x) {
        let k = choose|k: int|
            0 <= k < p.plan@.len() && (#[trigger] p.plan@[k]).when is Some && text::has(
                p.plan@[k].when->0@,
                "@"@ + x,
            );
        assert(hyper_check::waits_on(p.plan@[k], x));
        assert(hyper_check::refers_to(p.plan@[k], x));
    }
    if hyper_check::depends_on(p, x) {
        let k = choose|k: int|
            0 <= k < p.plan@.len() && #[trigger] hyper_check::refers_to(p.plan@[k], x);
        assert(p.plan@[k] == p.plan@[k]);
        if hyper_check::waits_on(p.plan@[k], x) {
            assert(p.plan@[k].when is Some);
        }
    }
    if check_laws::reads(p, x) && !check_laws::held_back_by(p, x) {
        if exists|k: int|
            0 <= k < p.plan@.len() && text::has((#[trigger] p.plan@[k]).body_text@, "@"@ + x) {
            let k = choose|k: int|
                0 <= k < p.plan@.len() && text::has((#[trigger] p.plan@[k]).body_text@, "@"@ + x);
            assert(hyper_check::refers_to(p.plan@[k], x));
        } else {
            let k = choose|k: int|
                0 <= k < p.plan@.len() && text::views((#[trigger] p.plan@[k]).refs@).contains(x);
            assert(hyper_check::refers_to(p.plan@[k], x));
        }
    }
}

/// As many implementations are enabled as there are enabled ones.
pub proof fn law_enabled_ways_are_counted(plan: Seq<Impl>, n: int)
    requires
        0 <= n <= plan.len(),
    ensures
        hyper_check::enabled_count(plan, n) == plan.take(n).filter(|i: Impl| i.enabled).len(),
    decreases n,
{
    let keep = |i: Impl| i.enabled;
    if n > 0 {
        law_enabled_ways_are_counted(plan, n - 1);
        let t = plan.take(n - 1);
        assert(plan.take(n) =~= t.push(plan[n - 1]));
        t.lemma_filter_push(plan[n - 1], keep);
    } else {
        reveal(Seq::filter);
        assert(plan.take(0) =~= Seq::empty());
    }
}

/// A stage without a proc is said to miss it. Of one with a proc it is said first
/// that it has too few ways, where it does, second which inputs it does not name,
/// and last that it does not wait for its verdict, where it does not.
pub proof fn law_faults_of_a_stage_are_said(g: GSpec, procs: Seq<Proc>, s: GStage, k: int)
    requires
        0 <= k <= procs.len(),
        forall|j: int| 0 <= j < k ==> (#[trigger] procs[j]).name@ != s.name,
        k < procs.len() ==> procs[k].name@ == s.name,
    ensures
        k == procs.len() ==> hyper_check::stage_errors(g, procs, s) == seq![
            "missing proc for hyper stage "@ + text::debug_quoted(s.name),
        ],
        k < procs.len() ==> ({
            let p = procs[k];
            let ways = p.plan@.filter(|i: Impl| i.enabled).len();
            let need = hyper_emit::need_of(g.require, s);
            let after = hyper_emit::inputs_of(g.stages, s);
            let few = if ways < need {
                seq![
                    "stage "@ + text::debug_quoted(s.name) + " has "@ + text::dec(ways)
                        + " enabled impl(s), need min_impls="@ + text::dec(need),
                ]
            } else {
                Seq::empty()
            };
            let free = if s.gated_by is Some && !check_laws::held_back_by(p, s.gated_by->0) {
                seq![
                    "stage "@ + text::debug_quoted(s.name) + " should be gated_by "@
                        + text::debug_quoted(s.gated_by->0) + " (.when(@"@ + s.gated_by->0
                        + ".…))"@,
                ]
            } else {
                Seq::empty()
            };
            hyper_check::stage_errors(g, procs, s) == few + after.filter(
                |x: Seq<char>| !check_laws::reads(p, x),
            ).map_values(|x: Seq<char>| unread_text(s.name, x)) + free
        }),
{
    lemma_at(procs, s.name, 0, k);
    if k < procs.len() {
        let p = procs[k];
        let after = hyper_emit::inputs_of(g.stages, s);
        law_unread_inputs_are_said(s, after, p, after.len() as int);
        assert(after.take(after.len() as int) =~= after);
        law_enabled_ways_are_counted(p.plan@, p.plan@.len() as int);
        assert(p.plan@.take(p.plan@.len() as int) =~= p.plan@);
        if s.gated_by is Some {
            lemma_reads(p, s.gated_by->0);
        }
    }
}

proof fn lemma_at(procs: Seq<Proc>, name: Seq<char>, i: int, k: int)
    requires
        0 <= i <= k <= procs.len(),
        forall|j: int| i <= j < k ==> (#[trigger] procs[j]).name@ != name,
        k < procs.len() ==> procs[k].name@ == name,
    ensures
        egraph::proc_at(procs, name, i) == (if k < procs.len() {
            Some(k)
        } else {
            None
        }),
    decreases k - i,
{
    if i < k {
        assert(procs[i].name@ != name);
        lemma_at(procs, name, i + 1, k);
    }
}

/// What is said of a member that a bundle lacks.
pub open spec fn lacking_text(bundle: Seq<char>, x: Seq<char>) -> Seq<char> {
    "bundle "@ + text::debug_quoted(bundle) + " requires proc "@ + text::debug_quoted(x)
        + " (co-occurrence)"@
}

/// The members of a bundle that are no procs are said, each in its place.
pub proof fn law_lacking_members_are_said(h: GHedge, names: Seq<Seq<char>>, n: int)
    requires
        0 <= n <= h.members.len(),
    ensures
        hyper_check::bundle_errors(h, names, n) == h.members.take(n).filter(
            |x: Seq<char>| !names.contains(x),
        ).map_values(|x: Seq<char>| lacking_text(h.name, x)),
    decreases n,
{
    let keep = |x: Seq<char>| !names.contains(x);
    let say = |x: Seq<char>| lacking_text(h.name, x);
    if n > 0 {
        law_lacking_members_are_said(h, names, n - 1);
        let t = h.members.take(n - 1);
        let x = h.members[n - 1];
        assert(h.members.take(n) =~= t.push(x));
        t.lemma_filter_push(x, keep);
        if keep(x) {
            assert(t.filter(keep).push(x).map_values(say) =~= t.filter(keep).map_values(say).push(
                say(x),
            ));
        }
    } else {
        reveal(Seq::filter);
        assert(h.members.take(0) =~= Seq::empty());
        assert(h.members.take(0).filter(keep).map_values(say) =~= Seq::empty());
    }
}

/// The judges that are no procs are said, each in its place; where a judge is asked
/// for and there is no such stage, that is said; where none is asked for, nothing.
pub proof fn law_lacking_judges_are_said(g: GSpec, names: Seq<Seq<char>>)
    ensures
        ({
            let judging = g.stages.filter(|s: GStage| s.role == HyperRole::Judge);
            let missing = judging.filter(|s: GStage| !names.contains(s.name));
            let found = hyper_check::judge_errors(g, names);
            &&& !g.require.judge ==> found.len() == 0
            &&& g.require.judge && judging.len() == 0 ==> found == seq![
                "require.judge=true but no stage with role=judge"@,
            ]
            &&& g.require.judge && judging.len() > 0 ==> found == missing.map_values(
                |s: GStage| "judge stage "@ + text::debug_quoted(s.name) + " missing in pipeline"@,
            )
        }),
{
    let role = |s: GStage| s.role == HyperRole::Judge;
    let judging = g.stages.filter(role);
    lemma_missing(g.stages, names, g.stages.len() as int);
    assert(g.stages.take(g.stages.len() as int) =~= g.stages);
    if hyper_check::has_judge(g.stages) {
        let i = choose|i: int|
            0 <= i < g.stages.len() && (#[trigger] g.stages[i]).role == HyperRole::Judge;
        g.stages.lemma_filter_contains(role, i);
    }
    if judging.len() > 0 {
        g.stages.lemma_filter_pred(role, 0);
        g.stages.lemma_filter_contains_rev(role, judging[0]);
        let i = choose|i: int| 0 <= i < g.stages.len() && g.stages[i] == judging[0];
        assert(g.stages[i].role == HyperRole::Judge);
    }
}

proof fn lemma_missing(ss: Seq<GStage>, names: Seq<Seq<char>>, n: int)
    requires
        0 <= n <= ss.len(),
    ensures
        hyper_check::missing_judges(ss, names, n) == ss.take(n).filter(
            |s: GStage| s.role == HyperRole::Judge,
        ).filter(|s: GStage| !names.contains(s.name)).map_values(
            |s: GStage| "judge stage "@ + text::debug_quoted(s.name) + " missing in pipeline"@,
        ),
    decreases n,
{
    let role = |s: GStage| s.role == HyperRole::Judge;
    let lacks = |s: GStage| !names.contains(s.name);
    let say = |s: GStage|
        "judge stage "@ + text::debug_quoted(s.name) + " missing in pipeline"@;
    if n > 0 {
        lemma_missing(ss, names, n - 1);
        let t = ss.take(n - 1);
        let x = ss[n - 1];
        assert(ss.take(n) =~= t.push(x));
        t.lemma_filter_push(x, role);
        if role(x) {
            t.filter(role).lemma_filter_push(x, lacks);
            if lacks(x) {
                let f = t.filter(role).filter(lacks);
                assert(f.push(x).map_values(say) =~= f.map_values(say).push(say(x)));
            }
        }
    } else {
        reveal(Seq::filter);
        assert(ss.take(0) =~= Seq::empty());
        assert(ss.take(0).filter(role) =~= Seq::empty());
        assert(ss.take(0).filter(role).filter(lacks).map_values(say) =~= Seq::empty());
    }
}

/// What is said of the bundles is what is said of each bundle, in order; other
/// edges are passed over.
pub proof fn law_only_bundles_are_asked(hs: Seq<GHedge>, names: Seq<Seq<char>>, n: int)
    requires
        0 <= n < hs.len(),
    ensures
        hs[n].kind == HedgeKind::Bundle ==> hyper_check::bundles_errors(hs, names, n + 1)
            == hyper_check::bundles_errors(hs, names, n) + hs[n].members.filter(
            |x: Seq<char>| !names.contains(x),
        ).map_values(|x: Seq<char>| lacking_text(hs[n].name, x)),
        hs[n].kind != HedgeKind::Bundle ==> hyper_check::bundles_errors(hs, names, n + 1)
            == hyper_check::bundles_errors(hs, names, n),
        hyper_check::bundles_errors(hs, names, 0).len() == 0,
{
    law_lacking_members_are_said(hs[n], names, hs[n].members.len() as int);
    assert(hs[n].members.take(hs[n].members.len() as int) =~= hs[n].members);
}

/// What is said of the whole is what is said of the stages, of the bundles, of the
/// judges and of the delivery, in this order.
pub proof fn law_all_faults_are_said(g: GSpec, procs: Seq<Proc>, f: Seq<char>)
    ensures
        ({
            let names = ast::proc_names(procs);
            let stages = hyper_check::stages_errors(g, procs, g.stages.len() as int);
            let bundles = hyper_check::bundles_errors(g.hedges, names, g.hedges.len() as int);
            let judges = hyper_check::judge_errors(g, names);
            let out = hyper_check::deliver_errors(procs, hyper_emit::delivery(g));
            let all = hyper_check::check_errors(g, procs);
            &&& all.take(stages.len() as int) == stages
            &&& all.len() == stages.len() + bundles.len() + judges.len() + out.len()
            &&& all.contains(f) <==> stages.contains(f) || bundles.contains(f) || judges.contains(f)
                || out.contains(f)
            &&& out.len() > 0 ==> out == seq![
                "pipeline should deliver @"@ + hyper_emit::delivery(g)
                    + " (or mark a deliver proc)"@,
            ]
        }),
{
    let names = ast::proc_names(procs);
    let stages = hyper_check::stages_errors(g, procs, g.stages.len() as int);
    let bundles = hyper_check::bundles_errors(g.hedges, names, g.hedges.len() as int);
    let judges = hyper_check::judge_errors(g, names);
    let out = hyper_check::deliver_errors(procs, hyper_emit::delivery(g));
    let all = hyper_check::check_errors(g, procs);
    assert(all.take(stages.len() as int) =~= stages);
    vstd::seq_lib::lemma_seq_concat_contains_all_elements(stages, bundles, f);
    vstd::seq_lib::lemma_seq_concat_contains_all_elements(stages + bundles, judges, f);
    vstd::seq_lib::lemma_seq_concat_contains_all_elements(stages + bundles + judges, out, f);
}

/// What is said of the stages is what is said of each stage, in order.
pub proof fn law_stages_are_asked_in_order(g: GSpec, procs: Seq<Proc>, n: int)
    requires
        0 <= n < g.stages.len(),
    ensures
        hyper_check::stages_errors(g, procs, 0).len() == 0,
        hyper_check::stages_errors(g, procs, n + 1).take(
            hyper_check::stages_errors(g, procs, n).len() as int,
        ) == hyper_check::stages_errors(g, procs, n),
        hyper_check::stages_errors(g, procs, n + 1).skip(
            hyper_check::stages_errors(g, procs, n).len() as int,
        ) == hyper_check::stage_errors(g, procs, g.stages[n]),
{
    let before = hyper_check::stages_errors(g, procs, n);
    let now = hyper_check::stages_errors(g, procs, n + 1);
    assert(now.take(before.len() as int) =~= before);
    assert(now.skip(before.len() as int) =~= hyper_check::stage_errors(g, procs, g.stages[n]));
}

} // verus!
