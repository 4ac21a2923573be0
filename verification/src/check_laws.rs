//! What a pipeline that keeps to a hypergraph has, and what one that does not
//! lacks.

use crate::ast;
use crate::ast::{Impl, Proc};
use crate::egraph;
use crate::hyper::{GHedge, GSpec, GStage, HedgeKind, HyperRole};
use crate::hyper_check;
use crate::hyper_emit;
use crate::text;
use vstd::prelude::*;

verus! {

// ── What is asked of a pipeline ──

/// Whether the condition of some implementation speaks of `name`.
pub open spec fn held_back_by(p: Proc, name: Seq<char>) -> bool {
    exists|k: int|
        0 <= k < p.plan@.len() && (#[trigger] p.plan@[k]).when is Some && text::has(
            p.plan@[k].when->0@,
            "@"@ + name,
        )
}

/// Whether some implementation names `name`, in its references, its body or its
/// condition.
pub open spec fn reads(p: Proc, name: Seq<char>) -> bool {
    ||| held_back_by(p, name)
    ||| exists|k: int|
        0 <= k < p.plan@.len() && text::has((#[trigger] p.plan@[k]).body_text@, "@"@ + name)
    ||| exists|k: int|
        0 <= k < p.plan@.len() && text::views((#[trigger] p.plan@[k]).refs@).contains(name)
}

/// Whether the `j`-th of the first `n` stages is the last of that name without
/// inputs, and declared right behind `x`.
pub open spec fn right_behind(
    ss: Seq<GStage>,
    n: int,
    name: Seq<char>,
    j: int,
    x: Seq<char>,
) -> bool {
    &&& 1 <= j < n
    &&& ss[j].name == name
    &&& ss[j].after.len() == 0
    &&& ss[j - 1].name == x
    &&& forall|m: int| j < m < n && (#[trigger] ss[m]).name == name ==> ss[m].after.len() > 0
}

/// Whether `x` comes in at the `i`-th stage: it is one of its inputs, or the stage
/// has none and is declared right behind `x`, the last of its name to be so.
pub open spec fn comes_in(ss: Seq<GStage>, i: int, x: Seq<char>) -> bool {
    if ss[i].after.len() > 0 {
        ss[i].after.contains(x)
    } else {
        exists|j: int| #[trigger] right_behind(ss, ss.len() as int, ss[i].name, j, x)
    }
}

/// Whether a proc does what the `i`-th stage asks: it has as many enabled ways as
/// the stage and the whole hypergraph ask for and at least one, it reads every
/// input, and some way waits for the judge where there is one.
pub open spec fn does(g: GSpec, i: int, p: Proc) -> bool {
    let ways = p.plan@.filter(|w: Impl| w.enabled).len();
    &&& ways >= 1
    &&& ways >= g.stages[i].min_impls
    &&& ways >= g.require.min_impls
    &&& forall|x: Seq<char>| #[trigger] comes_in(g.stages, i, x) ==> reads(p, x)
    &&& g.stages[i].gated_by is Some ==> held_back_by(p, g.stages[i].gated_by->0)
}

/// Whether `d` is what a hypergraph delivers: what it says; else the last stage
/// that is a sink; else the last stage; else `out`.
pub open spec fn goes_out(g: GSpec, d: Seq<char>) -> bool {
    let ss = g.stages;
    let sink = exists|i: int| 0 <= i < ss.len() && (#[trigger] ss[i]).role == HyperRole::Sink;
    if g.deliver is Some {
        d == g.deliver->0
    } else if sink {
        exists|i: int|
            0 <= i < ss.len() && (#[trigger] ss[i]).role == HyperRole::Sink && ss[i].name == d
                && forall|j: int|
                i < j < ss.len() ==> (#[trigger] ss[j]).role != HyperRole::Sink
    } else if ss.len() > 0 {
        d == ss[ss.len() - 1].name
    } else {
        d == "out"@
    }
}

/// Whether a proc hands out `d`: it is marked to deliver, or it is called
/// `deliver` and hands out or mentions `d`.
pub open spec fn hands_out(p: Proc, d: Seq<char>) -> bool {
    ||| p.deliver
    ||| p.name@ == "deliver"@ && text::views(p.deliver_refs@).contains(d)
    ||| p.name@ == "deliver"@ && exists|k: int|
        0 <= k < p.plan@.len() && text::has((#[trigger] p.plan@[k]).body_text@, d)
}

/// Whether there is a proc of that name.
pub open spec fn there(procs: Seq<Proc>, name: Seq<char>) -> bool {
    exists|k: int| 0 <= k < procs.len() && (#[trigger] procs[k]).name@ == name
}

/// Whether every stage has a proc, the first of its name, that does what the
/// stage asks.
pub open spec fn stages_done(g: GSpec, procs: Seq<Proc>) -> bool {
    forall|i: int|
        0 <= i < g.stages.len() ==> exists|k: int|
            0 <= k < procs.len() && (#[trigger] procs[k]).name@ == (#[trigger] g.stages[i]).name
                && (forall|m: int|
                0 <= m < k ==> (#[trigger] procs[m]).name@ != g.stages[i].name) && does(
                g,
                i,
                procs[k],
            )
}

/// Whether the members of every bundle are procs.
pub open spec fn bundles_whole(g: GSpec, procs: Seq<Proc>) -> bool {
    forall|h: int, m: int|
        0 <= h < g.hedges.len() && g.hedges[h].kind == HedgeKind::Bundle && 0 <= m
            < g.hedges[h].members.len() ==> there(procs, #[trigger] g.hedges[h].members[m])
}

/// Whether there is a judge, and every judge is a proc, where one is asked for.
pub open spec fn judges_there(g: GSpec, procs: Seq<Proc>) -> bool {
    g.require.judge ==> (exists|i: int|
        0 <= i < g.stages.len() && (#[trigger] g.stages[i]).role == HyperRole::Judge) && (forall|
        i: int,
    |
        0 <= i < g.stages.len() && (#[trigger] g.stages[i]).role == HyperRole::Judge ==> there(
            procs,
            g.stages[i].name,
        ))
}

/// Whether some proc hands out what the hypergraph delivers.
pub open spec fn delivered(g: GSpec, procs: Seq<Proc>) -> bool {
    exists|k: int, d: Seq<char>|
        0 <= k < procs.len() && goes_out(g, d) && #[trigger] hands_out(procs[k], d)
}

// ── Proofs ──

proof fn lemma_enabled(plan: Seq<Impl>, n: int)
    requires
        0 <= n <= plan.len(),
    ensures
        hyper_check::enabled_count(plan, n) == plan.take(n).filter(|w: Impl| w.enabled).len(),
    decreases n,
{
    let on = |w: Impl| w.enabled;
    if n > 0 {
        lemma_enabled(plan, n - 1);
        assert(plan.take(n) =~= plan.take(n - 1).push(plan[n - 1]));
        plan.take(n - 1).lemma_filter_push(plan[n - 1], on);
    } else {
        reveal(Seq::filter);
        assert(plan.take(0) =~= Seq::empty());
    }
}

proof fn lemma_stage_before(ss: Seq<GStage>, name: Seq<char>, n: int)
    requires
        0 <= n <= ss.len(),
    ensures
        hyper_emit::stage_before(ss, name, n) is Some ==> exists|j: int| #[trigger] right_behind(
            ss,
            n,
            name,
            j,
            hyper_emit::stage_before(ss, name, n)->0,
        ),
        hyper_emit::stage_before(ss, name, n) is None ==> forall|j: int|
            1 <= j < n && (#[trigger] ss[j]).name == name ==> ss[j].after.len() > 0,
    decreases n,
{
    let before = hyper_emit::stage_before(ss, name, n);
    if n > 1 {
        if ss[n - 1].name == name && ss[n - 1].after.len() == 0 {
            assert(right_behind(ss, n, name, n - 1, before->0));
        } else {
            lemma_stage_before(ss, name, n - 1);
            assert(before == hyper_emit::stage_before(ss, name, n - 1));
            if before is Some {
                let j = choose|j: int| #[trigger] right_behind(ss, n - 1, name, j, before->0);
                assert(right_behind(ss, n - 1, name, j, before->0));
                assert(right_behind(ss, n, name, j, before->0));
            }
        }
    }
}

/// What comes in at a stage is what it is checked for.
proof fn lemma_comes_in(ss: Seq<GStage>, i: int, x: Seq<char>)
    requires
        0 <= i < ss.len(),
    ensures
        comes_in(ss, i, x) <==> hyper_emit::inputs_of(ss, ss[i]).contains(x),
{
    let ins = hyper_emit::inputs_of(ss, ss[i]);
    let n = ss.len() as int;
    let name = ss[i].name;
    if ss[i].after.len() == 0 {
        lemma_stage_before(ss, name, n);
        match hyper_emit::stage_before(ss, name, n) {
            Some(p) => {
                assert(ins[0] == p);
                let j = choose|j: int| #[trigger] right_behind(ss, n, name, j, p);
                if comes_in(ss, i, x) {
                    let l = choose|l: int| #[trigger] right_behind(ss, n, name, l, x);
                    assert(ss[j].name == name);
                    assert(ss[l].name == name);
                    assert(l == j);
                }
                if ins.contains(x) {
                    assert(x == p);
                }
            },
            None => {
                if comes_in(ss, i, x) {
                    let l = choose|l: int| #[trigger] right_behind(ss, n, name, l, x);
                    assert(ss[l].name == name);
                }
            },
        }
    }
}

proof fn lemma_reads(p: Proc, x: Seq<char>)
    ensures
        reads(p, x) <==> hyper_check::depends_on(p, x),
        held_back_by(p, x) <==> hyper_check::gated_by(p, x),
{
    if held_back_by(p, x) {
        let k = choose|k: int|
            0 <= k < p.plan@.len() && (#[trigger] p.plan@[k]).when is Some && text::has(
                p.plan@[k].when->0@,
                "@"@ + x,
            );
        assert(hyper_check::waits_on(p.plan@[k], x));
        assert(hyper_check::refers_to(p.plan@[k], x));
    }
    if hyper_check::gated_by(p, x) {
        let k = choose|k: int|
            0 <= k < p.plan@.len() && #[trigger] hyper_check::waits_on(p.plan@[k], x);
        assert(p.plan@[k].when is Some);
    }
    if exists|k: int|
        0 <= k < p.plan@.len() && text::has((#[trigger] p.plan@[k]).body_text@, "@"@ + x) {
        let k = choose|k: int|
            0 <= k < p.plan@.len() && text::has((#[trigger] p.plan@[k]).body_text@, "@"@ + x);
        assert(hyper_check::refers_to(p.plan@[k], x));
    }
    if exists|k: int|
        0 <= k < p.plan@.len() && text::views((#[trigger] p.plan@[k]).refs@).contains(x) {
        let k = choose|k: int|
            0 <= k < p.plan@.len() && text::views((#[trigger] p.plan@[k]).refs@).contains(x);
        assert(hyper_check::refers_to(p.plan@[k], x));
    }
    if hyper_check::depends_on(p, x) {
        let k = choose|k: int|
            0 <= k < p.plan@.len() && #[trigger] hyper_check::refers_to(p.plan@[k], x);
        let w = p.plan@[k];
        if hyper_check::waits_on(w, x) {
            assert(hyper_check::gated_by(p, x));
        }
    }
}

proof fn lemma_inputs(s: GStage, after: Seq<Seq<char>>, p: Proc, n: int)
    requires
        0 <= n <= after.len(),
    ensures
        hyper_check::input_errors(s, after, p, n).len() == 0 <==> forall|k: int|
            0 <= k < n ==> reads(p, #[trigger] after[k]),
    decreases n,
{
    if n > 0 {
        lemma_inputs(s, after, p, n - 1);
        lemma_reads(p, after[n - 1]);
        assert(reads(p, after[n - 1]) || !reads(p, after[n - 1]));
    }
}

proof fn lemma_stage(g: GSpec, procs: Seq<Proc>, i: int)
    requires
        0 <= i < g.stages.len(),
    ensures
        hyper_check::stage_errors(g, procs, g.stages[i]).len() == 0 <==> exists|k: int|
            0 <= k < procs.len() && (#[trigger] procs[k]).name@ == g.stages[i].name && (forall|
                m: int,
            |
                0 <= m < k ==> (#[trigger] procs[m]).name@ != g.stages[i].name) && does(
                g,
                i,
                procs[k],
            ),
{
    let s = g.stages[i];
    lemma_first(procs, s.name, 0);
    match egraph::proc_at(procs, s.name, 0) {
        None => {},
        Some(k) => {
            let p = procs[k];
            let after = hyper_emit::inputs_of(g.stages, s);
            lemma_enabled(p.plan@, p.plan@.len() as int);
            assert(p.plan@.take(p.plan@.len() as int) =~= p.plan@);
            lemma_inputs(s, after, p, after.len() as int);
            if s.gated_by is Some {
                lemma_reads(p, s.gated_by->0);
            }
            assert((forall|n: int| 0 <= n < after.len() ==> reads(p, #[trigger] after[n])) <==> (
            forall|x: Seq<char>| #[trigger] comes_in(g.stages, i, x) ==> reads(p, x))) by {
                if forall|n: int| 0 <= n < after.len() ==> reads(p, #[trigger] after[n]) {
                    assert forall|x: Seq<char>| #[trigger] comes_in(g.stages, i, x) implies reads(
                        p,
                        x,
                    ) by {
                        lemma_comes_in(g.stages, i, x);
                        let n = choose|n: int| 0 <= n < after.len() && after[n] == x;
                        assert(reads(p, after[n]));
                    }
                }
                if forall|x: Seq<char>| #[trigger] comes_in(g.stages, i, x) ==> reads(p, x) {
                    assert forall|n: int| 0 <= n < after.len() implies reads(
                        p,
                        #[trigger] after[n],
                    ) by {
                        lemma_comes_in(g.stages, i, after[n]);
                        assert(after.contains(after[n]));
                        assert(comes_in(g.stages, i, after[n]));
                    }
                }
            }
            assert(hyper_check::stage_errors(g, procs, s).len() == 0 <==> does(g, i, p));
            if exists|l: int|
                0 <= l < procs.len() && (#[trigger] procs[l]).name@ == s.name && (forall|m: int|
                    0 <= m < l ==> (#[trigger] procs[m]).name@ != s.name) && does(g, i, procs[l]) {
                let l = choose|l: int|
                    0 <= l < procs.len() && (#[trigger] procs[l]).name@ == s.name && (forall|
                        m: int,
                    |
                        0 <= m < l ==> (#[trigger] procs[m]).name@ != s.name) && does(
                        g,
                        i,
                        procs[l],
                    );
                assert(l == k) by {
                    assert(procs[k].name@ == s.name);
                    assert(procs[l].name@ == s.name);
                }
            }
            if does(g, i, p) {
                assert(procs[k].name@ == s.name);
            }
        },
    }
}

/// The proc of a name is the first one of that name.
pub proof fn lemma_first(procs: Seq<Proc>, name: Seq<char>, i: int)
    requires
        0 <= i <= procs.len(),
    ensures
        match egraph::proc_at(procs, name, i) {
            Some(k) => i <= k < procs.len() && procs[k].name@ == name && forall|m: int|
                i <= m < k ==> (#[trigger] procs[m]).name@ != name,
            None => forall|m: int| i <= m < procs.len() ==> (#[trigger] procs[m]).name@ != name,
        },
    decreases procs.len() - i,
{
    if i < procs.len() && procs[i].name@ != name {
        lemma_first(procs, name, i + 1);
    }
}

proof fn lemma_stages(g: GSpec, procs: Seq<Proc>, n: int)
    requires
        0 <= n <= g.stages.len(),
    ensures
        hyper_check::stages_errors(g, procs, n).len() == 0 <==> forall|i: int|
            0 <= i < n ==> hyper_check::stage_errors(
                g,
                procs,
                #[trigger] g.stages[i],
            ).len() == 0,
    decreases n,
{
    if n > 0 {
        lemma_stages(g, procs, n - 1);
        assert(g.stages[n - 1] == g.stages[n - 1]);
    }
}

/// A name is there where it is among the names of the procs.
pub proof fn lemma_there(procs: Seq<Proc>, name: Seq<char>)
    ensures
        there(procs, name) <==> ast::proc_names(procs).contains(name),
{
    let names = ast::proc_names(procs);
    if there(procs, name) {
        let k = choose|k: int| 0 <= k < procs.len() && (#[trigger] procs[k]).name@ == name;
        assert(names[k] == name);
    }
    if names.contains(name) {
        let k = choose|k: int| 0 <= k < names.len() && names[k] == name;
        assert(procs[k].name@ == name);
    }
}

proof fn lemma_bundle(h: GHedge, procs: Seq<Proc>, n: int)
    requires
        0 <= n <= h.members.len(),
    ensures
        hyper_check::bundle_errors(h, ast::proc_names(procs), n).len() == 0 <==> forall|m: int|
            0 <= m < n ==> there(procs, #[trigger] h.members[m]),
    decreases n,
{
    if n > 0 {
        lemma_bundle(h, procs, n - 1);
        lemma_there(procs, h.members[n - 1]);
    }
}

proof fn lemma_bundles(hs: Seq<GHedge>, procs: Seq<Proc>, n: int)
    requires
        0 <= n <= hs.len(),
    ensures
        hyper_check::bundles_errors(hs, ast::proc_names(procs), n).len() == 0 <==> forall|
            h: int,
            m: int,
        |
            0 <= h < n && hs[h].kind == HedgeKind::Bundle && 0 <= m < hs[h].members.len()
                ==> there(procs, #[trigger] hs[h].members[m]),
    decreases n,
{
    if n > 0 {
        let names = ast::proc_names(procs);
        let h = hs[n - 1];
        lemma_bundles(hs, procs, n - 1);
        lemma_bundle(h, procs, h.members.len() as int);
        if hyper_check::bundles_errors(hs, names, n).len() == 0 {
            assert forall|a: int, m: int|
                0 <= a < n && hs[a].kind == HedgeKind::Bundle && 0 <= m
                    < hs[a].members.len() implies there(procs, #[trigger] hs[a].members[m]) by {
                if a == n - 1 {
                    assert(there(procs, h.members[m]));
                }
            }
        }
        if forall|a: int, m: int|
            0 <= a < n && hs[a].kind == HedgeKind::Bundle && 0 <= m < hs[a].members.len()
                ==> there(procs, #[trigger] hs[a].members[m]) {
            if h.kind == HedgeKind::Bundle {
                assert forall|m: int| 0 <= m < h.members.len() implies there(
                    procs,
                    #[trigger] h.members[m],
                ) by {
                    assert(there(procs, hs[n - 1].members[m]));
                }
            }
            assert forall|a: int, m: int|
                0 <= a < n - 1 && hs[a].kind == HedgeKind::Bundle && 0 <= m
                    < hs[a].members.len() implies there(procs, #[trigger] hs[a].members[m]) by {
            }
        }
    }
}

proof fn lemma_judges(ss: Seq<GStage>, procs: Seq<Proc>, n: int)
    requires
        0 <= n <= ss.len(),
    ensures
        hyper_check::missing_judges(ss, ast::proc_names(procs), n).len() == 0 <==> forall|i: int|
            0 <= i < n && (#[trigger] ss[i]).role == HyperRole::Judge ==> there(procs, ss[i].name),
    decreases n,
{
    if n > 0 {
        lemma_judges(ss, procs, n - 1);
        lemma_there(procs, ss[n - 1].name);
        assert(ss[n - 1] == ss[n - 1]);
    }
}

proof fn lemma_sink(ss: Seq<GStage>, n: int)
    requires
        0 <= n <= ss.len(),
    ensures
        match hyper_emit::last_sink(ss, n) {
            Some(d) => exists|i: int|
                0 <= i < n && (#[trigger] ss[i]).role == HyperRole::Sink && ss[i].name == d
                    && forall|j: int| i < j < n ==> (#[trigger] ss[j]).role != HyperRole::Sink,
            None => forall|i: int| 0 <= i < n ==> (#[trigger] ss[i]).role != HyperRole::Sink,
        },
    decreases n,
{
    if n > 0 && ss[n - 1].role != HyperRole::Sink {
        lemma_sink(ss, n - 1);
    } else if n > 0 {
        assert(ss[n - 1].role == HyperRole::Sink);
    }
}

/// What a hypergraph delivers is one thing: what it says, else its last sink, else
/// its last stage.
pub proof fn law_one_thing_goes_out(g: GSpec, d: Seq<char>)
    ensures
        goes_out(g, d) <==> d == hyper_emit::delivery(g),
{
    let ss = g.stages;
    lemma_sink(ss, ss.len() as int);
    match hyper_emit::last_sink(ss, ss.len() as int) {
        Some(x) => {
            let i = choose|i: int|
                0 <= i < ss.len() && (#[trigger] ss[i]).role == HyperRole::Sink && ss[i].name == x
                    && forall|j: int|
                    i < j < ss.len() ==> (#[trigger] ss[j]).role != HyperRole::Sink;
            assert(ss[i].role == HyperRole::Sink);
            if g.deliver is None && goes_out(g, d) {
                let l = choose|l: int|
                    0 <= l < ss.len() && (#[trigger] ss[l]).role == HyperRole::Sink && ss[l].name
                        == d && forall|j: int|
                        l < j < ss.len() ==> (#[trigger] ss[j]).role != HyperRole::Sink;
                assert(l == i);
            }
        },
        None => {},
    }
}

proof fn lemma_delivers(g: GSpec, procs: Seq<Proc>)
    ensures
        hyper_check::deliver_errors(procs, hyper_emit::delivery(g)).len() == 0 <==> delivered(
            g,
            procs,
        ),
{
    let d = hyper_emit::delivery(g);
    law_one_thing_goes_out(g, d);
    if delivered(g, procs) {
        let (k, e) = choose|k: int, e: Seq<char>|
            0 <= k < procs.len() && goes_out(g, e) && #[trigger] hands_out(procs[k], e);
        law_one_thing_goes_out(g, e);
        assert(hyper_check::delivers(procs[k], d));
    }
    if exists|k: int| 0 <= k < procs.len() && #[trigger] hyper_check::delivers(procs[k], d) {
        let k = choose|k: int| 0 <= k < procs.len() && #[trigger] hyper_check::delivers(procs[k], d);
        assert(hands_out(procs[k], d));
    }
}

// ── Laws ──

/// The check finds nothing exactly where every stage has a proc that does what the
/// stage asks, its judge's verdict among it, the bundles are whole, the judges are
/// there, and what is to be delivered goes out.
pub proof fn law_nothing_is_found_where_all_is_kept(g: GSpec, procs: Seq<Proc>)
    ensures
        hyper_check::check_errors(g, procs).len() == 0 <==> stages_done(g, procs) && bundles_whole(
            g,
            procs,
        ) && judges_there(g, procs) && delivered(g, procs),
{
    let n = g.stages.len() as int;
    lemma_stages(g, procs, n);
    assert(hyper_check::stages_errors(g, procs, n).len() == 0 <==> stages_done(g, procs)) by {
        assert forall|i: int| 0 <= i < n implies (hyper_check::stage_errors(
            g,
            procs,
            #[trigger] g.stages[i],
        ).len() == 0 <==> exists|k: int|
            0 <= k < procs.len() && (#[trigger] procs[k]).name@ == g.stages[i].name && (forall|
                m: int,
            |
                0 <= m < k ==> (#[trigger] procs[m]).name@ != g.stages[i].name) && does(
                g,
                i,
                procs[k],
            )) by {
            lemma_stage(g, procs, i);
        }
    }
    lemma_bundles(g.hedges, procs, g.hedges.len() as int);
    lemma_judges(g.stages, procs, n);
    lemma_delivers(g, procs);
}

/// Where the check finds nothing, some implementation of the proc of every judged
/// stage waits for the verdict of the judge.
pub proof fn law_judged_stages_wait_for_their_judge(g: GSpec, procs: Seq<Proc>, i: int)
    requires
        hyper_check::check_errors(g, procs).len() == 0,
        0 <= i < g.stages.len(),
        g.stages[i].gated_by is Some,
    ensures
        exists|k: int, w: int|
            0 <= k < procs.len() && 0 <= w < procs[k].plan@.len() && procs[k].name@
                == g.stages[i].name && (#[trigger] procs[k].plan@[w]).when is Some && text::has(
                procs[k].plan@[w].when->0@,
                "@"@ + g.stages[i].gated_by->0,
            ),
{
    law_nothing_is_found_where_all_is_kept(g, procs);
    let j = g.stages[i].gated_by->0;
    let k = choose|k: int|
        0 <= k < procs.len() && (#[trigger] procs[k]).name@ == g.stages[i].name && (forall|m: int|
            0 <= m < k ==> (#[trigger] procs[m]).name@ != g.stages[i].name) && does(g, i, procs[k]);
    assert(held_back_by(procs[k], j));
    let w = choose|w: int|
        0 <= w < procs[k].plan@.len() && (#[trigger] procs[k].plan@[w]).when is Some && text::has(
            procs[k].plan@[w].when->0@,
            "@"@ + j,
        );
    assert(procs[k].plan@[w].when is Some);
}

} // verus!
