//! Whether a pipeline keeps to a hypergraph.

use crate::ast;
use crate::ast::{Impl, Pipeline, Proc};
use crate::egraph;
use crate::fuse;
use crate::hyper;
use crate::hyper::{GHedge, GSpec, GStage, HedgeKind, HyperRole, HyperSpec, HyperStage, Hyperedge};
use crate::hyper_emit;
use crate::text;
use vstd::prelude::*;

verus! {

/// How many of the first `n` implementations are enabled.
pub open spec fn enabled_count(plan: Seq<Impl>, n: int) -> nat
    decreases n,
{
    if n <= 0 {
        0
    } else if plan[n - 1].enabled {
        enabled_count(plan, n - 1) + 1
    } else {
        enabled_count(plan, n - 1)
    }
}

/// Whether an implementation waits for `name` in its condition.
pub open spec fn waits_on(i: Impl, name: Seq<char>) -> bool {
    match i.when {
        Some(w) => text::has(w@, "@"@ + name),
        None => false,
    }
}

/// Whether an implementation refers to `name`: in its references, its body or
/// its condition.
pub open spec fn refers_to(i: Impl, name: Seq<char>) -> bool {
    text::views(i.refs@).contains(name) || text::has(i.body_text@, "@"@ + name) || waits_on(i, name)
}

/// Whether a proc depends on `name`.
pub open spec fn depends_on(p: Proc, name: Seq<char>) -> bool {
    exists|k: int| 0 <= k < p.plan@.len() && #[trigger] refers_to(p.plan@[k], name)
}

/// Whether a proc waits for the verdict of `name`.
pub open spec fn gated_by(p: Proc, name: Seq<char>) -> bool {
    exists|k: int| 0 <= k < p.plan@.len() && #[trigger] waits_on(p.plan@[k], name)
}

/// What is wrong with the first `n` inputs of a proc.
pub open spec fn input_errors(s: GStage, after: Seq<Seq<char>>, p: Proc, n: int) -> Seq<Seq<char>>
    decreases n,
{
    if n <= 0 {
        Seq::empty()
    } else if depends_on(p, after[n - 1]) {
        input_errors(s, after, p, n - 1)
    } else {
        input_errors(s, after, p, n - 1).push(
            "stage "@ + text::debug_quoted(s.name) + " should depend on "@ + text::debug_quoted(
                after[n - 1],
            ) + " via @ref (after=)"@,
        )
    }
}

/// What is wrong with the number of ways of a proc.
pub open spec fn ways_errors(g: GSpec, s: GStage, p: Proc) -> Seq<Seq<char>> {
    let n = enabled_count(p.plan@, p.plan@.len() as int);
    let need = hyper_emit::need_of(g.require, s);
    if n < need {
        seq![
            "stage "@ + text::debug_quoted(s.name) + " has "@ + text::dec(n)
                + " enabled impl(s), need min_impls="@ + text::dec(need),
        ]
    } else {
        Seq::empty()
    }
}

/// What is wrong with the verdict that a proc waits for.
pub open spec fn gate_errors(s: GStage, p: Proc) -> Seq<Seq<char>> {
    match s.gated_by {
        Some(j) if !gated_by(p, j) => seq![
            "stage "@ + text::debug_quoted(s.name) + " should be gated_by "@ + text::debug_quoted(j)
                + " (.when(@"@ + j + ".…))"@,
        ],
        _ => Seq::empty(),
    }
}

/// What is wrong with the proc of a stage.
pub open spec fn stage_errors(g: GSpec, procs: Seq<Proc>, s: GStage) -> Seq<Seq<char>> {
    match egraph::proc_at(procs, s.name, 0) {
        None => seq!["missing proc for hyper stage "@ + text::debug_quoted(s.name)],
        Some(k) => {
            let after = hyper_emit::inputs_of(g.stages, s);
            ways_errors(g, s, procs[k]) + input_errors(s, after, procs[k], after.len() as int)
                + gate_errors(s, procs[k])
        },
    }
}

/// What is wrong with the procs of the first `n` stages.
pub open spec fn stages_errors(g: GSpec, procs: Seq<Proc>, n: int) -> Seq<Seq<char>>
    decreases n,
{
    if n <= 0 {
        Seq::empty()
    } else {
        stages_errors(g, procs, n - 1) + stage_errors(g, procs, g.stages[n - 1])
    }
}

/// The first `n` members of a bundle that are no procs.
pub open spec fn bundle_errors(h: GHedge, names: Seq<Seq<char>>, n: int) -> Seq<Seq<char>>
    decreases n,
{
    if n <= 0 {
        Seq::empty()
    } else if names.contains(h.members[n - 1]) {
        bundle_errors(h, names, n - 1)
    } else {
        bundle_errors(h, names, n - 1).push(
            "bundle "@ + text::debug_quoted(h.name) + " requires proc "@ + text::debug_quoted(
                h.members[n - 1],
            ) + " (co-occurrence)"@,
        )
    }
}

/// The members of the bundles among the first `n` edges that are no procs.
pub open spec fn bundles_errors(hs: Seq<GHedge>, names: Seq<Seq<char>>, n: int) -> Seq<Seq<char>>
    decreases n,
{
    if n <= 0 {
        Seq::empty()
    } else if hs[n - 1].kind == HedgeKind::Bundle {
        bundles_errors(hs, names, n - 1) + bundle_errors(
            hs[n - 1],
            names,
            hs[n - 1].members.len() as int,
        )
    } else {
        bundles_errors(hs, names, n - 1)
    }
}

/// Whether some stage judges.
pub open spec fn has_judge(ss: Seq<GStage>) -> bool {
    exists|i: int| 0 <= i < ss.len() && (#[trigger] ss[i]).role == HyperRole::Judge
}

/// The judges among the first `n` stages that are no procs.
pub open spec fn missing_judges(ss: Seq<GStage>, names: Seq<Seq<char>>, n: int) -> Seq<Seq<char>>
    decreases n,
{
    if n <= 0 {
        Seq::empty()
    } else if ss[n - 1].role == HyperRole::Judge && !names.contains(ss[n - 1].name) {
        missing_judges(ss, names, n - 1).push(
            "judge stage "@ + text::debug_quoted(ss[n - 1].name) + " missing in pipeline"@,
        )
    } else {
        missing_judges(ss, names, n - 1)
    }
}

/// What is wrong with the judges.
pub open spec fn judge_errors(g: GSpec, names: Seq<Seq<char>>) -> Seq<Seq<char>> {
    if !g.require.judge {
        Seq::empty()
    } else if !has_judge(g.stages) {
        seq!["require.judge=true but no stage with role=judge"@]
    } else {
        missing_judges(g.stages, names, g.stages.len() as int)
    }
}

/// Whether some body of a proc mentions `d`.
pub open spec fn mentions(p: Proc, d: Seq<char>) -> bool {
    exists|k: int| 0 <= k < p.plan@.len() && text::has((#[trigger] p.plan@[k]).body_text@, d)
}

/// Whether a proc delivers: it is marked so, or it is the one called `deliver`
/// and refers to `d`.
pub open spec fn delivers(p: Proc, d: Seq<char>) -> bool {
    p.deliver || (p.name@ == "deliver"@ && (text::views(p.deliver_refs@).contains(d) || mentions(
        p,
        d,
    )))
}

/// What is wrong with the delivery.
pub open spec fn deliver_errors(procs: Seq<Proc>, d: Seq<char>) -> Seq<Seq<char>> {
    if exists|i: int| 0 <= i < procs.len() && #[trigger] delivers(procs[i], d) {
        Seq::empty()
    } else {
        seq!["pipeline should deliver @"@ + d + " (or mark a deliver proc)"@]
    }
}

/// Where a pipeline does not keep to a hypergraph.
pub open spec fn check_errors(g: GSpec, procs: Seq<Proc>) -> Seq<Seq<char>> {
    let names = ast::proc_names(procs);
    stages_errors(g, procs, g.stages.len() as int) + bundles_errors(
        g.hedges,
        names,
        g.hedges.len() as int,
    ) + judge_errors(g, names) + deliver_errors(procs, hyper_emit::delivery(g))
}

/// The reference to `name`.
fn at_name(name: &str) -> (r: String)
    ensures
        r@ == "@"@ + name@,
{
    let mut s = "@".to_owned();
    s.append(name);
    s
}

/// Whether an implementation waits for `name` in its condition.
fn impl_waits(i: &Impl, name: &str) -> (r: bool)
    ensures
        r == waits_on(*i, name@),
{
    match &i.when {
        Some(w) => text::contains(w.as_str(), at_name(name).as_str()),
        None => false,
    }
}

/// Whether a proc depends on `name`.
fn proc_depends(p: &Proc, name: &str) -> (r: bool)
    ensures
        r == depends_on(*p, name@),
{
    let mut k: usize = 0;
    while k < p.plan.len()
        invariant
            k <= p.plan@.len(),
            forall|j: int| 0 <= j < k ==> !(#[trigger] refers_to(p.plan@[j], name@)),
        decreases p.plan@.len() - k,
    {
        let i: &Impl = &p.plan[k];
        let yes = text::is_one_of(name, &i.refs) || text::contains(
            i.body_text.as_str(),
            at_name(name).as_str(),
        ) || impl_waits(i, name);
        assert(yes == refers_to(p.plan@[k as int], name@));
        if yes {
            return true;
        }
        k += 1;
    }
    false
}

/// Whether a proc waits for the verdict of `name`.
fn proc_gated(p: &Proc, name: &str) -> (r: bool)
    ensures
        r == gated_by(*p, name@),
{
    let mut k: usize = 0;
    while k < p.plan.len()
        invariant
            k <= p.plan@.len(),
            forall|j: int| 0 <= j < k ==> !(#[trigger] waits_on(p.plan@[j], name@)),
        decreases p.plan@.len() - k,
    {
        let yes = impl_waits(&p.plan[k], name);
        assert(yes == waits_on(p.plan@[k as int], name@));
        if yes {
            return true;
        }
        k += 1;
    }
    false
}

/// How many implementations are enabled.
pub fn count_enabled(plan: &Vec<Impl>) -> (r: usize)
    ensures
        r == enabled_count(plan@, plan@.len() as int),
{
    let mut n: usize = 0;
    let mut k: usize = 0;
    while k < plan.len()
        invariant
            k <= plan@.len(),
            n <= k,
            n == enabled_count(plan@, k as int),
        decreases plan@.len() - k,
    {
        if plan[k].enabled {
            n += 1;
        }
        k += 1;
    }
    n
}

/// Adds a complaint.
fn push_text(out: &mut Vec<String>, s: String)
    ensures
        text::views(final(out)@) == text::views(old(out)@).push(s@),
{
    let ghost before = out@;
    let ghost sv = s@;
    out.push(s);
    assert(text::views(out@) =~= text::views(before).push(sv));
}

/// Adds what is wrong with the proc of a stage.
fn check_stage(spec: &HyperSpec, procs: &Vec<Proc>, s: &HyperStage, out: &mut Vec<String>)
    ensures
        text::views(final(out)@) == text::views(old(out)@) + stage_errors(spec@, procs@, s@),
{
    let ghost start = text::views(out@);
    let k = match fuse::find_proc(procs, s.name.as_str()) {
        Some(k) => k,
        None => {
            let mut m = "missing proc for hyper stage ".to_owned();
            m.append(text::debug_quote(s.name.as_str()).as_str());
            let ghost mv = m@;
            push_text(out, m);
            assert(text::views(out@) =~= start + seq![mv]);
            return;
        },
    };
    let p: &Proc = &procs[k];
    let n = count_enabled(&p.plan);
    let need = hyper_emit::stage_need(&spec.require, s);
    if n < need {
        let mut m = "stage ".to_owned();
        m.append(text::debug_quote(s.name.as_str()).as_str());
        m.append(" has ");
        m.append(text::decimal(n as u128).as_str());
        m.append(" enabled impl(s), need min_impls=");
        m.append(text::decimal(need as u128).as_str());
        push_text(out, m);
    }
    assert(text::views(out@) =~= start + ways_errors(spec@, s@, *p));
    let after = hyper_emit::stage_inputs(&spec.stages, s);
    let ghost av = text::views(after@);
    let ghost mid = text::views(out@);
    let mut i: usize = 0;
    assert(mid + input_errors(s@, av, *p, 0) =~= mid);
    while i < after.len()
        invariant
            i <= after@.len(),
            av == text::views(after@),
            text::views(out@) == mid + input_errors(s@, av, *p, i as int),
        decreases after@.len() - i,
    {
        if !proc_depends(p, after[i].as_str()) {
            let mut m = "stage ".to_owned();
            m.append(text::debug_quote(s.name.as_str()).as_str());
            m.append(" should depend on ");
            m.append(text::debug_quote(after[i].as_str()).as_str());
            m.append(" via @ref (after=)");
            let ghost mv = m@;
            push_text(out, m);
            assert((mid + input_errors(s@, av, *p, i as int)).push(mv) =~= mid + input_errors(
                s@,
                av,
                *p,
                i as int,
            ).push(mv));
        }
        i += 1;
    }
    let ghost third = text::views(out@);
    match &s.gated_by {
        Some(g) => {
            if !proc_gated(p, g.as_str()) {
                let mut m = "stage ".to_owned();
                m.append(text::debug_quote(s.name.as_str()).as_str());
                m.append(" should be gated_by ");
                m.append(text::debug_quote(g.as_str()).as_str());
                m.append(" (.when(@");
                m.append(g.as_str());
                m.append(".…))");
                push_text(out, m);
            }
        },
        None => {},
    }
    assert(text::views(out@) =~= third + gate_errors(s@, *p));
    assert(text::views(out@) =~= start + stage_errors(spec@, procs@, s@));
}

/// Adds the members of a bundle that are no procs.
fn check_bundle(h: &Hyperedge, procs: &Vec<Proc>, out: &mut Vec<String>)
    ensures
        text::views(final(out)@) == text::views(old(out)@) + bundle_errors(
            h@,
            ast::proc_names(procs@),
            h@.members.len() as int,
        ),
{
    let ghost names = ast::proc_names(procs@);
    let ghost start = text::views(out@);
    let mut i: usize = 0;
    assert(start + bundle_errors(h@, names, 0) =~= start);
    while i < h.members.len()
        invariant
            i <= h.members@.len(),
            names == ast::proc_names(procs@),
            text::views(out@) == start + bundle_errors(h@, names, i as int),
        decreases h.members@.len() - i,
    {
        proof {
            fuse::lemma_proc_at(procs@, h.members@[i as int]@, 0);
        }
        assert(h@.members[i as int] == h.members@[i as int]@);
        if fuse::find_proc(procs, h.members[i].as_str()).is_none() {
            let mut m = "bundle ".to_owned();
            m.append(text::debug_quote(h.name.as_str()).as_str());
            m.append(" requires proc ");
            m.append(text::debug_quote(h.members[i].as_str()).as_str());
            m.append(" (co-occurrence)");
            let ghost mv = m@;
            push_text(out, m);
            assert((start + bundle_errors(h@, names, i as int)).push(mv) =~= start
                + bundle_errors(h@, names, i as int).push(mv));
        }
        i += 1;
    }
}

/// Adds what is wrong with the judges.
fn check_judges(spec: &HyperSpec, procs: &Vec<Proc>, out: &mut Vec<String>)
    ensures
        text::views(final(out)@) == text::views(old(out)@) + judge_errors(
            spec@,
            ast::proc_names(procs@),
        ),
{
    let ghost names = ast::proc_names(procs@);
    let ghost ss = hyper::stage_views(spec.stages@);
    let ghost start = text::views(out@);
    if !spec.require.judge {
        assert(start + Seq::<Seq<char>>::empty() =~= start);
        return;
    }
    let mut found = false;
    let mut i: usize = 0;
    assert(start + missing_judges(ss, names, 0) =~= start);
    while i < spec.stages.len()
        invariant
            i <= spec.stages@.len(),
            names == ast::proc_names(procs@),
            ss == hyper::stage_views(spec.stages@),
            found == exists|k: int| 0 <= k < i && (#[trigger] ss[k]).role == HyperRole::Judge,
            text::views(out@) == start + missing_judges(ss, names, i as int),
            !found ==> missing_judges(ss, names, i as int) == Seq::<Seq<char>>::empty(),
        decreases spec.stages@.len() - i,
    {
        let s: &HyperStage = &spec.stages[i];
        assert(ss[i as int] == s@);
        proof {
            fuse::lemma_proc_at(procs@, s.name@, 0);
        }
        if s.role == HyperRole::Judge {
            found = true;
            if fuse::find_proc(procs, s.name.as_str()).is_none() {
                let mut m = "judge stage ".to_owned();
                m.append(text::debug_quote(s.name.as_str()).as_str());
                m.append(" missing in pipeline");
                let ghost mv = m@;
                push_text(out, m);
                assert((start + missing_judges(ss, names, i as int)).push(mv) =~= start
                    + missing_judges(ss, names, i as int).push(mv));
            }
        }
        i += 1;
    }
    if !found {
        assert(start + Seq::<Seq<char>>::empty() =~= start);
        let m = "require.judge=true but no stage with role=judge".to_owned();
        let ghost mv = m@;
        push_text(out, m);
        assert(start.push(mv) =~= start + seq![mv]);
    }
}

/// Whether a proc delivers.
fn proc_delivers(p: &Proc, d: &str) -> (r: bool)
    ensures
        r == delivers(*p, d@),
{
    if p.deliver {
        return true;
    }
    if !text::same(p.name.as_str(), "deliver") {
        return false;
    }
    if text::is_one_of(d, &p.deliver_refs) {
        return true;
    }
    let mut k: usize = 0;
    while k < p.plan.len()
        invariant
            k <= p.plan@.len(),
            p.name@ == "deliver"@,
            !p.deliver,
            !text::views(p.deliver_refs@).contains(d@),
            forall|j: int| 0 <= j < k ==> !text::has((#[trigger] p.plan@[j]).body_text@, d@),
        decreases p.plan@.len() - k,
    {
        if text::contains(p.plan[k].body_text.as_str(), d) {
            assert(text::has(p.plan@[k as int].body_text@, d@));
            return true;
        }
        k += 1;
    }
    false
}

/// Adds what is wrong with the delivery.
fn check_delivery(procs: &Vec<Proc>, d: &str, out: &mut Vec<String>)
    ensures
        text::views(final(out)@) == text::views(old(out)@) + deliver_errors(procs@, d@),
{
    let ghost start = text::views(out@);
    let mut i: usize = 0;
    while i < procs.len()
        invariant
            i <= procs@.len(),
            start == text::views(out@),
            forall|k: int| 0 <= k < i ==> !(#[trigger] delivers(procs@[k], d@)),
        decreases procs@.len() - i,
    {
        if proc_delivers(&procs[i], d) {
            assert(delivers(procs@[i as int], d@));
            assert(start + Seq::<Seq<char>>::empty() =~= start);
            return;
        }
        i += 1;
    }
    let mut m = "pipeline should deliver @".to_owned();
    m.append(d);
    m.append(" (or mark a deliver proc)");
    let ghost mv = m@;
    push_text(out, m);
    assert(start.push(mv) =~= start + seq![mv]);
}

/// Where a pipeline does not keep to a hypergraph: procs that are missing, have
/// too few ways to do their work or ignore an input or their gate, bundles that
/// are not complete, judges and a delivery that are missing.
pub fn check_pipeline_against(spec: &HyperSpec, pl: &Pipeline) -> (r: Vec<String>)
    ensures
        text::views(r@) == check_errors(spec@, pl.procs@),
{
    let ghost g = spec@;
    let ghost procs = pl.procs@;
    let ghost names = ast::proc_names(procs);
    let mut out: Vec<String> = Vec::new();
    let mut i: usize = 0;
    assert(text::views(out@) =~= Seq::<Seq<char>>::empty());
    while i < spec.stages.len()
        invariant
            i <= spec.stages@.len(),
            g == spec@,
            procs == pl.procs@,
            text::views(out@) == stages_errors(g, procs, i as int),
        decreases spec.stages@.len() - i,
    {
        assert(g.stages[i as int] == spec.stages@[i as int]@);
        check_stage(spec, &pl.procs, &spec.stages[i], &mut out);
        i += 1;
    }
    let ghost start = text::views(out@);
    let mut j: usize = 0;
    assert(start + bundles_errors(g.hedges, names, 0) =~= start);
    while j < spec.hedges.len()
        invariant
            j <= spec.hedges@.len(),
            g == spec@,
            procs == pl.procs@,
            names == ast::proc_names(procs),
            text::views(out@) == start + bundles_errors(g.hedges, names, j as int),
        decreases spec.hedges@.len() - j,
    {
        assert(g.hedges[j as int] == spec.hedges@[j as int]@);
        if spec.hedges[j].kind == HedgeKind::Bundle {
            let ghost mid = text::views(out@);
            check_bundle(&spec.hedges[j], &pl.procs, &mut out);
            assert(text::views(out@) =~= start + bundles_errors(g.hedges, names, j + 1));
        }
        j += 1;
    }
    check_judges(spec, &pl.procs, &mut out);
    let d = hyper_emit::resolve_deliver(spec);
    check_delivery(&pl.procs, d.as_str(), &mut out);
    out
}

} // verus!
