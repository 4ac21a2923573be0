//! The run of a pipeline: which proc comes next and with which implementations,
//! what becomes of its result or its failure, and how the run ends. The work of
//! the procs themselves is done elsewhere: a run hands out what to do and is
//! told what came of it.

use crate::ast;
use crate::ast::{GValue, Impl, Pipeline, Proc, Value};
use crate::critical;
use crate::dslresult;
use crate::egraph;
use crate::egraph::EGraph;
use crate::errflow;
use crate::errflow::{ErrCode, ErrorRecord, GRecord, Response};
use crate::fuse;
use crate::hyper_graph;
use crate::order;
use crate::order::TextMap;
use crate::plan;
use crate::plan::ExtractedPlan;
use crate::schedule;
use crate::text;
use vstd::prelude::*;

verus! {

// ── What a proc needs ──

/// The names with `r` behind them, where it is not among them.
pub open spec fn with_name(rs: Seq<Seq<char>>, r: Seq<char>) -> Seq<Seq<char>> {
    if rs.contains(r) {
        rs
    } else {
        rs.push(r)
    }
}

/// The names with the first `n` of `more` behind them, each once.
pub open spec fn with_names(rs: Seq<Seq<char>>, more: Seq<Seq<char>>, n: int) -> Seq<Seq<char>>
    decreases n,
{
    if n <= 0 {
        rs
    } else {
        with_name(with_names(rs, more, n - 1), more[n - 1])
    }
}

/// What the first `n` implementations refer to, each name once.
pub open spec fn plan_refs(plan: Seq<Impl>, n: int) -> Seq<Seq<char>>
    decreases n,
{
    if n <= 0 {
        Seq::empty()
    } else {
        let refs = text::views(plan[n - 1].refs@);
        with_names(plan_refs(plan, n - 1), refs, refs.len() as int)
    }
}

/// What a proc refers to: in its implementations, and as the source of its
/// items.
pub open spec fn proc_refs(p: Proc) -> Seq<Seq<char>> {
    let rs = plan_refs(p.plan@, p.plan@.len() as int);
    match p.foreach {
        Some(src) => with_name(rs, src@),
        None => rs,
    }
}

/// Whether an implementation refers to one of the names.
pub open spec fn touches(i: Impl, names: Seq<Seq<char>>) -> bool {
    exists|k: int| 0 <= k < i.refs@.len() && names.contains((#[trigger] i.refs@[k])@)
}

/// The places of the first `n` implementations that refer to none of the names.
pub open spec fn untouched(plan: Seq<Impl>, names: Seq<Seq<char>>, n: int) -> Seq<usize>
    decreases n,
{
    if n <= 0 {
        Seq::empty()
    } else if touches(plan[n - 1], names) {
        untouched(plan, names, n - 1)
    } else {
        untouched(plan, names, n - 1).push((n - 1) as usize)
    }
}

/// The places of the first `n` implementations.
pub open spec fn all_places(n: int) -> Seq<usize> {
    Seq::new(n as nat, |i: int| i as usize)
}

/// Adds a name that is not there yet.
fn add_name(rs: &mut Vec<String>, r: &String)
    ensures
        text::views(final(rs)@) == with_name(text::views(old(rs)@), r@),
{
    if !text::is_one_of(r.as_str(), rs) {
        let ghost before = rs@;
        rs.push(r.clone());
        assert(text::views(rs@) =~= text::views(before).push(r@));
    }
}

/// What a proc refers to, each name once.
pub fn refs_of(p: &Proc) -> (r: Vec<String>)
    ensures
        text::views(r@) == proc_refs(*p),
{
    let mut out: Vec<String> = Vec::new();
    let mut i: usize = 0;
    assert(text::views(out@) =~= Seq::<Seq<char>>::empty());
    while i < p.plan.len()
        invariant
            i <= p.plan@.len(),
            text::views(out@) == plan_refs(p.plan@, i as int),
        decreases p.plan@.len() - i,
    {
        let ghost start = text::views(out@);
        let ghost refs = text::views(p.plan@[i as int].refs@);
        let mut j: usize = 0;
        while j < p.plan[i].refs.len()
            invariant
                i < p.plan@.len(),
                j <= p.plan@[i as int].refs@.len(),
                refs == text::views(p.plan@[i as int].refs@),
                text::views(out@) == with_names(start, refs, j as int),
            decreases p.plan@[i as int].refs@.len() - j,
        {
            add_name(&mut out, &p.plan[i].refs[j]);
            j += 1;
        }
        i += 1;
    }
    match &p.foreach {
        Some(src) => {
            add_name(&mut out, src);
        },
        None => {},
    }
    out
}

/// Whether an implementation refers to one of the names.
fn impl_touches(i: &Impl, names: &Vec<String>) -> (r: bool)
    ensures
        r == touches(*i, text::views(names@)),
{
    let mut k: usize = 0;
    while k < i.refs.len()
        invariant
            k <= i.refs@.len(),
            forall|j: int|
                0 <= j < k ==> !text::views(names@).contains((#[trigger] i.refs@[j])@),
        decreases i.refs@.len() - k,
    {
        if text::is_one_of(i.refs[k].as_str(), names) {
            assert(text::views(names@).contains(i.refs@[k as int]@));
            return true;
        }
        k += 1;
    }
    false
}

/// The places of the implementations that refer to none of the names.
fn surviving(plan: &Vec<Impl>, names: &Vec<String>) -> (r: Vec<usize>)
    ensures
        r@ == untouched(plan@, text::views(names@), plan@.len() as int),
{
    let mut out: Vec<usize> = Vec::new();
    let mut i: usize = 0;
    while i < plan.len()
        invariant
            i <= plan@.len(),
            out@ == untouched(plan@, text::views(names@), i as int),
        decreases plan@.len() - i,
    {
        if !impl_touches(&plan[i], names) {
            out.push(i);
        }
        i += 1;
    }
    out
}

/// The places of all implementations.
fn places(n: usize) -> (r: Vec<usize>)
    ensures
        r@ == all_places(n as int),
{
    let mut out: Vec<usize> = Vec::new();
    let mut i: usize = 0;
    while i < n
        invariant
            i <= n,
            out@ == all_places(i as int),
        decreases n - i,
    {
        out.push(i);
        i += 1;
        assert(out@ =~= all_places(i as int));
    }
    out
}

// ── What is done with a proc ──

/// What is done with a proc.
#[derive(Debug)]
pub enum Before {
    /// Nothing: it only delivers.
    Skip,
    /// The pipeline stops.
    Stop(String),
    /// It runs with all its implementations.
    Run(Vec<usize>),
    /// It runs with the implementations that do not need a failed proc.
    Switch(Vec<usize>),
    /// It fails with this record, as what it needs has failed.
    Left(String),
}

/// What is done with a proc, as values.
pub enum GBefore {
    Skip,
    Stop(Seq<char>),
    Run(Seq<usize>),
    Switch(Seq<usize>),
    Left(Seq<char>),
}

impl Before {
    pub open spec fn view(&self) -> GBefore {
        match self {
            Before::Skip => GBefore::Skip,
            Before::Stop(m) => GBefore::Stop(m@),
            Before::Run(v) => GBefore::Run(v@),
            Before::Switch(v) => GBefore::Switch(v@),
            Before::Left(m) => GBefore::Left(m@),
        }
    }
}

/// The text of a result; nothing where it is none.
pub open spec fn text_of(results: Map<Seq<char>, GValue>, x: Seq<char>) -> Seq<char> {
    if results.dom().contains(x) {
        match results[x] {
            GValue::Text(t) => t,
            _ => Seq::empty(),
        }
    } else {
        Seq::empty()
    }
}

/// Whether the source of a proc's items has failed.
pub open spec fn source_failed(p: Proc, results: Map<Seq<char>, GValue>) -> bool {
    match p.foreach {
        Some(src) => errflow::dead(results, src@),
        None => false,
    }
}

/// The implementations that can take over from those that refer to a failed proc;
/// none where there are no items to run over.
pub open spec fn takeover(
    p: Proc,
    results: Map<Seq<char>, GValue>,
    dead: Seq<Seq<char>>,
) -> Seq<usize> {
    if source_failed(p, results) {
        Seq::empty()
    } else {
        untouched(p.plan@, dead, p.plan@.len() as int)
    }
}

/// What is done with a proc, given what the procs before it left behind.
pub open spec fn before(p: Proc, results: Map<Seq<char>, GValue>) -> GBefore {
    let refs = proc_refs(p);
    let dead = errflow::dead_upto(results, refs, refs.len() as int);
    if p.deliver {
        GBefore::Skip
    } else if dead.len() == 0 {
        GBefore::Run(all_places(p.plan@.len() as int))
    } else {
        let upstream = text_of(results, dead[0]);
        let response = errflow::response_to(errflow::code_in(upstream));
        let left = takeover(p, results, dead);
        if response == Response::Exit {
            GBefore::Stop("contract error in "@ + dead[0] + ": unrecoverable, flow exited"@)
        } else if left.len() > 0 {
            GBefore::Switch(left)
        } else {
            GBefore::Left(errflow::record_text(errflow::inherited(p.name@, dead[0], upstream)))
        }
    }
}

/// The text of a result; nothing where it is none.
fn result_text(results: &TextMap<Value>, x: &str) -> (r: String)
    requires
        results.wf(),
    ensures
        r@ == text_of(ast::result_views(*results), x@),
{
    match results.get(x) {
        Some(v) => match v {
            Value::Text(t) => t.clone(),
            _ => {
                let s = String::new();
                assert(s@ =~= Seq::<char>::empty());
                s
            },
        },
        None => {
            let s = String::new();
            assert(s@ =~= Seq::<char>::empty());
            s
        },
    }
}

/// Whether the source of a proc's items has failed.
fn has_failed_source(p: &Proc, results: &TextMap<Value>) -> (r: bool)
    requires
        results.wf(),
    ensures
        r == source_failed(*p, ast::result_views(*results)),
{
    match &p.foreach {
        Some(src) => errflow::is_dead(results, src.as_str()),
        None => false,
    }
}

/// What is done with a proc, given what the procs before it left behind.
pub fn before_proc(p: &Proc, results: &TextMap<Value>) -> (r: Before)
    requires
        results.wf(),
    ensures
        r@ == before(*p, ast::result_views(*results)),
{
    if p.deliver {
        return Before::Skip;
    }
    let refs = refs_of(p);
    let dead = errflow::dead_refs(results, &refs);
    assert(text::views(dead@).len() == dead@.len());
    if dead.len() == 0 {
        return Before::Run(places(p.plan.len()));
    }
    assert(text::views(dead@)[0] == dead@[0]@);
    let upstream = result_text(results, dead[0].as_str());
    let response = errflow::respond(errflow::code_of(upstream.as_str()));
    if response == Response::Exit {
        let mut m = "contract error in ".to_owned();
        m.append(dead[0].as_str());
        m.append(": unrecoverable, flow exited");
        return Before::Stop(m);
    }
    if !has_failed_source(p, results) {
        let left = surviving(&p.plan, &dead);
        if left.len() > 0 {
            return Before::Switch(left);
        }
    }
    let rec = ErrorRecord::propagated(p.name.as_str(), dead[0].as_str(), upstream.as_str());
    Before::Left(rec.encode())
}

/// A proc runs with its whole plan only where nothing it refers to has failed; it
/// runs with a part of it only where the source of its items has not; and a proc
/// that cannot run leaves a failure behind.
pub proof fn law_failed_inputs_are_not_read(p: Proc, results: Map<Seq<char>, GValue>)
    ensures
        match before(p, results) {
            GBefore::Run(v) => forall|k: int|
                0 <= k < proc_refs(p).len() ==> !errflow::dead(results, #[trigger] proc_refs(p)[k]),
            GBefore::Switch(v) => v.len() > 0 && !source_failed(p, results),
            GBefore::Left(t) => dslresult::field_of("err"@, t) == Some("1"@),
            _ => true,
        },
{
    let refs = proc_refs(p);
    lemma_dead_none(results, refs, refs.len() as int);
    let dead = errflow::dead_upto(results, refs, refs.len() as int);
    match before(p, results) {
        GBefore::Left(t) => {
            errflow::law_record_is_a_failure(
                errflow::inherited(p.name@, dead[0], text_of(results, dead[0])),
            );
        },
        _ => {},
    }
}

/// A proc over items never runs on the failure of their source.
pub proof fn law_failed_sources_are_not_split(p: Proc, results: Map<Seq<char>, GValue>)
    ensures
        before(p, results) is Run || before(p, results) is Switch ==> (p.foreach matches Some(
            src,
        ) ==> !errflow::dead(results, src@)),
{
    law_failed_inputs_are_not_read(p, results);
    match p.foreach {
        Some(src) => {
            let rs = plan_refs(p.plan@, p.plan@.len() as int);
            let refs = proc_refs(p);
            let k = if rs.contains(src@) {
                choose|k: int| 0 <= k < rs.len() && rs[k] == src@
            } else {
                rs.len() as int
            };
            assert(refs[k] == src@);
        },
        None => {},
    }
}

/// Where no failed name is listed, none has failed.
proof fn lemma_dead_none(results: Map<Seq<char>, GValue>, refs: Seq<Seq<char>>, n: int)
    requires
        n <= refs.len(),
    ensures
        errflow::dead_upto(results, refs, n).len() == 0 ==> forall|k: int|
            0 <= k < n ==> !errflow::dead(results, #[trigger] refs[k]),
    decreases n,
{
    if n > 0 {
        lemma_dead_none(results, refs, n - 1);
    }
}

/// The untouched places are places of the plan, and none of them refers to one
/// of the names.
proof fn lemma_untouched(plan: Seq<Impl>, names: Seq<Seq<char>>, n: int)
    requires
        n <= plan.len(),
    ensures
        plan.len() <= usize::MAX ==> forall|j: int|
            0 <= j < untouched(plan, names, n).len() ==> {
                &&& #[trigger] untouched(plan, names, n)[j] < n
                &&& !touches(plan[untouched(plan, names, n)[j] as int], names)
            },
    decreases n,
{
    if n > 0 {
        lemma_untouched(plan, names, n - 1);
        if plan.len() <= usize::MAX {
            let a = untouched(plan, names, n - 1);
            let b = untouched(plan, names, n);
            assert forall|j: int| 0 <= j < b.len() implies {
                &&& #[trigger] b[j] < n
                &&& !touches(plan[b[j] as int], names)
            } by {
                if j < a.len() {
                    assert(b[j] == a[j]);
                }
            }
        }
    }
}

/// The implementations that take over refer to no failed proc.
pub proof fn law_takeover_avoids_the_dead(p: Proc, results: Map<Seq<char>, GValue>, j: int)
    requires
        p.plan@.len() <= usize::MAX,
        before(p, results) is Switch,
        0 <= j < before(p, results)->Switch_0.len(),
    ensures
        before(p, results)->Switch_0[j] < p.plan@.len(),
        !touches(
            p.plan@[before(p, results)->Switch_0[j] as int],
            errflow::dead_upto(results, proc_refs(p), proc_refs(p).len() as int),
        ),
{
    lemma_untouched(
        p.plan@,
        errflow::dead_upto(results, proc_refs(p), proc_refs(p).len() as int),
        p.plan@.len() as int,
    );
}

/// An implementation that refers to none of the names is among the untouched.
proof fn lemma_untouched_all(plan: Seq<Impl>, names: Seq<Seq<char>>, n: int, i: int)
    requires
        0 <= i < n <= plan.len(),
        !touches(plan[i], names),
    ensures
        untouched(plan, names, n).contains(i as usize),
    decreases n,
{
    let now = untouched(plan, names, n);
    let before = untouched(plan, names, n - 1);
    if i < n - 1 {
        lemma_untouched_all(plan, names, n - 1, i);
        let j = choose|j: int| 0 <= j < before.len() && before[j] == i as usize;
        assert(now[j] == i as usize);
    } else {
        assert(now[before.len() as int] == i as usize);
    }
}

/// Whatever failed before it, a proc runs with every implementation that refers
/// to no failed proc; only an error that ends the run and a failure of the source
/// of its items keep it from that.
pub proof fn law_what_can_take_over_does(p: Proc, results: Map<Seq<char>, GValue>, i: int)
    requires
        !p.deliver,
        !source_failed(p, results),
        0 <= i < p.plan@.len(),
        ({
            let dead = errflow::dead_upto(results, proc_refs(p), proc_refs(p).len() as int);
            &&& dead.len() > 0
            &&& !touches(p.plan@[i], dead)
            &&& errflow::response_to(errflow::code_in(text_of(results, dead[0])))
                != Response::Exit
        }),
    ensures
        before(p, results) is Switch,
        before(p, results)->Switch_0.contains(i as usize),
{
    let dead = errflow::dead_upto(results, proc_refs(p), proc_refs(p).len() as int);
    lemma_untouched_all(p.plan@, dead, p.plan@.len() as int, i);
}

// ── A run ──

/// A run of a pipeline.
#[derive(Debug)]
pub struct Flow {
    /// The procs in the order in which they are looked at.
    pub names: Vec<String>,
    /// Whether procs of one class share their result; their failed inputs are
    /// then not looked at.
    pub classes: bool,
    /// For each proc that is not run, the one that stands for it.
    pub aliases: Vec<(String, String)>,
    pub at: usize,
    pub results: TextMap<Value>,
}

/// A run of a pipeline, as values.
pub struct GFlow {
    pub names: Seq<Seq<char>>,
    pub classes: bool,
    pub aliases: Seq<(Seq<char>, Seq<char>)>,
    pub at: int,
    pub results: Map<Seq<char>, GValue>,
}

impl Flow {
    pub open spec fn view(&self) -> GFlow {
        GFlow {
            names: text::views(self.names@),
            classes: self.classes,
            aliases: hyper_graph::pair_views(self.aliases@),
            at: self.at as int,
            results: ast::result_views(self.results),
        }
    }

    pub open spec fn wf(self) -> bool {
        self.results.wf() && self.at <= self.names@.len()
    }
}

/// What is to be done next.
#[derive(Debug)]
pub enum Step {
    /// The proc at this place is to be run with these implementations; `switched`
    /// tells that others were left out.
    Run { proc: usize, plan: Vec<usize>, switched: bool },
    /// The pipeline stops with this error.
    Stop(String),
    /// All procs are through.
    End,
}

/// What is to be done next, as values.
pub enum GStep {
    Run { proc: int, plan: Seq<usize>, switched: bool },
    Stop(Seq<char>),
    End,
}

impl Step {
    pub open spec fn view(&self) -> GStep {
        match self {
            Step::Run { proc, plan, switched } => GStep::Run {
                proc: *proc as int,
                plan: plan@,
                switched: *switched,
            },
            Step::Stop(m) => GStep::Stop(m@),
            Step::End => GStep::End,
        }
    }
}

/// Whether another proc stands for this one.
pub open spec fn aliased(aliases: Seq<(Seq<char>, Seq<char>)>, x: Seq<char>) -> bool {
    exists|i: int| 0 <= i < aliases.len() && (#[trigger] aliases[i]).0 == x
}

/// What is to be done next, and the run as it then stands: procs that only
/// deliver or that another stands for are passed over, and those that cannot
/// run fail at once.
pub open spec fn advance(procs: Seq<Proc>, f: GFlow) -> (GFlow, GStep)
    decreases f.names.len() - f.at,
{
    if f.at >= f.names.len() {
        (f, GStep::End)
    } else {
        let passed = GFlow { at: f.at + 1, ..f };
        match egraph::proc_at(procs, f.names[f.at], 0) {
            None => advance(procs, passed),
            Some(k) => if f.classes {
                if procs[k].deliver || aliased(f.aliases, f.names[f.at]) {
                    advance(procs, passed)
                } else {
                    (
                        f,
                        GStep::Run {
                            proc: k,
                            plan: all_places(procs[k].plan@.len() as int),
                            switched: false,
                        },
                    )
                }
            } else {
                match before(procs[k], f.results) {
                    GBefore::Skip => advance(procs, passed),
                    GBefore::Stop(m) => (f, GStep::Stop(m)),
                    GBefore::Run(plan) => (f, GStep::Run { proc: k, plan, switched: false }),
                    GBefore::Switch(plan) => (f, GStep::Run { proc: k, plan, switched: true }),
                    GBefore::Left(t) => advance(
                        procs,
                        GFlow {
                            results: f.results.insert(procs[k].name@, GValue::Text(t)),
                            ..passed
                        },
                    ),
                }
            },
        }
    }
}

/// The results with `v` for the procs that `x` stands for, of the first `n`.
pub open spec fn shared(
    results: Map<Seq<char>, GValue>,
    aliases: Seq<(Seq<char>, Seq<char>)>,
    x: Seq<char>,
    v: GValue,
    n: int,
) -> Map<Seq<char>, GValue>
    decreases n,
{
    if n <= 0 {
        results
    } else {
        let before = shared(results, aliases, x, v, n - 1);
        if aliases[n - 1].1 == x {
            before.insert(aliases[n - 1].0, v)
        } else {
            before
        }
    }
}

/// The run with the result of the proc at hand.
pub open spec fn settled(f: GFlow, x: Seq<char>, v: GValue) -> GFlow {
    GFlow {
        at: f.at + 1,
        results: shared(f.results.insert(x, v), f.aliases, x, v, f.aliases.len() as int),
        ..f
    }
}

/// The run with the proc at hand passed over.
pub open spec fn passed_over(f: GFlow) -> GFlow {
    GFlow { at: f.at + 1, ..f }
}

/// The name of the last enabled one of the first `n` implementations.
pub open spec fn last_enabled(plan: Seq<Impl>, n: int) -> Seq<char>
    decreases n,
{
    if n <= 0 {
        "-"@
    } else if plan[n - 1].enabled {
        plan[n - 1].name@
    } else {
        last_enabled(plan, n - 1)
    }
}

/// The record of the failure of a proc.
pub open spec fn failure(p: Proc, named: bool, e: Seq<char>) -> GRecord {
    GRecord {
        code: errflow::kind_of(e),
        proc: p.name@,
        impl_: if named {
            last_enabled(p.plan@, p.plan@.len() as int)
        } else {
            "-"@
        },
        message: errflow::marked_cut(text::trimmed(e), errflow::MSG_MAX as nat),
        raw: errflow::marked_cut(e, errflow::RAW_MAX as nat),
        attempts: 0,
    }
}

/// The run after the proc at hand has failed with this record, and the error
/// with which the pipeline stops, if it does.
pub open spec fn failed(f: GFlow, p: Proc, rec: GRecord, switched: bool) -> (
    GFlow,
    Option<Seq<char>>,
) {
    (
        settled(f, p.name@, GValue::Text(errflow::record_text(rec))),
        if !switched && errflow::response_to(rec.code) == Response::Exit {
            Some(
                errflow::code_name(rec.code) + " error in "@ + p.name@
                    + ": unrecoverable, flow exited"@,
            )
        } else {
            None
        },
    )
}

/// A map with one more result, as values.
proof fn lemma_insert_view(a: TextMap<Value>, b: TextMap<Value>, k: Seq<char>, v: Value)
    requires
        b@ == a@.insert(k, v),
    ensures
        ast::result_views(b) == ast::result_views(a).insert(k, v@),
{
    assert(ast::result_views(b) =~= ast::result_views(a).insert(k, v@));
}

/// Whether another proc stands for this one.
fn is_aliased(aliases: &Vec<(String, String)>, x: &str) -> (r: bool)
    ensures
        r == aliased(hyper_graph::pair_views(aliases@), x@),
{
    let ghost av = hyper_graph::pair_views(aliases@);
    let mut i: usize = 0;
    while i < aliases.len()
        invariant
            i <= aliases@.len(),
            av == hyper_graph::pair_views(aliases@),
            forall|k: int| 0 <= k < i ==> (#[trigger] av[k]).0 != x@,
        decreases aliases@.len() - i,
    {
        assert(av[i as int].0 == aliases@[i as int].0@);
        if text::same(aliases[i].0.as_str(), x) {
            return true;
        }
        i += 1;
    }
    false
}

/// The name of the last enabled implementation.
fn last_enabled_name(plan: &Vec<Impl>) -> (r: String)
    ensures
        r@ == last_enabled(plan@, plan@.len() as int),
{
    let mut n: usize = plan.len();
    while n > 0
        invariant
            n <= plan@.len(),
            last_enabled(plan@, plan@.len() as int) == last_enabled(plan@, n as int),
        decreases n,
    {
        if plan[n - 1].enabled {
            return plan[n - 1].name.clone();
        }
        n -= 1;
    }
    "-".to_owned()
}

impl Flow {
    /// Goes on to the next thing to do.
    pub fn next(&mut self, pl: &Pipeline) -> (r: Step)
        requires
            old(self).wf(),
        ensures
            final(self).wf(),
            (final(self)@, r@) == advance(pl.procs@, old(self)@),
            r matches Step::Run { proc, .. } ==> {
                &&& proc < pl.procs@.len()
                &&& final(self).at < final(self).names@.len()
            },
    {
        let ghost procs = pl.procs@;
        let ghost start = self@;
        while self.at < self.names.len()
            invariant
                self.wf(),
                procs == pl.procs@,
                start == old(self)@,
                advance(procs, start) == advance(procs, self@),
            decreases self.names@.len() - self.at,
        {
            let ghost here = self@;
            assert(here.names[here.at] == self.names@[self.at as int]@);
            match fuse::find_proc(&pl.procs, self.names[self.at].as_str()) {
                None => {},
                Some(k) => {
                    let p: &Proc = &pl.procs[k];
                    if self.classes {
                        if !p.deliver && !is_aliased(
                            &self.aliases,
                            self.names[self.at].as_str(),
                        ) {
                            return Step::Run {
                                proc: k,
                                plan: places(p.plan.len()),
                                switched: false,
                            };
                        }
                    } else {
                        match before_proc(p, &self.results) {
                            Before::Skip => {},
                            Before::Stop(m) => {
                                return Step::Stop(m);
                            },
                            Before::Run(v) => {
                                return Step::Run { proc: k, plan: v, switched: false };
                            },
                            Before::Switch(v) => {
                                return Step::Run { proc: k, plan: v, switched: true };
                            },
                            Before::Left(t) => {
                                let ghost m0 = self.results;
                                let v = Value::Text(t);
                                let ghost vv = v;
                                self.results.insert(p.name.clone(), v);
                                proof {
                                    lemma_insert_view(m0, self.results, p.name@, vv);
                                }
                            },
                        }
                    }
                },
            }
            self.at += 1;
        }
        Step::End
    }

    /// Puts down the result of the proc at hand, also for the procs that it
    /// stands for.
    fn put(&mut self, x: &String, v: Value)
        requires
            old(self).wf(),
            old(self).at < old(self).names@.len(),
        ensures
            final(self).wf(),
            final(self)@ == settled(old(self)@, x@, v@),
    {
        let ghost start = self@;
        let ghost av = start.aliases;
        let ghost m0 = self.results;
        let ghost vv = v@;
        let shared_value = v.duplicate();
        self.results.insert(x.clone(), v);
        proof {
            lemma_insert_view(m0, self.results, x@, shared_value);
        }
        let ghost base = start.results.insert(x@, vv);
        let mut i: usize = 0;
        while i < self.aliases.len()
            invariant
                i <= self.aliases@.len(),
                self.results.wf(),
                self.at < self.names@.len(),
                av == hyper_graph::pair_views(self.aliases@),
                self@.names == start.names,
                self@.classes == start.classes,
                self@.at == start.at,
                shared_value@ == vv,
                ast::result_views(self.results) == shared(base, av, x@, vv, i as int),
            decreases self.aliases@.len() - i,
        {
            assert(av[i as int] == (self.aliases@[i as int].0@, self.aliases@[i as int].1@));
            if text::same(self.aliases[i].1.as_str(), x.as_str()) {
                let ghost m1 = self.results;
                let k = self.aliases[i].0.clone();
                let ghost kv = k@;
                self.results.insert(k, shared_value.duplicate());
                proof {
                    lemma_insert_view(m1, self.results, kv, shared_value);
                }
            }
            i += 1;
        }
        let n: usize = self.names.len();
        assert(self.at < n);
        self.at += 1;
    }

    /// Takes the result of the proc at hand.
    pub fn succeed(&mut self, pl: &Pipeline, proc: usize, v: Value)
        requires
            old(self).wf(),
            old(self).at < old(self).names@.len(),
            proc < pl.procs@.len(),
        ensures
            final(self).wf(),
            final(self)@ == settled(old(self)@, pl.procs@[proc as int].name@, v@),
    {
        self.put(&pl.procs[proc].name, v);
    }

    /// Passes over the proc at hand, as none of its implementations may run: it
    /// leaves nothing behind.
    pub fn pass_over(&mut self, pl: &Pipeline, proc: usize)
        requires
            old(self).wf(),
            old(self).at < old(self).names@.len(),
            proc < pl.procs@.len(),
        ensures
            final(self).wf(),
            final(self)@ == passed_over(old(self)@),
    {
        let n: usize = self.names.len();
        assert(self.at < n);
        self.at += 1;
    }

    /// Takes the failure of the proc at hand; the error with which the pipeline
    /// stops, if it does.
    pub fn fail(&mut self, pl: &Pipeline, proc: usize, e: &str, switched: bool) -> (r: Option<
        String,
    >)
        requires
            old(self).wf(),
            old(self).at < old(self).names@.len(),
            proc < pl.procs@.len(),
        ensures
            final(self).wf(),
            (final(self)@, text::opt_view(r)) == failed(
                old(self)@,
                pl.procs@[proc as int],
                failure(pl.procs@[proc as int], !switched && !old(self).classes, e@),
                switched,
            ),
    {
        let p: &Proc = &pl.procs[proc];
        let by = if !switched && !self.classes {
            last_enabled_name(&p.plan)
        } else {
            "-".to_owned()
        };
        let rec = ErrorRecord::new(p.name.as_str(), by.as_str(), e, 0);
        self.put(&p.name, Value::Text(rec.encode()));
        if !switched && errflow::respond(rec.code) == Response::Exit {
            let mut m = rec.code.code().to_owned();
            m.append(" error in ");
            m.append(p.name.as_str());
            m.append(": unrecoverable, flow exited");
            Some(m)
        } else {
            None
        }
    }
}

/// A proc that is passed over has not failed: the results stay as they are, a
/// proc without a result counts as dead for none behind it, and it is no reason
/// for the run to fail.
pub proof fn law_passing_over_is_no_failure(procs: Seq<Proc>, f: GFlow, x: Seq<char>)
    requires
        f.results.dom().finite(),
        !f.results.dom().contains(x),
    ensures
        passed_over(f).results == f.results,
        !errflow::dead(passed_over(f).results, x),
        critical::fatal_of(procs, passed_over(f).results) != Some(x),
{
    critical::law_only_critical_failures_are_fatal(procs, f.results, x);
}

/// Going on never loses a result of a proc that has run, and never goes back.
pub proof fn law_runs_go_forward(procs: Seq<Proc>, f: GFlow)
    requires
        0 <= f.at <= f.names.len(),
    ensures
        f.at <= advance(procs, f).0.at <= f.names.len(),
        advance(procs, f).0.names == f.names,
        advance(procs, f).1 is Run ==> advance(procs, f).0.at < f.names.len(),
        f.results.dom().subset_of(advance(procs, f).0.results.dom()),
    decreases f.names.len() - f.at,
{
    if f.at < f.names.len() {
        let passed = GFlow { at: f.at + 1, ..f };
        law_runs_go_forward(procs, passed);
        match egraph::proc_at(procs, f.names[f.at], 0) {
            Some(k) => {
                match before(procs[k], f.results) {
                    GBefore::Left(t) => {
                        law_runs_go_forward(
                            procs,
                            GFlow {
                                results: f.results.insert(procs[k].name@, GValue::Text(t)),
                                ..passed
                            },
                        );
                    },
                    _ => {},
                }
            },
            None => {},
        }
    }
}

/// An error that the pipeline cannot recover from stops it at once, unless the
/// proc ran without some of its implementations; any other error does not.
pub proof fn law_only_exits_stop(f: GFlow, p: Proc, e: Seq<char>)
    ensures
        failed(f, p, failure(p, true, e), false).1 is Some <==> (errflow::kind_of(e)
            == ErrCode::Contract || errflow::kind_of(e) == ErrCode::Cancelled),
        failed(f, p, failure(p, false, e), true).1 is None,
        errflow::is_left(
            GValue::Text(errflow::record_text(failure(p, true, e))),
        ),
{
    errflow::law_record_is_a_failure(failure(p, true, e));
}

// ── Starting ──

/// The layers one behind the other.
pub open spec fn flat(ls: Seq<Seq<Seq<char>>>, n: int) -> Seq<Seq<char>>
    decreases n,
{
    if n <= 0 {
        Seq::empty()
    } else {
        flat(ls, n - 1) + ls[n - 1]
    }
}

/// A run layer by layer.
pub fn layered_flow(eg: &EGraph) -> (r: Flow)
    ensures
        r.wf(),
        ({
            let ls = schedule::layers(eg.nodes.seq(), egraph::edge_views(eg.edges@));
            r@ == (GFlow {
                names: flat(ls, ls.len() as int),
                classes: false,
                aliases: Seq::empty(),
                at: 0,
                results: Map::empty(),
            })
        }),
{
    let layers = schedule::parallel_groups(eg);
    let ghost ls = schedule::views2(layers@);
    let mut names: Vec<String> = Vec::new();
    let mut i: usize = 0;
    assert(text::views(names@) =~= Seq::<Seq<char>>::empty());
    while i < layers.len()
        invariant
            i <= layers@.len(),
            ls == schedule::views2(layers@),
            text::views(names@) == flat(ls, i as int),
        decreases layers@.len() - i,
    {
        assert(ls[i as int] == text::views(layers@[i as int]@));
        critical::push_all(&mut names, &layers[i]);
        i += 1;
    }
    let r = Flow {
        names,
        classes: false,
        aliases: Vec::new(),
        at: 0,
        results: TextMap::new(),
    };
    assert(hyper_graph::pair_views(r.aliases@) =~= Seq::<(Seq<char>, Seq<char>)>::empty());
    assert(ast::result_views(r.results) =~= Map::<Seq<char>, GValue>::empty());
    r
}

/// The entries of a map of names, in order.
pub open spec fn entries(m: Map<Seq<char>, Seq<char>>) -> Seq<(Seq<char>, Seq<char>)> {
    order::in_order(m.dom()).map_values(|k: Seq<char>| (k, m[k]))
}

/// The procs in the order of their layers.
pub open spec fn layered_names(procs: Seq<Proc>) -> Seq<Seq<char>> {
    let ls = schedule::layers(
        order::in_order(ast::proc_names(procs).to_set()),
        egraph::edges_of(procs, procs.len() as int),
    );
    flat(ls, ls.len() as int)
}

/// The start of a run: class by class, or layer by layer.
pub open spec fn start(procs: Seq<Proc>, classes: bool) -> GFlow {
    if classes {
        let topo = plan::class_order(
            egraph::egraph_of(procs),
            egraph::edges_of(procs, procs.len() as int),
        );
        let p = plan::plan_of(egraph::egraph_of(procs), procs, topo, topo.len() as int);
        GFlow {
            names: p.order,
            classes: true,
            aliases: entries(p.aliases),
            at: 0,
            results: Map::empty(),
        }
    } else {
        GFlow {
            names: layered_names(procs),
            classes: false,
            aliases: Seq::empty(),
            at: 0,
            results: Map::empty(),
        }
    }
}

/// A run class by class.
pub fn class_flow(plan: &ExtractedPlan) -> (r: Flow)
    requires
        plan.aliases.wf(),
    ensures
        r.wf(),
        r@ == (GFlow {
            names: text::views(plan.order@),
            classes: true,
            aliases: entries(plan@.aliases),
            at: 0,
            results: Map::empty(),
        }),
{
    let ghost all = entries(plan@.aliases);
    proof {
        assert(plan@.aliases.dom() =~= plan.aliases.keys().to_set());
        order::lemma_in_order(plan.aliases.keys());
    }
    let mut aliases: Vec<(String, String)> = Vec::new();
    let mut i: usize = 0;
    assert(hyper_graph::pair_views(aliases@) =~= all.take(0));
    while i < plan.aliases.len()
        invariant
            i <= plan.aliases.keys().len(),
            plan.aliases.wf(),
            all == entries(plan@.aliases),
            order::in_order(plan@.aliases.dom()) == plan.aliases.keys(),
            hyper_graph::pair_views(aliases@) == all.take(i as int),
        decreases plan.aliases.keys().len() - i,
    {
        let ghost before = aliases@;
        proof {
            plan.aliases.lemma_entry(i as int);
        }
        aliases.push((plan.aliases.key_at(i).clone(), plan.aliases.value_at(i).clone()));
        assert(hyper_graph::pair_views(aliases@) =~= hyper_graph::pair_views(before).push(
            all[i as int],
        ));
        assert(all.take(i + 1) =~= all.take(i as int).push(all[i as int]));
        i += 1;
    }
    assert(all.take(i as int) =~= all);
    let r = Flow {
        names: text::copy_all(&plan.order),
        classes: true,
        aliases,
        at: 0,
        results: TextMap::new(),
    };
    assert(ast::result_views(r.results) =~= Map::<Seq<char>, GValue>::empty());
    r
}

/// Whether a pipeline asks for a run class by class.
pub open spec fn wants_classes(procs: Seq<Proc>) -> bool {
    exists|i: int| 0 <= i < procs.len() && (#[trigger] procs[i]).pick_by@ == "egraph"@
}

/// Whether a pipeline asks for a run class by class.
pub fn asks_for_classes(pl: &Pipeline) -> (r: bool)
    ensures
        r == wants_classes(pl.procs@),
{
    let mut i: usize = 0;
    while i < pl.procs.len()
        invariant
            i <= pl.procs@.len(),
            forall|k: int| 0 <= k < i ==> (#[trigger] pl.procs@[k]).pick_by@ != "egraph"@,
        decreases pl.procs@.len() - i,
    {
        if text::same(pl.procs[i].pick_by.as_str(), "egraph") {
            assert(pl.procs@[i as int].pick_by@ == "egraph"@);
            return true;
        }
        i += 1;
    }
    false
}

/// The start of a run: class by class where that is asked for, by the pipeline
/// or from outside, else layer by layer.
pub fn start_flow(pl: &Pipeline, forced: bool) -> (r: Flow)
    ensures
        r.wf(),
        r@ == start(pl.procs@, forced || wants_classes(pl.procs@)),
{
    let classes = forced || asks_for_classes(pl);
    let eg = fuse::build_egraph(pl);
    if classes {
        let p = plan::extract_plan(pl, &eg);
        class_flow(&p)
    } else {
        proof {
            order::lemma_in_order(eg.nodes.seq());
        }
        layered_flow(&eg)
    }
}

// ── The end ──

/// The message of the record of a failed proc.
pub open spec fn root_message(results: Map<Seq<char>, GValue>, x: Seq<char>) -> Seq<char> {
    if results.dom().contains(x) && results[x] is Text {
        match dslresult::field_of("err_msg"@, results[x]->Text_0) {
            Some(m) => m,
            None => "unknown error"@,
        }
    } else {
        "unknown error"@
    }
}

/// The error with which a run ends, if it does; a failed proc that does not
/// matter is none.
pub open spec fn final_error(procs: Seq<Proc>, results: Map<Seq<char>, GValue>) -> Option<
    (Seq<char>, Seq<char>),
> {
    match critical::fatal_of(procs, results) {
        Some(x) => Some(
            (
                "critical proc '"@ + x + "' failed: "@ + root_message(results, x),
                root_message(results, x),
            ),
        ),
        None => None,
    }
}

/// The message of the record of a failed proc.
fn root_of(results: &TextMap<Value>, x: &str) -> (r: String)
    requires
        results.wf(),
    ensures
        r@ == root_message(ast::result_views(*results), x@),
{
    match results.get(x) {
        Some(v) => match v {
            Value::Text(t) => match dslresult::extract_field("err_msg", t.as_str()) {
                Some(m) => m,
                None => "unknown error".to_owned(),
            },
            _ => "unknown error".to_owned(),
        },
        None => "unknown error".to_owned(),
    }
}

/// The error with which a run ends, if it does, and what it came from.
pub fn verdict(pl: &Pipeline, results: &TextMap<Value>) -> (r: Option<(String, String)>)
    requires
        results.wf(),
    ensures
        match r {
            Some((m, root)) => final_error(pl.procs@, ast::result_views(*results)) == Some(
                (m@, root@),
            ),
            None => final_error(pl.procs@, ast::result_views(*results)) is None,
        },
{
    match critical::fatal_left(pl, results) {
        Some(x) => {
            let root = root_of(results, x.as_str());
            let mut m = "critical proc '".to_owned();
            m.append(x.as_str());
            m.append("' failed: ");
            m.append(root.as_str());
            Some((m, root))
        },
        None => None,
    }
}

/// How a run ended.
#[derive(Debug)]
pub enum ExecResult {
    Success(TextMap<Value>),
    Failed { error: String, partial: TextMap<Value> },
}

/// How a run ended, as values.
pub enum GExec {
    Success(Map<Seq<char>, GValue>),
    Failed { error: Seq<char>, partial: Map<Seq<char>, GValue> },
}

impl ExecResult {
    pub open spec fn view(&self) -> GExec {
        match self {
            ExecResult::Success(m) => GExec::Success(ast::result_views(*m)),
            ExecResult::Failed { error, partial } => GExec::Failed {
                error: error@,
                partial: ast::result_views(*partial),
            },
        }
    }
}

/// How a run ends: with its fatal failure, with the objection of the review, or
/// well.
pub open spec fn ending(
    procs: Seq<Proc>,
    results: Map<Seq<char>, GValue>,
    objection: Option<Seq<char>>,
) -> GExec {
    match final_error(procs, results) {
        Some((m, root)) => GExec::Failed {
            error: match objection {
                Some(o) => m + "; "@ + o,
                None => m,
            },
            partial: results,
        },
        None => match objection {
            Some(o) => GExec::Failed { error: o, partial: results },
            None => GExec::Success(results),
        },
    }
}

/// How a run ends, given the objection of the review.
pub fn conclude(pl: &Pipeline, results: TextMap<Value>, objection: Option<String>) -> (r: ExecResult)
    requires
        results.wf(),
    ensures
        r@ == ending(pl.procs@, ast::result_views(results), text::opt_view(objection)),
{
    match verdict(pl, &results) {
        Some((m, _)) => {
            let error = match objection {
                Some(o) => {
                    let mut e = m;
                    e.append("; ");
                    e.append(o.as_str());
                    e
                },
                None => m,
            };
            ExecResult::Failed { error, partial: results }
        },
        None => match objection {
            Some(o) => ExecResult::Failed { error: o, partial: results },
            None => ExecResult::Success(results),
        },
    }
}

} // verus!
