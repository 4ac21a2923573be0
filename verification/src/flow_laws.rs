//! What holds of every run of a pipeline: what is done with each proc, where a
//! result goes, and how the run ends.

use crate::ast::{GValue, Impl, Proc};
use crate::check_laws;
use crate::critical;
use crate::dslresult;
use crate::egraph;
use crate::errflow;
use crate::errflow::{ErrCode, GRecord};
use crate::flow;
use crate::flow::{GBefore, GExec, GFlow, GStep};
use crate::order;
use crate::text;
use vstd::prelude::*;

verus! {

// ── Failed procs ──

/// Whether the result of `x` is a failure.
pub open spec fn broke(results: Map<Seq<char>, GValue>, x: Seq<char>) -> bool {
    results.dom().contains(x) && results[x] is Text && dslresult::field_of(
        "err"@,
        results[x]->Text_0,
    ) == Some("1"@)
}

/// Whether a proc needs `x`: some implementation refers to it, or its items come
/// from it.
pub open spec fn needs(p: Proc, x: Seq<char>) -> bool {
    ||| p.foreach is Some && p.foreach->0@ == x
    ||| exists|k: int|
        0 <= k < p.plan@.len() && text::views((#[trigger] p.plan@[k]).refs@).contains(x)
}

/// Whether an implementation refers to a failed proc.
pub open spec fn misled(i: Impl, results: Map<Seq<char>, GValue>) -> bool {
    exists|k: int| 0 <= k < i.refs@.len() && broke(results, (#[trigger] i.refs@[k])@)
}

/// Whether `k` is the place of the first proc of that name.
pub open spec fn is_proc(procs: Seq<Proc>, k: int, x: Seq<char>) -> bool {
    0 <= k < procs.len() && procs[k].name@ == x && forall|m: int|
        0 <= m < k ==> (#[trigger] procs[m]).name@ != x
}

// ── The end ──

/// Whether a proc that matters has failed.
pub open spec fn fatal(procs: Seq<Proc>, results: Map<Seq<char>, GValue>, x: Seq<char>) -> bool {
    critical::matters(procs, x) && broke(results, x)
}

/// Whether `m` is what a failed proc says of its failure.
pub open spec fn says(results: Map<Seq<char>, GValue>, x: Seq<char>, m: Seq<char>) -> bool {
    match dslresult::field_of("err_msg"@, results[x]->Text_0) {
        Some(t) => m == t,
        None => m == "unknown error"@,
    }
}

proof fn lemma_fatal(procs: Seq<Proc>, results: Map<Seq<char>, GValue>)
    requires
        results.dom().finite(),
    ensures
        match critical::fatal_of(procs, results) {
            Some(x) => fatal(procs, results, x) && forall|y: Seq<char>| #[trigger]
                fatal(procs, results, y) ==> y == x || order::text_lt(x, y),
            None => forall|y: Seq<char>| !#[trigger] fatal(procs, results, y),
        },
{
    let names = order::in_order(results.dom());
    let crit = critical::critical(procs);
    order::lemma_in_order_exists(results.dom());
    lemma_first(names, results, crit, 0);
    assert forall|y: Seq<char>| #[trigger] fatal(procs, results, y) implies exists|k: int|
        0 <= k < names.len() && #[trigger] names[k] == y && crit.contains(names[k])
            && errflow::dead(results, names[k]) by {
        assert(names.to_set().contains(y));
        let k = choose|k: int| 0 <= k < names.len() && names[k] == y;
        assert(crit.contains(names[k]));
    }
    match critical::fatal_of(procs, results) {
        Some(x) => {
            let i = choose|i: int|
                0 <= i < names.len() && x == #[trigger] names[i] && crit.contains(names[i])
                    && errflow::dead(results, names[i]) && forall|k: int|
                    0 <= k < i ==> !(crit.contains(#[trigger] names[k]) && errflow::dead(
                        results,
                        names[k],
                    ));
            assert(fatal(procs, results, x));
            assert forall|y: Seq<char>| #[trigger] fatal(procs, results, y) implies y == x
                || order::text_lt(x, y) by {
                let k = choose|k: int|
                    0 <= k < names.len() && #[trigger] names[k] == y && crit.contains(names[k])
                        && errflow::dead(results, names[k]);
                if k > i {
                    assert(order::text_lt(names[i], names[k]));
                }
            }
        },
        None => {
            assert forall|y: Seq<char>| !#[trigger] fatal(procs, results, y) by {
                if fatal(procs, results, y) {
                    let k = choose|k: int|
                        0 <= k < names.len() && #[trigger] names[k] == y && crit.contains(names[k])
                            && errflow::dead(results, names[k]);
                }
            }
        },
    }
}

proof fn lemma_first(
    names: Seq<Seq<char>>,
    results: Map<Seq<char>, GValue>,
    crit: Set<Seq<char>>,
    i: int,
)
    requires
        0 <= i <= names.len(),
    ensures
        match critical::first_fatal(names, results, crit, i) {
            Some(x) => exists|j: int|
                i <= j < names.len() && x == #[trigger] names[j] && crit.contains(names[j])
                    && errflow::dead(results, names[j]) && forall|k: int|
                    i <= k < j ==> !(crit.contains(#[trigger] names[k]) && errflow::dead(
                        results,
                        names[k],
                    )),
            None => forall|k: int|
                i <= k < names.len() ==> !(crit.contains(#[trigger] names[k]) && errflow::dead(
                    results,
                    names[k],
                )),
        },
    decreases names.len() - i,
{
    if i < names.len() {
        if crit.contains(names[i]) && errflow::dead(results, names[i]) {
            assert(names[i] == names[i]);
        } else {
            lemma_first(names, results, crit, i + 1);
        }
    }
}

/// A run ends well, with all its results, exactly where no proc that matters has
/// failed and the review has no objection. Else it has failed, keeps its results,
/// and its error says what failed, where something did, and holds the objection,
/// where there is one.
pub proof fn law_runs_end_well_only_without_fault(
    procs: Seq<Proc>,
    results: Map<Seq<char>, GValue>,
    objection: Option<Seq<char>>,
)
    requires
        results.dom().finite(),
    ensures
        flow::ending(procs, results, objection) is Success <==> objection is None && forall|
            x: Seq<char>,
        |
            #[trigger] critical::matters(procs, x) ==> !broke(results, x),
        flow::ending(procs, results, objection) matches GExec::Success(m) ==> m == results,
        flow::ending(procs, results, objection) matches GExec::Failed { error, partial }
            ==> partial == results && (objection matches Some(o) ==> o.is_suffix_of(error)),
{
    lemma_fatal(procs, results);
    match critical::fatal_of(procs, results) {
        Some(x) => {
            assert(critical::matters(procs, x));
        },
        None => {
            assert forall|x: Seq<char>| #[trigger] critical::matters(procs, x) implies !broke(
                results,
                x,
            ) by {
                assert(!fatal(procs, results, x));
            }
        },
    }
    match flow::ending(procs, results, objection) {
        GExec::Failed { error, partial } => {
            match objection {
                Some(o) => {
                    assert(error.skip(error.len() - o.len()) =~= o);
                    assert(o =~= error.subrange(error.len() - o.len(), error.len() as int));
                },
                None => {},
            }
        },
        _ => {},
    }
}

/// The error of a failed run names the first failed proc, by name, that matters,
/// and what it says; without one it is the objection and no more.
pub proof fn law_errors_say_what_failed(
    procs: Seq<Proc>,
    results: Map<Seq<char>, GValue>,
    objection: Option<Seq<char>>,
    x: Seq<char>,
    m: Seq<char>,
)
    requires
        results.dom().finite(),
        fatal(procs, results, x),
        forall|y: Seq<char>| #[trigger]
            fatal(procs, results, y) ==> y == x || order::text_lt(x, y),
        says(results, x, m),
    ensures
        flow::ending(procs, results, objection)->error == "critical proc '"@ + x + "' failed: "@ + m
            + (match objection {
            Some(o) => "; "@ + o,
            None => Seq::empty(),
        }),
{
    lemma_fatal(procs, results);
    match critical::fatal_of(procs, results) {
        Some(y) => {
            if y != x {
                order::lemma_lt_asymmetric(x, y);
            }
            assert(flow::ending(procs, results, objection)->error =~= "critical proc '"@ + x
                + "' failed: "@ + m + (match objection {
                Some(o) => "; "@ + o,
                None => Seq::empty(),
            }));
        },
        None => {},
    }
}

/// Without a fatal failure the error of a run is the objection.
pub proof fn law_objections_stand_alone(
    procs: Seq<Proc>,
    results: Map<Seq<char>, GValue>,
    o: Seq<char>,
)
    requires
        results.dom().finite(),
        forall|y: Seq<char>| !#[trigger] fatal(procs, results, y),
    ensures
        flow::ending(procs, results, Some(o)) == (GExec::Failed { error: o, partial: results }),
{
    lemma_fatal(procs, results);
}

// ── What matters ──

/// Whether `x` is a proc, and none of its name delivers.
pub open spec fn works(procs: Seq<Proc>, x: Seq<char>) -> bool {
    (exists|k: int| is_proc(procs, k, x)) && forall|k: int|
        0 <= k < procs.len() && (#[trigger] procs[k]).name@ == x ==> !procs[k].deliver
}

/// Whether some implementation of the proc `a` refers to `b`.
pub open spec fn draws_on(procs: Seq<Proc>, a: Seq<char>, b: Seq<char>) -> bool {
    exists|k: int, j: int|
        is_proc(procs, k, a) && 0 <= j < procs[k].plan@.len() && text::views(
            (#[trigger] procs[k].plan@[j]).refs@,
        ).contains(b)
}

proof fn lemma_works(procs: Seq<Proc>, x: Seq<char>)
    ensures
        works(procs, x) <==> critical::inner(procs, x),
{
    check_laws::lemma_first(procs, x, 0);
    match egraph::proc_at(procs, x, 0) {
        Some(k) => {
            assert(is_proc(procs, k, x));
        },
        None => {},
    }
}

proof fn lemma_draws(procs: Seq<Proc>, a: Seq<char>, b: Seq<char>)
    ensures
        draws_on(procs, a, b) <==> critical::follows(procs, a, b),
{
    check_laws::lemma_first(procs, a, 0);
    match egraph::proc_at(procs, a, 0) {
        Some(k) => {
            assert(is_proc(procs, k, a));
            if critical::follows(procs, a, b) {
                let j = choose|j: int|
                    0 <= j < procs[k].plan@.len() && text::views(
                        (#[trigger] procs[k].plan@[j]).refs@,
                    ).contains(b);
                assert(text::views(procs[k].plan@[j].refs@).contains(b));
            }
            if draws_on(procs, a, b) {
                let (l, j) = choose|l: int, j: int|
                    is_proc(procs, l, a) && 0 <= j < procs[l].plan@.len() && text::views(
                        (#[trigger] procs[l].plan@[j]).refs@,
                    ).contains(b);
                assert(procs[l].name@ == a && procs[k].name@ == a);
                assert(l == k);
            }
        },
        None => {},
    }
}

/// Where something is delivered, what delivers matters, the procs that are
/// delivered do, and every proc that one of those draws on. Where nothing is, all
/// procs matter.
pub proof fn law_what_is_delivered_matters(procs: Seq<Proc>, i: int, a: Seq<char>, b: Seq<char>)
    requires
        0 <= i < procs.len(),
    ensures
        procs[i].deliver ==> critical::matters(procs, procs[i].name@),
        procs[i].deliver && text::views(procs[i].deliver_refs@).contains(a) && works(procs, a)
            ==> critical::matters(procs, a),
        critical::matters(procs, a) && works(procs, a) && draws_on(procs, a, b) && works(procs, b)
            ==> critical::matters(procs, b),
        (forall|k: int| 0 <= k < procs.len() ==> !(#[trigger] procs[k]).deliver)
            ==> critical::matters(procs, procs[i].name@),
{
    lemma_works(procs, a);
    lemma_works(procs, b);
    lemma_draws(procs, a, b);
    check_laws::lemma_there(procs, procs[i].name@);
    assert(procs[i].name@ == procs[i].name@);
    assert(check_laws::there(procs, procs[i].name@));
    if procs[i].deliver {
        if text::views(procs[i].deliver_refs@).contains(a) && works(procs, a) {
            critical::lemma_extend(procs, a);
        }
    }
    if critical::any_delivers(procs) {
        if critical::matters(procs, a) && works(procs, a) && draws_on(procs, a, b) && works(
            procs,
            b,
        ) {
            assert(!critical::delivers(procs, a));
            critical::lemma_extend(procs, b);
        }
    } else if works(procs, b) {
        let k = choose|k: int| is_proc(procs, k, b);
        assert(procs[k].name@ == b);
        check_laws::lemma_there(procs, b);
    }
}

/// Nothing else matters: what matters lies in every set that holds what delivers
/// and what is delivered, and with a proc those that it draws on.
pub proof fn law_nothing_else_matters(procs: Seq<Proc>, all: Set<Seq<char>>, x: Seq<char>)
    requires
        exists|i: int| 0 <= i < procs.len() && (#[trigger] procs[i]).deliver,
        forall|i: int|
            0 <= i < procs.len() && (#[trigger] procs[i]).deliver ==> all.contains(procs[i].name@),
        forall|i: int, a: Seq<char>|
            0 <= i < procs.len() && procs[i].deliver && #[trigger] text::views(
                procs[i].deliver_refs@,
            ).contains(a) && works(procs, a) ==> all.contains(a),
        forall|a: Seq<char>, b: Seq<char>|
            all.contains(a) && #[trigger] draws_on(procs, a, b) && works(procs, b) ==> all.contains(
                b,
            ),
        critical::matters(procs, x),
    ensures
        all.contains(x),
{
    if critical::delivers(procs, x) {
    } else {
        let path = choose|path: Seq<Seq<char>>| #[trigger]
            critical::main_path(procs, path) && path.last() == x;
        lemma_path(procs, all, path, path.len() - 1);
    }
}

proof fn lemma_path(procs: Seq<Proc>, all: Set<Seq<char>>, path: Seq<Seq<char>>, n: int)
    requires
        forall|i: int, a: Seq<char>|
            0 <= i < procs.len() && procs[i].deliver && #[trigger] text::views(
                procs[i].deliver_refs@,
            ).contains(a) && works(procs, a) ==> all.contains(a),
        forall|a: Seq<char>, b: Seq<char>|
            all.contains(a) && #[trigger] draws_on(procs, a, b) && works(procs, b) ==> all.contains(
                b,
            ),
        critical::main_path(procs, path),
        0 <= n < path.len(),
    ensures
        all.contains(path[n]),
    decreases n,
{
    lemma_works(procs, path[n]);
    if n > 0 {
        lemma_path(procs, all, path, n - 1);
        lemma_draws(procs, path[n - 1], path[n]);
        assert(critical::follows(procs, path[n - 1], path[n]));
        assert(draws_on(procs, path[n - 1], path[n]));
    } else {
        let i = choose|i: int|
            0 <= i < procs.len() && (#[trigger] procs[i]).deliver && text::views(
                procs[i].deliver_refs@,
            ).contains(path[0]);
        assert(text::views(procs[i].deliver_refs@).contains(path[0]));
    }
}

// ── Results ──

proof fn lemma_shared(
    results: Map<Seq<char>, GValue>,
    aliases: Seq<(Seq<char>, Seq<char>)>,
    x: Seq<char>,
    v: GValue,
    n: int,
    y: Seq<char>,
)
    requires
        0 <= n <= aliases.len(),
    ensures
        ({
            let r = flow::shared(results, aliases, x, v, n);
            let stands = exists|i: int| 0 <= i < n && #[trigger] aliases[i] == (y, x);
            &&& r.dom().contains(y) <==> results.dom().contains(y) || stands
            &&& stands ==> r[y] == v
            &&& !stands && results.dom().contains(y) ==> r[y] == results[y]
        }),
    decreases n,
{
    if n > 0 {
        lemma_shared(results, aliases, x, v, n - 1, y);
        assert(aliases[n - 1] == (aliases[n - 1].0, aliases[n - 1].1));
    }
}

/// The result of a proc is kept under its name and under the names of all procs
/// that it stands for; every other result stays, and the run goes one on.
pub proof fn law_results_are_shared(f: GFlow, x: Seq<char>, v: GValue, y: Seq<char>)
    ensures
        flow::settled(f, x, v).results.dom().contains(x),
        flow::settled(f, x, v).results[x] == v,
        (exists|i: int| 0 <= i < f.aliases.len() && #[trigger] f.aliases[i] == (y, x))
            ==> flow::settled(f, x, v).results.dom().contains(y) && flow::settled(f, x, v).results[y]
            == v,
        y != x && !(exists|i: int| 0 <= i < f.aliases.len() && #[trigger] f.aliases[i] == (y, x))
            ==> (flow::settled(f, x, v).results.dom().contains(y) <==> f.results.dom().contains(y))
            && (f.results.dom().contains(y) ==> flow::settled(f, x, v).results[y] == f.results[y]),
        flow::settled(f, x, v).at == f.at + 1,
        flow::settled(f, x, v).names == f.names,
        flow::settled(f, x, v).aliases == f.aliases,
        flow::settled(f, x, v).classes == f.classes,
{
    lemma_shared(f.results.insert(x, v), f.aliases, x, v, f.aliases.len() as int, y);
    lemma_shared(f.results.insert(x, v), f.aliases, x, v, f.aliases.len() as int, x);
}

/// The name of the last enabled implementation.
proof fn lemma_last_enabled(plan: Seq<Impl>, n: int)
    requires
        0 <= n <= plan.len(),
    ensures
        (forall|i: int| 0 <= i < n ==> !(#[trigger] plan[i]).enabled) ==> flow::last_enabled(plan, n)
            == "-"@,
        forall|i: int|
            0 <= i < n && (#[trigger] plan[i]).enabled && (forall|j: int|
                i < j < n ==> !(#[trigger] plan[j]).enabled) ==> flow::last_enabled(plan, n)
                == plan[i].name@,
    decreases n,
{
    if n > 0 {
        lemma_last_enabled(plan, n - 1);
        assert forall|i: int|
            0 <= i < n && (#[trigger] plan[i]).enabled && (forall|j: int|
                i < j < n ==> !(#[trigger] plan[j]).enabled) implies flow::last_enabled(plan, n)
            == plan[i].name@ by {
            if i < n - 1 {
                assert(!plan[n - 1].enabled);
            }
        }
    }
}

/// The record of a failure names the proc and the last enabled implementation,
/// has the kind of the error, and holds the beginnings of the error: without the
/// spaces around it as the message, and as it is as the output.
pub proof fn law_failures_are_recorded(p: Proc, e: Seq<char>, i: int)
    ensures
        flow::failure(p, true, e).proc == p.name@,
        flow::failure(p, true, e).code == errflow::kind_of(e),
        0 <= i < p.plan@.len() && p.plan@[i].enabled && (forall|j: int|
            i < j < p.plan@.len() ==> !(#[trigger] p.plan@[j]).enabled) ==> flow::failure(
            p,
            true,
            e,
        ).impl_ == p.plan@[i].name@,
        (forall|j: int| 0 <= j < p.plan@.len() ==> !(#[trigger] p.plan@[j]).enabled)
            ==> flow::failure(p, true, e).impl_ == "-"@,
        flow::failure(p, false, e) == (GRecord { impl_: "-"@, ..flow::failure(p, true, e) }),
        e.len() <= 4096 ==> flow::failure(p, true, e).raw == e,
        e.len() > 4096 ==> flow::failure(p, true, e).raw == e.take(4096) + "…"@,
        text::trimmed(e).len() <= 500 ==> flow::failure(p, true, e).message == text::trimmed(e),
        text::trimmed(e).len() > 500 ==> flow::failure(p, true, e).message == text::trimmed(e).take(
            500,
        ) + "…"@,
        flow::failure(p, true, e).attempts == 0,
{
    lemma_last_enabled(p.plan@, p.plan@.len() as int);
}

// ── What a proc needs ──

proof fn lemma_with_names(rs: Seq<Seq<char>>, more: Seq<Seq<char>>, n: int, x: Seq<char>)
    requires
        0 <= n <= more.len(),
        rs.no_duplicates(),
    ensures
        flow::with_names(rs, more, n).no_duplicates(),
        flow::with_names(rs, more, n).contains(x) <==> rs.contains(x) || more.take(n).contains(x),
    decreases n,
{
    if n > 0 {
        lemma_with_names(rs, more, n - 1, x);
        lemma_with_name(flow::with_names(rs, more, n - 1), more[n - 1], x);
        let t = more.take(n);
        let u = more.take(n - 1);
        assert(t =~= u.push(more[n - 1]));
        if u.contains(x) {
            let i = choose|i: int| 0 <= i < u.len() && u[i] == x;
            assert(t[i] == x);
        }
        assert(t[n - 1] == more[n - 1]);
        if t.contains(x) {
            let i = choose|i: int| 0 <= i < t.len() && t[i] == x;
            if i < n - 1 {
                assert(u[i] == x);
            }
        }
    }
}

proof fn lemma_with_name(rs: Seq<Seq<char>>, r: Seq<char>, x: Seq<char>)
    requires
        rs.no_duplicates(),
    ensures
        flow::with_name(rs, r).no_duplicates(),
        flow::with_name(rs, r).contains(x) <==> rs.contains(x) || x == r,
{
    let t = flow::with_name(rs, r);
    if !rs.contains(r) {
        assert(t[rs.len() as int] == r);
        if rs.contains(x) {
            let i = choose|i: int| 0 <= i < rs.len() && rs[i] == x;
            assert(t[i] == x);
        }
        if t.contains(x) {
            let i = choose|i: int| 0 <= i < t.len() && t[i] == x;
            if i < rs.len() {
                assert(rs[i] == x);
            }
        }
        assert forall|i: int, j: int| 0 <= i < t.len() && 0 <= j < t.len() && i != j implies t[i]
            != t[j] by {
            if i == rs.len() {
                assert(rs.contains(rs[j]));
            }
            if j == rs.len() {
                assert(rs.contains(rs[i]));
            }
        }
    }
}

proof fn lemma_plan_refs(plan: Seq<Impl>, n: int, x: Seq<char>)
    requires
        0 <= n <= plan.len(),
    ensures
        flow::plan_refs(plan, n).no_duplicates(),
        flow::plan_refs(plan, n).contains(x) <==> exists|k: int|
            0 <= k < n && text::views((#[trigger] plan[k]).refs@).contains(x),
    decreases n,
{
    if n > 0 {
        let refs = text::views(plan[n - 1].refs@);
        lemma_plan_refs(plan, n - 1, x);
        lemma_with_names(flow::plan_refs(plan, n - 1), refs, refs.len() as int, x);
        assert(refs.take(refs.len() as int) =~= refs);
        assert(text::views(plan[n - 1].refs@) == refs);
    }
}

/// The references of a proc are all it needs, each once.
pub proof fn law_references_are_what_is_needed(p: Proc, x: Seq<char>)
    ensures
        flow::proc_refs(p).no_duplicates(),
        flow::proc_refs(p).contains(x) <==> needs(p, x),
{
    let rs = flow::plan_refs(p.plan@, p.plan@.len() as int);
    lemma_plan_refs(p.plan@, p.plan@.len() as int, x);
    match p.foreach {
        Some(src) => {
            lemma_with_name(rs, src@, x);
        },
        None => {},
    }
}

proof fn lemma_dead(results: Map<Seq<char>, GValue>, refs: Seq<Seq<char>>, n: int, x: Seq<char>)
    requires
        0 <= n <= refs.len(),
    ensures
        errflow::dead_upto(results, refs, n).contains(x) <==> refs.take(n).contains(x) && broke(
            results,
            x,
        ),
    decreases n,
{
    let d = errflow::dead_upto(results, refs, n);
    let t = refs.take(n);
    if n > 0 {
        lemma_dead(results, refs, n - 1, x);
        let e = errflow::dead_upto(results, refs, n - 1);
        let u = refs.take(n - 1);
        assert(t =~= u.push(refs[n - 1]));
        assert(t[n - 1] == refs[n - 1]);
        if u.contains(x) {
            let i = choose|i: int| 0 <= i < u.len() && u[i] == x;
            assert(t[i] == x);
        }
        if t.contains(x) {
            let i = choose|i: int| 0 <= i < t.len() && t[i] == x;
            if i < n - 1 {
                assert(u[i] == x);
            }
        }
        if errflow::dead(results, refs[n - 1]) {
            assert(d[e.len() as int] == refs[n - 1]);
            if e.contains(x) {
                let i = choose|i: int| 0 <= i < e.len() && e[i] == x;
                assert(d[i] == x);
            }
            if d.contains(x) {
                let i = choose|i: int| 0 <= i < d.len() && d[i] == x;
                if i < e.len() {
                    assert(e[i] == x);
                }
            }
        }
    }
}

/// The failed references of a proc are what it needs and has failed.
proof fn lemma_dead_needs(p: Proc, results: Map<Seq<char>, GValue>, x: Seq<char>)
    ensures
        errflow::dead_upto(results, flow::proc_refs(p), flow::proc_refs(p).len() as int).contains(x)
            <==> needs(p, x) && broke(results, x),
{
    let refs = flow::proc_refs(p);
    law_references_are_what_is_needed(p, x);
    lemma_dead(results, refs, refs.len() as int, x);
    assert(refs.take(refs.len() as int) =~= refs);
}

proof fn lemma_misled(p: Proc, results: Map<Seq<char>, GValue>, k: int)
    requires
        0 <= k < p.plan@.len(),
    ensures
        flow::touches(
            p.plan@[k],
            errflow::dead_upto(results, flow::proc_refs(p), flow::proc_refs(p).len() as int),
        ) <==> misled(p.plan@[k], results),
{
    let i = p.plan@[k];
    let dead = errflow::dead_upto(results, flow::proc_refs(p), flow::proc_refs(p).len() as int);
    if flow::touches(i, dead) {
        let j = choose|j: int| 0 <= j < i.refs@.len() && dead.contains((#[trigger] i.refs@[j])@);
        lemma_dead_needs(p, results, i.refs@[j]@);
    }
    if misled(i, results) {
        let j = choose|j: int|
            0 <= j < i.refs@.len() && broke(results, (#[trigger] i.refs@[j])@);
        lemma_dead_needs(p, results, i.refs@[j]@);
        assert(text::views(i.refs@)[j] == i.refs@[j]@);
        assert(text::views(p.plan@[k].refs@).contains(i.refs@[j]@));
        assert(dead.contains(i.refs@[j]@));
    }
}

proof fn lemma_untouched(plan: Seq<Impl>, names: Seq<Seq<char>>, n: int)
    requires
        0 <= n <= plan.len() <= usize::MAX,
    ensures
        flow::untouched(plan, names, n) == flow::all_places(n).filter(
            |k: usize| !flow::touches(plan[k as int], names),
        ),
    decreases n,
{
    let keep = |k: usize| !flow::touches(plan[k as int], names);
    if n > 0 {
        lemma_untouched(plan, names, n - 1);
        assert(flow::all_places(n) =~= flow::all_places(n - 1).push((n - 1) as usize));
        flow::all_places(n - 1).lemma_filter_push((n - 1) as usize, keep);
    } else {
        reveal(Seq::filter);
        assert(flow::all_places(0) =~= Seq::empty());
    }
}

/// A proc that delivers is passed over. Any other runs, with all its ways in
/// order, exactly where nothing that it needs has failed.
pub proof fn law_procs_run_on_sound_inputs(p: Proc, results: Map<Seq<char>, GValue>)
    ensures
        flow::before(p, results) is Skip <==> p.deliver,
        flow::before(p, results) is Run <==> !p.deliver && forall|x: Seq<char>| #[trigger]
            needs(p, x) ==> !broke(results, x),
        flow::before(p, results) matches GBefore::Run(v) ==> v.len() == p.plan@.len() && forall|
            k: int,
        |
            0 <= k < v.len() ==> #[trigger] v[k] == k as usize,
{
    let refs = flow::proc_refs(p);
    let dead = errflow::dead_upto(results, refs, refs.len() as int);
    if dead.len() == 0 {
        assert forall|x: Seq<char>| #[trigger] needs(p, x) implies !broke(results, x) by {
            lemma_dead_needs(p, results, x);
        }
    } else {
        lemma_dead_needs(p, results, dead[0]);
        assert(dead.contains(dead[0]));
        assert(needs(p, dead[0]));
    }
}

/// Behind a failure that no run survives, a broken contract or a stop by the user,
/// the run stops; behind any other, a proc whose items are there runs with exactly
/// its ways that refer to no failed proc, in order, where there are any; else it
/// fails with the kind of what failed before it, and says so.
pub proof fn law_failed_inputs_are_survived(p: Proc, results: Map<Seq<char>, GValue>)
    requires
        p.plan@.len() <= usize::MAX,
        !p.deliver,
        exists|x: Seq<char>| #[trigger] needs(p, x) && broke(results, x),
    ensures
        exists|x: Seq<char>| #[trigger]
            needs(p, x) && broke(results, x) && ({
                let code = errflow::code_in(results[x]->Text_0);
                let lost = code == ErrCode::Contract || code == ErrCode::Cancelled;
                let items = !(p.foreach is Some && broke(results, p.foreach->0@));
                let way = exists|k: int|
                    0 <= k < p.plan@.len() && !misled(#[trigger] p.plan@[k], results);
                match flow::before(p, results) {
                    GBefore::Stop(m) => lost && m == "contract error in "@ + x
                        + ": unrecoverable, flow exited"@,
                    GBefore::Switch(v) => !lost && items && v.len() > 0 && v == flow::all_places(
                        p.plan@.len() as int,
                    ).filter(|k: usize| !misled(p.plan@[k as int], results)),
                    GBefore::Left(t) => !lost && !(items && way) && dslresult::field_of("err"@, t)
                        == Some("1"@) && errflow::code_in(t) == code,
                    _ => false,
                }
            }),
{
    let refs = flow::proc_refs(p);
    let dead = errflow::dead_upto(results, refs, refs.len() as int);
    let y = choose|x: Seq<char>| #[trigger] needs(p, x) && broke(results, x);
    lemma_dead_needs(p, results, y);
    assert(dead.len() > 0);
    let x = dead[0];
    assert(dead.contains(x));
    lemma_dead_needs(p, results, x);
    assert(needs(p, x) && broke(results, x));
    let n = p.plan@.len() as int;
    let all = flow::all_places(n);
    let keep1 = |k: usize| !flow::touches(p.plan@[k as int], dead);
    let keep2 = |k: usize| !misled(p.plan@[k as int], results);
    lemma_untouched(p.plan@, dead, n);
    assert(all.filter(keep1) == all.filter(keep2)) by {
        lemma_same_filter(all, keep1, keep2, p, results);
    }
    let left = all.filter(keep2);
    if exists|k: int| 0 <= k < n && !misled(#[trigger] p.plan@[k], results) {
        let k = choose|k: int| 0 <= k < n && !misled(#[trigger] p.plan@[k], results);
        assert(all[k] == k as usize);
        assert(keep2(all[k]));
        all.lemma_filter_contains(keep2, k);
        assert(left.len() > 0);
    }
    let rec = errflow::inherited(p.name@, x, flow::text_of(results, x));
    errflow::law_record_is_a_failure(rec);
}

proof fn lemma_same_filter(
    all: Seq<usize>,
    a: spec_fn(usize) -> bool,
    b: spec_fn(usize) -> bool,
    p: Proc,
    results: Map<Seq<char>, GValue>,
)
    requires
        forall|i: int| 0 <= i < all.len() ==> (#[trigger] all[i]) < p.plan@.len(),
        forall|k: usize|
            #[trigger] a(k) <==> !flow::touches(
                p.plan@[k as int],
                errflow::dead_upto(results, flow::proc_refs(p), flow::proc_refs(p).len() as int),
            ),
        forall|k: usize| #[trigger] b(k) <==> !misled(p.plan@[k as int], results),
    ensures
        all.filter(a) == all.filter(b),
    decreases all.len(),
{
    reveal(Seq::filter);
    if all.len() > 0 {
        let rest = all.drop_last();
        lemma_same_filter(rest, a, b, p, results);
        lemma_misled(p, results, all.last() as int);
        assert(a(all.last()) == b(all.last()));
    }
}

// ── Going on ──

/// Whether a name need not be run as the run stands: it is no proc, or one that
/// delivers, or another stands for it, or it has failed with what it needs.
pub open spec fn nothing_to_do(procs: Seq<Proc>, f: GFlow, x: Seq<char>) -> bool {
    ||| forall|k: int| 0 <= k < procs.len() ==> (#[trigger] procs[k]).name@ != x
    ||| exists|k: int| #[trigger] is_proc(procs, k, x) && procs[k].deliver
    ||| f.classes && exists|i: int| 0 <= i < f.aliases.len() && (#[trigger] f.aliases[i]).0 == x
    ||| !f.classes && broke(f.results, x)
}

/// Going on passes over what need not be run and nothing else: the run ends only
/// where nothing is left, and what it hands out to be run is the next proc in
/// order, neither delivering nor stood for by another. A proc that failed keeps its
/// failure, and every other result stays.
pub proof fn law_nothing_is_left_out(procs: Seq<Proc>, f: GFlow, i: int, y: Seq<char>)
    requires
        0 <= f.at <= f.names.len(),
    ensures
        ({
            let g = flow::advance(procs, f).0;
            let step = flow::advance(procs, f).1;
            &&& f.at <= i < g.at ==> nothing_to_do(procs, g, f.names[i])
            &&& step is End <==> g.at == f.names.len()
            &&& step matches GStep::Run { proc, plan, switched } ==> g.at < f.names.len()
                && is_proc(procs, proc, f.names[g.at]) && !procs[proc].deliver && if f.classes {
                !switched && plan == flow::all_places(procs[proc].plan@.len() as int) && forall|
                    a: int,
                |
                    0 <= a < f.aliases.len() ==> (#[trigger] f.aliases[a]).0 != f.names[g.at]
            } else if switched {
                flow::before(procs[proc], g.results) == GBefore::Switch(plan)
            } else {
                flow::before(procs[proc], g.results) == GBefore::Run(plan)
            }
            &&& step matches GStep::Stop(m) ==> !f.classes && exists|k: int| #[trigger]
                is_proc(procs, k, f.names[g.at]) && flow::before(procs[k], g.results)
                    == GBefore::Stop(m)
            &&& g.names == f.names && g.classes == f.classes && g.aliases == f.aliases
            &&& broke(f.results, y) ==> broke(g.results, y)
            &&& !broke(g.results, y) ==> (g.results.dom().contains(y) <==> f.results.dom().contains(
                y,
            )) && g.results[y] == f.results[y]
            &&& broke(g.results, y) && !broke(f.results, y) ==> !f.classes && exists|k: int|
                f.at <= k < g.at && #[trigger] f.names[k] == y
        }),
    decreases f.names.len() - f.at,
{
    if f.at < f.names.len() {
        let x = f.names[f.at];
        let passed = GFlow { at: f.at + 1, ..f };
        check_laws::lemma_first(procs, x, 0);
        match egraph::proc_at(procs, x, 0) {
            None => {
                law_nothing_is_left_out(procs, passed, i, y);
                flow::law_runs_go_forward(procs, passed);
            },
            Some(k) => {
                assert(is_proc(procs, k, x));
                if f.classes {
                    if procs[k].deliver || flow::aliased(f.aliases, x) {
                        law_nothing_is_left_out(procs, passed, i, y);
                        flow::law_runs_go_forward(procs, passed);
                    }
                } else {
                    law_procs_run_on_sound_inputs(procs[k], f.results);
                    match flow::before(procs[k], f.results) {
                        GBefore::Skip => {
                            law_nothing_is_left_out(procs, passed, i, y);
                            flow::law_runs_go_forward(procs, passed);
                        },
                        GBefore::Left(t) => {
                            flow::law_failed_inputs_are_not_read(procs[k], f.results);
                            let next = GFlow {
                                results: f.results.insert(procs[k].name@, GValue::Text(t)),
                                ..passed
                            };
                            law_nothing_is_left_out(procs, next, i, y);
                            law_nothing_is_left_out(procs, next, i, x);
                            flow::law_runs_go_forward(procs, next);
                            assert(broke(next.results, x));
                            assert(f.names[f.at] == x);
                        },
                        _ => {},
                    }
                }
            },
        }
    }
}

} // verus!
