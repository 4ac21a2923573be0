//! Which procs matter for what a pipeline delivers, and when a failure is fatal.

use crate::ast;
use crate::ast::{GValue, Impl, Pipeline, Proc, Value};
use crate::egraph;
use crate::errflow;
use crate::fuse;
use crate::order;
use crate::order::{TextMap, TextSet};
use crate::text;
use vstd::prelude::*;

verus! {

/// Whether a proc of that name delivers.
pub open spec fn delivers(procs: Seq<Proc>, x: Seq<char>) -> bool {
    exists|i: int| 0 <= i < procs.len() && (#[trigger] procs[i]).deliver && procs[i].name@ == x
}

/// Whether some proc delivers.
pub open spec fn any_delivers(procs: Seq<Proc>) -> bool {
    exists|i: int| 0 <= i < procs.len() && (#[trigger] procs[i]).deliver
}

/// Whether some proc delivers `x`.
pub open spec fn delivered(procs: Seq<Proc>, x: Seq<char>) -> bool {
    exists|i: int|
        0 <= i < procs.len() && (#[trigger] procs[i]).deliver && text::views(
            procs[i].deliver_refs@,
        ).contains(x)
}

/// Whether an implementation of a plan refers to `x`.
pub open spec fn plan_refers(plan: Seq<Impl>, x: Seq<char>) -> bool {
    exists|j: int| 0 <= j < plan.len() && text::views((#[trigger] plan[j]).refs@).contains(x)
}

/// Whether the proc `a` refers to `b`.
pub open spec fn follows(procs: Seq<Proc>, a: Seq<char>, b: Seq<char>) -> bool {
    match egraph::proc_at(procs, a, 0) {
        Some(k) => plan_refers(procs[k].plan@, b),
        None => false,
    }
}

/// Whether `x` is a proc that only works.
pub open spec fn inner(procs: Seq<Proc>, x: Seq<char>) -> bool {
    egraph::proc_at(procs, x, 0) is Some && !delivers(procs, x)
}

/// Whether the procs of a path lead back from what is delivered, each to one
/// that the one before refers to.
pub open spec fn main_path(procs: Seq<Proc>, path: Seq<Seq<char>>) -> bool {
    &&& path.len() > 0
    &&& delivered(procs, path[0])
    &&& forall|i: int| 0 <= i < path.len() ==> inner(procs, #[trigger] path[i])
    &&& forall|i: int| 1 <= i < path.len() ==> follows(procs, path[i - 1], #[trigger] path[i])
}

/// Whether `x` lies on a path back from what is delivered.
pub open spec fn on_main(procs: Seq<Proc>, x: Seq<char>) -> bool {
    exists|path: Seq<Seq<char>>| #[trigger] main_path(procs, path) && path.last() == x
}

/// Whether a proc matters: it delivers, or what is delivered rests on it; where
/// nothing delivers, every proc matters.
pub open spec fn matters(procs: Seq<Proc>, x: Seq<char>) -> bool {
    if any_delivers(procs) {
        delivers(procs, x) || on_main(procs, x)
    } else {
        ast::proc_names(procs).contains(x)
    }
}

/// The procs that matter.
pub open spec fn critical(procs: Seq<Proc>) -> Set<Seq<char>> {
    Set::new(|x: Seq<char>| matters(procs, x))
}

/// Whether something on the main path asks for `x`.
pub open spec fn asked(procs: Seq<Proc>, x: Seq<char>) -> bool {
    delivered(procs, x) || exists|a: Seq<char>| #[trigger] on_main(procs, a) && follows(procs, a, x)
}

/// What the main path asks for lies on it.
pub proof fn lemma_extend(procs: Seq<Proc>, x: Seq<char>)
    requires
        asked(procs, x),
        inner(procs, x),
    ensures
        on_main(procs, x),
{
    if delivered(procs, x) {
        let path = seq![x];
        assert(main_path(procs, path));
        assert(path.last() == x);
    } else {
        let a = choose|a: Seq<char>| #[trigger] on_main(procs, a) && follows(procs, a, x);
        let path = choose|path: Seq<Seq<char>>| #[trigger] main_path(procs, path) && path.last() == a;
        let longer = path.push(x);
        assert forall|i: int| 0 <= i < longer.len() implies inner(procs, #[trigger] longer[i]) by {
            if i < path.len() {
                assert(longer[i] == path[i]);
            }
        }
        assert forall|i: int| 1 <= i < longer.len() implies follows(
            procs,
            longer[i - 1],
            #[trigger] longer[i],
        ) by {
            if i < path.len() {
                assert(longer[i] == path[i]);
                assert(longer[i - 1] == path[i - 1]);
            } else {
                assert(longer[i - 1] == path.last());
            }
        }
        assert(longer[0] == path[0]);
        assert(main_path(procs, longer));
        assert(longer.last() == x);
    }
}

/// A set that holds what is delivered and is closed under references holds
/// every main path.
proof fn lemma_closed(procs: Seq<Proc>, c: Set<Seq<char>>, path: Seq<Seq<char>>, n: int)
    requires
        main_path(procs, path),
        forall|x: Seq<char>|
            #[trigger] delivered(procs, x) && inner(procs, x) ==> c.contains(x),
        forall|a: Seq<char>, b: Seq<char>|
            c.contains(a) && inner(procs, a) && #[trigger] follows(procs, a, b) && inner(procs, b)
                ==> c.contains(b),
        0 <= n < path.len(),
    ensures
        c.contains(path[n]),
    decreases n,
{
    assert(inner(procs, path[n]));
    if n == 0 {
        assert(delivered(procs, path[0]));
    } else {
        lemma_closed(procs, c, path, n - 1);
        assert(inner(procs, path[n - 1]));
        assert(follows(procs, path[n - 1], path[n]));
    }
}

/// Adds texts at the end.
pub(crate) fn push_all(q: &mut Vec<String>, more: &Vec<String>)
    ensures
        text::views(final(q)@) == text::views(old(q)@) + text::views(more@),
{
    let ghost start = text::views(q@);
    let ghost mv = text::views(more@);
    let mut i: usize = 0;
    assert(start + mv.take(0) =~= start);
    while i < more.len()
        invariant
            i <= more@.len(),
            mv == text::views(more@),
            text::views(q@) == start + mv.take(i as int),
        decreases more@.len() - i,
    {
        let ghost before = q@;
        q.push(more[i].clone());
        assert(text::views(q@) =~= text::views(before).push(mv[i as int]));
        assert(start + mv.take(i + 1) =~= (start + mv.take(i as int)).push(mv[i as int]));
        i += 1;
    }
    assert(mv.take(i as int) =~= mv);
}

/// The names of the procs that deliver, and what they deliver.
fn delivery(procs: &Vec<Proc>) -> (r: (TextSet, Vec<String>, bool))
    ensures
        r.0.wf(),
        forall|x: Seq<char>| #[trigger] r.0@.contains(x) <==> delivers(procs@, x),
        forall|x: Seq<char>| #[trigger] text::views(r.1@).contains(x) <==> delivered(procs@, x),
        r.2 == any_delivers(procs@),
{
    let mut names = TextSet::new();
    let mut refs: Vec<String> = Vec::new();
    let mut any = false;
    let mut i: usize = 0;
    while i < procs.len()
        invariant
            i <= procs@.len(),
            names.wf(),
            forall|x: Seq<char>| #[trigger]
                names@.contains(x) <==> exists|k: int|
                    0 <= k < i && (#[trigger] procs@[k]).deliver && procs@[k].name@ == x,
            forall|x: Seq<char>| #[trigger]
                text::views(refs@).contains(x) <==> exists|k: int|
                    0 <= k < i && (#[trigger] procs@[k]).deliver && text::views(
                        procs@[k].deliver_refs@,
                    ).contains(x),
            any == exists|k: int| 0 <= k < i && (#[trigger] procs@[k]).deliver,
        decreases procs@.len() - i,
    {
        let ghost n0 = names@;
        let ghost r0 = text::views(refs@);
        let p: &Proc = &procs[i];
        if p.deliver {
            any = true;
            names.insert(p.name.clone());
            push_all(&mut refs, &p.deliver_refs);
            proof {
                let dv = text::views(p.deliver_refs@);
                let rv = text::views(refs@);
                assert forall|x: Seq<char>| #[trigger] rv.contains(x) <==> r0.contains(x)
                    || dv.contains(x) by {
                    if r0.contains(x) {
                        let k = choose|k: int| 0 <= k < r0.len() && r0[k] == x;
                        assert(rv[k] == x);
                    }
                    if dv.contains(x) {
                        let k = choose|k: int| 0 <= k < dv.len() && dv[k] == x;
                        assert(rv[r0.len() + k] == x);
                    }
                    if rv.contains(x) {
                        let k = choose|k: int| 0 <= k < rv.len() && rv[k] == x;
                        if k < r0.len() {
                            assert(r0[k] == x);
                        } else {
                            assert(dv[k - r0.len()] == x);
                        }
                    }
                }
                assert(procs@[i as int].deliver);
            }
        }
        i += 1;
    }
    (names, refs, any)
}

/// The references of all implementations of a plan.
fn plan_refs(plan: &Vec<Impl>) -> (r: Vec<String>)
    ensures
        forall|x: Seq<char>| #[trigger] text::views(r@).contains(x) <==> plan_refers(plan@, x),
{
    let mut out: Vec<String> = Vec::new();
    let mut j: usize = 0;
    while j < plan.len()
        invariant
            j <= plan@.len(),
            forall|x: Seq<char>| #[trigger]
                text::views(out@).contains(x) <==> exists|k: int|
                    0 <= k < j && text::views((#[trigger] plan@[k]).refs@).contains(x),
        decreases plan@.len() - j,
    {
        let ghost o0 = text::views(out@);
        push_all(&mut out, &plan[j].refs);
        proof {
            let dv = text::views(plan@[j as int].refs@);
            let rv = text::views(out@);
            assert forall|x: Seq<char>| #[trigger] rv.contains(x) <==> o0.contains(x)
                || dv.contains(x) by {
                if o0.contains(x) {
                    let k = choose|k: int| 0 <= k < o0.len() && o0[k] == x;
                    assert(rv[k] == x);
                }
                if dv.contains(x) {
                    let k = choose|k: int| 0 <= k < dv.len() && dv[k] == x;
                    assert(rv[o0.len() + k] == x);
                }
                if rv.contains(x) {
                    let k = choose|k: int| 0 <= k < rv.len() && rv[k] == x;
                    if k < o0.len() {
                        assert(o0[k] == x);
                    } else {
                        assert(dv[k - o0.len()] == x);
                    }
                }
            }
        }
        j += 1;
    }
    out
}

/// The names of all procs.
fn all_names(procs: &Vec<Proc>) -> (r: TextSet)
    ensures
        r.wf(),
        forall|x: Seq<char>| #[trigger] r@.contains(x) <==> ast::proc_names(procs@).contains(x),
{
    let ghost names = ast::proc_names(procs@);
    let mut out = TextSet::new();
    let mut i: usize = 0;
    assert(names.take(0).len() == 0);
    while i < procs.len()
        invariant
            i <= procs@.len(),
            names == ast::proc_names(procs@),
            out.wf(),
            forall|x: Seq<char>| #[trigger]
                out@.contains(x) <==> exists|k: int| 0 <= k < i && #[trigger] names[k] == x,
        decreases procs@.len() - i,
    {
        assert(names[i as int] == procs@[i as int].name@);
        out.insert(procs[i].name.clone());
        i += 1;
    }
    out
}

/// Whether nothing is left to do for `x`: it was found, it waits in the queue,
/// or there is no such proc.
spec fn settled(
    procs: Seq<Proc>,
    found: Set<Seq<char>>,
    queue: Seq<Seq<char>>,
    head: int,
    x: Seq<char>,
) -> bool {
    found.contains(x) || egraph::proc_at(procs, x, 0) is None || exists|i: int|
        head <= i < queue.len() && #[trigger] queue[i] == x
}

/// The procs that matter: those that deliver, and those that what is delivered
/// rests on; where nothing delivers, all procs.
pub fn critical_set(pl: &Pipeline) -> (r: TextSet)
    ensures
        r.wf(),
        r@ == critical(pl.procs@),
{
    let ghost procs = pl.procs@;
    let (mut found, mut queue, any) = delivery(&pl.procs);
    if !any {
        let all = all_names(&pl.procs);
        assert(all@ =~= critical(procs));
        return all;
    }
    let all = all_names(&pl.procs);
    let mut head: usize = 0;
    proof {
        vstd::seq_lib::seq_to_set_is_finite(all.seq());
        assert forall|x: Seq<char>| #[trigger] delivered(procs, x) implies settled(
            procs,
            found@,
            text::views(queue@),
            0,
            x,
        ) by {
            assert(text::views(queue@).contains(x));
        }
        assert forall|i: int| 0 <= i < queue@.len() implies asked(
            procs,
            #[trigger] text::views(queue@)[i],
        ) by {
            assert(text::views(queue@).contains(text::views(queue@)[i]));
        }
        lemma_all_left(procs, all@, found@);
    }
    while head < queue.len()
        invariant
            head <= queue@.len(),
            procs == pl.procs@,
            any_delivers(procs),
            found.wf(),
            all@.finite(),
            all@.difference(found@).finite(),
            forall|x: Seq<char>| #[trigger] all@.contains(x) <==> ast::proc_names(procs).contains(x),
            forall|x: Seq<char>| #[trigger]
                found@.contains(x) ==> delivers(procs, x) || on_main(procs, x),
            forall|x: Seq<char>| #[trigger] delivers(procs, x) ==> found@.contains(x),
            forall|i: int|
                head <= i < queue@.len() ==> asked(procs, #[trigger] text::views(queue@)[i]),
            forall|x: Seq<char>| #[trigger]
                delivered(procs, x) ==> settled(
                    procs,
                    found@,
                    text::views(queue@),
                    head as int,
                    x,
                ),
            forall|a: Seq<char>, b: Seq<char>|
                found@.contains(a) && inner(procs, a) && #[trigger] follows(procs, a, b)
                    ==> settled(procs, found@, text::views(queue@), head as int, b),
        decreases all@.difference(found@).len(), queue@.len() - head,
    {
        let ghost qv = text::views(queue@);
        let ghost f0 = found@;
        let name = queue[head].clone();
        let ghost nv = name@;
        assert(qv[head as int] == nv);
        assert(asked(procs, nv));
        if !found.contains(name.as_str()) {
            proof {
                fuse::lemma_proc_at(procs, nv, 0);
            }
            match fuse::find_proc(&pl.procs, name.as_str()) {
                Some(k) => {
                    let more = plan_refs(&pl.procs[k].plan);
                    found.insert(name);
                    push_all(&mut queue, &more);
                    proof {
                        let q2 = text::views(queue@);
                        let mv = text::views(more@);
                        assert(!delivers(procs, nv));
                        assert(inner(procs, nv));
                        lemma_extend(procs, nv);
                        assert(q2 =~= qv + mv);
                        assert(q2.len() == queue@.len());
                        assert forall|i: int| head + 1 <= i < queue@.len() implies asked(
                            procs,
                            #[trigger] q2[i],
                        ) by {
                            if i < qv.len() {
                                assert(q2[i] == qv[i]);
                            } else {
                                assert(q2[i] == mv[i - qv.len()]);
                                assert(mv.contains(q2[i]));
                                assert(follows(procs, nv, q2[i]));
                            }
                        }
                        assert forall|x: Seq<char>|
                            settled(procs, f0, qv, head as int, x) implies settled(
                            procs,
                            found@,
                            q2,
                            head + 1,
                            x,
                        ) by {
                            if !f0.contains(x) && egraph::proc_at(procs, x, 0) is Some {
                                let i = choose|i: int|
                                    head <= i < qv.len() && #[trigger] qv[i] == x;
                                if i == head {
                                    assert(found@.contains(x));
                                } else {
                                    assert(q2[i] == x);
                                }
                            }
                        }
                        assert forall|a: Seq<char>, b: Seq<char>|
                            found@.contains(a) && inner(procs, a) && #[trigger] follows(
                                procs,
                                a,
                                b,
                            ) implies settled(procs, found@, q2, head + 1, b) by {
                            if a == nv {
                                assert(mv.contains(b));
                                let i = choose|i: int| 0 <= i < mv.len() && mv[i] == b;
                                assert(q2[qv.len() + i] == b);
                            } else {
                                assert(f0.contains(a));
                                assert(settled(procs, f0, qv, head as int, b));
                            }
                        }
                        assert(all@.difference(found@) =~= all@.difference(f0).remove(nv));
                        assert(all@.contains(nv));
                        assert(all@.difference(f0).contains(nv));
                    }
                },
                None => {
                    proof {
                        lemma_drop_head(procs, f0, qv, head as int);
                        assert forall|a: Seq<char>, b: Seq<char>|
                            found@.contains(a) && inner(procs, a) && #[trigger] follows(
                                procs,
                                a,
                                b,
                            ) implies settled(procs, found@, qv, head + 1, b) by {
                            assert(settled(procs, f0, qv, head as int, b));
                        }
                    }
                },
            }
        } else {
            proof {
                lemma_drop_head(procs, f0, qv, head as int);
                assert forall|a: Seq<char>, b: Seq<char>|
                    found@.contains(a) && inner(procs, a) && #[trigger] follows(
                        procs,
                        a,
                        b,
                    ) implies settled(procs, found@, qv, head + 1, b) by {
                    assert(settled(procs, f0, qv, head as int, b));
                }
            }
        }
        head += 1;
    }
    proof {
        assert forall|x: Seq<char>| #[trigger] found@.contains(x) <==> critical(procs).contains(
            x,
        ) by {
            if on_main(procs, x) {
                let path = choose|path: Seq<Seq<char>>| #[trigger]
                    main_path(procs, path) && path.last() == x;
                lemma_closed(procs, found@, path, path.len() - 1);
            }
        }
        assert(found@ =~= critical(procs));
    }
    found
}

/// Where the head of the queue is found already, or is no proc, what is settled
/// stays settled without it.
proof fn lemma_drop_head(procs: Seq<Proc>, found: Set<Seq<char>>, queue: Seq<Seq<char>>, head: int)
    requires
        0 <= head < queue.len(),
        found.contains(queue[head]) || egraph::proc_at(procs, queue[head], 0) is None,
    ensures
        forall|x: Seq<char>|
            settled(procs, found, queue, head, x) ==> settled(procs, found, queue, head + 1, x),
{
    assert forall|x: Seq<char>| settled(procs, found, queue, head, x) implies settled(
        procs,
        found,
        queue,
        head + 1,
        x,
    ) by {
        if !found.contains(x) && egraph::proc_at(procs, x, 0) is Some {
            let i = choose|i: int| head <= i < queue.len() && #[trigger] queue[i] == x;
            assert(i != head);
            assert(queue[i] == x);
        }
    }
}

/// What is left of a finite set is finite.
proof fn lemma_all_left(procs: Seq<Proc>, all: Set<Seq<char>>, found: Set<Seq<char>>)
    requires
        all.finite(),
    ensures
        all.difference(found).finite(),
{
    vstd::set_lib::lemma_len_subset(all.difference(found), all);
}

// ── Fatal failures ──

/// The first of the names from the `i`-th on that is critical and has failed.
pub open spec fn first_fatal(
    names: Seq<Seq<char>>,
    results: Map<Seq<char>, GValue>,
    crit: Set<Seq<char>>,
    i: int,
) -> Option<Seq<char>>
    decreases names.len() - i,
{
    if i >= names.len() {
        None
    } else if crit.contains(names[i]) && errflow::dead(results, names[i]) {
        Some(names[i])
    } else {
        first_fatal(names, results, crit, i + 1)
    }
}

/// The first failed proc, by name, that matters.
pub open spec fn fatal_of(procs: Seq<Proc>, results: Map<Seq<char>, GValue>) -> Option<Seq<char>> {
    first_fatal(order::in_order(results.dom()), results, critical(procs), 0)
}

/// The names of the results are walked in ascending order.
pub proof fn lemma_result_names(m: TextMap<Value>)
    requires
        m.wf(),
    ensures
        order::in_order(ast::result_views(m).dom()) == m.keys(),
{
    assert(ast::result_views(m).dom() =~= m.keys().to_set());
    order::lemma_in_order(m.keys());
}

/// The first failed proc, by name, that matters; a failure of any other proc is
/// not fatal.
pub fn fatal_left(pl: &Pipeline, partial: &TextMap<Value>) -> (r: Option<String>)
    requires
        partial.wf(),
    ensures
        text::opt_view(r) == fatal_of(pl.procs@, ast::result_views(*partial)),
{
    let crit = critical_set(pl);
    let ghost results = ast::result_views(*partial);
    let mut i: usize = 0;
    proof {
        lemma_result_names(*partial);
    }
    while i < partial.len()
        invariant
            i <= partial.keys().len(),
            partial.wf(),
            crit.wf(),
            crit@ == critical(pl.procs@),
            results == ast::result_views(*partial),
            order::in_order(results.dom()) == partial.keys(),
            first_fatal(partial.keys(), results, crit@, 0) == first_fatal(
                partial.keys(),
                results,
                crit@,
                i as int,
            ),
        decreases partial.keys().len() - i,
    {
        let name = partial.key_at(i);
        if crit.contains(name.as_str()) && errflow::is_dead(partial, name.as_str()) {
            return Some(name.clone());
        }
        i += 1;
    }
    None
}

/// What is known of the first fatal name from the `i`-th on.
proof fn lemma_first_fatal(
    names: Seq<Seq<char>>,
    results: Map<Seq<char>, GValue>,
    crit: Set<Seq<char>>,
    i: int,
)
    requires
        0 <= i <= names.len(),
    ensures
        match first_fatal(names, results, crit, i) {
            Some(x) => crit.contains(x) && errflow::dead(results, x),
            None => forall|k: int|
                i <= k < names.len() && crit.contains(#[trigger] names[k]) ==> !errflow::dead(
                    results,
                    names[k],
                ),
        },
    decreases names.len() - i,
{
    if i < names.len() {
        lemma_first_fatal(names, results, crit, i + 1);
    }
}

/// Only a failed proc that matters is fatal: where none is named, every proc
/// that matters has either not run or not failed.
pub proof fn law_only_critical_failures_are_fatal(
    procs: Seq<Proc>,
    results: Map<Seq<char>, GValue>,
    x: Seq<char>,
)
    requires
        results.dom().finite(),
    ensures
        fatal_of(procs, results) == Some(x) ==> matters(procs, x) && errflow::dead(results, x),
        fatal_of(procs, results) is None && matters(procs, x) ==> !errflow::dead(results, x),
{
    let names = order::in_order(results.dom());
    lemma_first_fatal(names, results, critical(procs), 0);
    order::lemma_in_order_exists(results.dom());
    if fatal_of(procs, results) is None && matters(procs, x) && errflow::dead(results, x) {
        assert(names.to_set().contains(x));
        let k = choose|k: int| 0 <= k < names.len() && names[k] == x;
        assert(critical(procs).contains(names[k]));
    }
}

} // verus!
