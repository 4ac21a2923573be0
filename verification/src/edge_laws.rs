//! Which proc waits for which, and in which order a run looks at them.

use crate::ast;
use crate::ast::{Impl, Proc};
use crate::body;
use crate::check_laws;
use crate::egraph;
use crate::flow;
use crate::order;
use crate::schedule;
use crate::text;
use vstd::prelude::*;

verus! {

/// Whether an implementation refers to `x`: among its references or in its body.
pub open spec fn refers(i: Impl, x: Seq<char>) -> bool {
    text::views(i.refs@).contains(x) || body::body_refs_spec(i.body_text@).contains(x)
}

/// Whether the proc `b` waits for `a`: some implementation of it refers to `a`,
/// which is another proc.
pub open spec fn waits_for(procs: Seq<Proc>, n: int, a: Seq<char>, b: Seq<char>) -> bool {
    a != b && check_laws::there(procs, a) && exists|p: int, i: int|
        0 <= p < n && 0 <= i < procs[p].plan@.len() && procs[p].name@ == b && refers(
            #[trigger] procs[p].plan@[i],
            a,
        )
}

proof fn lemma_refs_with(refs: Seq<Seq<char>>, more: Seq<Seq<char>>, k: int, x: Seq<char>)
    requires
        0 <= k <= more.len(),
    ensures
        egraph::refs_with(refs, more, k).contains(x) <==> refs.contains(x) || more.take(k).contains(
            x,
        ),
    decreases k,
{
    let t = more.take(k);
    if k > 0 {
        lemma_refs_with(refs, more, k - 1, x);
        let u = more.take(k - 1);
        let before = egraph::refs_with(refs, more, k - 1);
        let now = egraph::refs_with(refs, more, k);
        assert(t[k - 1] == more[k - 1]);
        if u.contains(x) {
            let i = choose|i: int| 0 <= i < u.len() && u[i] == x;
            assert(t[i] == x);
        }
        if t.contains(x) {
            let i = choose|i: int| 0 <= i < t.len() && t[i] == x;
            if i < k - 1 {
                assert(u[i] == x);
            }
        }
        if !before.contains(more[k - 1]) {
            assert(now[before.len() as int] == more[k - 1]);
            if before.contains(x) {
                let i = choose|i: int| 0 <= i < before.len() && before[i] == x;
                assert(now[i] == x);
            }
            if now.contains(x) {
                let i = choose|i: int| 0 <= i < now.len() && now[i] == x;
                if i < before.len() {
                    assert(before[i] == x);
                }
            }
        }
    }
}

/// An implementation refers to what it declares and to what its body names, and to
/// nothing else.
pub proof fn law_references_are_declared_or_named(i: Impl, x: Seq<char>)
    ensures
        egraph::impl_refs(i).contains(x) <==> refers(i, x),
{
    let more = body::body_refs_spec(i.body_text@);
    lemma_refs_with(text::views(i.refs@), more, more.len() as int, x);
    assert(more.take(more.len() as int) =~= more);
}

proof fn lemma_from_refs(
    edges: Seq<(Seq<char>, Seq<char>)>,
    names: Seq<Seq<char>>,
    to: Seq<char>,
    refs: Seq<Seq<char>>,
    k: int,
    e: (Seq<char>, Seq<char>),
)
    requires
        0 <= k <= refs.len(),
    ensures
        egraph::edges_from_refs(edges, names, to, refs, k).contains(e) <==> edges.contains(e) || (
        e.1 == to && e.0 != to && names.contains(e.0) && refs.take(k).contains(e.0)),
    decreases k,
{
    let t = refs.take(k);
    if k > 0 {
        lemma_from_refs(edges, names, to, refs, k - 1, e);
        let u = refs.take(k - 1);
        let before = egraph::edges_from_refs(edges, names, to, refs, k - 1);
        let now = egraph::edges_from_refs(edges, names, to, refs, k);
        let new = (refs[k - 1], to);
        assert(t[k - 1] == refs[k - 1]);
        if u.contains(e.0) {
            let i = choose|i: int| 0 <= i < u.len() && u[i] == e.0;
            assert(t[i] == e.0);
        }
        if t.contains(e.0) {
            let i = choose|i: int| 0 <= i < t.len() && t[i] == e.0;
            if i < k - 1 {
                assert(u[i] == e.0);
            }
        }
        if names.contains(refs[k - 1]) && refs[k - 1] != to && !before.contains(new) {
            assert(now[before.len() as int] == new);
            if before.contains(e) {
                let i = choose|i: int| 0 <= i < before.len() && before[i] == e;
                assert(now[i] == e);
            }
            if now.contains(e) {
                let i = choose|i: int| 0 <= i < now.len() && now[i] == e;
                if i < before.len() {
                    assert(before[i] == e);
                }
            }
        }
    }
}

proof fn lemma_of_impls(
    edges: Seq<(Seq<char>, Seq<char>)>,
    procs: Seq<Proc>,
    p: int,
    n: int,
    e: (Seq<char>, Seq<char>),
)
    requires
        0 <= p < procs.len(),
        0 <= n <= procs[p].plan@.len(),
    ensures
        egraph::edges_of_impls(edges, procs, p, n).contains(e) <==> edges.contains(e) || (e.1
            == procs[p].name@ && e.0 != e.1 && check_laws::there(procs, e.0) && exists|i: int|
            0 <= i < n && refers(#[trigger] procs[p].plan@[i], e.0)),
    decreases n,
{
    if n > 0 {
        lemma_of_impls(edges, procs, p, n - 1, e);
        let im = procs[p].plan@[n - 1];
        let refs = egraph::impl_refs(im);
        check_laws::lemma_there(procs, e.0);
        lemma_from_refs(
            egraph::edges_of_impls(edges, procs, p, n - 1),
            ast::proc_names(procs),
            procs[p].name@,
            refs,
            refs.len() as int,
            e,
        );
        assert(refs.take(refs.len() as int) =~= refs);
        law_references_are_declared_or_named(im, e.0);
        assert(procs[p].plan@[n - 1] == im);
    }
}

/// An edge leads from one proc to another exactly where the second waits for the
/// first.
pub proof fn law_edges_are_what_procs_wait_for(
    procs: Seq<Proc>,
    n: int,
    a: Seq<char>,
    b: Seq<char>,
)
    requires
        0 <= n <= procs.len(),
    ensures
        egraph::edges_of(procs, n).contains((a, b)) <==> waits_for(procs, n, a, b),
    decreases n,
{
    let e = (a, b);
    if n > 0 {
        law_edges_are_what_procs_wait_for(procs, n - 1, a, b);
        let p = n - 1;
        lemma_of_impls(
            egraph::edges_of(procs, p),
            procs,
            p,
            procs[p].plan@.len() as int,
            e,
        );
        if waits_for(procs, n, a, b) {
            let (q, i) = choose|q: int, i: int|
                0 <= q < n && 0 <= i < procs[q].plan@.len() && procs[q].name@ == b && refers(
                    #[trigger] procs[q].plan@[i],
                    a,
                );
            if q < p {
                assert(0 <= q < p && refers(procs[q].plan@[i], a));
                assert(waits_for(procs, p, a, b));
            } else {
                assert(refers(procs[p].plan@[i], a));
            }
        }
        if egraph::edges_of(procs, n).contains(e) {
            if waits_for(procs, p, a, b) {
                let (q, i) = choose|q: int, i: int|
                    0 <= q < p && 0 <= i < procs[q].plan@.len() && procs[q].name@ == b && refers(
                        #[trigger] procs[q].plan@[i],
                        a,
                    );
                assert(refers(procs[q].plan@[i], a));
            } else {
                let i = choose|i: int|
                    0 <= i < procs[p].plan@.len() && refers(#[trigger] procs[p].plan@[i], a);
                assert(refers(procs[p].plan@[i], a));
            }
        }
    }
}

// ── The order of a run ──

proof fn lemma_flat(ls: Seq<Seq<Seq<char>>>, n: int, x: Seq<char>)
    requires
        0 <= n <= ls.len(),
    ensures
        flow::flat(ls, n).contains(x) <==> exists|i: int| 0 <= i < n && (#[trigger] ls[i]).contains(
            x,
        ),
    decreases n,
{
    if n > 0 {
        lemma_flat(ls, n - 1, x);
        vstd::seq_lib::lemma_seq_concat_contains_all_elements(flow::flat(ls, n - 1), ls[n - 1], x);
        assert(ls[n - 1] == ls[n - 1]);
    }
}

/// Where a place of the layers, one behind the other, stands.
proof fn lemma_layer_of(ls: Seq<Seq<Seq<char>>>, n: int, k: int) -> (i: int)
    requires
        0 <= n <= ls.len(),
        0 <= k < flow::flat(ls, n).len(),
    ensures
        0 <= i < n,
        ls[i].contains(flow::flat(ls, n)[k]),
        flow::flat(ls, i).len() <= k < flow::flat(ls, i + 1).len(),
    decreases n,
{
    let before = flow::flat(ls, n - 1);
    if k < before.len() {
        let i = lemma_layer_of(ls, n - 1, k);
        assert(flow::flat(ls, n)[k] == before[k]);
        i
    } else {
        assert(flow::flat(ls, n)[k] == ls[n - 1][k - before.len()]);
        n - 1
    }
}

proof fn lemma_flat_grows(ls: Seq<Seq<Seq<char>>>, i: int, j: int)
    requires
        0 <= i <= j <= ls.len(),
    ensures
        flow::flat(ls, i).len() <= flow::flat(ls, j).len(),
    decreases j - i,
{
    if i < j {
        lemma_flat_grows(ls, i, j - 1);
    }
}

/// A run that goes layer by layer looks at every proc and at nothing else; where no
/// procs wait for each other in a ring, at each after all that it waits for.
pub proof fn law_runs_look_at_every_proc_in_order(procs: Seq<Proc>, x: Seq<char>, i: int, j: int)
    ensures
        flow::start(procs, false).names.contains(x) <==> check_laws::there(procs, x),
        flow::start(procs, false).at == 0,
        flow::start(procs, false).results.dom() == Set::<Seq<char>>::empty(),
        flow::start(procs, false).aliases.len() == 0,
        !flow::start(procs, false).classes,
        schedule::orderable(
            order::in_order(ast::proc_names(procs).to_set()),
            egraph::edges_of(procs, procs.len() as int),
        ) && 0 <= i < flow::start(procs, false).names.len() && 0 <= j < flow::start(
            procs,
            false,
        ).names.len() && waits_for(
            procs,
            procs.len() as int,
            flow::start(procs, false).names[i],
            flow::start(procs, false).names[j],
        ) ==> i < j,
{
    let all = order::in_order(ast::proc_names(procs).to_set());
    let edges = egraph::edges_of(procs, procs.len() as int);
    let ls = schedule::layers(all, edges);
    let names = flow::start(procs, false).names;
    vstd::seq_lib::seq_to_set_is_finite(ast::proc_names(procs));
    order::lemma_in_order_exists(ast::proc_names(procs).to_set());
    assert(flow::start(procs, false).results.dom() =~= Set::<Seq<char>>::empty());
    lemma_flat(ls, ls.len() as int, x);
    schedule::law_layers_cover(all, edges, x);
    check_laws::lemma_there(procs, x);
    assert(all.contains(x) <==> all.to_set().contains(x));
    if schedule::orderable(all, edges) && 0 <= i < names.len() && 0 <= j < names.len() && waits_for(
        procs,
        procs.len() as int,
        names[i],
        names[j],
    ) {
        law_edges_are_what_procs_wait_for(procs, procs.len() as int, names[i], names[j]);
        let k = choose|k: int| 0 <= k < edges.len() && edges[k] == (names[i], names[j]);
        let a = lemma_layer_of(ls, ls.len() as int, i);
        let b = lemma_layer_of(ls, ls.len() as int, j);
        schedule::law_layers_respect_edges(all, edges, k, a, b);
        assert(a < b);
        lemma_flat_grows(ls, a + 1, b);
    }
}

/// A run goes class by class exactly where some proc asks for it.
pub proof fn law_one_proc_asks_for_classes(procs: Seq<Proc>, i: int)
    requires
        0 <= i < procs.len(),
    ensures
        procs[i].pick_by@ == "egraph"@ ==> flow::wants_classes(procs),
        (forall|k: int| 0 <= k < procs.len() ==> (#[trigger] procs[k]).pick_by@ != "egraph"@)
            ==> !flow::wants_classes(procs),
        flow::start(procs, true).classes,
        flow::start(procs, true).at == 0,
{
}

} // verus!
