//! Where stages and procs stand in the shape of a graph, and what leads to them.

use crate::ast::{Impl, Proc};
use crate::body;
use crate::hyper::GStage;
use crate::hyper_emit;
use crate::hyper_sig;
use crate::hyper_sig::GSig;
use crate::order;
use crate::text;
use vstd::prelude::*;

verus! {

/// Whether the place of a name is `j`: it stands there, and nowhere behind.
pub open spec fn stands_at(names: Seq<Seq<char>>, x: Seq<char>, j: int) -> bool {
    0 <= j < names.len() && names[j] == x && forall|k: int|
        j < k < names.len() ==> #[trigger] names[k] != x
}

/// The place of a name is the last where it stands.
pub proof fn law_the_last_place_counts(names: Seq<Seq<char>>, x: Seq<char>)
    ensures
        match hyper_sig::place_of(names, x) {
            Some(j) => stands_at(names, x, j),
            None => forall|k: int| 0 <= k < names.len() ==> #[trigger] names[k] != x,
        },
        forall|j: int| #[trigger] stands_at(names, x, j) ==> hyper_sig::place_of(names, x)
            == Some(j),
{
    lemma_place(names, x, names.len() as int);
    let p = hyper_sig::place_of(names, x);
    assert forall|j: int| #[trigger] stands_at(names, x, j) implies p == Some(j) by {
        assert(names[j] == x);
        if p is Some {
            assert(names[p->0] == x);
        }
    }
}

proof fn lemma_place(names: Seq<Seq<char>>, x: Seq<char>, n: int)
    requires
        0 <= n <= names.len(),
    ensures
        match hyper_sig::last_place(names, x, n) {
            Some(j) => 0 <= j < n && names[j] == x && forall|k: int|
                j < k < n ==> #[trigger] names[k] != x,
            None => forall|k: int| 0 <= k < n ==> #[trigger] names[k] != x,
        },
    decreases n,
{
    if n > 0 {
        lemma_place(names, x, n - 1);
    }
}

proof fn lemma_into(
    names: Seq<Seq<char>>,
    after: Seq<Seq<char>>,
    i: int,
    n: int,
    a: usize,
    b: usize,
)
    requires
        0 <= n <= after.len(),
        0 <= i < names.len() <= usize::MAX,
    ensures
        hyper_sig::edges_into(names, after, i, n).contains((a, b)) <==> b == i && exists|k: int|
            0 <= k < n && stands_at(names, #[trigger] after[k], a as int),
    decreases n,
{
    if n > 0 {
        lemma_into(names, after, i, n - 1, a, b);
        law_the_last_place_counts(names, after[n - 1]);
        let before = hyper_sig::edges_into(names, after, i, n - 1);
        let now = hyper_sig::edges_into(names, after, i, n);
        let p = hyper_sig::place_of(names, after[n - 1]);
        if p is Some {
            let e = (p->0 as usize, i as usize);
            lemma_push(before, e, (a, b));
            assert(stands_at(names, after[n - 1], a as int) <==> a == p->0);
        } else {
            assert(!stands_at(names, after[n - 1], a as int));
        }
    }
}

proof fn lemma_push(s: Seq<(usize, usize)>, e: (usize, usize), x: (usize, usize))
    ensures
        s.push(e).contains(x) <==> s.contains(x) || x == e,
{
    let t = s.push(e);
    assert(t[s.len() as int] == e);
    if s.contains(x) {
        let i = choose|i: int| 0 <= i < s.len() && s[i] == x;
        assert(t[i] == x);
    }
    if t.contains(x) && x != e {
        let i = choose|i: int| 0 <= i < t.len() && t[i] == x;
        assert(s[i] == x);
    }
}

/// An edge leads from one stage to another exactly where the first stands at an
/// input of the other.
pub proof fn law_edges_lead_from_inputs(ss: Seq<GStage>, n: int, a: usize, b: usize)
    requires
        0 <= n <= ss.len() <= usize::MAX,
    ensures
        hyper_sig::stage_edges(ss, n).contains((a, b)) <==> b < n && exists|k: int|
            0 <= k < hyper_emit::inputs_of(ss, ss[b as int]).len() && stands_at(
                hyper_sig::stage_names(ss),
                #[trigger] hyper_emit::inputs_of(ss, ss[b as int])[k],
                a as int,
            ),
        hyper_sig::named_edges(ss, n).contains((a, b)) <==> b < n && exists|k: int|
            0 <= k < ss[b as int].after.len() && stands_at(
                hyper_sig::stage_names(ss),
                #[trigger] ss[b as int].after[k],
                a as int,
            ),
    decreases n,
{
    if n > 0 {
        law_edges_lead_from_inputs(ss, n - 1, a, b);
        let names = hyper_sig::stage_names(ss);
        let all = hyper_emit::inputs_of(ss, ss[n - 1]);
        let own = ss[n - 1].after;
        assert(names.len() == ss.len());
        lemma_into(names, all, n - 1, all.len() as int, a, b);
        lemma_into(names, own, n - 1, own.len() as int, a, b);
        vstd::seq_lib::lemma_seq_concat_contains_all_elements(
            hyper_sig::stage_edges(ss, n - 1),
            hyper_sig::edges_into(names, all, n - 1, all.len() as int),
            (a, b),
        );
        vstd::seq_lib::lemma_seq_concat_contains_all_elements(
            hyper_sig::named_edges(ss, n - 1),
            hyper_sig::edges_into(names, own, n - 1, own.len() as int),
            (a, b),
        );
    }
}

/// A stage has a gate exactly where it waits for the verdict of a stage: it and the
/// place of that stage.
pub proof fn law_gates_are_on_verdicts(ss: Seq<GStage>, n: int, a: usize, b: usize)
    requires
        0 <= n <= ss.len() <= usize::MAX,
    ensures
        hyper_sig::stage_gates(ss, n).contains((a, b)) <==> a < n && ss[a as int].gated_by is Some
            && stands_at(hyper_sig::stage_names(ss), ss[a as int].gated_by->0, b as int),
    decreases n,
{
    if n > 0 {
        law_gates_are_on_verdicts(ss, n - 1, a, b);
        let names = hyper_sig::stage_names(ss);
        let before = hyper_sig::stage_gates(ss, n - 1);
        if ss[n - 1].gated_by is Some {
            let g = ss[n - 1].gated_by->0;
            law_the_last_place_counts(names, g);
            let p = hyper_sig::place_of(names, g);
            if p is Some {
                lemma_push(before, ((n - 1) as usize, p->0 as usize), (a, b));
                assert(stands_at(names, g, b as int) <==> b == p->0);
            } else {
                assert(!stands_at(names, g, b as int));
            }
        }
    }
}

proof fn lemma_others(
    names: Seq<Seq<char>>,
    refs: Seq<Seq<char>>,
    i: int,
    n: int,
    a: usize,
    b: usize,
)
    requires
        0 <= n <= refs.len(),
        0 <= i < names.len() <= usize::MAX,
    ensures
        hyper_sig::edges_from_others(names, refs, i, n).contains((a, b)) <==> b == i && a != b
            && exists|k: int|
            0 <= k < n && stands_at(names, #[trigger] refs[k], a as int),
    decreases n,
{
    if n > 0 {
        lemma_others(names, refs, i, n - 1, a, b);
        law_the_last_place_counts(names, refs[n - 1]);
        let before = hyper_sig::edges_from_others(names, refs, i, n - 1);
        let p = hyper_sig::place_of(names, refs[n - 1]);
        if p is Some {
            assert(stands_at(names, refs[n - 1], a as int) <==> a == p->0);
            if p->0 != i {
                lemma_push(before, (p->0 as usize, i as usize), (a, b));
            }
        } else {
            assert(!stands_at(names, refs[n - 1], a as int));
        }
    }
}

/// The names of the workers.
pub open spec fn names_of(procs: Seq<Proc>, ws: Seq<usize>) -> Seq<Seq<char>> {
    ws.map_values(|w: usize| procs[w as int].name@)
}

/// An edge leads from one worker to another exactly where the other takes data from
/// the name at which the first stands.
pub proof fn law_workers_take_data_from_others(
    procs: Seq<Proc>,
    ws: Seq<usize>,
    n: int,
    a: usize,
    b: usize,
)
    requires
        0 <= n <= ws.len() <= usize::MAX,
        forall|i: int|
            0 <= i < ws.len() ==> #[trigger] hyper_sig::data_of(
                procs[ws[i] as int].plan@,
            ).finite(),
    ensures
        hyper_sig::worker_edges(procs, ws, n).contains((a, b)) <==> b < n && a != b && exists|
            x: Seq<char>,
        |
            #[trigger] hyper_sig::data_of(procs[ws[b as int] as int].plan@).contains(x)
                && stands_at(names_of(procs, ws), x, a as int),
    decreases n,
{
    if n > 0 {
        law_workers_take_data_from_others(procs, ws, n - 1, a, b);
        let names = names_of(procs, ws);
        let data = hyper_sig::data_of(procs[ws[n - 1] as int].plan@);
        let refs = order::in_order(data);
        order::lemma_in_order_exists(data);
        lemma_others(names, refs, n - 1, refs.len() as int, a, b);
        vstd::seq_lib::lemma_seq_concat_contains_all_elements(
            hyper_sig::worker_edges(procs, ws, n - 1),
            hyper_sig::edges_from_others(names, refs, n - 1, refs.len() as int),
            (a, b),
        );
        if b == n - 1 {
            if exists|k: int| 0 <= k < refs.len() && stands_at(names, #[trigger] refs[k], a as int) {
                let k = choose|k: int|
                    0 <= k < refs.len() && stands_at(names, #[trigger] refs[k], a as int);
                assert(refs.to_set().contains(refs[k]));
            }
            if exists|x: Seq<char>| #[trigger] data.contains(x) && stands_at(names, x, a as int) {
                let x = choose|x: Seq<char>|
                    #[trigger] data.contains(x) && stands_at(names, x, a as int);
                assert(refs.to_set().contains(x));
                let k = choose|k: int| 0 <= k < refs.len() && refs[k] == x;
                assert(stands_at(names, refs[k], a as int));
            }
        }
    }
}

/// Whether a condition that looks at a verdict names what stands at `b`.
pub open spec fn awaits(names: Seq<Seq<char>>, i: Impl, b: int) -> bool {
    i.when is Some && (text::has(i.when->0@, ".score"@) || text::has(i.when->0@, ".ok"@)) && exists|
        k: int,
    |
        0 <= k < body::body_refs_spec(i.when->0@).len() && stands_at(
            names,
            #[trigger] body::body_refs_spec(i.when->0@)[k],
            b,
        )
}

proof fn lemma_gates_on_refs(
    gates: Seq<(usize, usize)>,
    names: Seq<Seq<char>>,
    refs: Seq<Seq<char>>,
    i: int,
    n: int,
    a: usize,
    b: usize,
)
    requires
        0 <= n <= refs.len(),
        0 <= i < names.len() <= usize::MAX,
    ensures
        hyper_sig::gates_on_refs(gates, names, refs, i, n).contains((a, b)) <==> gates.contains(
            (a, b),
        ) || (a == i && exists|k: int|
            0 <= k < n && stands_at(names, #[trigger] refs[k], b as int)),
    decreases n,
{
    if n > 0 {
        lemma_gates_on_refs(gates, names, refs, i, n - 1, a, b);
        law_the_last_place_counts(names, refs[n - 1]);
        let before = hyper_sig::gates_on_refs(gates, names, refs, i, n - 1);
        let p = hyper_sig::place_of(names, refs[n - 1]);
        if p is Some {
            lemma_push(before, (i as usize, p->0 as usize), (a, b));
            assert(stands_at(names, refs[n - 1], b as int) <==> b == p->0);
        } else {
            assert(!stands_at(names, refs[n - 1], b as int));
        }
    }
}

proof fn lemma_gates_on_plan(
    gates: Seq<(usize, usize)>,
    names: Seq<Seq<char>>,
    plan: Seq<Impl>,
    i: int,
    n: int,
    a: usize,
    b: usize,
)
    requires
        0 <= n <= plan.len(),
        0 <= i < names.len() <= usize::MAX,
    ensures
        hyper_sig::gates_on_plan(gates, names, plan, i, n).contains((a, b)) <==> gates.contains(
            (a, b),
        ) || (a == i && exists|k: int| 0 <= k < n && awaits(names, #[trigger] plan[k], b as int)),
    decreases n,
{
    if n > 0 {
        lemma_gates_on_plan(gates, names, plan, i, n - 1, a, b);
        let before = hyper_sig::gates_on_plan(gates, names, plan, i, n - 1);
        let w = plan[n - 1].when;
        if w is Some && hyper_sig::looks_at_verdict(w->0@) {
            let refs = body::body_refs_spec(w->0@);
            lemma_gates_on_refs(before, names, refs, i, refs.len() as int, a, b);
        } else {
            assert(!awaits(names, plan[n - 1], b as int));
        }
    }
}

/// A worker has a gate exactly where one of its conditions looks at the verdict of
/// a worker: it and the place of that worker.
pub proof fn law_workers_wait_for_verdicts(
    procs: Seq<Proc>,
    ws: Seq<usize>,
    n: int,
    a: usize,
    b: usize,
)
    requires
        0 <= n <= ws.len() <= usize::MAX,
    ensures
        hyper_sig::worker_gates(procs, ws, n).contains((a, b)) <==> a < n && exists|k: int|
            0 <= k < procs[ws[a as int] as int].plan@.len() && awaits(
                names_of(procs, ws),
                #[trigger] procs[ws[a as int] as int].plan@[k],
                b as int,
            ),
    decreases n,
{
    if n > 0 {
        law_workers_wait_for_verdicts(procs, ws, n - 1, a, b);
        let plan = procs[ws[n - 1] as int].plan@;
        lemma_gates_on_plan(
            hyper_sig::worker_gates(procs, ws, n - 1),
            names_of(procs, ws),
            plan,
            n - 1,
            plan.len() as int,
            a,
            b,
        );
    }
}

/// The key of a shape does not hang on its tags, nor on a name of its own; with all
/// else the same it tells whether a judge is asked for.
pub proof fn law_keys_do_not_hang_on_tags(a: GSig, b: GSig)
    requires
        a.roles == b.roles,
        a.edges == b.edges,
        a.gates == b.gates,
    ensures
        hyper_sig::dag_key_of(a) == hyper_sig::dag_key_of(b) <==> a.require_judge
            == b.require_judge,
        a.hypergraph_key is None ==> hyper_sig::structure_key_of(a) == hyper_sig::dag_key_of(a),
        a.hypergraph_key is Some ==> hyper_sig::structure_key_of(a) == a.hypergraph_key->0,
{
    reveal_strlit("1");
    reveal_strlit("0");
    let x = hyper_sig::dag_key_of(a);
    let y = hyper_sig::dag_key_of(b);
    assert(x.last() == (if a.require_judge {
        '1'
    } else {
        '0'
    }));
    assert(y.last() == (if b.require_judge {
        '1'
    } else {
        '0'
    }));
}

/// The key of a shape does not hang on the order of its edges and gates.
pub proof fn law_keys_do_not_hang_on_the_order_of_edges(a: GSig, b: GSig)
    requires
        a.roles == b.roles,
        a.require_judge == b.require_judge,
        a.edges.to_multiset() == b.edges.to_multiset(),
        a.gates.to_multiset() == b.gates.to_multiset(),
    ensures
        hyper_sig::dag_key_of(a) == hyper_sig::dag_key_of(b),
{
    lemma_same_sorted(a.edges, b.edges);
    lemma_same_sorted(a.gates, b.gates);
}

proof fn lemma_same_sorted(s: Seq<(usize, usize)>, t: Seq<(usize, usize)>)
    requires
        s.to_multiset() == t.to_multiset(),
    ensures
        order::sorted_pairs(s) == order::sorted_pairs(t),
{
    let le = |a: (usize, usize), b: (usize, usize)| order::pair_le(a, b);
    assert(vstd::relations::total_ordering(le));
    s.lemma_sort_by_ensures(le);
    t.lemma_sort_by_ensures(le);
    vstd::seq_lib::lemma_sorted_unique(s.sort_by(le), t.sort_by(le), le);
}

} // verus!
