//! What holds of every shape: its order, and what stands where in it.

use crate::ast;
use crate::ast::Proc;
use crate::hyper;
use crate::hyper::{GSpec, GStage};
use crate::hyper_sig;
use crate::topo;
use vstd::prelude::*;

verus! {

/// The edges of stages in a line come from the one before or from named inputs.
proof fn lemma_lined(ss: Seq<GStage>, order: Seq<usize>, k: int, e: (usize, usize))
    requires
        ss.len() <= usize::MAX,
        order.len() <= usize::MAX,
        0 <= k <= order.len(),
        order.no_duplicates(),
        forall|c: usize| c < ss.len() ==> #[trigger] order.contains(c),
        hyper_sig::lined_edges(ss, order, k).contains(e),
    ensures
        e.0 + 1 == e.1 || exists|j: int|
            0 <= j < hyper_sig::named_edges(ss, ss.len() as int).len() && topo::moved(
                #[trigger] hyper_sig::named_edges(ss, ss.len() as int)[j],
                order,
            ) == e,
    decreases k,
{
    let named = hyper_sig::named_edges(ss, ss.len() as int);
    let now = hyper_sig::lined_edges(ss, order, k);
    if k > 0 {
        let before = hyper_sig::lined_edges(ss, order, k - 1);
        let i = choose|i: int| 0 <= i < now.len() && now[i] == e;
        if i < before.len() {
            assert(before[i] == e);
            lemma_lined(ss, order, k - 1, e);
        } else if ss[order[k - 1] as int].after.len() > 0 {
            let more = topo::pairs_at(named, true, order, order[k - 1], named.len() as int);
            assert(more[i - before.len()] == e);
            topo::lemma_pairs_at(named, true, order, order[k - 1], named.len() as int, e);
        }
    }
}

/// The stages of a shape are in topological order: unless the inputs that the
/// stages name close a ring, every edge leads to a later place.
pub proof fn law_stages_are_in_topological_order(g: GSpec, k: int)
    requires
        g.stages.len() <= usize::MAX,
        topo::acyclic(hyper_sig::named_edges(g.stages, g.stages.len() as int)),
        0 <= k < hyper_sig::hyper_sig(g).edges.len(),
    ensures
        hyper_sig::hyper_sig(g).edges[k].0 < hyper_sig::hyper_sig(g).edges[k].1
            < g.stages.len(),
{
    let ss = g.stages;
    let n = ss.len() as int;
    let order = hyper_sig::stage_order(ss);
    let edges = hyper_sig::hyper_sig(g).edges;
    let e = edges[k];
    let declared = hyper_sig::stage_edges(ss, n);
    let named = hyper_sig::named_edges(ss, n);
    hyper_sig::lemma_stage_places(ss, n);
    topo::law_every_place_once(n, declared);
    topo::law_every_place_once(n, named);
    assert(edges.contains(e));
    if topo::acyclic(declared) {
        topo::law_pairs_stay(declared, true, order, e);
        let j = choose|j: int|
            0 <= j < declared.len() && topo::moved(#[trigger] declared[j], order) == e;
        topo::law_edges_go_up(n, declared, j);
    } else {
        lemma_lined(ss, order, order.len() as int, e);
        lemma_lined_within(ss, order, order.len() as int, e);
        if e.0 + 1 != e.1 {
            let j = choose|j: int|
                0 <= j < named.len() && topo::moved(#[trigger] named[j], order) == e;
            topo::law_edges_go_up(n, named, j);
        }
    }
}

/// The edges of stages in a line run between them.
proof fn lemma_lined_within(ss: Seq<GStage>, order: Seq<usize>, k: int, e: (usize, usize))
    requires
        ss.len() <= usize::MAX,
        order.len() == ss.len(),
        0 <= k <= order.len(),
        order.no_duplicates(),
        forall|c: usize| c < ss.len() ==> #[trigger] order.contains(c),
        hyper_sig::lined_edges(ss, order, k).contains(e),
    ensures
        e.1 < order.len(),
    decreases k,
{
    let named = hyper_sig::named_edges(ss, ss.len() as int);
    let now = hyper_sig::lined_edges(ss, order, k);
    if k > 0 {
        let before = hyper_sig::lined_edges(ss, order, k - 1);
        let i = choose|i: int| 0 <= i < now.len() && now[i] == e;
        if i < before.len() {
            assert(before[i] == e);
            lemma_lined_within(ss, order, k - 1, e);
        } else if ss[order[k - 1] as int].after.len() > 0 {
            let more = topo::pairs_at(named, true, order, order[k - 1], named.len() as int);
            assert(more[i - before.len()] == e);
            topo::lemma_pairs_at(named, true, order, order[k - 1], named.len() as int, e);
            let j = choose|j: int|
                0 <= j < named.len() && topo::end(#[trigger] named[j], true) == order[k - 1]
                    && topo::moved(named[j], order) == e;
            assert(order.contains(named[j].1)) by {
                assert(order[k - 1] == named[j].1);
            }
        }
    }
}

/// The roles, the tags, the gates and the edges of a shape follow one order,
/// which holds every stage once: where a stage stands, there stand its role and
/// its tags, and a gate or an edge of the stages is one between their places.
pub proof fn law_a_shape_follows_one_order(g: GSpec, i: int, e: (usize, usize))
    requires
        g.stages.len() <= usize::MAX,
        0 <= i < g.stages.len(),
    ensures
        ({
            let ss = g.stages;
            let n = ss.len() as int;
            let order = hyper_sig::stage_order(ss);
            let sig = hyper_sig::hyper_sig(g);
            let declared = hyper_sig::stage_edges(ss, n);
            let gates = hyper_sig::stage_gates(ss, n);
            &&& order.no_duplicates()
            &&& order.len() == n
            &&& sig.roles.len() == n
            &&& sig.tags.len() == n
            &&& order[i] < n
            &&& sig.roles[i] == hyper::role_name(ss[order[i] as int].role)
            &&& sig.tags[i] == ss[order[i] as int].tags
            &&& sig.gates.contains(e) <==> exists|j: int|
                0 <= j < gates.len() && topo::moved(#[trigger] gates[j], order) == e
            &&& topo::acyclic(declared) ==> (sig.edges.contains(e) <==> exists|j: int|
                0 <= j < declared.len() && topo::moved(#[trigger] declared[j], order) == e)
        }),
{
    let ss = g.stages;
    let n = ss.len() as int;
    let order = hyper_sig::stage_order(ss);
    let declared = hyper_sig::stage_edges(ss, n);
    let gates = hyper_sig::stage_gates(ss, n);
    hyper_sig::lemma_stage_places(ss, n);
    topo::law_every_place_once(n, declared);
    topo::law_every_place_once(n, hyper_sig::named_edges(ss, n));
    topo::law_pairs_stay(gates, false, order, e);
    topo::law_pairs_stay(declared, true, order, e);
    assert(order[i] < n);
}

/// Stages that are declared in topological order stay as they are declared.
pub proof fn law_ordered_stages_stay(g: GSpec)
    requires
        g.stages.len() <= usize::MAX,
        forall|k: int|
            0 <= k < hyper_sig::stage_edges(g.stages, g.stages.len() as int).len() ==> (
            #[trigger] hyper_sig::stage_edges(g.stages, g.stages.len() as int)[k]).0
                < hyper_sig::stage_edges(g.stages, g.stages.len() as int)[k].1,
    ensures
        hyper_sig::stage_order(g.stages) == Seq::new(g.stages.len(), |i: int| i as usize),
        hyper_sig::hyper_sig(g).roles == g.stages.map_values(
            |s: GStage| hyper::role_name(s.role),
        ),
        hyper_sig::hyper_sig(g).tags == g.stages.map_values(|s: GStage| s.tags),
{
    let n = g.stages.len() as int;
    let declared = hyper_sig::stage_edges(g.stages, n);
    hyper_sig::lemma_stage_places(g.stages, n);
    let rank = |c: usize| c as nat;
    assert(topo::ranked(declared, rank));
    topo::law_sorted_stays(n, declared);
    let sig = hyper_sig::hyper_sig(g);
    assert(sig.roles =~= g.stages.map_values(|s: GStage| hyper::role_name(s.role)));
    assert(sig.tags =~= g.stages.map_values(|s: GStage| s.tags));
}

/// The procs of a shape are in topological order: unless their data close a
/// ring, every edge leads to a later place.
pub proof fn law_procs_are_in_topological_order(procs: Seq<Proc>, k: int)
    requires
        procs.len() <= usize::MAX,
        ({
            let ws = hyper_sig::workers(procs, procs.len() as int);
            topo::acyclic(hyper_sig::worker_edges(procs, ws, ws.len() as int))
        }),
        0 <= k < hyper_sig::pipeline_sig(procs).edges.len(),
    ensures
        hyper_sig::pipeline_sig(procs).edges[k].0 < hyper_sig::pipeline_sig(procs).edges[k].1
            < hyper_sig::workers(procs, procs.len() as int).len(),
{
    let ws = hyper_sig::workers(procs, procs.len() as int);
    let n = ws.len() as int;
    lemma_worker_count(procs, procs.len() as int);
    let declared = hyper_sig::worker_edges(procs, ws, n);
    let order = hyper_sig::worker_order(procs, ws);
    let edges = hyper_sig::pipeline_sig(procs).edges;
    let e = edges[k];
    hyper_sig::lemma_worker_places(procs, ws, n);
    topo::law_every_place_once(n, declared);
    assert(edges.contains(e));
    topo::law_pairs_stay(declared, true, order, e);
    let j = choose|j: int| 0 <= j < declared.len() && topo::moved(#[trigger] declared[j], order) == e;
    topo::law_edges_go_up(n, declared, j);
}

/// There are no more workers than procs.
proof fn lemma_worker_count(procs: Seq<Proc>, n: int)
    requires
        0 <= n <= procs.len(),
    ensures
        hyper_sig::workers(procs, n).len() <= n,
    decreases n,
{
    if n > 0 {
        lemma_worker_count(procs, n - 1);
    }
}

/// The roles, the tags, the gates and the edges of a pipeline's shape follow one
/// order, which holds every proc that does work once.
pub proof fn law_a_pipeline_shape_follows_one_order(procs: Seq<Proc>, i: int, e: (usize, usize))
    requires
        procs.len() <= usize::MAX,
        0 <= i < hyper_sig::workers(procs, procs.len() as int).len(),
    ensures
        ({
            let ws = hyper_sig::workers(procs, procs.len() as int);
            let n = ws.len() as int;
            let order = hyper_sig::worker_order(procs, ws);
            let sig = hyper_sig::pipeline_sig(procs);
            let declared = hyper_sig::worker_edges(procs, ws, n);
            let gates = hyper_sig::worker_gates(procs, ws, n);
            let p = procs[ws[order[i] as int] as int];
            &&& order.no_duplicates()
            &&& order.len() == n
            &&& sig.roles.len() == n
            &&& sig.tags.len() == n
            &&& order[i] < n
            &&& sig.roles[i] == hyper::role_name(hyper_sig::proc_role(p))
            &&& sig.tags[i] == ast::plan_tags(p.plan@)
            &&& sig.gates.contains(e) <==> exists|j: int|
                0 <= j < gates.len() && topo::moved(#[trigger] gates[j], order) == e
            &&& sig.edges.contains(e) <==> exists|j: int|
                0 <= j < declared.len() && topo::moved(#[trigger] declared[j], order) == e
        }),
{
    let ws = hyper_sig::workers(procs, procs.len() as int);
    let n = ws.len() as int;
    lemma_worker_count(procs, procs.len() as int);
    let order = hyper_sig::worker_order(procs, ws);
    let declared = hyper_sig::worker_edges(procs, ws, n);
    let gates = hyper_sig::worker_gates(procs, ws, n);
    hyper_sig::lemma_worker_places(procs, ws, n);
    topo::law_every_place_once(n, declared);
    topo::law_pairs_stay(gates, false, order, e);
    topo::law_pairs_stay(declared, true, order, e);
    assert(order[i] < n);
}

} // verus!
