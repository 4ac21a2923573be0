//! What holds of every hypergraph and its projection.

use crate::hyper;
use crate::hyper::{GHedge, GSpec, GStage, GVertex, HedgeKind};
use crate::hyper_parse;
use crate::hyper_parse::GDraft;
use crate::hyper_project;
use vstd::prelude::*;

verus! {

/// A gate only holds back those who stand behind it: it hands them nothing, so
/// that a further gate leaves the inputs of every vertex but its judge alone.
pub proof fn law_gate_hands_nothing_on(hs: Seq<GHedge>, g: GHedge, v: Seq<char>)
    requires
        g.kind == HedgeKind::Gate,
        g.judge != Some(v),
    ensures
        hyper_project::inputs(hs.push(g), v) == hyper_project::inputs(hs, v),
        g.consumers.contains(v) ==> hyper_project::gate_on(
            hs.push(g),
            v,
            hs.len() as int + 1,
        ) == g.judge,
{
    let a = hyper_project::inputs(hs.push(g), v);
    let b = hyper_project::inputs(hs, v);
    assert forall|u: Seq<char>| a.contains(u) <==> b.contains(u) by {
        if a.contains(u) {
            let i = choose|i: int|
                0 <= i < hs.push(g).len() && #[trigger] hyper_project::feeds(hs.push(g)[i], u, v);
            if i < hs.len() {
                assert(hyper_project::feeds(hs[i], u, v));
            }
        }
        if b.contains(u) {
            let i = choose|i: int| 0 <= i < hs.len() && #[trigger] hyper_project::feeds(hs[i], u, v);
            assert(hyper_project::feeds(hs.push(g)[i], u, v));
        }
    }
    assert(a =~= b);
}

/// The stages are the vertices that are not suppressed.
proof fn lemma_stages(vs: Seq<GVertex>, hs: Seq<GHedge>, n: int)
    requires
        0 <= n <= vs.len(),
    ensures
        forall|k: int|
            0 <= k < hyper_project::stages_upto(vs, hs, n).len() ==> !hyper_project::suppressed(
                hs,
                (#[trigger] hyper_project::stages_upto(vs, hs, n)[k]).name,
            ),
        forall|i: int|
            0 <= i < n && !hyper_project::suppressed(hs, (#[trigger] vs[i]).name) ==> exists|k: int|
                0 <= k < hyper_project::stages_upto(vs, hs, n).len()
                    && #[trigger] hyper_project::stages_upto(vs, hs, n)[k]
                    == hyper_project::stage_of(vs[i], hs),
    decreases n,
{
    if n > 0 {
        lemma_stages(vs, hs, n - 1);
        let before = hyper_project::stages_upto(vs, hs, n - 1);
        let now = hyper_project::stages_upto(vs, hs, n);
        assert forall|k: int| 0 <= k < now.len() implies !hyper_project::suppressed(
            hs,
            (#[trigger] now[k]).name,
        ) by {
            if k < before.len() {
                assert(now[k] == before[k]);
            }
        }
        assert forall|i: int|
            0 <= i < n && !hyper_project::suppressed(hs, (#[trigger] vs[i]).name) implies exists|
            k: int,
        |
            0 <= k < now.len() && #[trigger] now[k] == hyper_project::stage_of(vs[i], hs) by {
            if i < n - 1 {
                let k = choose|k: int|
                    0 <= k < before.len() && #[trigger] before[k] == hyper_project::stage_of(
                        vs[i],
                        hs,
                    );
                assert(now[k] == before[k]);
            } else {
                assert(now[before.len() as int] == hyper_project::stage_of(vs[i], hs));
            }
        }
    }
}

/// A vertex that is only an alternative in a choice is no stage, and every
/// other vertex is one.
pub proof fn law_alternatives_are_no_stages(vs: Seq<GVertex>, hs: Seq<GHedge>, i: int)
    requires
        hyper_project::projection(vs, hs) is Ok,
        0 <= i < vs.len(),
    ensures
        hyper_project::suppressed(hs, vs[i].name) <==> !hyper_project::stage_names(
            hyper_project::projection(vs, hs)->Ok_0,
        ).contains(vs[i].name),
{
    let ss = hyper_project::projection(vs, hs)->Ok_0;
    let names = hyper_project::stage_names(ss);
    lemma_stages(vs, hs, vs.len() as int);
    if hyper_project::suppressed(hs, vs[i].name) {
        if names.contains(vs[i].name) {
            let k = choose|k: int| 0 <= k < names.len() && names[k] == vs[i].name;
            assert(ss[k].name == vs[i].name);
        }
    } else {
        let k = choose|k: int|
            0 <= k < ss.len() && #[trigger] ss[k] == hyper_project::stage_of(vs[i], hs);
        assert(names[k] == vs[i].name);
    }
}

/// Where no name is a stranger, all of them are known.
proof fn lemma_no_stranger(names: Seq<Seq<char>>, ms: Seq<Seq<char>>, i: int)
    requires
        0 <= i <= ms.len(),
        hyper_project::stranger(names, ms, i) is None,
    ensures
        forall|k: int| i <= k < ms.len() ==> names.contains(#[trigger] ms[k]),
    decreases ms.len() - i,
{
    if i < ms.len() {
        lemma_no_stranger(names, ms, i + 1);
    }
}

/// Where no stage is faulty, all of them refer to stages.
proof fn lemma_no_fault(names: Seq<Seq<char>>, ss: Seq<GStage>, i: int)
    requires
        0 <= i <= ss.len(),
        hyper_project::stages_fault(names, ss, i) is None,
    ensures
        forall|k: int, q: int|
            i <= k < ss.len() && 0 <= q < ss[k].after.len() ==> names.contains(
                #[trigger] ss[k].after[q],
            ),
        forall|k: int|
            i <= k < ss.len() && (#[trigger] ss[k]).gated_by is Some ==> names.contains(
                ss[k].gated_by->0,
            ),
    decreases ss.len() - i,
{
    if i < ss.len() {
        lemma_no_fault(names, ss, i + 1);
        lemma_no_stranger(names, ss[i].after, 0);
        assert forall|k: int, q: int|
            i <= k < ss.len() && 0 <= q < ss[k].after.len() implies names.contains(
            #[trigger] ss[k].after[q],
        ) by {
        }
    }
}

/// Where no vertex is repeated, all have names of their own.
proof fn lemma_no_repeat(vs: Seq<GVertex>, i: int)
    requires
        0 <= i <= vs.len(),
        hyper_project::repeated(vs, i) is None,
    ensures
        forall|a: int, b: int|
            0 <= a < b < vs.len() && i <= b ==> (#[trigger] vs[a]).name != (#[trigger] vs[b]).name,
    decreases vs.len() - i,
{
    if i < vs.len() {
        lemma_no_repeat(vs, i + 1);
        let names = hyper_project::vertex_names(vs).take(i);
        assert forall|a: int, b: int| 0 <= a < b < vs.len() && i <= b implies (#[trigger] vs[a]).name
            != (#[trigger] vs[b]).name by {
            if b == i {
                assert(names[a] == vs[a].name);
            }
        }
    }
}

/// A hypergraph that was read is closed: its vertices have names of their own,
/// it has a stage, its stages wait for stages and stand behind stages alone,
/// what it delivers is a stage, and every stage has at least as many ways to do
/// its work as the hypergraph asks.
pub proof fn law_read_hypergraph_is_closed(input: Seq<char>)
    requires
        hyper_parse::hypergraph(input) is Ok,
    ensures
        ({
            let g = hyper_parse::hypergraph(input)->Ok_0;
            let names = hyper_project::stage_names(g.stages);
            &&& g.stages.len() > 0
            &&& forall|a: int, b: int|
                0 <= a < b < g.vertices.len() ==> (#[trigger] g.vertices[a]).name != (
                #[trigger] g.vertices[b]).name
            &&& forall|k: int, q: int|
                0 <= k < g.stages.len() && 0 <= q < g.stages[k].after.len() ==> names.contains(
                    #[trigger] g.stages[k].after[q],
                )
            &&& forall|k: int|
                0 <= k < g.stages.len() && (#[trigger] g.stages[k]).gated_by is Some
                    ==> names.contains(g.stages[k].gated_by->0)
            &&& forall|k: int|
                0 <= k < g.stages.len() ==> (#[trigger] g.stages[k]).min_impls
                    >= hyper_parse::floor_of(g.require) >= 1
            &&& g.deliver is Some ==> names.contains(g.deliver->0)
        }),
{
    let d = hyper_parse::with_lines(
        hyper_parse::blank_draft(),
        crate::text::lines_spec(input),
        0,
    )->Ok_0;
    let g = hyper_parse::hypergraph(input)->Ok_0;
    let names = hyper_project::stage_names(g.stages);
    assert(hyper_parse::finished(d) == Ok::<GSpec, hyper::GError>(g));
    lemma_no_repeat(g.vertices, 0);
    lemma_no_fault(names, g.stages, 0);
}

} // verus!
