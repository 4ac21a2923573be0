//! What is made of the text of a hypergraph: its draft, its stages, its edges and
//! the skeleton of a pipeline.

use crate::hyper;
use crate::hyper::{GHedge, GSpec, GStage, GVertex, HedgeKind, HyperRequire, HyperRole};
use crate::hyper_args;
use crate::hyper_emit;
use crate::hyper_graph;
use crate::hyper_parse;
use crate::hyper_parse::GDraft;
use crate::hyper_project;
use crate::order;
use crate::text;
use crate::text_laws;
use vstd::prelude::*;

verus! {

// ── Lines ──

/// A line without anything before its comment says nothing; a header names the
/// hypergraph; any other line must be a directive.
pub proof fn law_lines_are_headers_or_directives(d: GDraft, raw: Seq<char>)
    ensures
        ({
            let line = text::trimmed(hyper_args::uncommented(raw));
            let head = "HyperGraph("@.is_prefix_of(line) || "Hyper("@.is_prefix_of(line);
            let r = hyper_parse::with_line(d, raw);
            &&& line.len() == 0 ==> r == Ok::<_, Seq<char>>(d)
            &&& line.len() > 0 && !head && line[0] != '.' ==> r is Err
            &&& line.len() > 0 && !head && line[0] == '.' ==> (match hyper_args::directive(line) {
                Ok(wa) => r == hyper_parse::with_directive(d, wa.0, wa.1),
                Err(m) => r is Err,
            })
            &&& line.len() > 0 && head ==> (r matches Ok(e) ==> e.name is Some && e == (GDraft {
                name: e.name,
                ..d
            }))
        }),
{
}

/// A header gives the name between its quotes.
pub proof fn law_headers_name_the_hypergraph(
    d: GDraft,
    raw: Seq<char>,
    rest: Seq<char>,
    n: Seq<char>,
)
    requires
        text::trimmed(hyper_args::uncommented(raw)) == "HyperGraph("@ + rest || text::trimmed(
            hyper_args::uncommented(raw),
        ) == "Hyper("@ + rest,
        hyper_args::first_quoted(rest) == Some(n),
    ensures
        hyper_parse::with_line(d, raw) == Ok::<_, Seq<char>>((GDraft { name: Some(n), ..d })),
{
    reveal_strlit("HyperGraph(");
    reveal_strlit("Hyper(");
    let line = text::trimmed(hyper_args::uncommented(raw));
    text_laws::law_beginnings_come_off("HyperGraph("@, rest);
    text_laws::law_beginnings_come_off("Hyper("@, rest);
    if line == "Hyper("@ + rest {
        if "HyperGraph("@.is_prefix_of(line) {
            assert(line.subrange(0, 11)[5] == "HyperGraph("@[5]);
            assert(line[5] == "Hyper("@[5]);
        }
    }
}

proof fn lemma_words(w: Seq<char>)
    ensures
        w == "goal"@ ==> w != "require"@ && w != "vertex"@ && w != "v"@ && w != "hedge"@ && w
            != "edge"@ && w != "hyperedge"@ && w != "stage"@ && w != "deliver"@,
        w == "require"@ ==> w != "vertex"@ && w != "v"@ && w != "hedge"@ && w != "edge"@ && w
            != "hyperedge"@ && w != "stage"@ && w != "deliver"@,
        w == "vertex"@ || w == "v"@ ==> w != "hedge"@ && w != "edge"@ && w != "hyperedge"@ && w
            != "stage"@ && w != "deliver"@,
        w == "hedge"@ || w == "edge"@ || w == "hyperedge"@ ==> w != "stage"@ && w != "deliver"@,
        w == "stage"@ ==> w != "deliver"@,
{
    reveal_strlit("goal");
    reveal_strlit("require");
    reveal_strlit("vertex");
    reveal_strlit("v");
    reveal_strlit("hedge");
    reveal_strlit("edge");
    reveal_strlit("hyperedge");
    reveal_strlit("stage");
    reveal_strlit("deliver");
    assert("goal"@[0] == 'g' && "require"@[0] == 'r' && "vertex"@[0] == 'v' && "v"@[0] == 'v'
        && "hedge"@[0] == 'h' && "edge"@[0] == 'e' && "hyperedge"@[0] == 'h' && "stage"@[0] == 's'
        && "deliver"@[0] == 'd');
}

/// A directive adds what it stands for and leaves the rest as it is; one that is
/// not known is refused.
pub proof fn law_directives_add_what_they_name(d: GDraft, w: Seq<char>, args: Seq<char>)
    ensures
        ({
            let r = hyper_parse::with_directive(d, w, args);
            &&& w == "goal"@ ==> (match hyper_args::first_quoted(args) {
                Some(g) => r == Ok::<_, Seq<char>>((GDraft { goal: g, ..d })),
                None => r is Err,
            })
            &&& w == "require"@ ==> (match hyper_args::required(d.require, args) {
                Ok(q) => r == Ok::<_, Seq<char>>((GDraft { require: q, ..d })),
                Err(m) => r is Err,
            })
            &&& w == "vertex"@ || w == "v"@ ==> (match hyper_args::vertex_result(args) {
                Ok(v) => r == Ok::<_, Seq<char>>((GDraft { vertices: d.vertices.push(v), ..d })),
                Err(m) => r is Err,
            })
            &&& w == "hedge"@ || w == "edge"@ || w == "hyperedge"@ ==> (
            match hyper_args::hedge_result(args) {
                Ok(h) => r == Ok::<_, Seq<char>>((GDraft { hedges: d.hedges.push(h), ..d })),
                Err(m) => r is Err,
            })
            &&& w == "deliver"@ ==> (match hyper_args::deliver_result(args) {
                Ok(t) => r == Ok::<_, Seq<char>>((GDraft { deliver: Some(t), ..d })),
                Err(m) => r is Err,
            })
            &&& w == "stage"@ ==> (match hyper_args::stage_result(args) {
                Ok(s) => r matches Ok(e) && e.stages == d.stages.push(s) && e == (GDraft {
                    stages: e.stages,
                    vertices: e.vertices,
                    ..d
                }) && ((exists|i: int|
                    0 <= i < d.vertices.len() && (#[trigger] d.vertices[i]).name == s.name)
                    ==> e.vertices == d.vertices) && ((forall|i: int|
                    0 <= i < d.vertices.len() ==> (#[trigger] d.vertices[i]).name != s.name)
                    ==> e.vertices == d.vertices.push(
                    (GVertex { name: s.name, role: s.role, tags: s.tags }),
                )),
                Err(m) => r is Err,
            })
            &&& w != "goal"@ && w != "require"@ && w != "vertex"@ && w != "v"@ && w != "hedge"@ && w
                != "edge"@ && w != "hyperedge"@ && w != "stage"@ && w != "deliver"@ ==> r is Err
        }),
{
    lemma_words(w);
    if w == "stage"@ {
        match hyper_args::stage_result(args) {
            Ok(s) => {
                let names = hyper_project::vertex_names(d.vertices);
                if exists|i: int|
                    0 <= i < d.vertices.len() && (#[trigger] d.vertices[i]).name == s.name {
                    let i = choose|i: int|
                        0 <= i < d.vertices.len() && (#[trigger] d.vertices[i]).name == s.name;
                    assert(names[i] == s.name);
                }
                if names.contains(s.name) {
                    let i = choose|i: int| 0 <= i < names.len() && names[i] == s.name;
                    assert(d.vertices[i].name == s.name);
                }
            },
            Err(m) => {},
        }
    }
}

proof fn lemma_lines(d: GDraft, lines: Seq<Seq<char>>, i: int)
    requires
        0 <= i <= lines.len(),
    ensures
        hyper_parse::with_lines(d, lines, i) matches Err(e) ==> i < e.line <= lines.len(),
    decreases lines.len() - i,
{
    if i < lines.len() {
        match hyper_parse::with_line(d, lines[i]) {
            Ok(n) => {
                lemma_lines(n, lines, i + 1);
            },
            Err(m) => {},
        }
    }
}

/// Lines are read one after the other, and a complaint names the first bad line,
/// counted from one.
pub proof fn law_the_first_bad_line_is_named(d: GDraft, lines: Seq<Seq<char>>, i: int)
    requires
        0 <= i < lines.len(),
    ensures
        hyper_parse::with_line(d, lines[i]) matches Ok(e) ==> hyper_parse::with_lines(d, lines, i)
            == hyper_parse::with_lines(e, lines, i + 1),
        hyper_parse::with_line(d, lines[i]) is Err ==> (hyper_parse::with_lines(
            d,
            lines,
            i,
        ) matches Err(e) && e.line == i + 1),
        hyper_parse::with_lines(d, lines, i) matches Err(e) ==> 1 <= e.line <= lines.len(),
        hyper_parse::with_lines(d, lines, lines.len() as int) == Ok::<
            _,
            hyper::GError,
        >(d),
{
    lemma_lines(d, lines, i);
}

/// Before the first line nothing is known but that every stage needs one way.
pub proof fn law_drafts_start_empty()
    ensures
        ({
            let d = hyper_parse::blank_draft();
            &&& d.name is None && d.deliver is None && d.goal.len() == 0
            &&& d.vertices.len() == 0 && d.hedges.len() == 0 && d.stages.len() == 0
            &&& !d.require.judge && d.require.min_impls == 1
        }),
{
}

/// A hypergraph keeps what its draft says; its edges are those that were written,
/// or those of its stages where none were; and every stage has as many ways as the
/// whole asks for.
pub proof fn law_hypergraphs_keep_their_draft(d: GDraft)
    requires
        hyper_parse::finished(d) is Ok,
    ensures
        d.name == Some(hyper_parse::finished(d)->Ok_0.name),
        hyper_parse::finished(d)->Ok_0.goal == d.goal,
        hyper_parse::finished(d)->Ok_0.require == d.require,
        hyper_parse::finished(d)->Ok_0.vertices == d.vertices,
        hyper_parse::finished(d)->Ok_0.deliver == d.deliver,
        d.vertices.len() > 0,
        d.hedges.len() > 0 ==> hyper_parse::finished(d)->Ok_0.hedges == d.hedges,
        d.hedges.len() == 0 && d.stages.len() > 0 ==> hyper_parse::finished(d)->Ok_0.hedges
            == hyper_graph::edges_of_stages(d.stages),
        hyper_parse::finished(d)->Ok_0.stages.len() > 0,
        hyper_project::projection(d.vertices, hyper_parse::finished(d)->Ok_0.hedges) is Ok,
        hyper_parse::finished(d)->Ok_0.stages.len() == hyper_project::projection(
            d.vertices,
            hyper_parse::finished(d)->Ok_0.hedges,
        )->Ok_0.len(),
        forall|k: int|
            0 <= k < hyper_parse::finished(d)->Ok_0.stages.len() ==> lifted(
                d.require,
                hyper_project::projection(
                    d.vertices,
                    hyper_parse::finished(d)->Ok_0.hedges,
                )->Ok_0[k],
                #[trigger] hyper_parse::finished(d)->Ok_0.stages[k],
            ),
        d.require.judge ==> (exists|i: int|
            0 <= i < d.vertices.len() && (#[trigger] d.vertices[i]).role == HyperRole::Judge) || (
        exists|i: int|
            0 <= i < hyper_parse::finished(d)->Ok_0.hedges.len() && (
            #[trigger] hyper_parse::finished(d)->Ok_0.hedges[i]).kind == HedgeKind::Gate),
{
    let g = hyper_parse::finished(d)->Ok_0;
    let hs = hyper_parse::draft_hedges(d);
    let ps = hyper_project::projection(d.vertices, hs)->Ok_0;
    let floor = hyper_parse::floor_of(d.require);
    assert(g.hedges == hs);
    assert(g.stages == hyper_parse::raised(ps, floor));
    assert forall|k: int| 0 <= k < g.stages.len() implies lifted(
        d.require,
        ps[k],
        #[trigger] g.stages[k],
    ) by {
        let p = ps[k];
        assert(g.stages[k] == (GStage {
            min_impls: if p.min_impls < floor {
                floor
            } else {
                p.min_impls
            },
            ..p
        }));
    }
    if d.require.judge {
        assert(hyper_parse::judged(d.vertices, hs));
    }
}

/// Whether `t` is the stage `s` with as many ways as the whole asks for and at least
/// one, and no more than asked for.
pub open spec fn lifted(r: HyperRequire, s: GStage, t: GStage) -> bool {
    &&& t.min_impls >= 1
    &&& t.min_impls >= r.min_impls
    &&& t.min_impls >= s.min_impls
    &&& t.min_impls == s.min_impls || t.min_impls == r.min_impls || t.min_impls == 1
    &&& t.name == s.name && t.role == s.role && t.tags == s.tags && t.after == s.after
        && t.gated_by == s.gated_by
}

// ── Faults ──

proof fn lemma_stranger(names: Seq<Seq<char>>, ms: Seq<Seq<char>>, i: int)
    requires
        0 <= i <= ms.len(),
    ensures
        hyper_project::stranger(names, ms, i) is None <==> forall|k: int|
            i <= k < ms.len() ==> names.contains(#[trigger] ms[k]),
    decreases ms.len() - i,
{
    if i < ms.len() && names.contains(ms[i]) {
        lemma_stranger(names, ms, i + 1);
    }
}

/// Whether an edge is whole: a gate has a judge and consumers, a chain and a choice
/// two members, a bundle one, and all of them are among the names.
pub open spec fn sound(names: Seq<Seq<char>>, h: GHedge) -> bool {
    if h.kind == HedgeKind::Gate {
        h.judge is Some && h.consumers.len() > 0 && names.contains(h.judge->0) && (forall|k: int|
            0 <= k < h.producers.len() ==> names.contains(#[trigger] h.producers[k])) && (forall|
            k: int,
        |
            0 <= k < h.consumers.len() ==> names.contains(#[trigger] h.consumers[k]))
    } else {
        h.members.len() >= (if h.kind == HedgeKind::Bundle {
            1int
        } else {
            2
        }) && forall|k: int| 0 <= k < h.members.len() ==> names.contains(#[trigger] h.members[k])
    }
}

/// An edge has a fault exactly where it is not whole.
pub proof fn law_edges_are_whole(names: Seq<Seq<char>>, h: GHedge)
    ensures
        hyper_project::hedge_fault(names, h) is None <==> sound(names, h),
{
    lemma_stranger(names, h.members, 0);
    if h.kind == HedgeKind::Gate && h.judge is Some {
        let j = h.judge->0;
        let all = h.producers + seq![j] + h.consumers;
        lemma_stranger(names, all, 0);
        let n = h.producers.len() as int;
        if forall|k: int| 0 <= k < all.len() ==> names.contains(#[trigger] all[k]) {
            assert(all[n] == j);
            assert forall|k: int| 0 <= k < h.producers.len() implies names.contains(
                #[trigger] h.producers[k],
            ) by {
                assert(all[k] == h.producers[k]);
            }
            assert forall|k: int| 0 <= k < h.consumers.len() implies names.contains(
                #[trigger] h.consumers[k],
            ) by {
                assert(all[n + 1 + k] == h.consumers[k]);
            }
        }
        if sound(names, h) {
            assert forall|k: int| 0 <= k < all.len() implies names.contains(#[trigger] all[k]) by {
                if k < n {
                    assert(all[k] == h.producers[k]);
                } else if k > n {
                    assert(all[k] == h.consumers[k - n - 1]);
                }
            }
        }
    }
}

proof fn lemma_hedges(names: Seq<Seq<char>>, hs: Seq<GHedge>, i: int)
    requires
        0 <= i <= hs.len(),
    ensures
        hyper_project::hedges_fault(names, hs, i) is None <==> forall|k: int|
            i <= k < hs.len() ==> sound(names, #[trigger] hs[k]),
    decreases hs.len() - i,
{
    if i < hs.len() {
        law_edges_are_whole(names, hs[i]);
        lemma_hedges(names, hs, i + 1);
        assert(hs[i] == hs[i]);
    }
}

proof fn lemma_repeated(vs: Seq<GVertex>, i: int)
    requires
        0 <= i <= vs.len(),
    ensures
        hyper_project::repeated(vs, i) is None <==> forall|a: int, b: int|
            0 <= a < b < vs.len() && i <= b ==> (#[trigger] vs[a]).name != (#[trigger] vs[b]).name,
    decreases vs.len() - i,
{
    if i < vs.len() {
        lemma_repeated(vs, i + 1);
        let t = hyper_project::vertex_names(vs).take(i);
        if t.contains(vs[i].name) {
            let a = choose|a: int| 0 <= a < t.len() && t[a] == vs[i].name;
            assert(vs[a].name == vs[i].name);
        } else {
            assert forall|a: int, b: int| 0 <= a < b < vs.len() && i <= b && (forall|c: int, e: int|
                0 <= c < e < vs.len() && i + 1 <= e ==> (#[trigger] vs[c]).name != (
                #[trigger] vs[e]).name) implies (#[trigger] vs[a]).name != (
            #[trigger] vs[b]).name by {
                if b == i {
                    assert(t[a] == vs[a].name);
                }
            }
        }
    }
}

/// A hypergraph has no fault exactly where no vertex has the name of another, every
/// edge is whole, and what is delivered is a vertex.
pub proof fn law_hypergraphs_are_whole(
    vs: Seq<GVertex>,
    hs: Seq<GHedge>,
    deliver: Option<Seq<char>>,
)
    ensures
        hyper_project::graph_fault(vs, hs, deliver) is None <==> (forall|a: int, b: int|
            0 <= a < b < vs.len() ==> (#[trigger] vs[a]).name != (#[trigger] vs[b]).name) && (
        forall|k: int|
            0 <= k < hs.len() ==> sound(hyper_project::vertex_names(vs), #[trigger] hs[k])) && (
        deliver is Some ==> hyper_project::vertex_names(vs).contains(deliver->0)),
{
    lemma_repeated(vs, 0);
    lemma_hedges(hyper_project::vertex_names(vs), hs, 0);
}

proof fn lemma_stages_fault(names: Seq<Seq<char>>, ss: Seq<GStage>, i: int)
    requires
        0 <= i <= ss.len(),
    ensures
        hyper_project::stages_fault(names, ss, i) is None <==> forall|k: int|
            i <= k < ss.len() ==> hyper_project::stage_fault(names, #[trigger] ss[k]) is None,
    decreases ss.len() - i,
{
    if i < ss.len() {
        lemma_stages_fault(names, ss, i + 1);
        assert(ss[i] == ss[i]);
    }
}

/// Stages have no fault exactly where all that they stand behind, all that judge
/// them and what is delivered are stages.
pub proof fn law_stages_stand_behind_stages(ss: Seq<GStage>, deliver: Option<Seq<char>>)
    ensures
        ({
            let names = hyper_project::stage_names(ss);
            hyper_project::refs_fault(ss, deliver) is None <==> (forall|k: int|
                0 <= k < ss.len() ==> (forall|q: int|
                    0 <= q < ss[k].after.len() ==> names.contains(#[trigger] ss[k].after[q])) && ((
                #[trigger] ss[k]).gated_by is Some ==> names.contains(ss[k].gated_by->0))) && (
            deliver is Some ==> names.contains(deliver->0))
        }),
{
    let names = hyper_project::stage_names(ss);
    lemma_stages_fault(names, ss, 0);
    assert forall|k: int| 0 <= k < ss.len() implies (hyper_project::stage_fault(
        names,
        #[trigger] ss[k],
    ) is None <==> (forall|q: int|
        0 <= q < ss[k].after.len() ==> names.contains(#[trigger] ss[k].after[q])) && (
    ss[k].gated_by is Some ==> names.contains(ss[k].gated_by->0))) by {
        lemma_stranger(names, ss[k].after, 0);
    }
}

// ── Projection ──

proof fn lemma_choices(hs: Seq<GHedge>, i: int)
    requires
        0 <= i <= hs.len(),
    ensures
        hyper_project::empty_choice(hs, i) is None <==> forall|k: int|
            i <= k < hs.len() && (#[trigger] hs[k]).kind == HedgeKind::Xor ==> hs[k].members.len()
                > 0,
        hyper_project::open_gate(hs, i) is None <==> forall|k: int|
            i <= k < hs.len() && (#[trigger] hs[k]).kind == HedgeKind::Gate ==> hs[k].judge is Some
                && hs[k].consumers.len() > 0,
    decreases hs.len() - i,
{
    if i < hs.len() {
        lemma_choices(hs, i + 1);
        assert(hs[i] == hs[i]);
    }
}

proof fn lemma_stages(vs: Seq<GVertex>, hs: Seq<GHedge>, n: int)
    requires
        0 <= n <= vs.len(),
    ensures
        hyper_project::stages_upto(vs, hs, n) == vs.take(n).filter(
            |v: GVertex| !hyper_project::suppressed(hs, v.name),
        ).map_values(|v: GVertex| hyper_project::stage_of(v, hs)),
    decreases n,
{
    let keep = |v: GVertex| !hyper_project::suppressed(hs, v.name);
    let make = |v: GVertex| hyper_project::stage_of(v, hs);
    if n > 0 {
        lemma_stages(vs, hs, n - 1);
        let t = vs.take(n - 1);
        assert(vs.take(n) =~= t.push(vs[n - 1]));
        t.lemma_filter_push(vs[n - 1], keep);
        if keep(vs[n - 1]) {
            assert(t.filter(keep).push(vs[n - 1]).map_values(make) =~= t.filter(keep).map_values(
                make,
            ).push(make(vs[n - 1])));
        }
    } else {
        reveal(Seq::filter);
        assert(vs.take(0) =~= Seq::empty());
        assert(vs.take(0).filter(keep).map_values(make) =~= Seq::empty());
    }
}

/// A hypergraph is projected exactly where every choice has members and every gate
/// a judge and consumers; its stages are its vertices that are more than an
/// alternative, in order.
pub proof fn law_vertices_become_stages(vs: Seq<GVertex>, hs: Seq<GHedge>)
    ensures
        hyper_project::projection(vs, hs) is Ok <==> (forall|k: int|
            0 <= k < hs.len() && (#[trigger] hs[k]).kind == HedgeKind::Xor ==> hs[k].members.len()
                > 0) && (forall|k: int|
            0 <= k < hs.len() && (#[trigger] hs[k]).kind == HedgeKind::Gate ==> hs[k].judge is Some
                && hs[k].consumers.len() > 0),
        hyper_project::projection(vs, hs) matches Ok(ss) ==> ss == vs.filter(
            |v: GVertex| !hyper_project::suppressed(hs, v.name),
        ).map_values(|v: GVertex| hyper_project::stage_of(v, hs)),
{
    lemma_choices(hs, 0);
    lemma_stages(vs, hs, vs.len() as int);
    assert(vs.take(vs.len() as int) =~= vs);
}

/// Whether a gate holds `v` back.
pub open spec fn holds_back(h: GHedge, v: Seq<char>) -> bool {
    h.kind == HedgeKind::Gate && h.consumers.contains(v)
}

/// Whether `v` is the slot of a choice.
pub open spec fn is_slot(h: GHedge, v: Seq<char>) -> bool {
    h.kind == HedgeKind::Xor && h.members.len() > 0 && h.members[0] == v
}

proof fn lemma_gate_on(hs: Seq<GHedge>, v: Seq<char>, n: int, k: int)
    requires
        0 <= n <= hs.len(),
        -1 <= k < n,
        forall|j: int| k < j < n ==> !#[trigger] holds_back(hs[j], v),
        k >= 0 ==> holds_back(hs[k], v),
    ensures
        hyper_project::gate_on(hs, v, n) == (if k >= 0 {
            hs[k].judge
        } else {
            None
        }),
    decreases n,
{
    if n > 0 && k < n - 1 {
        assert(!holds_back(hs[n - 1], v));
        lemma_gate_on(hs, v, n - 1, k);
    }
}

proof fn lemma_slot(hs: Seq<GHedge>, v: Seq<char>, n: int, k: int)
    requires
        0 <= n <= hs.len(),
        -1 <= k < n,
        forall|j: int| k < j < n ==> !#[trigger] is_slot(hs[j], v),
        k >= 0 ==> is_slot(hs[k], v),
    ensures
        hyper_project::slot_size(hs, v, n) == (if k >= 0 {
            hs[k].members.len()
        } else {
            1
        }),
    decreases n,
{
    if n > 0 && k < n - 1 {
        assert(!is_slot(hs[n - 1], v));
        lemma_slot(hs, v, n - 1, k);
    }
}

/// The last gate that holds a stage back judges it; without one it has no judge.
pub proof fn law_the_last_gate_judges(v: GVertex, hs: Seq<GHedge>, k: int)
    requires
        -1 <= k < hs.len(),
        forall|j: int| k < j < hs.len() ==> !#[trigger] holds_back(hs[j], v.name),
        k >= 0 ==> holds_back(hs[k], v.name),
    ensures
        k >= 0 ==> hyper_project::stage_of(v, hs).gated_by == hs[k].judge,
        k < 0 ==> hyper_project::stage_of(v, hs).gated_by is None,
{
    lemma_gate_on(hs, v.name, hs.len() as int, k);
}

/// The last choice that a stage is the slot of says how many ways it has; without
/// one it has one.
pub proof fn law_the_last_choice_counts_ways(v: GVertex, hs: Seq<GHedge>, k: int)
    requires
        -1 <= k < hs.len(),
        forall|j: int| k < j < hs.len() ==> !#[trigger] is_slot(hs[j], v.name),
        k >= 0 ==> is_slot(hs[k], v.name),
    ensures
        k >= 0 ==> hyper_project::stage_of(v, hs).min_impls == hs[k].members.len(),
        k < 0 ==> hyper_project::stage_of(v, hs).min_impls == 1,
{
    lemma_slot(hs, v.name, hs.len() as int, k);
}

/// A stage is its vertex, behind all that the edges hand to it: what stands right
/// in front of it in a chain, and the producers of the gates that it judges.
pub proof fn law_stages_follow_their_edges(v: GVertex, hs: Seq<GHedge>, u: Seq<char>)
    requires
        hyper_project::inputs(hs, v.name).finite(),
    ensures
        ({
            let s = hyper_project::stage_of(v, hs);
            &&& s.name == v.name && s.role == v.role && s.tags == v.tags
            &&& order::ascending(s.after)
            &&& s.after.contains(u) <==> exists|i: int|
                0 <= i < hs.len() && #[trigger] handed(hs[i], u, v.name)
        }),
{
    let s = hyper_project::stage_of(v, hs);
    let ins = hyper_project::inputs(hs, v.name);
    order::lemma_in_order_exists(ins);
    assert(s.after.contains(u) <==> s.after.to_set().contains(u));
    if ins.contains(u) {
        let i = choose|i: int| 0 <= i < hs.len() && #[trigger] hyper_project::feeds(hs[i], u, v.name);
        lemma_handed(hs[i], u, v.name);
        assert(handed(hs[i], u, v.name));
    }
    if exists|i: int| 0 <= i < hs.len() && #[trigger] handed(hs[i], u, v.name) {
        let i = choose|i: int| 0 <= i < hs.len() && #[trigger] handed(hs[i], u, v.name);
        lemma_handed(hs[i], u, v.name);
        assert(hyper_project::feeds(hs[i], u, v.name));
    }
}

/// Whether `u` stands right in front of `v` at the place `k` of a chain.
pub open spec fn in_front(h: GHedge, k: int, u: Seq<char>, v: Seq<char>) -> bool {
    1 <= k < h.members.len() && h.members[k - 1] == u && h.members[k] == v
}

/// Whether an edge hands something from `u` to `v`.
pub open spec fn handed(h: GHedge, u: Seq<char>, v: Seq<char>) -> bool {
    ||| h.kind == HedgeKind::Chain && exists|k: int| #[trigger] in_front(h, k, u, v)
    ||| h.kind == HedgeKind::Gate && h.judge == Some(v) && h.producers.contains(u)
}

proof fn lemma_handed(h: GHedge, u: Seq<char>, v: Seq<char>)
    ensures
        handed(h, u, v) <==> hyper_project::feeds(h, u, v),
{
    if h.kind == HedgeKind::Chain {
        if handed(h, u, v) {
            let k = choose|k: int| #[trigger] in_front(h, k, u, v);
            assert(hyper_project::adjacent(h.members, k - 1, u, v));
        }
        if hyper_project::feeds(h, u, v) {
            let k = choose|k: int| #[trigger] hyper_project::adjacent(h.members, k, u, v);
            assert(in_front(h, k + 1, u, v));
        }
    }
}

// ── Edges of stages ──

/// The names but for one.
pub open spec fn all_but(names: Seq<Seq<char>>, g: Seq<char>) -> Seq<Seq<char>> {
    names.filter(|x: Seq<char>| x != g)
}

/// Whether an edge is a stage's own gate: named after the stage, it leads to the
/// stage from all its inputs other than the one that has the verdict.
pub open spec fn is_gate_of(h: GHedge, s: GStage) -> bool {
    &&& h.kind == HedgeKind::Gate
    &&& h.name == "gate_"@ + s.name
    &&& h.judge == s.gated_by
    &&& h.consumers == seq![s.name]
    &&& h.producers == all_but(s.after, s.gated_by->0)
}

/// A gate stands in front of every stage that is judged.
pub proof fn law_judged_stages_have_a_gate(ss: Seq<GStage>, n: int, i: int)
    requires
        0 <= i < n <= ss.len(),
        ss[i].gated_by is Some,
    ensures
        exists|k: int|
            0 <= k < hyper_graph::stage_gates(ss, n).len() && #[trigger] is_gate_of(
                hyper_graph::stage_gates(ss, n)[k],
                ss[i],
            ),
    decreases n,
{
    let now = hyper_graph::stage_gates(ss, n);
    let before = hyper_graph::stage_gates(ss, n - 1);
    if i < n - 1 {
        law_judged_stages_have_a_gate(ss, n - 1, i);
        let k = choose|k: int| 0 <= k < before.len() && #[trigger] is_gate_of(before[k], ss[i]);
        assert(now[k] == before[k]);
        assert(is_gate_of(now[k], ss[i]));
    } else {
        let g = ss[i].gated_by->0;
        lemma_without(ss[i].after, g, ss[i].after.len() as int);
        assert(ss[i].after.take(ss[i].after.len() as int) =~= ss[i].after);
        let k = before.len() as int;
        assert(now[k] == hyper_graph::gate_before(ss[i], g));
        assert(is_gate_of(now[k], ss[i]));
    }
}

proof fn lemma_without(names: Seq<Seq<char>>, g: Seq<char>, n: int)
    requires
        0 <= n <= names.len(),
    ensures
        hyper_graph::without(names, g, n) == all_but(names.take(n), g),
    decreases n,
{
    reveal(Seq::filter);
    let t = names.take(n);
    if n > 0 {
        lemma_without(names, g, n - 1);
        assert(t.drop_last() =~= names.take(n - 1));
        assert(t.last() == names[n - 1]);
        assert(all_but(t, g) == (if names[n - 1] != g {
            all_but(names.take(n - 1), g).push(names[n - 1])
        } else {
            all_but(names.take(n - 1), g)
        }));
    } else {
        assert(all_but(t, g) =~= Seq::<Seq<char>>::empty());
    }
}

proof fn lemma_steps(ss: Seq<GStage>, s: GStage, m: int, p: (Seq<char>, Seq<char>))
    requires
        0 <= m <= s.after.len(),
    ensures
        hyper_graph::stage_steps(ss, s, m).contains(p) <==> p.1 == s.name && s.after.take(
            m,
        ).contains(p.0) && !hyper_graph::gate_owns(ss, p.0, s.name),
    decreases m,
{
    let t = s.after.take(m);
    if m > 0 {
        lemma_steps(ss, s, m - 1, p);
        let u = s.after.take(m - 1);
        let before = hyper_graph::stage_steps(ss, s, m - 1);
        let now = hyper_graph::stage_steps(ss, s, m);
        let x = s.after[m - 1];
        assert(t[m - 1] == x);
        if u.contains(p.0) {
            let i = choose|i: int| 0 <= i < u.len() && u[i] == p.0;
            assert(t[i] == p.0);
        }
        if t.contains(p.0) {
            let i = choose|i: int| 0 <= i < t.len() && t[i] == p.0;
            if i < m - 1 {
                assert(u[i] == p.0);
            }
        }
        if !hyper_graph::gate_owns(ss, x, s.name) {
            assert(now[before.len() as int] == (x, s.name));
            if before.contains(p) {
                let i = choose|i: int| 0 <= i < before.len() && before[i] == p;
                assert(now[i] == p);
            }
            if now.contains(p) {
                let i = choose|i: int| 0 <= i < now.len() && now[i] == p;
                if i < before.len() {
                    assert(before[i] == p);
                }
            }
        }
    }
}

/// A step leads from one stage to another exactly where the second stands behind
/// the first and no gate has that step as one from a producer to its judge.
pub proof fn law_steps_are_what_stages_stand_behind(
    ss: Seq<GStage>,
    n: int,
    p: (Seq<char>, Seq<char>),
)
    requires
        0 <= n <= ss.len(),
    ensures
        hyper_graph::all_steps(ss, n).contains(p) <==> (exists|i: int|
            0 <= i < n && (#[trigger] ss[i]).name == p.1 && ss[i].after.contains(p.0)) && !(p.0
            != p.1 && exists|i: int|
            0 <= i < ss.len() && (#[trigger] ss[i]).gated_by == Some(p.1) && ss[i].after.contains(
                p.0,
            )),
    decreases n,
{
    if n > 0 {
        law_steps_are_what_stages_stand_behind(ss, n - 1, p);
        let s = ss[n - 1];
        lemma_steps(ss, s, s.after.len() as int, p);
        assert(s.after.take(s.after.len() as int) =~= s.after);
        vstd::seq_lib::lemma_seq_concat_contains_all_elements(
            hyper_graph::all_steps(ss, n - 1),
            hyper_graph::stage_steps(ss, s, s.after.len() as int),
            p,
        );
        assert(ss[n - 1] == s);
    }
}

proof fn lemma_next(ps: Seq<(Seq<char>, Seq<char>)>, a: Seq<char>)
    ensures
        hyper_graph::next_of(ps, a) matches Some(b) ==> ps.contains((a, b)),
{
    if exists|i: int| #[trigger] hyper_graph::lone(ps, i) && ps[i].0 == a {
        let i = choose|i: int| #[trigger] hyper_graph::lone(ps, i) && ps[i].0 == a;
        assert(ps[i] == (a, ps[i].1));
    }
}

proof fn lemma_walk(
    ps: Seq<(Seq<char>, Seq<char>)>,
    left: Set<Seq<char>>,
    cur: Seq<char>,
    used: Set<Seq<char>>,
    k: int,
)
    requires
        0 <= k < hyper_graph::walk(ps, left, cur, used).len() - 1,
    ensures
        ps.contains(
            (
                hyper_graph::walk(ps, left, cur, used)[k],
                hyper_graph::walk(ps, left, cur, used)[k + 1],
            ),
        ),
    decreases left.len(),
{
    let w = hyper_graph::walk(ps, left, cur, used);
    if left.finite() && left.contains(cur) {
        match hyper_graph::next_of(ps, cur) {
            Some(n) => {
                if !used.contains(n) {
                    let rest = hyper_graph::walk(ps, left.remove(cur), n, used.insert(n));
                    lemma_next(ps, cur);
                    lemma_walk_start(ps, left.remove(cur), n, used.insert(n));
                    assert(w =~= seq![cur] + rest);
                    if k > 0 {
                        lemma_walk(ps, left.remove(cur), n, used.insert(n), k - 1);
                        assert(w[k] == rest[k - 1] && w[k + 1] == rest[k]);
                    } else {
                        assert(w[0] == cur && w[1] == rest[0]);
                    }
                }
            },
            None => {},
        }
    }
}

proof fn lemma_walk_start(
    ps: Seq<(Seq<char>, Seq<char>)>,
    left: Set<Seq<char>>,
    cur: Seq<char>,
    used: Set<Seq<char>>,
)
    ensures
        hyper_graph::walk(ps, left, cur, used).len() > 0,
        hyper_graph::walk(ps, left, cur, used)[0] == cur,
{
}

proof fn lemma_paths(
    ps: Seq<(Seq<char>, Seq<char>)>,
    starts: Seq<Seq<char>>,
    i: int,
    used: Set<Seq<char>>,
    c: int,
    k: int,
)
    requires
        0 <= c < hyper_graph::paths(ps, starts, i, used).0.len(),
        0 <= k < hyper_graph::paths(ps, starts, i, used).0[c].len() - 1,
    ensures
        ps.contains(
            (
                hyper_graph::paths(ps, starts, i, used).0[c][k],
                hyper_graph::paths(ps, starts, i, used).0[c][k + 1],
            ),
        ),
    decreases starts.len() - i,
{
    if i < starts.len() {
        if used.contains(starts[i]) {
            lemma_paths(ps, starts, i + 1, used, c, k);
        } else {
            let p = hyper_graph::walk(ps, hyper_graph::firsts(ps), starts[i], used.insert(starts[i]));
            let rest = hyper_graph::paths(ps, starts, i + 1, used.union(p.to_set())).0;
            if p.len() >= 2 {
                if c == 0 {
                    lemma_walk(
                        ps,
                        hyper_graph::firsts(ps),
                        starts[i],
                        used.insert(starts[i]),
                        k,
                    );
                } else {
                    assert((seq![p] + rest)[c] == rest[c - 1]);
                    lemma_paths(ps, starts, i + 1, used.union(p.to_set()), c - 1, k);
                }
            } else {
                lemma_paths(ps, starts, i + 1, used.union(p.to_set()), c, k);
            }
        }
    }
}

proof fn lemma_fragments(
    ps: Seq<(Seq<char>, Seq<char>)>,
    sources: Seq<Seq<char>>,
    i: int,
    used: Set<Seq<char>>,
    c: int,
)
    requires
        0 <= i,
        0 <= c < hyper_graph::fragments(ps, sources, i, used).len(),
    ensures
        hyper_graph::fragments(ps, sources, i, used)[c].len() == 2,
        ps.contains(
            (
                hyper_graph::fragments(ps, sources, i, used)[c][0],
                hyper_graph::fragments(ps, sources, i, used)[c][1],
            ),
        ),
    decreases sources.len() - i,
{
    if i < sources.len() {
        let a = sources[i];
        lemma_next(ps, a);
        match hyper_graph::next_of(ps, a) {
            Some(b) => {
                if !used.contains(a) && !used.contains(b) {
                    let rest = hyper_graph::fragments(
                        ps,
                        sources,
                        i + 1,
                        used.insert(a).insert(b),
                    );
                    if c > 0 {
                        assert((seq![seq![a, b]] + rest)[c] == rest[c - 1]);
                        lemma_fragments(ps, sources, i + 1, used.insert(a).insert(b), c - 1);
                    } else {
                        assert((seq![seq![a, b]] + rest)[0] == seq![a, b]);
                    }
                } else {
                    lemma_fragments(ps, sources, i + 1, used, c);
                }
            },
            None => {
                lemma_fragments(ps, sources, i + 1, used, c);
            },
        }
    }
}

proof fn lemma_targets(ps: Seq<(Seq<char>, Seq<char>)>, a: Seq<char>)
    ensures
        hyper_graph::branch_targets(ps, a, ps.len() as int).finite(),
        hyper_graph::branch_sources(ps, ps.len() as int).finite(),
{
    let seconds = ps.map_values(|p: (Seq<char>, Seq<char>)| p.1);
    let firsts = ps.map_values(|p: (Seq<char>, Seq<char>)| p.0);
    vstd::seq_lib::seq_to_set_is_finite(seconds);
    vstd::seq_lib::seq_to_set_is_finite(firsts);
    let t = hyper_graph::branch_targets(ps, a, ps.len() as int);
    let s = hyper_graph::branch_sources(ps, ps.len() as int);
    assert(t.subset_of(seconds.to_set())) by {
        assert forall|b: Seq<char>| t.contains(b) implies seconds.to_set().contains(b) by {
            let i = choose|i: int|
                0 <= i < ps.len() && !(#[trigger] hyper_graph::lone(ps, i)) && ps[i].0 == a
                    && ps[i].1 == b;
            assert(seconds[i] == b);
        }
    }
    assert(s.subset_of(firsts.to_set())) by {
        assert forall|b: Seq<char>| s.contains(b) implies firsts.to_set().contains(b) by {
            let i = choose|i: int|
                0 <= i < ps.len() && !(#[trigger] hyper_graph::lone(ps, i)) && ps[i].0 == b;
            assert(firsts[i] == b);
        }
    }
    vstd::set_lib::lemma_len_subset(t, seconds.to_set());
    vstd::set_lib::lemma_len_subset(s, firsts.to_set());
}

proof fn lemma_branches(
    ps: Seq<(Seq<char>, Seq<char>)>,
    sources: Seq<Seq<char>>,
    i: int,
    c: int,
)
    requires
        0 <= i,
        0 <= c < hyper_graph::branches(ps, sources, i).len(),
    ensures
        hyper_graph::branches(ps, sources, i)[c].len() == 2,
        ps.contains(
            (
                hyper_graph::branches(ps, sources, i)[c][0],
                hyper_graph::branches(ps, sources, i)[c][1],
            ),
        ),
    decreases sources.len() - i,
{
    if i < sources.len() {
        let a = sources[i];
        let set = hyper_graph::branch_targets(ps, a, ps.len() as int);
        let ts = order::in_order(set);
        let head = hyper_graph::steps(a, ts);
        let rest = hyper_graph::branches(ps, sources, i + 1);
        lemma_targets(ps, a);
        order::lemma_in_order_exists(set);
        if c < head.len() {
            assert((head + rest)[c] == seq![a, ts[c]]);
            assert(ts.to_set().contains(ts[c])) by {
                assert(ts.contains(ts[c]));
            }
            let k = choose|k: int|
                0 <= k < ps.len() && !(#[trigger] hyper_graph::lone(ps, k)) && ps[k].0 == a
                    && ps[k].1 == ts[c];
            assert(ps[k] == (a, ts[c]));
        } else {
            assert((head + rest)[c] == rest[c - head.len()]);
            lemma_branches(ps, sources, i + 1, c - head.len());
        }
    }
}

/// The chains that steps are merged into hold no step that was not there: of every
/// chain each two neighbours are one of the steps.
pub proof fn law_chains_hold_only_steps(ps: Seq<(Seq<char>, Seq<char>)>, c: int, k: int)
    requires
        0 <= c < hyper_graph::merged(ps).len(),
        0 <= k < hyper_graph::merged(ps)[c].len() - 1,
    ensures
        ps.contains((hyper_graph::merged(ps)[c][k], hyper_graph::merged(ps)[c][k + 1])),
{
    let n = ps.len() as int;
    let e = Set::<Seq<char>>::empty();
    let walked = hyper_graph::paths(ps, order::in_order(hyper_graph::heads(ps)), 0, e);
    let fs = hyper_graph::fragments(
        ps,
        order::in_order(hyper_graph::lone_sources(ps, n)),
        0,
        walked.1,
    );
    let bs = hyper_graph::branches(ps, order::in_order(hyper_graph::branch_sources(ps, n)), 0);
    let m = hyper_graph::merged(ps);
    assert(m == walked.0 + fs + bs);
    if c < walked.0.len() {
        assert(m[c] == walked.0[c]);
        lemma_paths(ps, order::in_order(hyper_graph::heads(ps)), 0, e, c, k);
    } else if c < walked.0.len() + fs.len() {
        let d = c - walked.0.len();
        assert(m[c] == fs[d]);
        lemma_fragments(
            ps,
            order::in_order(hyper_graph::lone_sources(ps, n)),
            0,
            walked.1,
            d,
        );
    } else {
        let d = c - walked.0.len() - fs.len();
        assert(m[c] == bs[d]);
        lemma_branches(ps, order::in_order(hyper_graph::branch_sources(ps, n)), 0, d);
    }
}

proof fn lemma_branch_there(
    ps: Seq<(Seq<char>, Seq<char>)>,
    sources: Seq<Seq<char>>,
    i: int,
    p: (Seq<char>, Seq<char>),
    j: int,
)
    requires
        0 <= i <= j < sources.len(),
        sources[j] == p.0,
        hyper_graph::branch_targets(ps, p.0, ps.len() as int).contains(p.1),
    ensures
        hyper_graph::branches(ps, sources, i).contains(seq![p.0, p.1]),
    decreases j - i,
{
    let a = sources[i];
    let set = hyper_graph::branch_targets(ps, a, ps.len() as int);
    let ts = order::in_order(set);
    let head = hyper_graph::steps(a, ts);
    let rest = hyper_graph::branches(ps, sources, i + 1);
    let all = hyper_graph::branches(ps, sources, i);
    if i < j {
        lemma_branch_there(ps, sources, i + 1, p, j);
        let c = choose|c: int| 0 <= c < rest.len() && rest[c] == seq![p.0, p.1];
        assert(all[head.len() + c] == rest[c]);
    } else {
        lemma_targets(ps, a);
        order::lemma_in_order_exists(set);
        assert(ts.to_set().contains(p.1));
        let c = choose|c: int| 0 <= c < ts.len() && ts[c] == p.1;
        assert(all[c] == head[c]);
        assert(head[c] == seq![p.0, p.1]);
    }
}

/// A step from where others lead too, or to where others lead too, is a chain of
/// its own.
pub proof fn law_branching_steps_are_chains(ps: Seq<(Seq<char>, Seq<char>)>, i: int, j: int)
    requires
        0 <= i < ps.len(),
        0 <= j < ps.len(),
        i != j,
        ps[i].0 == ps[j].0 || ps[i].1 == ps[j].1,
    ensures
        hyper_graph::merged(ps).contains(seq![ps[i].0, ps[i].1]),
{
    let n = ps.len() as int;
    let p = ps[i];
    assert(!hyper_graph::lone(ps, i)) by {
        assert(ps[j].0 == p.0 || ps[j].1 == p.1);
    }
    lemma_targets(ps, p.0);
    let src = hyper_graph::branch_sources(ps, n);
    let sources = order::in_order(src);
    order::lemma_in_order_exists(src);
    assert(src.contains(p.0));
    assert(sources.to_set().contains(p.0));
    let k = choose|k: int| 0 <= k < sources.len() && sources[k] == p.0;
    assert(hyper_graph::branch_targets(ps, p.0, n).contains(p.1));
    lemma_branch_there(ps, sources, 0, p, k);
    let bs = hyper_graph::branches(ps, sources, 0);
    let c = choose|c: int| 0 <= c < bs.len() && bs[c] == seq![p.0, p.1];
    let m = hyper_graph::merged(ps);
    assert(m[m.len() - bs.len() + c] == bs[c]);
}

proof fn lemma_chains(hs: Seq<GHedge>, cs: Seq<Seq<Seq<char>>>, n: int, c: int)
    requires
        0 <= c < n <= cs.len(),
        cs[c].len() >= 2,
    ensures
        exists|k: int|
            0 <= k < hyper_graph::with_chains(hs, cs, n).len() && (
            #[trigger] hyper_graph::with_chains(hs, cs, n)[k]).kind == HedgeKind::Chain
                && hyper_graph::with_chains(hs, cs, n)[k].members == cs[c],
    decreases n,
{
    let now = hyper_graph::with_chains(hs, cs, n);
    let before = hyper_graph::with_chains(hs, cs, n - 1);
    if c < n - 1 {
        lemma_chains(hs, cs, n - 1, c);
        let k = choose|k: int|
            0 <= k < before.len() && (#[trigger] before[k]).kind == HedgeKind::Chain
                && before[k].members == cs[c];
        assert(now[k] == before[k]);
    } else {
        assert(now[before.len() as int].members == cs[c]);
    }
}

/// Every chain of two or more is an edge of the hypergraph, behind its gates.
pub proof fn law_chains_become_edges(hs: Seq<GHedge>, cs: Seq<Seq<Seq<char>>>, c: int)
    requires
        0 <= c < cs.len(),
        cs[c].len() >= 2,
    ensures
        exists|k: int|
            0 <= k < hyper_graph::with_chains(hs, cs, cs.len() as int).len() && (
            #[trigger] hyper_graph::with_chains(hs, cs, cs.len() as int)[k]).kind
                == HedgeKind::Chain && hyper_graph::with_chains(hs, cs, cs.len() as int)[k].members
                == cs[c],
{
    lemma_chains(hs, cs, cs.len() as int, c);
}

// ── The skeleton ──

/// A stage has as many ways as it and the whole ask for, and at least one.
pub proof fn law_stages_have_enough_ways(r: HyperRequire, s: GStage)
    ensures
        hyper_emit::need_of(r, s) >= 1,
        hyper_emit::need_of(r, s) >= s.min_impls,
        hyper_emit::need_of(r, s) >= r.min_impls,
        hyper_emit::need_of(r, s) == 1 || hyper_emit::need_of(r, s) == s.min_impls
            || hyper_emit::need_of(r, s) == r.min_impls,
{
}

/// A stage without tags has those of its role.
pub proof fn law_roles_have_tags(s: GStage, t: Seq<char>)
    ensures
        (exists|x: Seq<char>| s.tags.contains(x)) ==> hyper_emit::tags_of(s) == s.tags,
        (forall|x: Seq<char>| !s.tags.contains(x)) ==> (hyper_emit::tags_of(s).contains(t) <==> (
        match s.role {
            HyperRole::Judge => t == "judge"@ || t == "gate"@,
            HyperRole::Source => t == "read"@ || t == "file"@,
            HyperRole::Sink => t == "write"@ || t == "file"@,
            HyperRole::Default => t == "work"@,
        })),
{
    if forall|x: Seq<char>| !s.tags.contains(x) {
        assert(s.tags =~= Set::<Seq<char>>::empty());
    }
}

/// A stage that is judged waits for a score of eighty, any other for nothing; and
/// its lines say so between its name and its plan.
pub proof fn law_judged_stages_wait_for_a_score(g: GSpec, s: GStage)
    ensures
        s.gated_by matches Some(j) ==> text::has(
            hyper_emit::stage_text(g, s),
            "    .when(@"@ + j + ".score >= 80)\n"@,
        ),
        s.gated_by is None ==> hyper_emit::when_line(s).len() == 0,
        ("  .proc(\""@ + s.name + "\")\n"@).is_prefix_of(hyper_emit::stage_text(g, s)),
{
    let t = hyper_emit::stage_text(g, s);
    let a = "  .proc(\""@ + s.name + "\")\n"@;
    let b = "    .desc(\"hyper stage "@ + s.name + " role="@ + hyper::role_name(s.role) + "\")\n"@;
    let w = hyper_emit::when_line(s);
    assert(t.subrange(0, a.len() as int) =~= a);
    match s.gated_by {
        Some(j) => {
            let i = (a + b).len() as int;
            assert(t.subrange(i, i + w.len()) =~= w);
            assert(text::occurs_at(t, w, i));
        },
        None => {},
    }
}

/// The skeleton has the lines of every stage, and delivers what the hypergraph
/// does.
pub proof fn law_skeletons_have_every_stage(g: GSpec, i: int)
    requires
        0 <= i < g.stages.len(),
    ensures
        text::has(hyper_emit::pipeline_text(g), hyper_emit::stage_text(g, g.stages[i])),
        ("    .deliver(@"@ + hyper_emit::delivery(g) + ")\n"@).is_suffix_of(
            hyper_emit::pipeline_text(g),
        ),
{
    let n = g.stages.len() as int;
    lemma_stage_there(g, n, i);
    let body = hyper_emit::stages_text(g, n);
    let t = hyper_emit::pipeline_text(g);
    let p = hyper_emit::stage_text(g, g.stages[i]);
    let k = choose|k: int| text::occurs_at(body, p, k);
    let head = "// Generated by ductile hyper — topology from Hyper(\""@ + g.name
        + "\"); fill real impls as needed.\n"@
        + "// Regenerate: ductile hyper build <file.hyper> -o <file.pipeline>\n"@
        + hyper_emit::header_line(g);
    let off = head.len() as int;
    assert(t.subrange(off + k, off + k + p.len()) =~= body.subrange(k, k + p.len()));
    assert(text::occurs_at(t, p, off + k));
    let d = "    .deliver(@"@ + hyper_emit::delivery(g) + ")\n"@;
    assert(t.subrange(t.len() - d.len(), t.len() as int) =~= d);
}

proof fn lemma_stage_there(g: GSpec, n: int, i: int)
    requires
        0 <= i < n <= g.stages.len(),
    ensures
        text::has(hyper_emit::stages_text(g, n), hyper_emit::stage_text(g, g.stages[i])),
    decreases n,
{
    let now = hyper_emit::stages_text(g, n);
    let before = hyper_emit::stages_text(g, n - 1);
    let p = hyper_emit::stage_text(g, g.stages[i]);
    if i < n - 1 {
        lemma_stage_there(g, n - 1, i);
        let k = choose|k: int| text::occurs_at(before, p, k);
        assert(now.subrange(k, k + p.len()) =~= before.subrange(k, k + p.len()));
        assert(text::occurs_at(now, p, k));
    } else {
        let k = before.len() as int;
        assert(now.subrange(k, k + p.len()) =~= p);
        assert(text::occurs_at(now, p, k));
    }
}

/// The first way of a stage is its main one, the second its fallback, the others
/// are numbered; and all but the first are stubs.
pub proof fn law_spare_ways_are_stubs(s: GStage, after: Seq<Seq<char>>, i: int, total: int)
    requires
        0 <= i < total,
    ensures
        hyper_emit::way_name(0) == "primary"@,
        hyper_emit::way_name(1) == "fallback"@,
        i >= 2 ==> hyper_emit::way_name(i) == "alt"@ + text::dec(i as nat),
        i == total - 1 && i > 0 ==> ".stub\n"@.is_suffix_of(
            hyper_emit::way_line(s, after, i, total),
        ),
        i < total - 1 && i > 0 ==> ".stub,\n"@.is_suffix_of(
            hyper_emit::way_line(s, after, i, total),
        ),
        ("      "@ + hyper_emit::way_name(i) + " -> "@).is_prefix_of(
            hyper_emit::way_line(s, after, i, total),
        ),
{
    reveal_strlit(".stub");
    reveal_strlit(".stub\n");
    reveal_strlit(".stub,\n");
    reveal_strlit(",");
    reveal_strlit("");
    reveal_strlit("\n");
    let w = hyper_emit::way_line(s, after, i, total);
    let h = "      "@ + hyper_emit::way_name(i) + " -> "@;
    assert(w.subrange(0, h.len() as int) =~= h);
    if i > 0 {
        if i == total - 1 {
            assert(w.subrange(w.len() - 6, w.len() as int) =~= ".stub\n"@);
        } else {
            assert(w.subrange(w.len() - 7, w.len() as int) =~= ".stub,\n"@);
        }
    }
}

/// A judge prints a full score; what a model does asks the model for its first
/// input; what writes, and what works on an input, writes it; and all else reads
/// the topic.
pub proof fn law_bodies_follow_roles_and_tags(
    s: GStage,
    after: Seq<Seq<char>>,
    tags: Set<Seq<char>>,
)
    ensures
        ({
            let b = hyper_emit::main_body(s, after, tags);
            let judge = s.role == HyperRole::Judge || tags.contains("judge"@) || tags.contains(
                "gate"@,
            );
            let model = tags.contains("llm"@) || tags.contains("extract"@);
            let reads = tags.contains("read"@) || tags.contains("file"@) || tags.contains("io"@)
                || after.len() == 0;
            &&& judge ==> "run(\"printf '%s\\n' '##DSL_RESULT' 'score=100' 'deps="@.is_prefix_of(b)
            &&& !judge && model && after.len() > 0 ==> ("llm(prompt=@"@ + after[0]).is_prefix_of(b)
            &&& !judge && !model && (tags.contains("write"@) || !reads) ==> (
            "write(to=\"/tmp/ductile_hyper_"@ + s.name + ".txt\", content="@).is_prefix_of(b)
            &&& !judge && !model && !tags.contains("write"@) && reads ==> b
                == "read(from=\"{topic}\")"@
        }),
{
    reveal_strlit("llm(prompt=@");
    reveal_strlit("llm(prompt=");
    reveal_strlit("@");
    let b = hyper_emit::main_body(s, after, tags);
    let p = "run(\"printf '%s\\n' '##DSL_RESULT' 'score=100' 'deps="@;
    let w = "write(to=\"/tmp/ductile_hyper_"@ + s.name + ".txt\", content="@;
    if s.role == HyperRole::Judge || tags.contains("judge"@) || tags.contains("gate"@) {
        assert(b.subrange(0, p.len() as int) =~= p);
    } else if tags.contains("llm"@) || tags.contains("extract"@) {
        if after.len() > 0 {
            let l = "llm(prompt=@"@ + after[0];
            assert("llm(prompt=@"@ =~= "llm(prompt="@ + "@"@);
            assert(b.subrange(0, l.len() as int) =~= l);
        }
    } else if tags.contains("write"@) || !(tags.contains("read"@) || tags.contains("file"@)
        || tags.contains("io"@) || after.len() == 0) {
        assert(b.subrange(0, w.len() as int) =~= w);
    }
}

} // verus!
