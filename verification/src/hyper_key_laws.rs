//! What the key of a hypergraph does not depend on: names and order.

use crate::hyper;
use crate::hyper::{GHedge, GSpec, GStage, GVertex, HedgeKind, HyperRole};
use crate::hyper_key;
use crate::order;
use crate::text;
use vstd::prelude::*;

verus! {

// ── The same hypergraph, drawn again ──

/// Vertices by new name and role.
pub open spec fn marks(f: spec_fn(Seq<char>) -> Seq<char>, vs: Seq<GVertex>) -> Seq<
    (Seq<char>, HyperRole),
> {
    vs.map_values(|v: GVertex| (f(v.name), v.role))
}

/// Vertices by name and role.
pub open spec fn own_marks(vs: Seq<GVertex>) -> Seq<(Seq<char>, HyperRole)> {
    vs.map_values(|v: GVertex| (v.name, v.role))
}

/// An edge without its own name.
pub open spec fn nameless(h: GHedge) -> GHedge {
    GHedge { name: Seq::empty(), ..h }
}

/// An edge without its own name and with its vertices renamed.
pub open spec fn carried(f: spec_fn(Seq<char>) -> Seq<char>, h: GHedge) -> GHedge {
    GHedge {
        name: Seq::empty(),
        kind: h.kind,
        members: hyper_key::renamed(f, h.members),
        judge: match h.judge {
            Some(j) => Some(f(j)),
            None => None,
        },
        producers: hyper_key::renamed(f, h.producers),
        consumers: hyper_key::renamed(f, h.consumers),
    }
}

/// The roles of stages.
pub open spec fn stage_roles(ss: Seq<GStage>) -> Seq<HyperRole> {
    ss.map_values(|s: GStage| s.role)
}

/// The hypergraph `h` is `g` drawn again: its vertices renamed by `f`, and its
/// vertices, stages and edges in any order. The names of the edges, the tags and
/// the remaining texts may be any.
pub open spec fn drawn_again(f: spec_fn(Seq<char>) -> Seq<char>, g: GSpec, h: GSpec) -> bool {
    &&& h.require.judge == g.require.judge
    &&& own_marks(h.vertices).to_multiset() == marks(f, g.vertices).to_multiset()
    &&& h.hedges.map_values(|e: GHedge| nameless(e)).to_multiset() == g.hedges.map_values(
        |e: GHedge| carried(f, e),
    ).to_multiset()
    &&& stage_roles(h.stages).to_multiset() == stage_roles(g.stages).to_multiset()
}

// ── Sequences with the same members ──

/// Sequences with the same members, as often, keep that under a function.
proof fn lemma_mapped<A, B>(s: Seq<A>, t: Seq<A>, f: spec_fn(A) -> B)
    requires
        s.to_multiset() == t.to_multiset(),
    ensures
        s.map_values(f).to_multiset() == t.map_values(f).to_multiset(),
    decreases s.len(),
{
    broadcast use vstd::seq_lib::group_to_multiset_ensures;

    assert(s.len() == s.to_multiset().len() && t.len() == t.to_multiset().len());
    if s.len() == 0 {
        assert(s.map_values(f) =~= t.map_values(f));
    } else {
        let x = s.last();
        let u = s.drop_last();
        assert(s =~= u.push(x));
        assert(s.contains(x));
        assert(t.to_multiset().count(x) > 0);
        assert(t.contains(x));
        let j = choose|j: int| 0 <= j < t.len() && t[j] == x;
        let v = t.remove(j);
        assert(u.to_multiset() =~= v.to_multiset()) by {
            assert(s.to_multiset() =~= u.to_multiset().insert(x));
            assert(v.to_multiset() =~= t.to_multiset().remove(x));
            assert(u.to_multiset() =~= s.to_multiset().remove(x));
        }
        lemma_mapped(u, v, f);
        assert(s.map_values(f) =~= u.map_values(f).push(f(x)));
        assert(v.map_values(f) =~= t.map_values(f).remove(j));
        let a = t.map_values(f);
        assert(a[j] == f(x));
        assert(a.contains(f(x)));
        assert(a.remove(j).to_multiset() =~= a.to_multiset().remove(f(x)));
        assert(a.to_multiset() =~= a.remove(j).to_multiset().insert(f(x)));
    }
}

/// Sequences with the same members, as often, are the same when sorted.
proof fn lemma_sorted_alike(s: Seq<Seq<char>>, t: Seq<Seq<char>>)
    requires
        s.to_multiset() == t.to_multiset(),
    ensures
        order::sorted(s) == order::sorted(t),
{
    let le = |a: Seq<char>, b: Seq<char>| order::text_le(a, b);
    order::lemma_le_total();
    s.lemma_sort_by_ensures(le);
    t.lemma_sort_by_ensures(le);
    vstd::seq_lib::lemma_sorted_unique(s.sort_by(le), t.sort_by(le), le);
}

/// Sequences with the same members, as often, have the same members.
proof fn lemma_same_members<A>(s: Seq<A>, t: Seq<A>, x: A)
    requires
        s.to_multiset() == t.to_multiset(),
    ensures
        s.contains(x) == t.contains(x),
{
    broadcast use vstd::seq_lib::group_to_multiset_ensures;

    assert(s.contains(x) <==> s.to_multiset().count(x) > 0);
    assert(t.contains(x) <==> t.to_multiset().count(x) > 0);
}

// ── Roles ──

/// The role that is found is that of a vertex of the name, and there is none only
/// where no vertex has the name.
proof fn lemma_role_from(vs: Seq<GVertex>, name: Seq<char>, i: int)
    requires
        0 <= i <= vs.len(),
    ensures
        ({
            ||| exists|k: int|
                i <= k < vs.len() && (#[trigger] vs[k]).name == name && hyper_key::role_from(
                    vs,
                    name,
                    i,
                ) == hyper::role_name(vs[k].role)
            ||| hyper_key::role_from(vs, name, i) == "?"@ && forall|k: int|
                i <= k < vs.len() ==> (#[trigger] vs[k]).name != name
        }),
    decreases vs.len() - i,
{
    if i < vs.len() && vs[i].name != name {
        lemma_role_from(vs, name, i + 1);
    }
}

/// A vertex keeps its role when it is drawn again.
proof fn lemma_role_again(
    f: spec_fn(Seq<char>) -> Seq<char>,
    vs: Seq<GVertex>,
    ws: Seq<GVertex>,
    name: Seq<char>,
)
    requires
        forall|a: Seq<char>, b: Seq<char>| #[trigger] f(a) == #[trigger] f(b) ==> a == b,
        forall|i: int, j: int|
            0 <= i < j < vs.len() ==> (#[trigger] vs[i]).name != (#[trigger] vs[j]).name,
        own_marks(ws).to_multiset() == marks(f, vs).to_multiset(),
    ensures
        hyper_key::role_of(ws, f(name)) == hyper_key::role_of(vs, name),
{
    lemma_role_from(vs, name, 0);
    lemma_role_from(ws, f(name), 0);
    if exists|k: int|
        0 <= k < ws.len() && (#[trigger] ws[k]).name == f(name) && hyper_key::role_of(ws, f(name))
            == hyper::role_name(ws[k].role) {
        let k = choose|k: int|
            0 <= k < ws.len() && (#[trigger] ws[k]).name == f(name) && hyper_key::role_of(
                ws,
                f(name),
            ) == hyper::role_name(ws[k].role);
        let mark = (ws[k].name, ws[k].role);
        assert(own_marks(ws)[k] == mark);
        assert(own_marks(ws).contains(mark));
        lemma_same_members(own_marks(ws), marks(f, vs), mark);
        let j = choose|j: int| 0 <= j < marks(f, vs).len() && marks(f, vs)[j] == mark;
        assert(f(vs[j].name) == f(name));
        assert(vs[j].name == name && vs[j].role == ws[k].role);
        // The name is found in `vs` too, and only once.
        let i = choose|i: int|
            0 <= i < vs.len() && (#[trigger] vs[i]).name == name && hyper_key::role_of(vs, name)
                == hyper::role_name(vs[i].role);
        assert(i == j);
    } else if exists|i: int|
        0 <= i < vs.len() && (#[trigger] vs[i]).name == name && hyper_key::role_of(vs, name)
            == hyper::role_name(vs[i].role) {
        let i = choose|i: int|
            0 <= i < vs.len() && (#[trigger] vs[i]).name == name && hyper_key::role_of(vs, name)
                == hyper::role_name(vs[i].role);
        let mark = (f(name), vs[i].role);
        assert(marks(f, vs)[i] == mark);
        assert(marks(f, vs).contains(mark));
        lemma_same_members(own_marks(ws), marks(f, vs), mark);
        let k = choose|k: int| 0 <= k < own_marks(ws).len() && own_marks(ws)[k] == mark;
        assert(ws[k].name == f(name));
    }
}

/// Vertices keep their roles when they are drawn again.
proof fn lemma_roles_again(
    f: spec_fn(Seq<char>) -> Seq<char>,
    vs: Seq<GVertex>,
    ws: Seq<GVertex>,
    names: Seq<Seq<char>>,
)
    requires
        forall|a: Seq<char>, b: Seq<char>| #[trigger] f(a) == #[trigger] f(b) ==> a == b,
        forall|i: int, j: int|
            0 <= i < j < vs.len() ==> (#[trigger] vs[i]).name != (#[trigger] vs[j]).name,
        own_marks(ws).to_multiset() == marks(f, vs).to_multiset(),
    ensures
        hyper_key::roles_of(ws, hyper_key::renamed(f, names)) == hyper_key::roles_of(vs, names),
{
    let a = hyper_key::roles_of(ws, hyper_key::renamed(f, names));
    let b = hyper_key::roles_of(vs, names);
    assert forall|i: int| 0 <= i < names.len() implies #[trigger] a[i] == b[i] by {
        lemma_role_again(f, vs, ws, names[i]);
    }
    assert(a =~= b);
}

/// An edge is the same without names when it is drawn again.
proof fn lemma_edge_again(
    f: spec_fn(Seq<char>) -> Seq<char>,
    vs: Seq<GVertex>,
    ws: Seq<GVertex>,
    h: GHedge,
)
    requires
        forall|a: Seq<char>, b: Seq<char>| #[trigger] f(a) == #[trigger] f(b) ==> a == b,
        forall|i: int, j: int|
            0 <= i < j < vs.len() ==> (#[trigger] vs[i]).name != (#[trigger] vs[j]).name,
        own_marks(ws).to_multiset() == marks(f, vs).to_multiset(),
    ensures
        hyper_key::edge_part(ws, carried(f, h)) == hyper_key::edge_part(vs, h),
{
    let b = carried(f, h);
    lemma_roles_again(f, vs, ws, h.members);
    lemma_roles_again(f, vs, ws, h.producers);
    lemma_roles_again(f, vs, ws, h.consumers);
    if h.members.len() > 0 {
        lemma_role_again(f, vs, ws, h.members[0]);
        assert(b.members[0] == f(h.members[0]));
        lemma_roles_again(f, vs, ws, h.members.skip(1));
        assert(b.members.skip(1) =~= hyper_key::renamed(f, h.members.skip(1)));
    }
    match h.judge {
        Some(j) => {
            lemma_role_again(f, vs, ws, j);
        },
        None => {},
    }
}

/// The number of stages with a role is how often the role occurs.
proof fn lemma_role_count(ss: Seq<GStage>, role: HyperRole, n: int)
    requires
        0 <= n <= ss.len(),
    ensures
        hyper_key::role_count(ss, role, n) == stage_roles(ss).take(n).to_multiset().count(role),
    decreases n,
{
    broadcast use vstd::seq_lib::group_to_multiset_ensures;

    let all = stage_roles(ss);
    if n > 0 {
        lemma_role_count(ss, role, n - 1);
        assert(all.take(n) =~= all.take(n - 1).push(all[n - 1]));
        assert(all[n - 1] == ss[n - 1].role);
    } else {
        assert(all.take(0) =~= Seq::<HyperRole>::empty());
        let none = all.take(0);
        assert(!none.contains(role));
        assert(none.contains(role) <==> none.to_multiset().count(role) > 0);
    }
}

/// A role occurs as often in stages that are drawn again.
proof fn lemma_count_again(ss: Seq<GStage>, ts: Seq<GStage>, role: HyperRole)
    requires
        stage_roles(ss).to_multiset() == stage_roles(ts).to_multiset(),
    ensures
        hyper_key::role_part(ss, role) == hyper_key::role_part(ts, role),
{
    lemma_role_count(ss, role, ss.len() as int);
    lemma_role_count(ts, role, ts.len() as int);
    assert(stage_roles(ss).take(ss.len() as int) =~= stage_roles(ss));
    assert(stage_roles(ts).take(ts.len() as int) =~= stage_roles(ts));
}

/// A hypergraph keeps its key when it is drawn again: with its vertices renamed,
/// each to a name of its own, with its vertices, stages and edges in any order,
/// and with any edge names, tags, goal and delivery. No two vertices share a
/// name, as in every hypergraph that was read.
pub proof fn law_key_without_names_or_order(f: spec_fn(Seq<char>) -> Seq<char>, g: GSpec, h: GSpec)
    requires
        forall|a: Seq<char>, b: Seq<char>| #[trigger] f(a) == #[trigger] f(b) ==> a == b,
        forall|i: int, j: int|
            0 <= i < j < g.vertices.len() ==> (#[trigger] g.vertices[i]).name != (
            #[trigger] g.vertices[j]).name,
        drawn_again(f, g, h),
    ensures
        hyper_key::key_of(h) == hyper_key::key_of(g),
{
    let vs = g.vertices;
    let ws = h.vertices;
    lemma_count_again(h.stages, g.stages, HyperRole::Default);
    lemma_count_again(h.stages, g.stages, HyperRole::Judge);
    lemma_count_again(h.stages, g.stages, HyperRole::Sink);
    lemma_count_again(h.stages, g.stages, HyperRole::Source);
    let part = |e: GHedge| hyper_key::edge_part(ws, e);
    let again = h.hedges.map_values(|e: GHedge| nameless(e));
    let before = g.hedges.map_values(|e: GHedge| carried(f, e));
    lemma_mapped(again, before, part);
    assert(again.map_values(part) =~= hyper_key::edge_parts(ws, h.hedges)) by {
        assert forall|i: int| 0 <= i < h.hedges.len() implies #[trigger] again.map_values(part)[i]
            == hyper_key::edge_parts(ws, h.hedges)[i] by {
            assert(again[i] == nameless(h.hedges[i]));
            assert(hyper_key::edge_part(ws, nameless(h.hedges[i])) == hyper_key::edge_part(
                ws,
                h.hedges[i],
            ));
        }
    }
    assert(before.map_values(part) =~= hyper_key::edge_parts(vs, g.hedges)) by {
        assert forall|i: int| 0 <= i < g.hedges.len() implies #[trigger] before.map_values(part)[i]
            == hyper_key::edge_parts(vs, g.hedges)[i] by {
            lemma_edge_again(f, vs, ws, g.hedges[i]);
        }
    }
    lemma_sorted_alike(
        hyper_key::edge_parts(ws, h.hedges),
        hyper_key::edge_parts(vs, g.hedges),
    );
    if hyper_key::judged(g) && !g.require.judge {
        let i = choose|i: int| 0 <= i < vs.len() && (#[trigger] vs[i]).role == HyperRole::Judge;
        let mark = (f(vs[i].name), HyperRole::Judge);
        assert(marks(f, vs)[i] == mark);
        lemma_same_members(own_marks(ws), marks(f, vs), mark);
        let k = choose|k: int| 0 <= k < own_marks(ws).len() && own_marks(ws)[k] == mark;
        assert(ws[k].role == HyperRole::Judge);
    }
    if hyper_key::judged(h) && !h.require.judge {
        let k = choose|k: int| 0 <= k < ws.len() && (#[trigger] ws[k]).role == HyperRole::Judge;
        let mark = (ws[k].name, HyperRole::Judge);
        assert(own_marks(ws)[k] == mark);
        lemma_same_members(own_marks(ws), marks(f, vs), mark);
        let i = choose|i: int| 0 <= i < marks(f, vs).len() && marks(f, vs)[i] == mark;
        assert(vs[i].role == HyperRole::Judge);
    }
}

} // verus!
