//! The key of a hypergraph: its roles and its typed edges, without any name.

use crate::hyper;
use crate::hyper::{GHedge, GSpec, GStage, GVertex, HedgeKind, HyperRole, HyperSpec, HyperStage, Hyperedge, Vertex};
use crate::order;
use crate::text;
use vstd::prelude::*;

verus! {

/// The name of the role of the first vertex of that name from the `i`-th on.
pub open spec fn role_from(vs: Seq<GVertex>, name: Seq<char>, i: int) -> Seq<char>
    decreases vs.len() - i,
{
    if i >= vs.len() {
        "?"@
    } else if vs[i].name == name {
        hyper::role_name(vs[i].role)
    } else {
        role_from(vs, name, i + 1)
    }
}

/// The name of the role of the first vertex of that name.
pub open spec fn role_of(vs: Seq<GVertex>, name: Seq<char>) -> Seq<char> {
    role_from(vs, name, 0)
}

/// The roles of the names.
pub open spec fn roles_of(vs: Seq<GVertex>, names: Seq<Seq<char>>) -> Seq<Seq<char>> {
    names.map_values(|n: Seq<char>| role_of(vs, n))
}

/// How many of the first `n` stages have the role.
pub open spec fn role_count(ss: Seq<GStage>, role: HyperRole, n: int) -> nat
    decreases n,
{
    if n <= 0 {
        0
    } else if ss[n - 1].role == role {
        role_count(ss, role, n - 1) + 1
    } else {
        role_count(ss, role, n - 1)
    }
}

/// A role with its number, where a stage has it.
pub open spec fn role_part(ss: Seq<GStage>, role: HyperRole) -> Seq<Seq<char>> {
    let n = role_count(ss, role, ss.len() as int);
    if n == 0 {
        Seq::empty()
    } else {
        seq![hyper::role_name(role) + "×"@ + text::dec(n)]
    }
}

/// The roles with their numbers, in the order of their names.
pub open spec fn role_parts(ss: Seq<GStage>) -> Seq<Seq<char>> {
    role_part(ss, HyperRole::Default) + role_part(ss, HyperRole::Judge) + role_part(
        ss,
        HyperRole::Sink,
    ) + role_part(ss, HyperRole::Source)
}

/// An edge without its names.
pub open spec fn edge_part(vs: Seq<GVertex>, h: GHedge) -> Seq<char> {
    match h.kind {
        HedgeKind::Chain => "chain:"@ + text::join_spec(roles_of(vs, h.members), ">"@),
        HedgeKind::Gate => "gate:j="@ + (match h.judge {
            Some(j) => role_of(vs, j),
            None => "?"@,
        }) + "|p="@ + text::join_spec(order::sorted(roles_of(vs, h.producers)), "+"@) + "|c="@
            + text::join_spec(order::sorted(roles_of(vs, h.consumers)), "+"@),
        HedgeKind::Bundle => "bundle:"@ + text::join_spec(
            order::sorted(roles_of(vs, h.members)),
            "+"@,
        ),
        HedgeKind::Xor => "xor:slot="@ + (if h.members.len() > 0 {
            role_of(vs, h.members[0])
        } else {
            "?"@
        }) + "|alts="@ + text::join_spec(
            order::sorted(
                roles_of(
                    vs,
                    if h.members.len() > 0 {
                        h.members.skip(1)
                    } else {
                        h.members
                    },
                ),
            ),
            "+"@,
        ) + "|n="@ + text::dec(h.members.len()),
    }
}

/// The edges without their names.
pub open spec fn edge_parts(vs: Seq<GVertex>, hs: Seq<GHedge>) -> Seq<Seq<char>> {
    hs.map_values(|h: GHedge| edge_part(vs, h))
}

/// Whether a hypergraph is judged.
pub open spec fn judged(g: GSpec) -> bool {
    g.require.judge || exists|i: int|
        0 <= i < g.vertices.len() && (#[trigger] g.vertices[i]).role == HyperRole::Judge
}

/// The key of a hypergraph.
pub open spec fn key_of(g: GSpec) -> Seq<char> {
    "V=["@ + text::join_spec(role_parts(g.stages), ","@) + "]|E=["@ + text::join_spec(
        order::sorted(edge_parts(g.vertices, g.hedges)),
        ";"@,
    ) + "]|judge="@ + (if judged(g) {
        "1"@
    } else {
        "0"@
    })
}

/// The name of the role of the first vertex of that name.
fn role_at(vertices: &Vec<Vertex>, name: &str) -> (r: &'static str)
    ensures
        r@ == role_of(hyper::vertex_views(vertices@), name@),
{
    let ghost vs = hyper::vertex_views(vertices@);
    let mut i: usize = 0;
    while i < vertices.len()
        invariant
            i <= vertices@.len(),
            vs == hyper::vertex_views(vertices@),
            role_of(vs, name@) == role_from(vs, name@, i as int),
        decreases vertices@.len() - i,
    {
        if text::same(vertices[i].name.as_str(), name) {
            return vertices[i].role.as_str();
        }
        i += 1;
    }
    "?"
}

/// The roles of the names from the `from`-th on.
fn roles_at(vertices: &Vec<Vertex>, names: &Vec<String>, from: usize) -> (r: Vec<String>)
    requires
        from <= names@.len(),
    ensures
        text::views(r@) == roles_of(
            hyper::vertex_views(vertices@),
            text::views(names@).skip(from as int),
        ),
{
    let ghost vs = hyper::vertex_views(vertices@);
    let ghost nv = text::views(names@).skip(from as int);
    let ghost all = roles_of(vs, nv);
    let mut out: Vec<String> = Vec::new();
    let mut i: usize = from;
    assert(text::views(out@) =~= all.take(0));
    while i < names.len()
        invariant
            from <= i <= names@.len(),
            vs == hyper::vertex_views(vertices@),
            nv == text::views(names@).skip(from as int),
            all == roles_of(vs, nv),
            text::views(out@) == all.take(i - from),
        decreases names@.len() - i,
    {
        let ghost before = out@;
        let role = role_at(vertices, names[i].as_str()).to_owned();
        assert(nv[i - from] == names@[i as int]@);
        assert(role@ == all[i - from]);
        out.push(role);
        assert(text::views(out@) =~= text::views(before).push(all[i - from]));
        assert(all.take(i + 1 - from) =~= all.take(i - from).push(all[i - from]));
        i += 1;
    }
    assert(all.take(i - from) =~= all);
    out
}

/// The roles of the names, sorted and joined.
fn sorted_roles(vertices: &Vec<Vertex>, names: &Vec<String>, from: usize) -> (r: String)
    requires
        from <= names@.len(),
    ensures
        r@ == text::join_spec(
            order::sorted(
                roles_of(hyper::vertex_views(vertices@), text::views(names@).skip(from as int)),
            ),
            "+"@,
        ),
{
    let roles = roles_at(vertices, names, from);
    let s = order::sort(&roles);
    text::join(s.as_slice(), "+")
}

/// An edge without its names.
fn edge_text(vertices: &Vec<Vertex>, h: &Hyperedge) -> (r: String)
    ensures
        r@ == edge_part(hyper::vertex_views(vertices@), h@),
{
    proof {
        assert(h@.members.skip(0) =~= h@.members);
        assert(h@.producers.skip(0) =~= h@.producers);
        assert(h@.consumers.skip(0) =~= h@.consumers);
    }
    match h.kind {
        HedgeKind::Chain => {
            let mut s = "chain:".to_owned();
            let roles = roles_at(vertices, &h.members, 0);
            s.append(text::join(roles.as_slice(), ">").as_str());
            s
        },
        HedgeKind::Gate => {
            let mut s = "gate:j=".to_owned();
            match &h.judge {
                Some(j) => {
                    s.append(role_at(vertices, j.as_str()));
                },
                None => {
                    s.append("?");
                },
            }
            s.append("|p=");
            s.append(sorted_roles(vertices, &h.producers, 0).as_str());
            s.append("|c=");
            s.append(sorted_roles(vertices, &h.consumers, 0).as_str());
            s
        },
        HedgeKind::Bundle => {
            let mut s = "bundle:".to_owned();
            s.append(sorted_roles(vertices, &h.members, 0).as_str());
            s
        },
        HedgeKind::Xor => {
            let mut s = "xor:slot=".to_owned();
            let from: usize = if h.members.len() > 0 {
                1
            } else {
                0
            };
            if h.members.len() > 0 {
                s.append(role_at(vertices, h.members[0].as_str()));
            } else {
                s.append("?");
            }
            s.append("|alts=");
            s.append(sorted_roles(vertices, &h.members, from).as_str());
            s.append("|n=");
            s.append(text::decimal(h.members.len() as u128).as_str());
            s
        },
    }
}

/// Adds a role with its number, where a stage has it.
fn push_role(stages: &Vec<HyperStage>, role: HyperRole, out: &mut Vec<String>)
    ensures
        text::views(final(out)@) == text::views(old(out)@) + role_part(
            hyper::stage_views(stages@),
            role,
        ),
{
    let ghost ss = hyper::stage_views(stages@);
    let ghost start = text::views(out@);
    let mut n: usize = 0;
    let mut i: usize = 0;
    while i < stages.len()
        invariant
            i <= stages@.len(),
            n <= i,
            ss == hyper::stage_views(stages@),
            n == role_count(ss, role, i as int),
        decreases stages@.len() - i,
    {
        assert(ss[i as int].role == stages@[i as int].role);
        if stages[i].role == role {
            n += 1;
        }
        i += 1;
    }
    if n > 0 {
        let mut s = role.as_str().to_owned();
        s.append("×");
        s.append(text::decimal(n as u128).as_str());
        let ghost sv = s@;
        let ghost before = out@;
        out.push(s);
        assert(text::views(out@) =~= text::views(before).push(sv));
        assert(text::views(out@) =~= start + seq![sv]);
    } else {
        assert(start + Seq::<Seq<char>>::empty() =~= start);
    }
}

impl HyperSpec {
    /// The roles of the stages and the edges by the roles they join, without
    /// any name.
    pub fn hypergraph_key(&self) -> (r: String)
        ensures
            r@ == key_of(self@),
    {
        let ghost vs = hyper::vertex_views(self.vertices@);
        let ghost hs = hyper::hedge_views(self.hedges@);
        let mut roles: Vec<String> = Vec::new();
        assert(text::views(roles@) =~= Seq::<Seq<char>>::empty());
        push_role(&self.stages, HyperRole::Default, &mut roles);
        push_role(&self.stages, HyperRole::Judge, &mut roles);
        push_role(&self.stages, HyperRole::Sink, &mut roles);
        push_role(&self.stages, HyperRole::Source, &mut roles);
        assert(text::views(roles@) =~= role_parts(self@.stages));
        let ghost all = edge_parts(vs, hs);
        let mut edges: Vec<String> = Vec::new();
        let mut i: usize = 0;
        assert(text::views(edges@) =~= all.take(0));
        while i < self.hedges.len()
            invariant
                i <= self.hedges@.len(),
                vs == hyper::vertex_views(self.vertices@),
                hs == hyper::hedge_views(self.hedges@),
                all == edge_parts(vs, hs),
                text::views(edges@) == all.take(i as int),
            decreases self.hedges@.len() - i,
        {
            let e = edge_text(&self.vertices, &self.hedges[i]);
            assert(hs[i as int] == self.hedges@[i as int]@);
            assert(e@ == all[i as int]);
            let ghost before = edges@;
            edges.push(e);
            assert(text::views(edges@) =~= text::views(before).push(all[i as int]));
            assert(all.take(i + 1) =~= all.take(i as int).push(all[i as int]));
            i += 1;
        }
        assert(all.take(i as int) =~= all);
        let sorted_edges = order::sort(&edges);
        let mut yes = self.require.judge;
        let mut j: usize = 0;
        while j < self.vertices.len()
            invariant
                j <= self.vertices@.len(),
                vs == hyper::vertex_views(self.vertices@),
                yes == (self.require.judge || exists|k: int|
                    0 <= k < j && (#[trigger] vs[k]).role == HyperRole::Judge),
            decreases self.vertices@.len() - j,
        {
            assert(vs[j as int].role == self.vertices@[j as int].role);
            if self.vertices[j].role == HyperRole::Judge {
                yes = true;
            }
            j += 1;
        }
        let mut s = "V=[".to_owned();
        s.append(text::join(roles.as_slice(), ",").as_str());
        s.append("]|E=[");
        s.append(text::join(sorted_edges.as_slice(), ";").as_str());
        s.append("]|judge=");
        s.append(
            if yes {
                "1"
            } else {
                "0"
            },
        );
        s
    }
}

// ── The key has no names in it ──

/// The names with each replaced by its new name.
pub open spec fn renamed(f: spec_fn(Seq<char>) -> Seq<char>, names: Seq<Seq<char>>) -> Seq<
    Seq<char>,
> {
    names.map_values(|n: Seq<char>| f(n))
}

/// The hypergraph `h` is `g` with its vertices renamed by `f`; the names of the
/// edges, the tags and the remaining texts may be any.
pub open spec fn same_shape(f: spec_fn(Seq<char>) -> Seq<char>, g: GSpec, h: GSpec) -> bool {
    &&& h.require.judge == g.require.judge
    &&& h.vertices.len() == g.vertices.len()
    &&& forall|i: int|
        0 <= i < g.vertices.len() ==> (#[trigger] h.vertices[i]).name == f(g.vertices[i].name)
            && h.vertices[i].role == g.vertices[i].role
    &&& h.hedges.len() == g.hedges.len()
    &&& forall|i: int|
        0 <= i < g.hedges.len() ==> {
            &&& (#[trigger] h.hedges[i]).kind == g.hedges[i].kind
            &&& h.hedges[i].members == renamed(f, g.hedges[i].members)
            &&& h.hedges[i].judge == (match g.hedges[i].judge {
                Some(j) => Some(f(j)),
                None => None,
            })
            &&& h.hedges[i].producers == renamed(f, g.hedges[i].producers)
            &&& h.hedges[i].consumers == renamed(f, g.hedges[i].consumers)
        }
    &&& h.stages.len() == g.stages.len()
    &&& forall|i: int|
        0 <= i < g.stages.len() ==> (#[trigger] h.stages[i]).role == g.stages[i].role
}

/// The role of a renamed vertex is the role it had.
proof fn lemma_role_renamed(
    f: spec_fn(Seq<char>) -> Seq<char>,
    vs: Seq<GVertex>,
    ws: Seq<GVertex>,
    name: Seq<char>,
    i: int,
)
    requires
        forall|a: Seq<char>, b: Seq<char>| #[trigger] f(a) == #[trigger] f(b) ==> a == b,
        vs.len() == ws.len(),
        forall|k: int|
            0 <= k < vs.len() ==> (#[trigger] ws[k]).name == f(vs[k].name) && ws[k].role
                == vs[k].role,
        0 <= i <= vs.len(),
    ensures
        role_from(ws, f(name), i) == role_from(vs, name, i),
    decreases vs.len() - i,
{
    if i < vs.len() {
        assert(ws[i].name == f(vs[i].name));
        lemma_role_renamed(f, vs, ws, name, i + 1);
    }
}

/// The roles of renamed vertices are the roles they had.
proof fn lemma_roles_renamed(
    f: spec_fn(Seq<char>) -> Seq<char>,
    vs: Seq<GVertex>,
    ws: Seq<GVertex>,
    names: Seq<Seq<char>>,
)
    requires
        forall|a: Seq<char>, b: Seq<char>| #[trigger] f(a) == #[trigger] f(b) ==> a == b,
        vs.len() == ws.len(),
        forall|k: int|
            0 <= k < vs.len() ==> (#[trigger] ws[k]).name == f(vs[k].name) && ws[k].role
                == vs[k].role,
    ensures
        roles_of(ws, renamed(f, names)) == roles_of(vs, names),
{
    assert forall|i: int| 0 <= i < names.len() implies #[trigger] roles_of(
        ws,
        renamed(f, names),
    )[i] == roles_of(vs, names)[i] by {
        lemma_role_renamed(f, vs, ws, names[i], 0);
    }
    assert(roles_of(ws, renamed(f, names)) =~= roles_of(vs, names));
}

/// Stages with the same roles are counted alike.
proof fn lemma_count_same(ss: Seq<GStage>, ts: Seq<GStage>, role: HyperRole, n: int)
    requires
        ss.len() == ts.len(),
        forall|i: int| 0 <= i < ss.len() ==> (#[trigger] ts[i]).role == ss[i].role,
        n <= ss.len(),
    ensures
        role_count(ts, role, n) == role_count(ss, role, n),
    decreases n,
{
    if n > 0 {
        lemma_count_same(ss, ts, role, n - 1);
        assert(ts[n - 1].role == ss[n - 1].role);
    }
}

/// The key has no name in it: a hypergraph keeps its key where its vertices are
/// renamed, each to a name of its own, and where edges are renamed or tags,
/// goal and delivery are changed.
pub proof fn law_key_without_names(f: spec_fn(Seq<char>) -> Seq<char>, g: GSpec, h: GSpec)
    requires
        forall|a: Seq<char>, b: Seq<char>| #[trigger] f(a) == #[trigger] f(b) ==> a == b,
        same_shape(f, g, h),
    ensures
        key_of(h) == key_of(g),
{
    let vs = g.vertices;
    let ws = h.vertices;
    let n = g.stages.len() as int;
    lemma_count_same(g.stages, h.stages, HyperRole::Default, n);
    lemma_count_same(g.stages, h.stages, HyperRole::Judge, n);
    lemma_count_same(g.stages, h.stages, HyperRole::Sink, n);
    lemma_count_same(g.stages, h.stages, HyperRole::Source, n);
    assert forall|i: int| 0 <= i < g.hedges.len() implies #[trigger] edge_parts(ws, h.hedges)[i]
        == edge_parts(vs, g.hedges)[i] by {
        let a = g.hedges[i];
        let b = h.hedges[i];
        lemma_roles_renamed(f, vs, ws, a.members);
        lemma_roles_renamed(f, vs, ws, a.producers);
        lemma_roles_renamed(f, vs, ws, a.consumers);
        if a.members.len() > 0 {
            lemma_role_renamed(f, vs, ws, a.members[0], 0);
            assert(b.members[0] == f(a.members[0]));
            lemma_roles_renamed(f, vs, ws, a.members.skip(1));
            assert(b.members.skip(1) =~= renamed(f, a.members.skip(1)));
        }
        match a.judge {
            Some(j) => {
                lemma_role_renamed(f, vs, ws, j, 0);
            },
            None => {},
        }
    }
    assert(edge_parts(ws, h.hedges) =~= edge_parts(vs, g.hedges));
    if judged(g) && !g.require.judge {
        let i = choose|i: int| 0 <= i < vs.len() && (#[trigger] vs[i]).role == HyperRole::Judge;
        assert(ws[i].role == HyperRole::Judge);
    }
    if judged(h) && !h.require.judge {
        let i = choose|i: int| 0 <= i < ws.len() && (#[trigger] ws[i]).role == HyperRole::Judge;
        assert(vs[i].role == HyperRole::Judge);
    }
}

} // verus!
