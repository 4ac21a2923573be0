//! The checks on a hypergraph and its projection onto stages.

use crate::hyper;
use crate::hyper::{GError, GHedge, GStage, GVertex, HedgeKind, HyperError, HyperRole, HyperStage, Hyperedge, Vertex};
use crate::order;
use crate::order::TextSet;
use crate::text;
use vstd::prelude::*;

verus! {

/// A complaint about the text as a whole.
pub open spec fn whole(msg: Seq<char>) -> GError {
    GError { line: 0, msg }
}

/// A complaint about the text as a whole.
pub fn complaint(msg: String) -> (r: HyperError)
    ensures
        r@ == whole(msg@),
{
    HyperError { line: 0, msg }
}

// ── Checks ──

/// The names of the vertices.
pub open spec fn vertex_names(vs: Seq<GVertex>) -> Seq<Seq<char>> {
    vs.map_values(|v: GVertex| v.name)
}

/// The first vertex from the `i`-th on with the name of an earlier one.
pub open spec fn repeated(vs: Seq<GVertex>, i: int) -> Option<Seq<char>>
    decreases vs.len() - i,
{
    if i >= vs.len() {
        None
    } else if vertex_names(vs).take(i).contains(vs[i].name) {
        Some(vs[i].name)
    } else {
        repeated(vs, i + 1)
    }
}

/// The first of `ms` from the `i`-th on that is none of the names.
pub open spec fn stranger(names: Seq<Seq<char>>, ms: Seq<Seq<char>>, i: int) -> Option<Seq<char>>
    decreases ms.len() - i,
{
    if i >= ms.len() {
        None
    } else if !names.contains(ms[i]) {
        Some(ms[i])
    } else {
        stranger(names, ms, i + 1)
    }
}

/// What is wrong with a member that is no vertex.
pub open spec fn bad_member(h: GHedge, m: Seq<char>) -> Seq<char> {
    "hyperedge "@ + text::debug_quoted(h.name) + " member "@ + text::debug_quoted(m)
        + " unknown vertex"@
}

/// What is wrong with a port that is no vertex.
pub open spec fn bad_port(h: GHedge, m: Seq<char>) -> Seq<char> {
    "hyperedge "@ + text::debug_quoted(h.name) + " port "@ + text::debug_quoted(m)
        + " unknown vertex"@
}

/// What is wrong with the first unknown member.
pub open spec fn member_fault(names: Seq<Seq<char>>, h: GHedge) -> Option<Seq<char>> {
    match stranger(names, h.members, 0) {
        Some(m) => Some(bad_member(h, m)),
        None => None,
    }
}

/// What is wrong with an edge.
pub open spec fn hedge_fault(names: Seq<Seq<char>>, h: GHedge) -> Option<Seq<char>> {
    match h.kind {
        HedgeKind::Gate => match h.judge {
            None => Some(
                "gate hedge "@ + text::debug_quoted(h.name)
                    + " needs judge=… (explicit ports; no last-member heuristic)"@,
            ),
            Some(j) => if h.consumers.len() == 0 {
                Some("gate hedge "@ + text::debug_quoted(h.name) + " needs consumers=…"@)
            } else {
                match stranger(names, h.producers + seq![j] + h.consumers, 0) {
                    Some(m) => Some(bad_port(h, m)),
                    None => None,
                }
            },
        },
        HedgeKind::Chain => if h.members.len() < 2 {
            Some("chain hedge "@ + text::debug_quoted(h.name) + " needs ≥2 members"@)
        } else {
            member_fault(names, h)
        },
        HedgeKind::Bundle => if h.members.len() == 0 {
            Some("hyperedge "@ + text::debug_quoted(h.name) + " has no members"@)
        } else {
            member_fault(names, h)
        },
        HedgeKind::Xor => if h.members.len() == 0 {
            Some("hyperedge "@ + text::debug_quoted(h.name) + " has no members"@)
        } else if h.members.len() < 2 {
            Some(
                "xor hedge "@ + text::debug_quoted(h.name)
                    + " needs ≥2 members (slot=first, rest=alts)"@,
            )
        } else {
            member_fault(names, h)
        },
    }
}

/// What is wrong with the first faulty edge from the `i`-th on.
pub open spec fn hedges_fault(names: Seq<Seq<char>>, hs: Seq<GHedge>, i: int) -> Option<Seq<char>>
    decreases hs.len() - i,
{
    if i >= hs.len() {
        None
    } else {
        match hedge_fault(names, hs[i]) {
            Some(m) => Some(m),
            None => hedges_fault(names, hs, i + 1),
        }
    }
}

/// What is wrong with a hypergraph.
pub open spec fn graph_fault(
    vs: Seq<GVertex>,
    hs: Seq<GHedge>,
    deliver: Option<Seq<char>>,
) -> Option<Seq<char>> {
    match repeated(vs, 0) {
        Some(n) => Some("duplicate vertex "@ + text::debug_quoted(n)),
        None => match hedges_fault(vertex_names(vs), hs, 0) {
            Some(m) => Some(m),
            None => match deliver {
                Some(d) if !vertex_names(vs).contains(d) => Some(
                    ".deliver("@ + text::debug_quoted(d) + ") unknown vertex"@,
                ),
                _ => None,
            },
        },
    }
}

/// What came of a check, as values.
pub open spec fn check_view(r: Result<(), HyperError>) -> Option<GError> {
    match r {
        Ok(_) => None,
        Err(e) => Some(e@),
    }
}

/// A fault of the text as a whole.
pub open spec fn whole_fault(o: Option<Seq<char>>) -> Option<GError> {
    match o {
        Some(m) => Some(whole(m)),
        None => None,
    }
}

/// Whether `x` is the name of one of the first `n` vertices.
fn is_vertex(vertices: &Vec<Vertex>, x: &str, n: usize) -> (r: bool)
    requires
        n <= vertices@.len(),
    ensures
        r == vertex_names(hyper::vertex_views(vertices@)).take(n as int).contains(x@),
{
    let ghost names = vertex_names(hyper::vertex_views(vertices@));
    let mut i: usize = 0;
    while i < n
        invariant
            i <= n <= vertices@.len(),
            names == vertex_names(hyper::vertex_views(vertices@)),
            forall|k: int| 0 <= k < i ==> #[trigger] names.take(n as int)[k] != x@,
        decreases n - i,
    {
        assert(names.take(n as int)[i as int] == vertices@[i as int].name@);
        if text::same(vertices[i].name.as_str(), x) {
            return true;
        }
        i += 1;
    }
    false
}

/// Whether `x` is the name of a vertex.
fn known(vertices: &Vec<Vertex>, x: &str) -> (r: bool)
    ensures
        r == vertex_names(hyper::vertex_views(vertices@)).contains(x@),
{
    let ghost names = vertex_names(hyper::vertex_views(vertices@));
    assert(names.take(names.len() as int) =~= names);
    is_vertex(vertices, x, vertices.len())
}

/// The first of the names that is no vertex.
fn first_stranger(vertices: &Vec<Vertex>, ms: &Vec<String>) -> (r: Option<String>)
    ensures
        text::opt_view(r) == stranger(
            vertex_names(hyper::vertex_views(vertices@)),
            text::views(ms@),
            0,
        ),
{
    let ghost names = vertex_names(hyper::vertex_views(vertices@));
    let ghost mv = text::views(ms@);
    let mut i: usize = 0;
    while i < ms.len()
        invariant
            i <= ms@.len(),
            names == vertex_names(hyper::vertex_views(vertices@)),
            mv == text::views(ms@),
            stranger(names, mv, 0) == stranger(names, mv, i as int),
        decreases ms@.len() - i,
    {
        if !known(vertices, ms[i].as_str()) {
            return Some(ms[i].clone());
        }
        i += 1;
    }
    None
}

/// A sentence about an edge and one of the names in it.
fn about(h: &Hyperedge, what: &str, m: &str) -> (r: String)
    ensures
        r@ == "hyperedge "@ + text::debug_quoted(h.name@) + what@ + text::debug_quoted(m@)
            + " unknown vertex"@,
{
    let mut s = "hyperedge ".to_owned();
    s.append(text::debug_quote(h.name.as_str()).as_str());
    s.append(what);
    s.append(text::debug_quote(m).as_str());
    s.append(" unknown vertex");
    s
}

/// A sentence about an edge.
fn of_hedge(kind: &str, h: &Hyperedge, what: &str) -> (r: String)
    ensures
        r@ == kind@ + text::debug_quoted(h.name@) + what@,
{
    let mut s = kind.to_owned();
    s.append(text::debug_quote(h.name.as_str()).as_str());
    s.append(what);
    s
}

/// The ports of a gate in order.
fn ports(h: &Hyperedge, judge: &String) -> (r: Vec<String>)
    ensures
        text::views(r@) == h@.producers + seq![judge@] + h@.consumers,
{
    let mut out = text::copy_all(&h.producers);
    let ghost p = text::views(out@);
    let ghost before = out@;
    out.push(judge.clone());
    assert(text::views(out@) =~= text::views(before).push(judge@));
    assert(text::views(out@) =~= p + seq![judge@]);
    let ghost start = text::views(out@);
    let ghost cv = text::views(h.consumers@);
    let mut i: usize = 0;
    assert(start + cv.take(0) =~= start);
    while i < h.consumers.len()
        invariant
            i <= h.consumers@.len(),
            cv == text::views(h.consumers@),
            text::views(out@) == start + cv.take(i as int),
        decreases h.consumers@.len() - i,
    {
        let ghost b = out@;
        out.push(h.consumers[i].clone());
        assert(text::views(out@) =~= text::views(b).push(cv[i as int]));
        assert(start + cv.take(i + 1) =~= (start + cv.take(i as int)).push(cv[i as int]));
        i += 1;
    }
    assert(cv.take(i as int) =~= cv);
    out
}

/// What is wrong with an edge.
fn fault_of_hedge(vertices: &Vec<Vertex>, h: &Hyperedge) -> (r: Option<String>)
    ensures
        text::opt_view(r) == hedge_fault(vertex_names(hyper::vertex_views(vertices@)), h@),
{
    match h.kind {
        HedgeKind::Gate => {
            match &h.judge {
                None => Some(
                    of_hedge(
                        "gate hedge ",
                        h,
                        " needs judge=… (explicit ports; no last-member heuristic)",
                    ),
                ),
                Some(j) => {
                    if h.consumers.len() == 0 {
                        return Some(of_hedge("gate hedge ", h, " needs consumers=…"));
                    }
                    let all = ports(h, j);
                    match first_stranger(vertices, &all) {
                        Some(m) => Some(about(h, " port ", m.as_str())),
                        None => None,
                    }
                },
            }
        },
        HedgeKind::Chain => {
            if h.members.len() < 2 {
                return Some(of_hedge("chain hedge ", h, " needs ≥2 members"));
            }
            match first_stranger(vertices, &h.members) {
                Some(m) => Some(about(h, " member ", m.as_str())),
                None => None,
            }
        },
        HedgeKind::Bundle => {
            if h.members.len() == 0 {
                return Some(of_hedge("hyperedge ", h, " has no members"));
            }
            match first_stranger(vertices, &h.members) {
                Some(m) => Some(about(h, " member ", m.as_str())),
                None => None,
            }
        },
        HedgeKind::Xor => {
            if h.members.len() == 0 {
                return Some(of_hedge("hyperedge ", h, " has no members"));
            }
            if h.members.len() < 2 {
                return Some(
                    of_hedge("xor hedge ", h, " needs ≥2 members (slot=first, rest=alts)"),
                );
            }
            match first_stranger(vertices, &h.members) {
                Some(m) => Some(about(h, " member ", m.as_str())),
                None => None,
            }
        },
    }
}

/// Checks a hypergraph: no vertex stands twice, every edge is complete and
/// joins vertices alone, and what is delivered is a vertex.
pub fn validate_hypergraph(
    vertices: &Vec<Vertex>,
    hedges: &Vec<Hyperedge>,
    deliver: &Option<String>,
) -> (r: Result<(), HyperError>)
    ensures
        check_view(r) == whole_fault(
            graph_fault(
                hyper::vertex_views(vertices@),
                hyper::hedge_views(hedges@),
                text::opt_view(*deliver),
            ),
        ),
{
    let ghost vs = hyper::vertex_views(vertices@);
    let ghost hs = hyper::hedge_views(hedges@);
    let ghost names = vertex_names(vs);
    let mut i: usize = 0;
    while i < vertices.len()
        invariant
            i <= vertices@.len(),
            vs == hyper::vertex_views(vertices@),
            repeated(vs, 0) == repeated(vs, i as int),
        decreases vertices@.len() - i,
    {
        if is_vertex(vertices, vertices[i].name.as_str(), i) {
            let mut m = "duplicate vertex ".to_owned();
            m.append(text::debug_quote(vertices[i].name.as_str()).as_str());
            return Err(complaint(m));
        }
        i += 1;
    }
    let mut j: usize = 0;
    while j < hedges.len()
        invariant
            j <= hedges@.len(),
            vs == hyper::vertex_views(vertices@),
            repeated(vs, 0) is None,
            names == vertex_names(vs),
            hs == hyper::hedge_views(hedges@),
            hedges_fault(names, hs, 0) == hedges_fault(names, hs, j as int),
        decreases hedges@.len() - j,
    {
        match fault_of_hedge(vertices, &hedges[j]) {
            Some(m) => {
                return Err(complaint(m));
            },
            None => {},
        }
        j += 1;
    }
    match deliver {
        Some(d) => {
            if !known(vertices, d.as_str()) {
                let mut m = ".deliver(".to_owned();
                m.append(text::debug_quote(d.as_str()).as_str());
                m.append(") unknown vertex");
                return Err(complaint(m));
            }
        },
        None => {},
    }
    Ok(())
}

// ── Projection ──

/// Whether an edge needs `x` as a stage: as the slot of a choice, or anywhere
/// in an edge of another kind.
pub open spec fn needs(h: GHedge, x: Seq<char>) -> bool {
    match h.kind {
        HedgeKind::Xor => h.members.len() > 0 && h.members[0] == x,
        HedgeKind::Chain => h.members.contains(x),
        HedgeKind::Bundle => h.members.contains(x),
        HedgeKind::Gate => h.judge == Some(x) || h.producers.contains(x) || h.consumers.contains(x),
    }
}

/// Whether `x` is an alternative for the slot of a choice.
pub open spec fn alternative(h: GHedge, x: Seq<char>) -> bool {
    h.kind == HedgeKind::Xor && exists|k: int|
        1 <= k < h.members.len() && #[trigger] h.members[k] == x
}

/// Whether `x` is an alternative and nothing more: such a vertex is no stage.
pub open spec fn suppressed(hs: Seq<GHedge>, x: Seq<char>) -> bool {
    &&& exists|i: int| 0 <= i < hs.len() && #[trigger] alternative(hs[i], x)
    &&& forall|i: int| 0 <= i < hs.len() ==> !(#[trigger] needs(hs[i], x))
}

/// Whether `u` stands right in front of `v` at place `k`.
pub open spec fn adjacent(ms: Seq<Seq<char>>, k: int, u: Seq<char>, v: Seq<char>) -> bool {
    0 <= k && k + 1 < ms.len() && ms[k] == u && ms[k + 1] == v
}

/// Whether an edge hands the result of `u` to `v`: a chain to the next one, a
/// gate from its producers to its judge.
pub open spec fn feeds(h: GHedge, u: Seq<char>, v: Seq<char>) -> bool {
    match h.kind {
        HedgeKind::Chain => exists|k: int| #[trigger] adjacent(h.members, k, u, v),
        HedgeKind::Gate => h.judge == Some(v) && h.producers.contains(u),
        _ => false,
    }
}

/// What the first `n` edges hand to `v`.
pub open spec fn inputs_upto(hs: Seq<GHedge>, v: Seq<char>, n: int) -> Set<Seq<char>> {
    Set::new(|u: Seq<char>| exists|i: int| 0 <= i < n && #[trigger] feeds(hs[i], u, v))
}

/// What the edges hand to `v`.
pub open spec fn inputs(hs: Seq<GHedge>, v: Seq<char>) -> Set<Seq<char>> {
    inputs_upto(hs, v, hs.len() as int)
}

/// The judge of the last gate among the first `n` edges that `v` stands behind.
pub open spec fn gate_on(hs: Seq<GHedge>, v: Seq<char>, n: int) -> Option<Seq<char>>
    decreases n,
{
    if n <= 0 {
        None
    } else if hs[n - 1].kind == HedgeKind::Gate && hs[n - 1].consumers.contains(v) {
        hs[n - 1].judge
    } else {
        gate_on(hs, v, n - 1)
    }
}

/// How many ways to do its work the last choice among the first `n` edges with
/// the slot `v` asks for.
pub open spec fn slot_size(hs: Seq<GHedge>, v: Seq<char>, n: int) -> nat
    decreases n,
{
    if n <= 0 {
        1
    } else if hs[n - 1].kind == HedgeKind::Xor && hs[n - 1].members.len() > 0
        && hs[n - 1].members[0] == v {
        hs[n - 1].members.len()
    } else {
        slot_size(hs, v, n - 1)
    }
}

/// The stage of a vertex.
pub open spec fn stage_of(v: GVertex, hs: Seq<GHedge>) -> GStage {
    GStage {
        name: v.name,
        role: v.role,
        tags: v.tags,
        after: order::in_order(inputs(hs, v.name)),
        gated_by: gate_on(hs, v.name, hs.len() as int),
        min_impls: slot_size(hs, v.name, hs.len() as int),
    }
}

/// The stages of the first `n` vertices.
pub open spec fn stages_upto(vs: Seq<GVertex>, hs: Seq<GHedge>, n: int) -> Seq<GStage>
    decreases n,
{
    if n <= 0 {
        Seq::empty()
    } else if suppressed(hs, vs[n - 1].name) {
        stages_upto(vs, hs, n - 1)
    } else {
        stages_upto(vs, hs, n - 1).push(stage_of(vs[n - 1], hs))
    }
}

/// The first choice without members from the `i`-th edge on.
pub open spec fn empty_choice(hs: Seq<GHedge>, i: int) -> Option<Seq<char>>
    decreases hs.len() - i,
{
    if i >= hs.len() {
        None
    } else if hs[i].kind == HedgeKind::Xor && hs[i].members.len() == 0 {
        Some("xor hedge "@ + text::debug_quoted(hs[i].name) + " empty"@)
    } else {
        empty_choice(hs, i + 1)
    }
}

/// The first gate without a judge or without consumers from the `i`-th edge on.
pub open spec fn open_gate(hs: Seq<GHedge>, i: int) -> Option<Seq<char>>
    decreases hs.len() - i,
{
    if i >= hs.len() {
        None
    } else if hs[i].kind == HedgeKind::Gate && hs[i].judge is None {
        Some("gate hedge "@ + text::debug_quoted(hs[i].name) + " missing judge="@)
    } else if hs[i].kind == HedgeKind::Gate && hs[i].consumers.len() == 0 {
        Some("gate hedge "@ + text::debug_quoted(hs[i].name) + " missing consumers="@)
    } else {
        open_gate(hs, i + 1)
    }
}

/// The projection of a hypergraph.
pub open spec fn projection(vs: Seq<GVertex>, hs: Seq<GHedge>) -> Result<Seq<GStage>, GError> {
    match empty_choice(hs, 0) {
        Some(m) => Err(whole(m)),
        None => match open_gate(hs, 0) {
            Some(m) => Err(whole(m)),
            None => Ok(stages_upto(vs, hs, vs.len() as int)),
        },
    }
}

/// Stages, or a complaint, as values.
pub open spec fn stages_result(r: Result<Vec<HyperStage>, HyperError>) -> Result<
    Seq<GStage>,
    GError,
> {
    match r {
        Ok(v) => Ok(hyper::stage_views(v@)),
        Err(e) => Err(e@),
    }
}

/// Whether an edge needs `x` as a stage.
fn hedge_needs(h: &Hyperedge, x: &str) -> (r: bool)
    ensures
        r == needs(h@, x@),
{
    match h.kind {
        HedgeKind::Xor => h.members.len() > 0 && text::same(h.members[0].as_str(), x),
        HedgeKind::Chain => text::is_one_of(x, &h.members),
        HedgeKind::Bundle => text::is_one_of(x, &h.members),
        HedgeKind::Gate => {
            let judge = match &h.judge {
                Some(j) => text::same(j.as_str(), x),
                None => false,
            };
            judge || text::is_one_of(x, &h.producers) || text::is_one_of(x, &h.consumers)
        },
    }
}

/// Whether `x` is an alternative for the slot of a choice.
fn is_alternative(h: &Hyperedge, x: &str) -> (r: bool)
    ensures
        r == alternative(h@, x@),
{
    if h.kind != HedgeKind::Xor || h.members.len() == 0 {
        return false;
    }
    let mut i: usize = 1;
    while i < h.members.len()
        invariant
            1 <= i <= h.members@.len(),
            h.kind == HedgeKind::Xor,
            forall|k: int| 1 <= k < i ==> #[trigger] h@.members[k] != x@,
        decreases h.members@.len() - i,
    {
        assert(h@.members[i as int] == h.members@[i as int]@);
        if text::same(h.members[i].as_str(), x) {
            return true;
        }
        i += 1;
    }
    false
}

/// Whether `x` is an alternative and nothing more.
fn is_suppressed(hedges: &Vec<Hyperedge>, x: &str) -> (r: bool)
    ensures
        r == suppressed(hyper::hedge_views(hedges@), x@),
{
    let ghost hs = hyper::hedge_views(hedges@);
    let mut found = false;
    let mut i: usize = 0;
    while i < hedges.len()
        invariant
            i <= hedges@.len(),
            hs == hyper::hedge_views(hedges@),
            found == exists|k: int| 0 <= k < i && #[trigger] alternative(hs[k], x@),
            forall|k: int| 0 <= k < i ==> !(#[trigger] needs(hs[k], x@)),
        decreases hedges@.len() - i,
    {
        assert(hs[i as int] == hedges@[i as int]@);
        if hedge_needs(&hedges[i], x) {
            assert(needs(hs[i as int], x@));
            return false;
        }
        let here = is_alternative(&hedges[i], x);
        assert(here == alternative(hs[i as int], x@));
        if here {
            found = true;
        }
        i += 1;
    }
    found
}

/// Adds what an edge hands to `v`.
fn add_inputs(h: &Hyperedge, v: &str, into: &mut TextSet)
    requires
        old(into).wf(),
    ensures
        final(into).wf(),
        final(into)@ == old(into)@.union(Set::new(|u: Seq<char>| feeds(h@, u, v@))),
{
    let ghost old_set = into@;
    let ghost ms = h@.members;
    match h.kind {
        HedgeKind::Chain => {
            let mut k: usize = 1;
            assert(into@ =~= old_set.union(
                Set::new(
                    |u: Seq<char>| exists|q: int| q + 1 < 1 && #[trigger] adjacent(ms, q, u, v@),
                ),
            ));
            while k < h.members.len()
                invariant
                    1 <= k,
                    k <= h.members@.len() || h.members@.len() == 0,
                    ms == h@.members,
                    into.wf(),
                    into@ == old_set.union(
                        Set::new(
                            |u: Seq<char>|
                                exists|q: int| q + 1 < k && #[trigger] adjacent(ms, q, u, v@),
                        ),
                    ),
                decreases h.members@.len() - k,
            {
                assert(ms[k as int] == h.members@[k as int]@);
                assert(ms[k - 1] == h.members@[k - 1]@);
                let ghost here = into@;
                if text::same(h.members[k].as_str(), v) {
                    into.insert(h.members[k - 1].clone());
                    assert(adjacent(ms, k - 1, ms[k - 1], v@));
                }
                proof {
                    let next = Set::new(
                        |u: Seq<char>|
                            exists|q: int| q + 1 < k + 1 && #[trigger] adjacent(ms, q, u, v@),
                    );
                    assert forall|u: Seq<char>| into@.contains(u) <==> old_set.union(
                        next,
                    ).contains(u) by {
                        if next.contains(u) {
                            let q = choose|q: int|
                                q + 1 < k + 1 && #[trigger] adjacent(ms, q, u, v@);
                            if q + 1 < k {
                                assert(adjacent(ms, q, u, v@));
                            }
                        }
                        if here.contains(u) && !old_set.contains(u) {
                            let q = choose|q: int|
                                q + 1 < k && #[trigger] adjacent(ms, q, u, v@);
                            assert(adjacent(ms, q, u, v@) && q + 1 < k + 1);
                        }
                    }
                    assert(into@ =~= old_set.union(next));
                }
                k += 1;
            }
            proof {
                let all = Set::new(|u: Seq<char>| feeds(h@, u, v@));
                let done = Set::new(
                    |u: Seq<char>| exists|q: int| q + 1 < k && #[trigger] adjacent(ms, q, u, v@),
                );
                assert forall|u: Seq<char>| all.contains(u) <==> done.contains(u) by {
                    if all.contains(u) {
                        let q = choose|q: int| #[trigger] adjacent(ms, q, u, v@);
                        assert(q + 1 < k && adjacent(ms, q, u, v@));
                    }
                }
                assert(all =~= done);
            }
        },
        HedgeKind::Gate => {
            let mine = match &h.judge {
                Some(j) => text::same(j.as_str(), v),
                None => false,
            };
            if mine {
                let ghost ps = h@.producers;
                let mut i: usize = 0;
                assert(into@ =~= old_set.union(ps.take(0).to_set()));
                while i < h.producers.len()
                    invariant
                        i <= h.producers@.len(),
                        ps == h@.producers,
                        into.wf(),
                        into@ == old_set.union(ps.take(i as int).to_set()),
                    decreases h.producers@.len() - i,
                {
                    into.insert(h.producers[i].clone());
                    proof {
                        let a = ps.take(i as int);
                        let b = ps.take(i + 1);
                        assert(b =~= a.push(ps[i as int]));
                        assert forall|x: Seq<char>| b.to_set().contains(x) <==> a.to_set().insert(
                            ps[i as int],
                        ).contains(x) by {
                            if a.contains(x) {
                                let j = choose|j: int| 0 <= j < a.len() && a[j] == x;
                                assert(b[j] == x);
                            }
                            assert(b[i as int] == ps[i as int]);
                        }
                        assert(into@ =~= old_set.union(b.to_set()));
                    }
                    i += 1;
                }
                assert(ps.take(i as int) =~= ps);
                assert(Set::new(|u: Seq<char>| feeds(h@, u, v@)) =~= ps.to_set());
            } else {
                assert(Set::new(|u: Seq<char>| feeds(h@, u, v@)) =~= Set::<Seq<char>>::empty());
            }
            assert(into@ =~= old_set.union(Set::new(|u: Seq<char>| feeds(h@, u, v@))));
        },
        _ => {
            assert(into@ =~= old_set.union(Set::new(|u: Seq<char>| feeds(h@, u, v@))));
        },
    }
}

/// The stage of a vertex.
fn make_stage(v: &Vertex, hedges: &Vec<Hyperedge>) -> (r: HyperStage)
    requires
        v.tags.wf(),
    ensures
        r@ == stage_of(v@, hyper::hedge_views(hedges@)),
        r.tags.wf(),
{
    let ghost hs = hyper::hedge_views(hedges@);
    let mut after = TextSet::new();
    let mut gated_by: Option<String> = None;
    let mut min_impls: usize = 1;
    let mut i: usize = 0;
    assert(after@ =~= inputs_upto(hs, v.name@, 0));
    while i < hedges.len()
        invariant
            i <= hedges@.len(),
            hs == hyper::hedge_views(hedges@),
            after.wf(),
            after@ == inputs_upto(hs, v.name@, i as int),
            text::opt_view(gated_by) == gate_on(hs, v.name@, i as int),
            min_impls == slot_size(hs, v.name@, i as int),
        decreases hedges@.len() - i,
    {
        let h: &Hyperedge = &hedges[i];
        assert(hs[i as int] == h@);
        add_inputs(h, v.name.as_str(), &mut after);
        proof {
            let a = inputs_upto(hs, v.name@, i as int);
            let b = inputs_upto(hs, v.name@, i + 1);
            let f = Set::new(|u: Seq<char>| feeds(h@, u, v.name@));
            assert forall|u: Seq<char>| b.contains(u) <==> a.union(f).contains(u) by {
                if f.contains(u) {
                    assert(feeds(hs[i as int], u, v.name@));
                }
            }
            assert(a.union(f) =~= b);
        }
        if h.kind == HedgeKind::Gate && text::is_one_of(v.name.as_str(), &h.consumers) {
            gated_by = match &h.judge {
                Some(j) => Some(j.clone()),
                None => None,
            };
        }
        if h.kind == HedgeKind::Xor && h.members.len() > 0 && text::same(
            h.members[0].as_str(),
            v.name.as_str(),
        ) {
            min_impls = h.members.len();
        }
        i += 1;
    }
    proof {
        order::lemma_in_order(after.seq());
    }
    HyperStage {
        name: v.name.clone(),
        role: v.role,
        tags: v.tags.duplicate(),
        after: after.to_vec(),
        gated_by,
        min_impls,
    }
}

/// The projection of a hypergraph onto stages, in the order of the vertices.
/// Alternatives of a choice that nothing else needs are no stages; a stage
/// behind a gate does not get the judge as an input.
pub fn project_stages(vertices: &Vec<Vertex>, hedges: &Vec<Hyperedge>) -> (r: Result<
    Vec<HyperStage>,
    HyperError,
>)
    requires
        hyper::vertices_wf(vertices@),
    ensures
        stages_result(r) == projection(
            hyper::vertex_views(vertices@),
            hyper::hedge_views(hedges@),
        ),
        r matches Ok(v) ==> hyper::stages_wf(v@),
{
    let ghost vs = hyper::vertex_views(vertices@);
    let ghost hs = hyper::hedge_views(hedges@);
    let mut i: usize = 0;
    while i < hedges.len()
        invariant
            i <= hedges@.len(),
            hs == hyper::hedge_views(hedges@),
            empty_choice(hs, 0) == empty_choice(hs, i as int),
        decreases hedges@.len() - i,
    {
        assert(hs[i as int] == hedges@[i as int]@);
        if hedges[i].kind == HedgeKind::Xor && hedges[i].members.len() == 0 {
            return Err(complaint(of_hedge("xor hedge ", &hedges[i], " empty")));
        }
        i += 1;
    }
    let mut j: usize = 0;
    while j < hedges.len()
        invariant
            j <= hedges@.len(),
            hs == hyper::hedge_views(hedges@),
            empty_choice(hs, 0) is None,
            open_gate(hs, 0) == open_gate(hs, j as int),
        decreases hedges@.len() - j,
    {
        assert(hs[j as int] == hedges@[j as int]@);
        if hedges[j].kind == HedgeKind::Gate {
            if hedges[j].judge.is_none() {
                return Err(complaint(of_hedge("gate hedge ", &hedges[j], " missing judge=")));
            }
            if hedges[j].consumers.len() == 0 {
                return Err(complaint(of_hedge("gate hedge ", &hedges[j], " missing consumers=")));
            }
        }
        j += 1;
    }
    let mut out: Vec<HyperStage> = Vec::new();
    let mut k: usize = 0;
    assert(hyper::stage_views(out@) =~= Seq::<GStage>::empty());
    while k < vertices.len()
        invariant
            k <= vertices@.len(),
            vs == hyper::vertex_views(vertices@),
            hs == hyper::hedge_views(hedges@),
            hyper::vertices_wf(vertices@),
            hyper::stages_wf(out@),
            hyper::stage_views(out@) == stages_upto(vs, hs, k as int),
        decreases vertices@.len() - k,
    {
        let v: &Vertex = &vertices[k];
        assert(vs[k as int] == v@);
        if !is_suppressed(hedges, v.name.as_str()) {
            let s = make_stage(v, hedges);
            let ghost sv = s@;
            let ghost before = out@;
            out.push(s);
            assert(hyper::stage_views(out@) =~= hyper::stage_views(before).push(sv));
        }
        k += 1;
    }
    Ok(out)
}

// ── References between stages ──

/// The names of the stages.
pub open spec fn stage_names(ss: Seq<GStage>) -> Seq<Seq<char>> {
    ss.map_values(|s: GStage| s.name)
}

/// What is wrong with the references of a stage.
pub open spec fn stage_fault(names: Seq<Seq<char>>, s: GStage) -> Option<Seq<char>> {
    match stranger(names, s.after, 0) {
        Some(a) => Some(
            "stage "@ + text::debug_quoted(s.name) + " after="@ + text::debug_quoted(a)
                + " unknown"@,
        ),
        None => match s.gated_by {
            Some(g) if !names.contains(g) => Some(
                "stage "@ + text::debug_quoted(s.name) + " gated_by="@ + text::debug_quoted(g)
                    + " unknown"@,
            ),
            _ => None,
        },
    }
}

/// What is wrong with the references of the first faulty stage from the `i`-th on.
pub open spec fn stages_fault(names: Seq<Seq<char>>, ss: Seq<GStage>, i: int) -> Option<Seq<char>>
    decreases ss.len() - i,
{
    if i >= ss.len() {
        None
    } else {
        match stage_fault(names, ss[i]) {
            Some(m) => Some(m),
            None => stages_fault(names, ss, i + 1),
        }
    }
}

/// What is wrong with the references between stages.
pub open spec fn refs_fault(ss: Seq<GStage>, deliver: Option<Seq<char>>) -> Option<Seq<char>> {
    match stages_fault(stage_names(ss), ss, 0) {
        Some(m) => Some(m),
        None => match deliver {
            Some(d) if !stage_names(ss).contains(d) => Some(
                ".deliver("@ + text::debug_quoted(d) + ") unknown stage"@,
            ),
            _ => None,
        },
    }
}

/// Whether `x` is the name of a stage.
pub fn is_stage(stages: &Vec<HyperStage>, x: &str) -> (r: bool)
    ensures
        r == stage_names(hyper::stage_views(stages@)).contains(x@),
{
    let ghost names = stage_names(hyper::stage_views(stages@));
    let mut i: usize = 0;
    while i < stages.len()
        invariant
            i <= stages@.len(),
            names == stage_names(hyper::stage_views(stages@)),
            forall|k: int| 0 <= k < i ==> #[trigger] names[k] != x@,
        decreases stages@.len() - i,
    {
        assert(names[i as int] == stages@[i as int].name@);
        if text::same(stages[i].name.as_str(), x) {
            return true;
        }
        i += 1;
    }
    false
}

/// A sentence about a stage and one of its references.
fn of_stage(s: &HyperStage, what: &str, a: &str) -> (r: String)
    ensures
        r@ == "stage "@ + text::debug_quoted(s.name@) + what@ + text::debug_quoted(a@)
            + " unknown"@,
{
    let mut m = "stage ".to_owned();
    m.append(text::debug_quote(s.name.as_str()).as_str());
    m.append(what);
    m.append(text::debug_quote(a).as_str());
    m.append(" unknown");
    m
}

/// Checks that the stages and the delivery refer to stages alone.
pub fn validate_spec_refs(stages: &Vec<HyperStage>, deliver: &Option<String>) -> (r: Result<
    (),
    HyperError,
>)
    ensures
        check_view(r) == whole_fault(
            refs_fault(hyper::stage_views(stages@), text::opt_view(*deliver)),
        ),
{
    let ghost ss = hyper::stage_views(stages@);
    let ghost names = stage_names(ss);
    let mut i: usize = 0;
    while i < stages.len()
        invariant
            i <= stages@.len(),
            ss == hyper::stage_views(stages@),
            names == stage_names(ss),
            stages_fault(names, ss, 0) == stages_fault(names, ss, i as int),
        decreases stages@.len() - i,
    {
        let s: &HyperStage = &stages[i];
        let ghost av = s@.after;
        assert(ss[i as int] == s@);
        let mut j: usize = 0;
        while j < s.after.len()
            invariant
                i < stages@.len(),
                j <= s.after@.len(),
                ss == hyper::stage_views(stages@),
                names == stage_names(ss),
                ss[i as int] == s@,
                av == s@.after,
                stages_fault(names, ss, 0) == stages_fault(names, ss, i as int),
                stranger(names, av, 0) == stranger(names, av, j as int),
            decreases s.after@.len() - j,
        {
            if !is_stage(stages, s.after[j].as_str()) {
                return Err(complaint(of_stage(s, " after=", s.after[j].as_str())));
            }
            j += 1;
        }
        match &s.gated_by {
            Some(g) => {
                if !is_stage(stages, g.as_str()) {
                    return Err(complaint(of_stage(s, " gated_by=", g.as_str())));
                }
            },
            None => {},
        }
        i += 1;
    }
    match deliver {
        Some(d) => {
            if !is_stage(stages, d.as_str()) {
                let mut m = ".deliver(".to_owned();
                m.append(text::debug_quote(d.as_str()).as_str());
                m.append(") unknown stage");
                return Err(complaint(m));
            }
        },
        None => {},
    }
    Ok(())
}

} // verus!
