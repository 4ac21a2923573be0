//! Extracting a plan from an e-graph: one proc and one implementation for each
//! class, in an order in which every class comes after those it depends on.

use crate::ast::{Impl, Pipeline, Proc};
use crate::body;
use crate::egraph;
use crate::egraph::EGraph;
use crate::fuse;
use crate::order;
use crate::order::TextMap;
use crate::text;
use vstd::prelude::*;

verus! {

// ── The order of the classes ──

/// Class `to` depends on class `from`: an edge leads from a proc of the one to a
/// proc of the other.
pub open spec fn depends(m: egraph::Graph, edges: Seq<(Seq<char>, Seq<char>)>, to: int, from: int) -> bool {
    to != from && exists|k: int| 0 <= k < edges.len() && #[trigger] edge_links(m, edges[k], to, from)
}

/// The edge leads from a proc of class `from` to a proc of class `to`.
pub open spec fn edge_links(m: egraph::Graph, e: (Seq<char>, Seq<char>), to: int, from: int) -> bool {
    &&& m.index.dom().contains(e.0)
    &&& m.index.dom().contains(e.1)
    &&& m.roots[m.index[e.0]] == from
    &&& m.roots[m.index[e.1]] == to
}

/// Class `c` is still to come, and all that it depends on is done.
pub open spec fn ready(m: egraph::Graph, edges: Seq<(Seq<char>, Seq<char>)>, done: Seq<int>, c: int) -> bool {
    &&& egraph::active(m, c)
    &&& !done.contains(c)
    &&& forall|f: int| #[trigger] depends(m, edges, c, f) ==> done.contains(f)
}

/// The first class from `c` on that is ready.
pub open spec fn next_ready(
    m: egraph::Graph,
    edges: Seq<(Seq<char>, Seq<char>)>,
    done: Seq<int>,
    c: int,
) -> Option<int>
    decreases m.classes.len() - c,
{
    if c >= m.classes.len() {
        None
    } else if ready(m, edges, done, c) {
        Some(c)
    } else {
        next_ready(m, edges, done, c + 1)
    }
}

/// The classes in order, `done` first: each time the first that is ready, at
/// most `n` of them.
pub open spec fn kahn(m: egraph::Graph, edges: Seq<(Seq<char>, Seq<char>)>, done: Seq<int>, n: int) -> Seq<int>
    decreases n,
{
    match next_ready(m, edges, done, 0) {
        Some(c) if n > 0 => kahn(m, edges, done.push(c), n - 1),
        _ => done,
    }
}

/// `done`, then the classes from `c` on that it does not hold.
pub open spec fn with_rest(m: egraph::Graph, done: Seq<int>, c: int) -> Seq<int>
    decreases m.classes.len() - c,
{
    if c >= m.classes.len() {
        done
    } else if egraph::active(m, c) && !done.contains(c) {
        with_rest(m, done.push(c), c + 1)
    } else {
        with_rest(m, done, c + 1)
    }
}

/// The order of the classes; those in a ring of dependencies come last.
pub open spec fn class_order(m: egraph::Graph, edges: Seq<(Seq<char>, Seq<char>)>) -> Seq<int> {
    with_rest(m, kahn(m, edges, Seq::empty(), m.classes.len() as int), 0)
}

// ── The choice within a class ──

/// A candidate: an implementation of a proc.
pub struct Pick {
    pub proc: Seq<char>,
    pub imp: Seq<char>,
    pub cost: int,
    pub reads: bool,
}

/// The implementation only reads a file.
pub open spec fn only_reads(i: Impl) -> bool {
    body::body_op_spec(i.body_text@) == "read"@ || body::body_op_spec(i.body_text@) == "read_file"@
}

/// The enabled implementations of a proc from the `i`-th on.
pub open spec fn proc_pool(p: Proc, i: int) -> Seq<Pick>
    decreases p.plan@.len() - i,
{
    if i >= p.plan@.len() {
        Seq::empty()
    } else if p.plan@[i].enabled {
        seq![
            Pick {
                proc: p.name@,
                imp: p.plan@[i].name@,
                cost: p.plan@[i].cost_key as int,
                reads: only_reads(p.plan@[i]),
            },
        ] + proc_pool(p, i + 1)
    } else {
        proc_pool(p, i + 1)
    }
}

/// The enabled implementations of those of the names from the `k`-th on that
/// are procs and deliver nothing.
pub open spec fn pool(procs: Seq<Proc>, names: Seq<Seq<char>>, k: int) -> Seq<Pick>
    decreases names.len() - k,
{
    if k >= names.len() {
        Seq::empty()
    } else {
        match egraph::proc_at(procs, names[k], 0) {
            Some(p) if !procs[p].deliver => proc_pool(procs[p], 0) + pool(procs, names, k + 1),
            _ => pool(procs, names, k + 1),
        }
    }
}

/// There is a candidate that does more than read a file.
pub open spec fn has_maker(s: Seq<Pick>) -> bool {
    exists|i: int| 0 <= i < s.len() && !(#[trigger] s[i]).reads
}

/// `a` is to be preferred to `b`: it is cheaper; at equal cost its proc comes
/// first by name, then its implementation.
pub open spec fn better(a: Pick, b: Pick) -> bool {
    ||| a.cost < b.cost
    ||| a.cost == b.cost && order::text_lt(a.proc, b.proc)
    ||| a.cost == b.cost && a.proc == b.proc && order::text_lt(a.imp, b.imp)
}

/// The best of the first `n` candidates; one that only reads a file counts only
/// where all do.
pub open spec fn best_of(s: Seq<Pick>, n: int) -> Option<Pick>
    decreases n,
{
    if n <= 0 {
        None
    } else {
        let before = best_of(s, n - 1);
        if has_maker(s) && s[n - 1].reads {
            before
        } else {
            match before {
                Some(b) if !better(s[n - 1], b) => before,
                _ => Some(s[n - 1]),
            }
        }
    }
}

/// The choice for a class.
pub open spec fn choice(m: egraph::Graph, procs: Seq<Proc>, c: int) -> Option<Pick> {
    let s = pool(procs, m.classes[c].procs, 0);
    best_of(s, s.len() as int)
}

// ── The plan ──

/// A plan as values.
pub struct GPlan {
    pub order: Seq<Seq<char>>,
    pub picks: Map<Seq<char>, (Seq<char>, Seq<char>)>,
    pub costs: Map<Seq<char>, int>,
    pub aliases: Map<Seq<char>, Seq<char>>,
}

/// The aliases with each of the first `k` names other than `rep` standing for `rep`.
pub open spec fn aliased(
    a: Map<Seq<char>, Seq<char>>,
    names: Seq<Seq<char>>,
    rep: Seq<char>,
    k: int,
) -> Map<Seq<char>, Seq<char>>
    decreases k,
{
    if k <= 0 {
        a
    } else if names[k - 1] != rep {
        aliased(a, names, rep, k - 1).insert(names[k - 1], rep)
    } else {
        aliased(a, names, rep, k - 1)
    }
}

/// The plan for the first `k` classes of `topo`.
pub open spec fn plan_of(m: egraph::Graph, procs: Seq<Proc>, topo: Seq<int>, k: int) -> GPlan
    decreases k,
{
    if k <= 0 {
        GPlan {
            order: Seq::empty(),
            picks: Map::empty(),
            costs: Map::empty(),
            aliases: Map::empty(),
        }
    } else {
        let before = plan_of(m, procs, topo, k - 1);
        let c = topo[k - 1];
        match choice(m, procs, c) {
            Some(p) => GPlan {
                order: before.order.push(p.proc),
                picks: before.picks.insert(p.proc, (p.proc, p.imp)),
                costs: before.costs.insert(p.proc, p.cost),
                aliases: aliased(
                    before.aliases,
                    m.classes[c].procs,
                    p.proc,
                    m.classes[c].procs.len() as int,
                ),
            },
            None => before,
        }
    }
}

/// A plan: which procs to run, in which order, with which implementation, and
/// which procs share the result of another.
#[derive(Debug)]
pub struct ExtractedPlan {
    pub order: Vec<String>,
    /// For each proc to run, itself and the chosen implementation.
    pub picks: TextMap<(String, String)>,
    /// For each proc to run, the cost key of the chosen implementation.
    pub costs: TextMap<i64>,
    /// For each proc that is not run, the one that stands for it.
    pub aliases: TextMap<String>,
}

impl ExtractedPlan {
    pub open spec fn view(&self) -> GPlan {
        GPlan {
            order: text::views(self.order@),
            picks: self.picks@.map_values(|p: (String, String)| (p.0@, p.1@)),
            costs: self.costs@.map_values(|c: i64| c as int),
            aliases: self.aliases@.map_values(|a: String| a@),
        }
    }
}

/// A candidate.
struct Candidate {
    proc: String,
    imp: String,
    cost: i64,
    reads: bool,
}

impl Candidate {
    spec fn view(&self) -> Pick {
        Pick { proc: self.proc@, imp: self.imp@, cost: self.cost as int, reads: self.reads }
    }
}

spec fn candidate_views(s: Seq<Candidate>) -> Seq<Pick> {
    s.map_values(|c: Candidate| c@)
}

/// The class of a name.
fn class_of(eg: &EGraph, name: &str) -> (r: Option<usize>)
    requires
        eg.wf(),
    ensures
        match r {
            Some(c) => eg.model().index.dom().contains(name@) && c
                == eg.model().roots[eg.model().index[name@]] && c < eg.classes@.len(),
            None => !eg.model().index.dom().contains(name@),
        },
{
    match eg.proc_class.get(name) {
        Some(c) => {
            proof {
                let ks = eg.proc_class.keys();
                let i = ks.index_of(name@);
                assert(ks.contains(name@));
                assert(eg.proc_class.values()[i] < eg.classes@.len());
                eg.uf.lemma_roots();
            }
            Some(eg.uf.find_imm(*c))
        },
        None => None,
    }
}

/// Whether class `c` is ready.
fn is_ready(eg: &EGraph, done: &Vec<usize>, c: usize) -> (r: bool)
    requires
        eg.wf(),
        c < eg.classes@.len(),
    ensures
        r == ready(
            eg.model(),
            egraph::edge_views(eg.edges@),
            egraph::ints(done@),
            c as int,
        ),
{
    let ghost m = eg.model();
    let ghost ev = egraph::edge_views(eg.edges@);
    let ghost dv = egraph::ints(done@);
    if eg.uf.find_imm(c) != c || eg.classes[c].nodes.len() == 0 || has_id(done, c) {
        return false;
    }
    let mut k: usize = 0;
    while k < eg.edges.len()
        invariant
            eg.wf(),
            m == eg.model(),
            ev == egraph::edge_views(eg.edges@),
            dv == egraph::ints(done@),
            c < eg.classes@.len(),
            k <= eg.edges@.len(),
            forall|j: int, f: int|
                0 <= j < k && f != c && #[trigger] edge_links(m, ev[j], c as int, f)
                    ==> dv.contains(f),
        decreases eg.edges@.len() - k,
    {
        assert(ev[k as int] == (eg.edges@[k as int].0@, eg.edges@[k as int].1@));
        match class_of(eg, eg.edges[k].1.as_str()) {
            Some(t) => {
                if t == c {
                    match class_of(eg, eg.edges[k].0.as_str()) {
                        Some(f) => {
                            if f != c && !has_id(done, f) {
                                assert(edge_links(m, ev[k as int], c as int, f as int));
                                assert(depends(m, ev, c as int, f as int));
                                return false;
                            }
                        },
                        None => {},
                    }
                }
            },
            None => {},
        }
        k += 1;
    }
    assert forall|f: int| #[trigger] depends(m, ev, c as int, f) implies dv.contains(f) by {
        let j = choose|j: int| 0 <= j < ev.len() && #[trigger] edge_links(m, ev[j], c as int, f);
        assert(edge_links(m, ev[j], c as int, f));
    }
    true
}

/// Whether a class is among others.
fn has_id(v: &Vec<usize>, x: usize) -> (r: bool)
    ensures
        r == egraph::ints(v@).contains(x as int),
{
    let ghost s = egraph::ints(v@);
    let mut i: usize = 0;
    while i < v.len()
        invariant
            i <= v@.len(),
            s == egraph::ints(v@),
            forall|k: int| 0 <= k < i ==> s[k] != x,
        decreases v@.len() - i,
    {
        if v[i] == x {
            assert(s[i as int] == x);
            return true;
        }
        i += 1;
    }
    false
}

/// The first class that is ready.
fn find_ready(eg: &EGraph, done: &Vec<usize>) -> (r: Option<usize>)
    requires
        eg.wf(),
    ensures
        text::opt_int(r) == next_ready(
            eg.model(),
            egraph::edge_views(eg.edges@),
            egraph::ints(done@),
            0,
        ),
        r matches Some(c) ==> c < eg.classes@.len(),
{
    let ghost m = eg.model();
    let ghost ev = egraph::edge_views(eg.edges@);
    let ghost dv = egraph::ints(done@);
    let n: usize = eg.classes.len();
    let mut c: usize = 0;
    while c < n
        invariant
            eg.wf(),
            m == eg.model(),
            ev == egraph::edge_views(eg.edges@),
            dv == egraph::ints(done@),
            n == eg.classes@.len(),
            c <= n,
            next_ready(m, ev, dv, 0) == next_ready(m, ev, dv, c as int),
        decreases n - c,
    {
        if is_ready(eg, done, c) {
            return Some(c);
        }
        c += 1;
    }
    None
}

/// The order of the classes.
fn order_classes(eg: &EGraph) -> (r: Vec<usize>)
    requires
        eg.wf(),
    ensures
        egraph::ints(r@) == class_order(eg.model(), egraph::edge_views(eg.edges@)),
        forall|i: int| 0 <= i < r@.len() ==> (#[trigger] r@[i]) < eg.classes@.len(),
{
    let ghost m = eg.model();
    let ghost ev = egraph::edge_views(eg.edges@);
    let n: usize = eg.classes.len();
    let mut done: Vec<usize> = Vec::new();
    let mut left: usize = n;
    assert(egraph::ints(done@) =~= Seq::<int>::empty());
    while left > 0
        invariant_except_break
            kahn(m, ev, Seq::empty(), n as int) == kahn(m, ev, egraph::ints(done@), left as int),
        invariant
            eg.wf(),
            m == eg.model(),
            ev == egraph::edge_views(eg.edges@),
            n == eg.classes@.len(),
            forall|i: int| 0 <= i < done@.len() ==> (#[trigger] done@[i]) < n,
        ensures
            kahn(m, ev, Seq::empty(), n as int) == egraph::ints(done@),
        decreases left,
    {
        match find_ready(eg, &done) {
            Some(c) => {
                let ghost before = done@;
                done.push(c);
                assert(egraph::ints(done@) =~= egraph::ints(before).push(c as int));
            },
            None => {
                break;
            },
        }
        left -= 1;
    }
    let ghost k = egraph::ints(done@);
    let mut c: usize = 0;
    while c < n
        invariant
            eg.wf(),
            m == eg.model(),
            n == eg.classes@.len(),
            c <= n,
            with_rest(m, k, 0) == with_rest(m, egraph::ints(done@), c as int),
            forall|i: int| 0 <= i < done@.len() ==> (#[trigger] done@[i]) < n,
        decreases n - c,
    {
        if eg.uf.find_imm(c) == c && eg.classes[c].nodes.len() > 0 && !has_id(&done, c) {
            let ghost before = done@;
            done.push(c);
            assert(egraph::ints(done@) =~= egraph::ints(before).push(c as int));
        }
        c += 1;
    }
    done
}

/// The candidates of a class.
fn collect_pool(procs: &Vec<Proc>, names: &Vec<String>) -> (r: Vec<Candidate>)
    ensures
        candidate_views(r@) == pool(procs@, text::views(names@), 0),
{
    let ghost nv = text::views(names@);
    let mut out: Vec<Candidate> = Vec::new();
    let mut k: usize = 0;
    assert(candidate_views(out@) + pool(procs@, nv, 0) =~= pool(procs@, nv, 0));
    while k < names.len()
        invariant
            k <= names@.len(),
            nv == text::views(names@),
            candidate_views(out@) + pool(procs@, nv, k as int) == pool(procs@, nv, 0),
        decreases names@.len() - k,
    {
        match fuse::find_proc(procs, names[k].as_str()) {
            Some(p) => {
                if !procs[p].deliver {
                    let ghost pr = procs@[p as int];
                    let ghost start = candidate_views(out@);
                    let mut i: usize = 0;
                    while i < procs[p].plan.len()
                        invariant
                            p < procs@.len(),
                            pr == procs@[p as int],
                            i <= pr.plan@.len(),
                            candidate_views(out@) + proc_pool(pr, i as int) == start + proc_pool(
                                pr,
                                0,
                            ),
                        decreases pr.plan@.len() - i,
                    {
                        let imp = &procs[p].plan[i];
                        if imp.enabled {
                            let op = body::body_op(imp.body_text.as_str());
                            let c = Candidate {
                                proc: procs[p].name.clone(),
                                imp: imp.name.clone(),
                                cost: imp.cost_key,
                                reads: text::same(op.as_str(), "read") || text::same(
                                    op.as_str(),
                                    "read_file",
                                ),
                            };
                            let ghost cv = c@;
                            let ghost before = out@;
                            out.push(c);
                            proof {
                                assert(candidate_views(out@) =~= candidate_views(before).push(cv));
                                assert(candidate_views(out@) + proc_pool(pr, i + 1)
                                    =~= candidate_views(before) + (seq![cv] + proc_pool(
                                    pr,
                                    i + 1,
                                )));
                            }
                        }
                        i += 1;
                    }
                    proof {
                        let rest = pool(procs@, nv, k + 1);
                        assert(candidate_views(out@) + proc_pool(pr, i as int) =~= candidate_views(
                            out@,
                        ));
                        assert(candidate_views(out@) + rest =~= start + (proc_pool(pr, 0) + rest));
                    }
                }
            },
            None => {},
        }
        k += 1;
    }
    assert(candidate_views(out@) + pool(procs@, nv, k as int) =~= candidate_views(out@));
    out
}

/// Whether `a` is to be preferred to `b`.
fn is_better(a: &Candidate, b: &Candidate) -> (r: bool)
    ensures
        r == better(a@, b@),
{
    if a.cost != b.cost {
        return a.cost < b.cost;
    }
    if order::text_less(a.proc.as_str(), b.proc.as_str()) {
        return true;
    }
    text::same(a.proc.as_str(), b.proc.as_str()) && order::text_less(
        a.imp.as_str(),
        b.imp.as_str(),
    )
}

/// The place of the best candidate.
fn pick_best(s: &Vec<Candidate>) -> (r: Option<usize>)
    ensures
        match r {
            Some(i) => i < s@.len() && best_of(candidate_views(s@), s@.len() as int) == Some(
                s@[i as int]@,
            ),
            None => best_of(candidate_views(s@), s@.len() as int) is None,
        },
{
    let ghost v = candidate_views(s@);
    let mut makers = false;
    let mut i: usize = 0;
    while i < s.len()
        invariant
            i <= s@.len(),
            v == candidate_views(s@),
            makers == exists|k: int| 0 <= k < i && !(#[trigger] v[k]).reads,
        decreases s@.len() - i,
    {
        assert(v[i as int] == s@[i as int]@);
        if !s[i].reads {
            makers = true;
        }
        i += 1;
    }
    assert(makers == has_maker(v));
    let mut best: Option<usize> = None;
    let mut k: usize = 0;
    while k < s.len()
        invariant
            k <= s@.len(),
            v == candidate_views(s@),
            makers == has_maker(v),
            match best {
                Some(b) => b < k && best_of(v, k as int) == Some(s@[b as int]@),
                None => best_of(v, k as int) is None,
            },
        decreases s@.len() - k,
    {
        assert(v[k as int] == s@[k as int]@);
        if !(makers && s[k].reads) {
            let take = match best {
                Some(b) => is_better(&s[k], &s[b]),
                None => true,
            };
            if take {
                best = Some(k);
            }
        }
        k += 1;
    }
    best
}

/// The plan of a pipeline: for each class, in order, the cheapest enabled
/// implementation of a proc that delivers nothing.
pub fn extract_plan(pl: &Pipeline, eg: &EGraph) -> (r: ExtractedPlan)
    requires
        eg.wf(),
    ensures
        r.picks.wf(),
        r.costs.wf(),
        r.aliases.wf(),
        ({
            let topo = class_order(eg.model(), egraph::edge_views(eg.edges@));
            r@ == plan_of(eg.model(), pl.procs@, topo, topo.len() as int)
        }),
{
    let ghost m = eg.model();
    let topo = order_classes(eg);
    let ghost tv = egraph::ints(topo@);
    let mut plan = ExtractedPlan {
        order: Vec::new(),
        picks: TextMap::new(),
        costs: TextMap::new(),
        aliases: TextMap::new(),
    };
    proof {
        let want = plan_of(m, pl.procs@, tv, 0);
        assert(plan@.order =~= want.order);
        assert(plan@.picks =~= want.picks);
        assert(plan@.costs =~= want.costs);
        assert(plan@.aliases =~= want.aliases);
    }
    let mut k: usize = 0;
    while k < topo.len()
        invariant
            eg.wf(),
            m == eg.model(),
            tv == egraph::ints(topo@),
            k <= topo@.len(),
            forall|i: int| 0 <= i < topo@.len() ==> (#[trigger] topo@[i]) < eg.classes@.len(),
            plan.picks.wf(),
            plan.costs.wf(),
            plan.aliases.wf(),
            plan@ == plan_of(m, pl.procs@, tv, k as int),
        decreases topo@.len() - k,
    {
        let c = topo[k];
        assert(tv[k as int] == c);
        let ghost names = m.classes[c as int].procs;
        assert(names == text::views(eg.classes@[c as int].procs@));
        let s = collect_pool(&pl.procs, &eg.classes[c].procs);
        match pick_best(&s) {
            Some(b) => {
                let ghost before = plan@;
                let ghost pick = s@[b as int]@;
                let pname = s[b].proc.clone();
                let ghost o0 = plan.order@;
                let ghost p0 = plan.picks@;
                let ghost c0 = plan.costs@;
                plan.order.push(pname.clone());
                plan.picks.insert(pname.clone(), (pname.clone(), s[b].imp.clone()));
                plan.costs.insert(pname.clone(), s[b].cost);
                proof {
                    assert(text::views(plan.order@) =~= text::views(o0).push(pick.proc));
                    assert(plan@.picks =~= before.picks.insert(pick.proc, (pick.proc, pick.imp)));
                    assert(plan@.costs =~= before.costs.insert(pick.proc, pick.cost));
                }
                let mut j: usize = 0;
                while j < eg.classes[c].procs.len()
                    invariant
                        c < eg.classes@.len(),
                        names == text::views(eg.classes@[c as int].procs@),
                        j <= names.len(),
                        pname@ == pick.proc,
                        plan.picks.wf(),
                        plan.costs.wf(),
                        plan.aliases.wf(),
                        plan@.order == before.order.push(pick.proc),
                        plan@.picks == before.picks.insert(pick.proc, (pick.proc, pick.imp)),
                        plan@.costs == before.costs.insert(pick.proc, pick.cost),
                        plan@.aliases == aliased(before.aliases, names, pick.proc, j as int),
                    decreases names.len() - j,
                {
                    if !text::same(eg.classes[c].procs[j].as_str(), pname.as_str()) {
                        let ghost a0 = plan@.aliases;
                        plan.aliases.insert(eg.classes[c].procs[j].clone(), pname.clone());
                        assert(plan@.aliases =~= a0.insert(names[j as int], pick.proc));
                    }
                    j += 1;
                }
            },
            None => {},
        }
        k += 1;
    }
    plan
}

} // verus!
