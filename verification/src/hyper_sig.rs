//! Structural fingerprints of hypergraphs and pipelines: which graphs have the
//! same shape, whatever their names and tags.

use crate::ast;
use crate::ast::{Impl, Pipeline, Proc};
use crate::body;
use crate::hyper;
use crate::hyper::{GSpec, GStage, HedgeKind, HyperRole, HyperSpec, HyperStage};
use crate::hyper_emit;
use crate::hyper_key;
use crate::hyper_parse;
use crate::order;
use crate::order::TextSet;
use crate::text;
use crate::topo;
use vstd::prelude::*;

verus! {

/// The shape of a graph: the roles in topological order, the data edges and the
/// gates by places in that order, and the tags, which do not count for the shape.
#[derive(Debug)]
pub struct StructSig {
    /// In topological order.
    pub roles: Vec<&'static str>,
    /// From, to, in topological order.
    pub edges: Vec<(usize, usize)>,
    /// Who waits for a verdict, and whose verdict it is.
    pub gates: Vec<(usize, usize)>,
    pub require_judge: bool,
    /// In the order of the roles.
    pub tags: Vec<TextSet>,
    pub hypergraph_key: Option<String>,
}

/// The shape of a graph as values.
pub struct GSig {
    pub roles: Seq<Seq<char>>,
    pub edges: Seq<(usize, usize)>,
    pub gates: Seq<(usize, usize)>,
    pub require_judge: bool,
    pub tags: Seq<Set<Seq<char>>>,
    pub hypergraph_key: Option<Seq<char>>,
}

/// The words as values.
pub open spec fn word_views(v: Seq<&'static str>) -> Seq<Seq<char>> {
    v.map_values(|s: &'static str| s@)
}

/// The sets as values.
pub open spec fn set_views(v: Seq<TextSet>) -> Seq<Set<Seq<char>>> {
    v.map_values(|s: TextSet| s@)
}

/// The members of every set are in order.
pub open spec fn sets_wf(v: Seq<TextSet>) -> bool {
    forall|i: int| 0 <= i < v.len() ==> (#[trigger] v[i]).wf()
}

impl StructSig {
    pub open spec fn view(&self) -> GSig {
        GSig {
            roles: word_views(self.roles@),
            edges: self.edges@,
            gates: self.gates@,
            require_judge: self.require_judge,
            tags: set_views(self.tags@),
            hypergraph_key: text::opt_view(self.hypergraph_key),
        }
    }
}

// ── Keys ──

/// Pairs as text.
pub open spec fn pair_texts(ps: Seq<(usize, usize)>, sep: Seq<char>) -> Seq<Seq<char>> {
    ps.map_values(|p: (usize, usize)| text::dec(p.0 as nat) + sep + text::dec(p.1 as nat))
}

/// The key of the shape by single edges and gates.
pub open spec fn dag_key_of(s: GSig) -> Seq<char> {
    "roles="@ + text::join_spec(s.roles, ">"@) + "|edges="@ + text::join_spec(
        pair_texts(order::sorted_pairs(s.edges), "-"@),
        ","@,
    ) + "|gates="@ + text::join_spec(pair_texts(order::sorted_pairs(s.gates), "<-"@), ","@)
        + "|judge="@ + (if s.require_judge {
        "1"@
    } else {
        "0"@
    })
}

/// The key of the shape: that of the hypergraph where there is one.
pub open spec fn structure_key_of(s: GSig) -> Seq<char> {
    match s.hypergraph_key {
        Some(k) => k,
        None => dag_key_of(s),
    }
}

/// The words as texts.
fn owned(words: &Vec<&'static str>) -> (r: Vec<String>)
    ensures
        text::views(r@) == word_views(words@),
{
    let mut out: Vec<String> = Vec::new();
    let mut i: usize = 0;
    let ghost all = word_views(words@);
    assert(text::views(out@) =~= all.take(0));
    while i < words.len()
        invariant
            i <= words@.len(),
            all == word_views(words@),
            text::views(out@) == all.take(i as int),
        decreases words@.len() - i,
    {
        let ghost before = out@;
        out.push(words[i].to_owned());
        assert(text::views(out@) =~= text::views(before).push(all[i as int]));
        assert(all.take(i + 1) =~= all.take(i as int).push(all[i as int]));
        i += 1;
    }
    assert(all.take(i as int) =~= all);
    out
}

/// Pairs in order, joined.
fn joined_pairs(ps: &Vec<(usize, usize)>, sep: &str) -> (r: String)
    ensures
        r@ == text::join_spec(pair_texts(order::sorted_pairs(ps@), sep@), ","@),
{
    let sorted = order::sort_pairs(ps);
    let ghost all = pair_texts(sorted@, sep@);
    let mut out: Vec<String> = Vec::new();
    let mut i: usize = 0;
    assert(text::views(out@) =~= all.take(0));
    while i < sorted.len()
        invariant
            i <= sorted@.len(),
            all == pair_texts(sorted@, sep@),
            text::views(out@) == all.take(i as int),
        decreases sorted@.len() - i,
    {
        let mut s = text::decimal(sorted[i].0 as u128);
        s.append(sep);
        s.append(text::decimal(sorted[i].1 as u128).as_str());
        assert(s@ == all[i as int]);
        let ghost before = out@;
        out.push(s);
        assert(text::views(out@) =~= text::views(before).push(all[i as int]));
        assert(all.take(i + 1) =~= all.take(i as int).push(all[i as int]));
        i += 1;
    }
    assert(all.take(i as int) =~= all);
    text::join(out.as_slice(), ",")
}

impl StructSig {
    /// The key of the shape by single edges and gates.
    pub fn dag_key(&self) -> (r: String)
        ensures
            r@ == dag_key_of(self@),
    {
        let roles = owned(&self.roles);
        let mut s = "roles=".to_owned();
        s.append(text::join(roles.as_slice(), ">").as_str());
        s.append("|edges=");
        s.append(joined_pairs(&self.edges, "-").as_str());
        s.append("|gates=");
        s.append(joined_pairs(&self.gates, "<-").as_str());
        s.append("|judge=");
        s.append(
            if self.require_judge {
                "1"
            } else {
                "0"
            },
        );
        s
    }

    /// The key of the shape: that of the hypergraph where there is one.
    pub fn structure_key(&self) -> (r: String)
        ensures
            r@ == structure_key_of(self@),
    {
        match &self.hypergraph_key {
            Some(k) => k.clone(),
            None => self.dag_key(),
        }
    }
}

// ── The shape of a hypergraph ──

/// The last of the first `n` places with the name.
pub open spec fn last_place(names: Seq<Seq<char>>, x: Seq<char>, n: int) -> Option<int>
    decreases n,
{
    if n <= 0 {
        None
    } else if names[n - 1] == x {
        Some(n - 1)
    } else {
        last_place(names, x, n - 1)
    }
}

/// The place of a name.
pub open spec fn place_of(names: Seq<Seq<char>>, x: Seq<char>) -> Option<int> {
    last_place(names, x, names.len() as int)
}

/// The edges to place `i` from the places of the first `n` inputs.
pub open spec fn edges_into(
    names: Seq<Seq<char>>,
    after: Seq<Seq<char>>,
    i: int,
    n: int,
) -> Seq<(usize, usize)>
    decreases n,
{
    if n <= 0 {
        Seq::empty()
    } else {
        let before = edges_into(names, after, i, n - 1);
        match place_of(names, after[n - 1]) {
            Some(j) => before.push((j as usize, i as usize)),
            None => before,
        }
    }
}

/// The names of the stages.
pub open spec fn stage_names(ss: Seq<GStage>) -> Seq<Seq<char>> {
    ss.map_values(|s: GStage| s.name)
}

/// The edges into the first `n` stages.
pub open spec fn stage_edges(ss: Seq<GStage>, n: int) -> Seq<(usize, usize)>
    decreases n,
{
    if n <= 0 {
        Seq::empty()
    } else {
        let after = hyper_emit::inputs_of(ss, ss[n - 1]);
        stage_edges(ss, n - 1) + edges_into(stage_names(ss), after, n - 1, after.len() as int)
    }
}

/// The edges into the first `n` stages from the inputs that they name
/// themselves.
pub open spec fn named_edges(ss: Seq<GStage>, n: int) -> Seq<(usize, usize)>
    decreases n,
{
    if n <= 0 {
        Seq::empty()
    } else {
        let after = ss[n - 1].after;
        named_edges(ss, n - 1) + edges_into(stage_names(ss), after, n - 1, after.len() as int)
    }
}

/// The gates of the first `n` stages.
pub open spec fn stage_gates(ss: Seq<GStage>, n: int) -> Seq<(usize, usize)>
    decreases n,
{
    if n <= 0 {
        Seq::empty()
    } else {
        let before = stage_gates(ss, n - 1);
        match ss[n - 1].gated_by {
            Some(g) => match place_of(stage_names(ss), g) {
                Some(j) => before.push(((n - 1) as usize, j as usize)),
                None => before,
            },
            None => before,
        }
    }
}

/// The topological order of the stages. A stage that names no input follows the
/// stage declared before it; where that closes a ring, only the inputs that are
/// named count.
pub open spec fn stage_order(ss: Seq<GStage>) -> Seq<usize> {
    let n = ss.len() as int;
    if topo::acyclic(stage_edges(ss, n)) {
        topo::order_of(n, stage_edges(ss, n))
    } else {
        topo::order_of(n, named_edges(ss, n))
    }
}

/// The edges into the first `k` stages of an order in which a stage that names
/// no input follows the one before it.
pub open spec fn lined_edges(ss: Seq<GStage>, order: Seq<usize>, k: int) -> Seq<(usize, usize)>
    decreases k,
{
    if k <= 0 {
        Seq::empty()
    } else {
        let before = lined_edges(ss, order, k - 1);
        let named = named_edges(ss, ss.len() as int);
        if ss[order[k - 1] as int].after.len() > 0 {
            before + topo::pairs_at(named, true, order, order[k - 1], named.len() as int)
        } else if k > 1 {
            before.push(((k - 2) as usize, (k - 1) as usize))
        } else {
            before
        }
    }
}

/// The edges of the stages in topological order.
pub open spec fn ordered_edges(ss: Seq<GStage>) -> Seq<(usize, usize)> {
    let n = ss.len() as int;
    let order = stage_order(ss);
    if topo::acyclic(stage_edges(ss, n)) {
        topo::pairs_by(stage_edges(ss, n), true, order, order.len() as int)
    } else {
        lined_edges(ss, order, order.len() as int)
    }
}

/// The shape of a hypergraph.
pub open spec fn hyper_sig(g: GSpec) -> GSig {
    let order = stage_order(g.stages);
    GSig {
        roles: order.map_values(|w: usize| hyper::role_name(g.stages[w as int].role)),
        edges: ordered_edges(g.stages),
        gates: topo::pairs_by(
            stage_gates(g.stages, g.stages.len() as int),
            false,
            order,
            order.len() as int,
        ),
        require_judge: g.require.judge || hyper_parse::judged(g.vertices, g.hedges),
        tags: order.map_values(|w: usize| g.stages[w as int].tags),
        hypergraph_key: Some(hyper_key::key_of(g)),
    }
}

/// A place that is found is one of the places.
pub proof fn lemma_last_place(names: Seq<Seq<char>>, x: Seq<char>, n: int)
    requires
        n <= names.len(),
    ensures
        last_place(names, x, n) matches Some(j) ==> 0 <= j < n && names[j] == x,
    decreases n,
{
    if n > 0 {
        lemma_last_place(names, x, n - 1);
    }
}

/// Edges into a place run between places.
proof fn lemma_edges_into(names: Seq<Seq<char>>, after: Seq<Seq<char>>, i: int, n: int)
    requires
        0 <= i < names.len() <= usize::MAX,
        n <= after.len(),
    ensures
        topo::edges_within(edges_into(names, after, i, n), names.len() as int),
    decreases n,
{
    if n > 0 {
        lemma_edges_into(names, after, i, n - 1);
        lemma_last_place(names, after[n - 1], names.len() as int);
    }
}

/// The edges and gates of stages run between stages.
pub proof fn lemma_stage_places(ss: Seq<GStage>, n: int)
    requires
        n <= ss.len() <= usize::MAX,
    ensures
        topo::edges_within(stage_edges(ss, n), ss.len() as int),
        topo::edges_within(named_edges(ss, n), ss.len() as int),
        topo::edges_within(stage_gates(ss, n), ss.len() as int),
    decreases n,
{
    if n > 0 {
        lemma_stage_places(ss, n - 1);
        let names = stage_names(ss);
        let after = hyper_emit::inputs_of(ss, ss[n - 1]);
        lemma_edges_into(names, after, n - 1, after.len() as int);
        lemma_edges_into(names, ss[n - 1].after, n - 1, ss[n - 1].after.len() as int);
        match ss[n - 1].gated_by {
            Some(g) => {
                lemma_last_place(names, g, names.len() as int);
            },
            None => {},
        }
    }
}

/// The place of a stage.
fn stage_place(stages: &Vec<HyperStage>, x: &str) -> (r: Option<usize>)
    ensures
        text::opt_int(r) == place_of(stage_names(hyper::stage_views(stages@)), x@),
        r matches Some(j) ==> j < stages@.len(),
{
    let ghost names = stage_names(hyper::stage_views(stages@));
    let mut n: usize = stages.len();
    while n > 0
        invariant
            n <= stages@.len(),
            names == stage_names(hyper::stage_views(stages@)),
            place_of(names, x@) == last_place(names, x@, n as int),
        decreases n,
    {
        assert(names[n - 1] == stages@[n - 1].name@);
        if text::same(stages[n - 1].name.as_str(), x) {
            return Some(n - 1);
        }
        n -= 1;
    }
    None
}

/// Adds the edges to place `i` from the places of its inputs.
fn add_edges(
    stages: &Vec<HyperStage>,
    after: &Vec<String>,
    i: usize,
    edges: &mut Vec<(usize, usize)>,
)
    ensures
        final(edges)@ == old(edges)@ + edges_into(
            stage_names(hyper::stage_views(stages@)),
            text::views(after@),
            i as int,
            after@.len() as int,
        ),
{
    let ghost names = stage_names(hyper::stage_views(stages@));
    let ghost av = text::views(after@);
    let ghost start = edges@;
    let mut k: usize = 0;
    assert(start + edges_into(names, av, i as int, 0) =~= start);
    while k < after.len()
        invariant
            k <= after@.len(),
            names == stage_names(hyper::stage_views(stages@)),
            av == text::views(after@),
            edges@ == start + edges_into(names, av, i as int, k as int),
        decreases after@.len() - k,
    {
        match stage_place(stages, after[k].as_str()) {
            Some(j) => {
                edges.push((j, i));
                assert(edges@ =~= start + edges_into(names, av, i as int, k as int).push((j, i)));
            },
            None => {},
        }
        k += 1;
    }
}

/// The edges, the edges from named inputs and the gates of the stages as they
/// are declared.
fn declared_pairs(stages: &Vec<HyperStage>) -> (r: (
    Vec<(usize, usize)>,
    Vec<(usize, usize)>,
    Vec<(usize, usize)>,
))
    ensures
        r.0@ == stage_edges(hyper::stage_views(stages@), stages@.len() as int),
        r.1@ == named_edges(hyper::stage_views(stages@), stages@.len() as int),
        r.2@ == stage_gates(hyper::stage_views(stages@), stages@.len() as int),
{
    let ghost ss = hyper::stage_views(stages@);
    let mut edges: Vec<(usize, usize)> = Vec::new();
    let mut named: Vec<(usize, usize)> = Vec::new();
    let mut gates: Vec<(usize, usize)> = Vec::new();
    let mut i: usize = 0;
    while i < stages.len()
        invariant
            i <= stages@.len(),
            ss == hyper::stage_views(stages@),
            edges@ == stage_edges(ss, i as int),
            named@ == named_edges(ss, i as int),
            gates@ == stage_gates(ss, i as int),
        decreases stages@.len() - i,
    {
        let s: &HyperStage = &stages[i];
        assert(ss[i as int] == s@);
        let after = hyper_emit::stage_inputs(stages, s);
        add_edges(stages, &after, i, &mut edges);
        add_edges(stages, &s.after, i, &mut named);
        match &s.gated_by {
            Some(g) => {
                match stage_place(stages, g.as_str()) {
                    Some(j) => {
                        gates.push((i, j));
                    },
                    None => {},
                }
            },
            None => {},
        }
        i += 1;
    }
    (edges, named, gates)
}

/// The edges of stages in an order in which a stage that names no input follows
/// the one before it.
fn line_up(stages: &Vec<HyperStage>, named: &Vec<(usize, usize)>, order: &Vec<usize>) -> (r: Vec<
    (usize, usize),
>)
    requires
        named@ == named_edges(hyper::stage_views(stages@), stages@.len() as int),
        topo::proper(stages@.len() as int, order@),
        forall|c: usize| c < stages@.len() ==> #[trigger] order@.contains(c),
    ensures
        r@ == lined_edges(hyper::stage_views(stages@), order@, order@.len() as int),
{
    let ghost ss = hyper::stage_views(stages@);
    let n: usize = stages.len();
    proof {
        lemma_stage_places(ss, n as int);
    }
    let mut out: Vec<(usize, usize)> = Vec::new();
    let mut k: usize = 0;
    while k < order.len()
        invariant
            k <= order@.len(),
            ss == hyper::stage_views(stages@),
            named@ == named_edges(ss, ss.len() as int),
            topo::edges_within(named@, ss.len() as int),
            topo::proper(ss.len() as int, order@),
            forall|c: usize| c < ss.len() ==> #[trigger] order@.contains(c),
            out@ == lined_edges(ss, order@, k as int),
        decreases order@.len() - k,
    {
        let c: usize = order[k];
        assert(order@[k as int] < ss.len());
        assert(ss[c as int] == stages@[c as int]@);
        if stages[c].after.len() > 0 {
            topo::add_pairs(named, true, order, c, &mut out);
        } else if k > 0 {
            out.push((k - 1, k));
        }
        k += 1;
    }
    out
}

/// The words by an order.
fn words_by(words: &Vec<&'static str>, order: &Vec<usize>) -> (r: Vec<&'static str>)
    requires
        topo::proper(words@.len() as int, order@),
    ensures
        r@ == order@.map_values(|w: usize| words@[w as int]),
{
    let ghost all = order@.map_values(|w: usize| words@[w as int]);
    let mut out: Vec<&'static str> = Vec::new();
    let mut k: usize = 0;
    while k < order.len()
        invariant
            k <= order@.len(),
            topo::proper(words@.len() as int, order@),
            all == order@.map_values(|w: usize| words@[w as int]),
            out@ == all.take(k as int),
        decreases order@.len() - k,
    {
        assert(order@[k as int] < words@.len());
        out.push(words[order[k]]);
        assert(out@ =~= all.take(k + 1));
        k += 1;
    }
    assert(out@ =~= all);
    out
}

/// The sets by an order.
fn sets_by(sets: &Vec<TextSet>, order: &Vec<usize>) -> (r: Vec<TextSet>)
    requires
        topo::proper(sets@.len() as int, order@),
        sets_wf(sets@),
    ensures
        set_views(r@) == order@.map_values(|w: usize| set_views(sets@)[w as int]),
        sets_wf(r@),
{
    let ghost all = order@.map_values(|w: usize| set_views(sets@)[w as int]);
    let mut out: Vec<TextSet> = Vec::new();
    let mut k: usize = 0;
    assert(set_views(out@) =~= all.take(0));
    while k < order.len()
        invariant
            k <= order@.len(),
            topo::proper(sets@.len() as int, order@),
            sets_wf(sets@),
            sets_wf(out@),
            all == order@.map_values(|w: usize| set_views(sets@)[w as int]),
            set_views(out@) == all.take(k as int),
        decreases order@.len() - k,
    {
        assert(order@[k as int] < sets@.len());
        let t = sets[order[k]].duplicate();
        let ghost tv = t@;
        let ghost before = out@;
        out.push(t);
        assert(set_views(out@) =~= set_views(before).push(tv));
        assert(all.take(k + 1) =~= all.take(k as int).push(tv));
        k += 1;
    }
    assert(all.take(k as int) =~= all);
    out
}

/// The roles and the tags of the stages as they are declared.
fn declared_marks(stages: &Vec<HyperStage>) -> (r: (Vec<&'static str>, Vec<TextSet>))
    requires
        forall|i: int| 0 <= i < stages@.len() ==> (#[trigger] stages@[i]).tags.wf(),
    ensures
        word_views(r.0@) == hyper::stage_views(stages@).map_values(
            |s: GStage| hyper::role_name(s.role),
        ),
        set_views(r.1@) == hyper::stage_views(stages@).map_values(|s: GStage| s.tags),
        sets_wf(r.1@),
{
    let ghost ss = hyper::stage_views(stages@);
    let ghost all_roles = ss.map_values(|s: GStage| hyper::role_name(s.role));
    let ghost all_tags = ss.map_values(|s: GStage| s.tags);
    let mut roles: Vec<&'static str> = Vec::new();
    let mut tags: Vec<TextSet> = Vec::new();
    let mut i: usize = 0;
    assert(word_views(roles@) =~= all_roles.take(0));
    assert(set_views(tags@) =~= all_tags.take(0));
    while i < stages.len()
        invariant
            i <= stages@.len(),
            forall|k: int| 0 <= k < stages@.len() ==> (#[trigger] stages@[k]).tags.wf(),
            ss == hyper::stage_views(stages@),
            all_roles == ss.map_values(|s: GStage| hyper::role_name(s.role)),
            all_tags == ss.map_values(|s: GStage| s.tags),
            word_views(roles@) == all_roles.take(i as int),
            set_views(tags@) == all_tags.take(i as int),
            sets_wf(tags@),
        decreases stages@.len() - i,
    {
        let s: &HyperStage = &stages[i];
        assert(ss[i as int] == s@);
        let ghost roles_before = roles@;
        roles.push(s.role.as_str());
        assert(word_views(roles@) =~= word_views(roles_before).push(all_roles[i as int]));
        assert(all_roles.take(i + 1) =~= all_roles.take(i as int).push(all_roles[i as int]));
        let t = s.tags.duplicate();
        let ghost tv = t@;
        let ghost tags_before = tags@;
        tags.push(t);
        assert(set_views(tags@) =~= set_views(tags_before).push(tv));
        assert(all_tags.take(i + 1) =~= all_tags.take(i as int).push(all_tags[i as int]));
        i += 1;
    }
    assert(all_roles.take(i as int) =~= all_roles);
    assert(all_tags.take(i as int) =~= all_tags);
    (roles, tags)
}

/// The shape of a hypergraph.
pub fn struct_sig_from_hyper(spec: &HyperSpec) -> (r: StructSig)
    requires
        spec.wf(),
    ensures
        r@ == hyper_sig(spec@),
        sets_wf(r.tags@),
{
    let ghost ss = hyper::stage_views(spec.stages@);
    let n: usize = spec.stages.len();
    let (declared, named, gated) = declared_pairs(&spec.stages);
    proof {
        lemma_stage_places(ss, n as int);
        topo::law_every_place_once(n as int, declared@);
        topo::law_every_place_once(n as int, named@);
    }
    let (first, free) = topo::order_places(n, &declared);
    let order = if free {
        first
    } else {
        topo::order_places(n, &named).0
    };
    let edges = if free {
        topo::arrange_pairs(&declared, true, &order)
    } else {
        line_up(&spec.stages, &named, &order)
    };
    let gates = topo::arrange_pairs(&gated, false, &order);
    let (words, sets) = declared_marks(&spec.stages);
    assert(words@.len() == word_views(words@).len());
    assert(sets@.len() == set_views(sets@).len());
    let roles = words_by(&words, &order);
    let tags = sets_by(&sets, &order);
    let require_judge = spec.require.judge || hyper_parse::has_judge(&spec.vertices, &spec.hedges);
    proof {
        let sig = hyper_sig(spec@);
        assert(order@ == stage_order(ss));
        assert(word_views(roles@) =~= sig.roles) by {
            assert forall|k: int| 0 <= k < roles@.len() implies word_views(roles@)[k]
                == sig.roles[k] by {
                assert(order@[k] < n);
                assert(word_views(words@)[order@[k] as int] == hyper::role_name(
                    ss[order@[k] as int].role,
                ));
            }
        }
        assert(set_views(tags@) =~= sig.tags) by {
            assert forall|k: int| 0 <= k < order@.len() implies set_views(tags@)[k] == sig.tags[k] by {
                assert(order@[k] < n);
                assert(set_views(sets@)[order@[k] as int] == ss[order@[k] as int].tags);
            }
        }
    }
    StructSig {
        roles,
        edges,
        gates,
        require_judge,
        tags,
        hypergraph_key: Some(spec.hypergraph_key()),
    }
}

// ── The shape of a pipeline ──

/// The role of a proc with these tags.
pub open spec fn role_of_proc(p: Proc, tags: Set<Seq<char>>) -> HyperRole {
    if tags.contains("judge"@) || tags.contains("gate"@) {
        HyperRole::Judge
    } else if tags.contains("write"@) && !tags.contains("read"@) {
        HyperRole::Sink
    } else if (tags.contains("read"@) || tags.contains("io"@) || tags.contains("file"@)) && (forall|
        k: int,
    |
        0 <= k < p.plan@.len() ==> (#[trigger] p.plan@[k]).refs@.len() == 0) {
        HyperRole::Source
    } else if tags.contains("write"@) {
        HyperRole::Sink
    } else {
        HyperRole::Default
    }
}

/// The role of a proc with these tags.
pub fn infer_role(p: &Proc, tags: &TextSet) -> (r: HyperRole)
    requires
        tags.wf(),
    ensures
        r == role_of_proc(*p, tags@),
{
    if tags.contains("judge") || tags.contains("gate") {
        return HyperRole::Judge;
    }
    if tags.contains("write") && !tags.contains("read") {
        return HyperRole::Sink;
    }
    let mut free = true;
    let mut k: usize = 0;
    while k < p.plan.len()
        invariant
            k <= p.plan@.len(),
            free == forall|j: int| 0 <= j < k ==> (#[trigger] p.plan@[j]).refs@.len() == 0,
        decreases p.plan@.len() - k,
    {
        if p.plan[k].refs.len() > 0 {
            assert(p.plan@[k as int].refs@.len() != 0);
            free = false;
        }
        k += 1;
    }
    if (tags.contains("read") || tags.contains("io") || tags.contains("file")) && free {
        return HyperRole::Source;
    }
    if tags.contains("write") {
        return HyperRole::Sink;
    }
    HyperRole::Default
}

/// Whether a condition looks at a verdict.
pub open spec fn looks_at_verdict(w: Seq<char>) -> bool {
    text::has(w, ".score"@) || text::has(w, ".ok"@)
}

/// Whether a condition looks at a verdict.
pub fn is_verdict(w: &str) -> (r: bool)
    ensures
        r == looks_at_verdict(w@),
{
    text::contains(w, ".score") || text::contains(w, ".ok")
}

/// Whether an implementation waits for the verdict of `x`.
pub open spec fn judged_by(i: Impl, x: Seq<char>) -> bool {
    match i.when {
        Some(w) => looks_at_verdict(w@) && body::body_refs_spec(w@).contains(x),
        None => false,
    }
}

/// Whether an implementation looks at `x` in a condition that is no gate.
pub open spec fn asks(i: Impl, x: Seq<char>) -> bool {
    match i.when {
        Some(w) => !looks_at_verdict(w@) && body::body_refs_spec(w@).contains(x),
        None => false,
    }
}

/// The judges of the first `n` implementations.
pub open spec fn judges_upto(plan: Seq<Impl>, n: int) -> Set<Seq<char>> {
    Set::new(|x: Seq<char>| exists|k: int| 0 <= k < n && #[trigger] judged_by(plan[k], x))
}

/// What the conditions of the first `n` implementations ask for data.
pub open spec fn asked_upto(plan: Seq<Impl>, n: int) -> Set<Seq<char>> {
    Set::new(|x: Seq<char>| exists|k: int| 0 <= k < n && #[trigger] asks(plan[k], x))
}

/// What the first `n` implementations read.
pub open spec fn read_upto(plan: Seq<Impl>, n: int) -> Set<Seq<char>> {
    Set::new(
        |x: Seq<char>|
            exists|k: int| 0 <= k < n && #[trigger] text::views(plan[k].refs@).contains(x),
    )
}

/// The inputs of a plan: what its conditions ask, and what it reads but for its
/// judges.
pub open spec fn data_of(plan: Seq<Impl>) -> Set<Seq<char>> {
    let n = plan.len() as int;
    asked_upto(plan, n).union(read_upto(plan, n).difference(judges_upto(plan, n)))
}

/// Adds the members of `names` to the set.
pub(crate) fn insert_all(into: &mut TextSet, names: &Vec<String>)
    requires
        old(into).wf(),
    ensures
        final(into).wf(),
        final(into)@ == old(into)@.union(text::views(names@).to_set()),
{
    let ghost start = into@;
    let ghost nv = text::views(names@);
    let mut i: usize = 0;
    assert(into@ =~= start.union(nv.take(0).to_set()));
    while i < names.len()
        invariant
            i <= names@.len(),
            nv == text::views(names@),
            into.wf(),
            into@ == start.union(nv.take(i as int).to_set()),
        decreases names@.len() - i,
    {
        into.insert(names[i].clone());
        proof {
            let a = nv.take(i as int);
            let b = nv.take(i + 1);
            assert(b =~= a.push(nv[i as int]));
            assert forall|x: Seq<char>| b.to_set().contains(x) <==> a.to_set().insert(
                nv[i as int],
            ).contains(x) by {
                if a.contains(x) {
                    let j = choose|j: int| 0 <= j < a.len() && a[j] == x;
                    assert(b[j] == x);
                }
                assert(b[i as int] == nv[i as int]);
            }
            assert(into@ =~= start.union(b.to_set()));
        }
        i += 1;
    }
    assert(nv.take(i as int) =~= nv);
}

/// The judges, what the conditions ask and what is read, of a plan.
fn plan_refs(plan: &Vec<Impl>) -> (r: (TextSet, TextSet, TextSet))
    ensures
        r.0.wf(),
        r.0@ == judges_upto(plan@, plan@.len() as int),
        r.1.wf(),
        r.1@ == asked_upto(plan@, plan@.len() as int),
        r.2.wf(),
        r.2@ == read_upto(plan@, plan@.len() as int),
{
    let mut judges = TextSet::new();
    let mut asked = TextSet::new();
    let mut read = TextSet::new();
    let mut k: usize = 0;
    assert(judges@ =~= judges_upto(plan@, 0));
    assert(asked@ =~= asked_upto(plan@, 0));
    assert(read@ =~= read_upto(plan@, 0));
    while k < plan.len()
        invariant
            k <= plan@.len(),
            judges.wf(),
            asked.wf(),
            read.wf(),
            judges@ == judges_upto(plan@, k as int),
            asked@ == asked_upto(plan@, k as int),
            read@ == read_upto(plan@, k as int),
        decreases plan@.len() - k,
    {
        let i: &Impl = &plan[k];
        let ghost j0 = judges@;
        let ghost a0 = asked@;
        let ghost r0 = read@;
        match &i.when {
            Some(w) => {
                let refs = body::body_refs(w.as_str());
                if is_verdict(w.as_str()) {
                    insert_all(&mut judges, &refs);
                } else {
                    insert_all(&mut asked, &refs);
                }
            },
            None => {},
        }
        insert_all(&mut read, &i.refs);
        proof {
            assert forall|x: Seq<char>| judges@.contains(x) <==> judges_upto(
                plan@,
                k + 1,
            ).contains(x) by {
                assert(judges@.contains(x) <==> j0.contains(x) || judged_by(plan@[k as int], x));
            }
            assert(judges@ =~= judges_upto(plan@, k + 1));
            assert forall|x: Seq<char>| asked@.contains(x) <==> asked_upto(plan@, k + 1).contains(
                x,
            ) by {
                assert(asked@.contains(x) <==> a0.contains(x) || asks(plan@[k as int], x));
            }
            assert(asked@ =~= asked_upto(plan@, k + 1));
            assert forall|x: Seq<char>| read@.contains(x) <==> read_upto(plan@, k + 1).contains(
                x,
            ) by {
                assert(read@.contains(x) <==> r0.contains(x) || text::views(
                    plan@[k as int].refs@,
                ).contains(x));
            }
            assert(read@ =~= read_upto(plan@, k + 1));
        }
        k += 1;
    }
    (judges, asked, read)
}

/// The inputs of a plan.
fn plan_data(plan: &Vec<Impl>) -> (r: TextSet)
    ensures
        r.wf(),
        r@ == data_of(plan@),
{
    let (judges, asked, read) = plan_refs(plan);
    let mut out = asked.duplicate();
    let ghost start = out@;
    let ghost rs = read.seq();
    let mut i: usize = 0;
    assert(out@ =~= start.union(rs.take(0).to_set().difference(judges@)));
    while i < read.len()
        invariant
            i <= rs.len(),
            rs == read.seq(),
            judges.wf(),
            out.wf(),
            out@ == start.union(rs.take(i as int).to_set().difference(judges@)),
        decreases rs.len() - i,
    {
        let x = read.at(i);
        proof {
            let a = rs.take(i as int);
            let b = rs.take(i + 1);
            assert(b =~= a.push(x@));
            assert forall|y: Seq<char>| b.to_set().contains(y) <==> a.to_set().insert(
                x@,
            ).contains(y) by {
                if a.contains(y) {
                    let j = choose|j: int| 0 <= j < a.len() && a[j] == y;
                    assert(b[j] == y);
                }
                assert(b[i as int] == x@);
            }
            assert(b.to_set() =~= a.to_set().insert(x@));
        }
        if !judges.contains(x.as_str()) {
            out.insert(x.clone());
        }
        assert(out@ =~= start.union(rs.take(i + 1).to_set().difference(judges@)));
        i += 1;
    }
    assert(rs.take(i as int) =~= rs);
    out
}

/// Whether a proc does work: it is not there to deliver.
pub open spec fn works(p: Proc) -> bool {
    !p.deliver && p.name@ != "deliver"@
}

/// Whether a proc does work: it is not there to deliver.
pub fn is_worker(p: &Proc) -> (r: bool)
    ensures
        r == works(*p),
{
    !p.deliver && !text::same(p.name.as_str(), "deliver")
}

/// The places of the first `n` procs that do work.
pub open spec fn workers(procs: Seq<Proc>, n: int) -> Seq<usize>
    decreases n,
{
    if n <= 0 {
        Seq::empty()
    } else if works(procs[n - 1]) {
        workers(procs, n - 1).push((n - 1) as usize)
    } else {
        workers(procs, n - 1)
    }
}

/// The names of procs.
pub open spec fn worker_names(procs: Seq<Proc>, ws: Seq<usize>) -> Seq<Seq<char>> {
    ws.map_values(|w: usize| procs[w as int].name@)
}

/// The gates with those of the first `n` names on place `i` behind them.
pub open spec fn gates_on_refs(
    gates: Seq<(usize, usize)>,
    names: Seq<Seq<char>>,
    refs: Seq<Seq<char>>,
    i: int,
    n: int,
) -> Seq<(usize, usize)>
    decreases n,
{
    if n <= 0 {
        gates
    } else {
        let before = gates_on_refs(gates, names, refs, i, n - 1);
        match place_of(names, refs[n - 1]) {
            Some(j) => if before.contains((i as usize, j as usize)) {
                before
            } else {
                before.push((i as usize, j as usize))
            },
            None => before,
        }
    }
}

/// The gates with those that the first `n` implementations put on place `i`
/// behind them.
pub open spec fn gates_on_plan(
    gates: Seq<(usize, usize)>,
    names: Seq<Seq<char>>,
    plan: Seq<Impl>,
    i: int,
    n: int,
) -> Seq<(usize, usize)>
    decreases n,
{
    if n <= 0 {
        gates
    } else {
        let before = gates_on_plan(gates, names, plan, i, n - 1);
        match plan[n - 1].when {
            Some(w) if looks_at_verdict(w@) => {
                let refs = body::body_refs_spec(w@);
                gates_on_refs(before, names, refs, i, refs.len() as int)
            },
            _ => before,
        }
    }
}

/// The gates of the first `n` workers.
pub open spec fn worker_gates(procs: Seq<Proc>, ws: Seq<usize>, n: int) -> Seq<(usize, usize)>
    decreases n,
{
    if n <= 0 {
        Seq::empty()
    } else {
        let plan = procs[ws[n - 1] as int].plan@;
        gates_on_plan(
            worker_gates(procs, ws, n - 1),
            worker_names(procs, ws),
            plan,
            n - 1,
            plan.len() as int,
        )
    }
}

/// The edges to place `i` from the places of the first `n` inputs but for
/// itself.
pub open spec fn edges_from_others(
    names: Seq<Seq<char>>,
    refs: Seq<Seq<char>>,
    i: int,
    n: int,
) -> Seq<(usize, usize)>
    decreases n,
{
    if n <= 0 {
        Seq::empty()
    } else {
        let before = edges_from_others(names, refs, i, n - 1);
        match place_of(names, refs[n - 1]) {
            Some(j) if j != i => before.push((j as usize, i as usize)),
            _ => before,
        }
    }
}

/// The edges into the first `n` workers.
pub open spec fn worker_edges(procs: Seq<Proc>, ws: Seq<usize>, n: int) -> Seq<(usize, usize)>
    decreases n,
{
    if n <= 0 {
        Seq::empty()
    } else {
        let refs = order::in_order(data_of(procs[ws[n - 1] as int].plan@));
        worker_edges(procs, ws, n - 1) + edges_from_others(
            worker_names(procs, ws),
            refs,
            n - 1,
            refs.len() as int,
        )
    }
}

/// The role of a proc.
pub open spec fn proc_role(p: Proc) -> HyperRole {
    role_of_proc(p, ast::plan_tags(p.plan@))
}

/// The topological order of the workers.
pub open spec fn worker_order(procs: Seq<Proc>, ws: Seq<usize>) -> Seq<usize> {
    topo::order_of(ws.len() as int, worker_edges(procs, ws, ws.len() as int))
}

/// The shape of a pipeline.
pub open spec fn pipeline_sig(procs: Seq<Proc>) -> GSig {
    let ws = workers(procs, procs.len() as int);
    let n = ws.len() as int;
    let order = worker_order(procs, ws);
    let gates = worker_gates(procs, ws, n);
    GSig {
        roles: order.map_values(
            |w: usize| hyper::role_name(proc_role(procs[ws[w as int] as int])),
        ),
        edges: topo::pairs_by(worker_edges(procs, ws, n), true, order, order.len() as int),
        gates: topo::pairs_by(gates, false, order, order.len() as int),
        require_judge: (exists|i: int|
            0 <= i < ws.len() && proc_role(procs[#[trigger] ws[i] as int]) == HyperRole::Judge)
            || gates.len() > 0,
        tags: order.map_values(|w: usize| ast::plan_tags(procs[ws[w as int] as int].plan@)),
        hypergraph_key: None,
    }
}

/// Edges from the others run between places.
proof fn lemma_edges_from_others(names: Seq<Seq<char>>, refs: Seq<Seq<char>>, i: int, n: int)
    requires
        0 <= i < names.len() <= usize::MAX,
        n <= refs.len(),
    ensures
        topo::edges_within(edges_from_others(names, refs, i, n), names.len() as int),
    decreases n,
{
    if n > 0 {
        lemma_edges_from_others(names, refs, i, n - 1);
        lemma_last_place(names, refs[n - 1], names.len() as int);
    }
}

/// The gates on a place run between places.
proof fn lemma_gates_on_refs(
    gates: Seq<(usize, usize)>,
    names: Seq<Seq<char>>,
    refs: Seq<Seq<char>>,
    i: int,
    n: int,
)
    requires
        0 <= i < names.len() <= usize::MAX,
        n <= refs.len(),
        topo::edges_within(gates, names.len() as int),
    ensures
        topo::edges_within(gates_on_refs(gates, names, refs, i, n), names.len() as int),
    decreases n,
{
    if n > 0 {
        lemma_gates_on_refs(gates, names, refs, i, n - 1);
        lemma_last_place(names, refs[n - 1], names.len() as int);
    }
}

/// The gates that a plan puts on a place run between places.
proof fn lemma_gates_on_plan(
    gates: Seq<(usize, usize)>,
    names: Seq<Seq<char>>,
    plan: Seq<Impl>,
    i: int,
    n: int,
)
    requires
        0 <= i < names.len() <= usize::MAX,
        n <= plan.len(),
        topo::edges_within(gates, names.len() as int),
    ensures
        topo::edges_within(gates_on_plan(gates, names, plan, i, n), names.len() as int),
    decreases n,
{
    if n > 0 {
        lemma_gates_on_plan(gates, names, plan, i, n - 1);
        match plan[n - 1].when {
            Some(w) => {
                let refs = body::body_refs_spec(w@);
                lemma_gates_on_refs(
                    gates_on_plan(gates, names, plan, i, n - 1),
                    names,
                    refs,
                    i,
                    refs.len() as int,
                );
            },
            None => {},
        }
    }
}

/// The edges and gates of workers run between workers.
pub proof fn lemma_worker_places(procs: Seq<Proc>, ws: Seq<usize>, n: int)
    requires
        n <= ws.len() <= usize::MAX,
    ensures
        topo::edges_within(worker_edges(procs, ws, n), ws.len() as int),
        topo::edges_within(worker_gates(procs, ws, n), ws.len() as int),
    decreases n,
{
    if n > 0 {
        lemma_worker_places(procs, ws, n - 1);
        let names = worker_names(procs, ws);
        let plan = procs[ws[n - 1] as int].plan@;
        let refs = order::in_order(data_of(plan));
        lemma_edges_from_others(names, refs, n - 1, refs.len() as int);
        lemma_gates_on_plan(worker_gates(procs, ws, n - 1), names, plan, n - 1, plan.len() as int);
    }
}

/// The workers are places of procs.
proof fn lemma_workers(procs: Seq<Proc>, n: int)
    requires
        n <= procs.len(),
        procs.len() <= usize::MAX,
    ensures
        forall|i: int| 0 <= i < workers(procs, n).len() ==> #[trigger] workers(procs, n)[i] < n,
    decreases n,
{
    if n > 0 {
        lemma_workers(procs, n - 1);
        assert forall|i: int| 0 <= i < workers(procs, n).len() implies #[trigger] workers(
            procs,
            n,
        )[i] < n by {
            if i < workers(procs, n - 1).len() {
                assert(workers(procs, n - 1)[i] < n - 1);
                assert(workers(procs, n)[i] == workers(procs, n - 1)[i]);
            }
        }
    }
}

/// The place of a worker.
fn worker_place(procs: &Vec<Proc>, ws: &Vec<usize>, x: &str) -> (r: Option<usize>)
    requires
        forall|i: int| 0 <= i < ws@.len() ==> #[trigger] ws@[i] < procs@.len(),
    ensures
        text::opt_int(r) == place_of(worker_names(procs@, ws@), x@),
        r matches Some(j) ==> j < ws@.len(),
{
    let ghost names = worker_names(procs@, ws@);
    let mut n: usize = ws.len();
    while n > 0
        invariant
            n <= ws@.len(),
            names == worker_names(procs@, ws@),
            forall|i: int| 0 <= i < ws@.len() ==> #[trigger] ws@[i] < procs@.len(),
            place_of(names, x@) == last_place(names, x@, n as int),
        decreases n,
    {
        assert(names[n - 1] == procs@[ws@[n - 1] as int].name@);
        if text::same(procs[ws[n - 1]].name.as_str(), x) {
            return Some(n - 1);
        }
        n -= 1;
    }
    None
}

/// Whether the pair is among the pairs.
fn has_pair(ps: &Vec<(usize, usize)>, a: usize, b: usize) -> (r: bool)
    ensures
        r == ps@.contains((a, b)),
{
    let mut i: usize = 0;
    while i < ps.len()
        invariant
            i <= ps@.len(),
            forall|k: int| 0 <= k < i ==> ps@[k] != (a, b),
        decreases ps@.len() - i,
    {
        if ps[i].0 == a && ps[i].1 == b {
            assert(ps@[i as int] == (a, b));
            return true;
        }
        i += 1;
    }
    false
}

/// Adds the gates that a plan puts on place `i`.
fn add_gates(
    procs: &Vec<Proc>,
    ws: &Vec<usize>,
    plan: &Vec<Impl>,
    i: usize,
    gates: &mut Vec<(usize, usize)>,
)
    requires
        forall|k: int| 0 <= k < ws@.len() ==> #[trigger] ws@[k] < procs@.len(),
    ensures
        final(gates)@ == gates_on_plan(
            old(gates)@,
            worker_names(procs@, ws@),
            plan@,
            i as int,
            plan@.len() as int,
        ),
{
    let ghost names = worker_names(procs@, ws@);
    let ghost start = gates@;
    let mut k: usize = 0;
    while k < plan.len()
        invariant
            k <= plan@.len(),
            names == worker_names(procs@, ws@),
            forall|q: int| 0 <= q < ws@.len() ==> #[trigger] ws@[q] < procs@.len(),
            gates@ == gates_on_plan(start, names, plan@, i as int, k as int),
        decreases plan@.len() - k,
    {
        match &plan[k].when {
            Some(w) => {
                if is_verdict(w.as_str()) {
                    let refs = body::body_refs(w.as_str());
                    let ghost rv = text::views(refs@);
                    let ghost mid = gates@;
                    let mut m: usize = 0;
                    while m < refs.len()
                        invariant
                            m <= refs@.len(),
                            names == worker_names(procs@, ws@),
                            forall|q: int| 0 <= q < ws@.len() ==> #[trigger] ws@[q] < procs@.len(),
                            rv == text::views(refs@),
                            gates@ == gates_on_refs(mid, names, rv, i as int, m as int),
                        decreases refs@.len() - m,
                    {
                        match worker_place(procs, ws, refs[m].as_str()) {
                            Some(j) => {
                                if !has_pair(gates, i, j) {
                                    gates.push((i, j));
                                }
                            },
                            None => {},
                        }
                        m += 1;
                    }
                }
            },
            None => {},
        }
        k += 1;
    }
}

/// The shape of a pipeline, for comparison with hypergraphs. A condition on a
/// verdict is a gate and gives no data edge.
pub fn struct_sig_from_pipeline(pl: &Pipeline) -> (r: StructSig)
    ensures
        r@ == pipeline_sig(pl.procs@),
        sets_wf(r.tags@),
{
    let ghost procs = pl.procs@;
    let mut ws: Vec<usize> = Vec::new();
    let mut k: usize = 0;
    while k < pl.procs.len()
        invariant
            k <= pl.procs@.len(),
            procs == pl.procs@,
            ws@ == workers(procs, k as int),
        decreases pl.procs@.len() - k,
    {
        if is_worker(&pl.procs[k]) {
            ws.push(k);
        }
        k += 1;
    }
    proof {
        lemma_workers(procs, procs.len() as int);
    }
    let ghost wv = ws@;
    let ghost names = worker_names(procs, wv);
    let ghost all_roles = wv.map_values(
        |w: usize| hyper::role_name(proc_role(procs[w as int])),
    );
    let ghost all_tags = wv.map_values(|w: usize| ast::plan_tags(procs[w as int].plan@));
    let mut roles: Vec<&'static str> = Vec::new();
    let mut edges: Vec<(usize, usize)> = Vec::new();
    let mut gates: Vec<(usize, usize)> = Vec::new();
    let mut tags: Vec<TextSet> = Vec::new();
    let mut judged = false;
    let mut i: usize = 0;
    assert(word_views(roles@) =~= all_roles.take(0));
    assert(set_views(tags@) =~= all_tags.take(0));
    while i < ws.len()
        invariant
            i <= ws@.len(),
            procs == pl.procs@,
            wv == ws@,
            names == worker_names(procs, wv),
            forall|q: int| 0 <= q < ws@.len() ==> #[trigger] ws@[q] < procs.len(),
            all_roles == wv.map_values(
                |w: usize| hyper::role_name(proc_role(procs[w as int])),
            ),
            all_tags == wv.map_values(|w: usize| ast::plan_tags(procs[w as int].plan@)),
            word_views(roles@) == all_roles.take(i as int),
            set_views(tags@) == all_tags.take(i as int),
            sets_wf(tags@),
            edges@ == worker_edges(procs, wv, i as int),
            gates@ == worker_gates(procs, wv, i as int),
            judged == exists|q: int|
                0 <= q < i && proc_role(procs[#[trigger] wv[q] as int]) == HyperRole::Judge,
        decreases ws@.len() - i,
    {
        let w = ws[i];
        let p: &Proc = &pl.procs[w];
        assert(wv[i as int] == w);
        let t = ast::proc_tags(p);
        let role = infer_role(p, &t);
        assert(role == proc_role(procs[wv[i as int] as int]));
        if role == HyperRole::Judge {
            judged = true;
        }
        let ghost roles_before = roles@;
        roles.push(role.as_str());
        assert(word_views(roles@) =~= word_views(roles_before).push(all_roles[i as int]));
        assert(all_roles.take(i + 1) =~= all_roles.take(i as int).push(all_roles[i as int]));
        let ghost tv = t@;
        let ghost tags_before = tags@;
        tags.push(t);
        assert(set_views(tags@) =~= set_views(tags_before).push(tv));
        assert(all_tags.take(i + 1) =~= all_tags.take(i as int).push(all_tags[i as int]));
        add_gates(&pl.procs, &ws, &p.plan, i, &mut gates);
        let data = plan_data(&p.plan);
        proof {
            order::lemma_in_order(data.seq());
        }
        let ghost rv = data.seq();
        let ghost start = edges@;
        let mut m: usize = 0;
        assert(start + edges_from_others(names, rv, i as int, 0) =~= start);
        while m < data.len()
            invariant
                m <= rv.len(),
                i < ws@.len(),
                procs == pl.procs@,
                wv == ws@,
                names == worker_names(procs, wv),
                forall|q: int| 0 <= q < ws@.len() ==> #[trigger] ws@[q] < procs.len(),
                rv == data.seq(),
                edges@ == start + edges_from_others(names, rv, i as int, m as int),
            decreases rv.len() - m,
        {
            match worker_place(&pl.procs, &ws, data.at(m).as_str()) {
                Some(j) => {
                    if j != i {
                        edges.push((j, i));
                        assert(edges@ =~= start + edges_from_others(
                            names,
                            rv,
                            i as int,
                            m as int,
                        ).push((j, i)));
                    }
                },
                None => {},
            }
            m += 1;
        }
        i += 1;
    }
    assert(all_roles.take(i as int) =~= all_roles);
    assert(all_tags.take(i as int) =~= all_tags);
    let n: usize = ws.len();
    proof {
        lemma_worker_places(procs, wv, n as int);
        topo::law_every_place_once(n as int, edges@);
    }
    let order = topo::order_places(n, &edges).0;
    let require_judge = judged || gates.len() > 0;
    assert(roles@.len() == word_views(roles@).len());
    assert(tags@.len() == set_views(tags@).len());
    let roles_by = words_by(&roles, &order);
    let tags_by = sets_by(&tags, &order);
    proof {
        let sig = pipeline_sig(procs);
        assert(word_views(roles_by@) =~= sig.roles) by {
            assert forall|k: int| 0 <= k < order@.len() implies word_views(roles_by@)[k]
                == sig.roles[k] by {
                assert(order@[k] < n);
                assert(word_views(roles@)[order@[k] as int] == all_roles[order@[k] as int]);
            }
        }
        assert(set_views(tags_by@) =~= sig.tags) by {
            assert forall|k: int| 0 <= k < order@.len() implies set_views(tags_by@)[k]
                == sig.tags[k] by {
                assert(order@[k] < n);
                assert(set_views(tags@)[order@[k] as int] == all_tags[order@[k] as int]);
            }
        }
    }
    StructSig {
        roles: roles_by,
        edges: topo::arrange_pairs(&edges, true, &order),
        gates: topo::arrange_pairs(&gates, false, &order),
        require_judge,
        tags: tags_by,
        hypergraph_key: None,
    }
}

} // verus!
