//! What becomes of the draft of a hypergraph, and what is said where it is refused.

use crate::ast;
use crate::ast::{Proc, Status};
use crate::egraph;
use crate::egraph::Graph;
use crate::hyper::{GHedge, GStage, GVertex, HedgeKind, HyperRole};
use crate::hyper_graph;
use crate::hyper_nodes;
use crate::hyper_nodes::GNodeHit;
use crate::hyper_parse;
use crate::hyper_parse::GDraft;
use crate::hyper_project;
use crate::hyper_similar::GraphKind;
use crate::json;
use crate::negotiate;
use crate::review;
use crate::review::Reviewer;
use crate::script;
use crate::script_card;
use crate::script_card::{Concurrency, GCard};
use crate::text;
use vstd::prelude::*;

verus! {

// ── Drafts ──

/// The edges of a draft are those that were written; where none were, those of its
/// stages.
pub proof fn law_written_edges_go_first(d: GDraft)
    ensures
        d.hedges.len() > 0 ==> hyper_parse::draft_hedges(d) == d.hedges,
        d.hedges.len() == 0 && d.stages.len() > 0 ==> hyper_parse::draft_hedges(d)
            == hyper_graph::edges_of_stages(d.stages),
        d.hedges.len() == 0 && d.stages.len() == 0 ==> hyper_parse::draft_hedges(d).len() == 0,
{
}

/// A draft makes a hypergraph exactly where it has a name and a vertex, nothing is
/// wrong with its graph, its stages can be told and there is one, a judge that is
/// asked for is there, and its references hold.
pub proof fn law_whole_drafts_make_hypergraphs(d: GDraft)
    ensures
        ({
            let hs = hyper_parse::draft_hedges(d);
            let made = hyper_project::projection(d.vertices, hs);
            let judge = (exists|i: int|
                0 <= i < d.vertices.len() && (#[trigger] d.vertices[i]).role == HyperRole::Judge)
                || (exists|i: int|
                0 <= i < hs.len() && (#[trigger] hs[i]).kind == HedgeKind::Gate);
            let least = if d.require.min_impls > 1 {
                d.require.min_impls as nat
            } else {
                1
            };
            let ss = hyper_parse::raised(made->Ok_0, least);
            hyper_parse::finished(d) is Ok <==> d.name is Some && d.vertices.len() > 0
                && hyper_project::graph_fault(d.vertices, hs, d.deliver) is None && made is Ok
                && made->Ok_0.len() > 0 && (d.require.judge ==> judge)
                && hyper_project::refs_fault(ss, d.deliver) is None
        }),
{
}

/// A hypergraph is what its draft says, with the stages of its edges.
pub proof fn law_hypergraphs_keep_their_draft(d: GDraft)
    requires
        hyper_parse::finished(d) is Ok,
    ensures
        ({
            let g = hyper_parse::finished(d)->Ok_0;
            let made = hyper_project::projection(d.vertices, g.hedges)->Ok_0;
            &&& g.name == d.name->0
            &&& g.goal == d.goal && g.require == d.require && g.vertices == d.vertices && g.deliver
                == d.deliver
            &&& g.hedges == hyper_parse::draft_hedges(d)
            &&& g.stages.len() == made.len()
            &&& forall|i: int|
                0 <= i < g.stages.len() ==> (#[trigger] g.stages[i]).name == made[i].name
                    && g.stages[i].role == made[i].role && g.stages[i].after == made[i].after
                    && g.stages[i].gated_by == made[i].gated_by && g.stages[i].tags == made[i].tags
                    && g.stages[i].min_impls >= 1 && g.stages[i].min_impls >= made[i].min_impls
                    && g.stages[i].min_impls >= d.require.min_impls
        }),
{
}

/// What is said of a draft without a name, or without a vertex.
pub proof fn law_empty_drafts_are_refused(d: GDraft)
    ensures
        d.name is None ==> hyper_parse::finished(d) is Err && hyper_parse::finished(d)->Err_0.msg
            == "missing HyperGraph(\"name\") or Hyper(\"name\") header"@,
        d.name is Some && d.vertices.len() == 0 ==> hyper_parse::finished(d) is Err
            && hyper_parse::finished(d)->Err_0.msg
            == "hypergraph needs at least one .vertex(...) or .stage(...)"@,
        hyper_parse::finished(d) is Err && (d.name is None || d.vertices.len() == 0)
            ==> hyper_parse::finished(d)->Err_0.line == 0,
{
}

/// The first that is none of the names is told.
pub proof fn law_the_first_stranger_is_told(
    names: Seq<Seq<char>>,
    ms: Seq<Seq<char>>,
    i: int,
    k: int,
)
    requires
        0 <= i <= k <= ms.len(),
        forall|j: int| i <= j < k ==> names.contains(#[trigger] ms[j]),
        k < ms.len() ==> !names.contains(ms[k]),
    ensures
        hyper_project::stranger(names, ms, i) == (if k < ms.len() {
            Some(ms[k])
        } else {
            None
        }),
    decreases k - i,
{
    if i < k {
        assert(names.contains(ms[i]));
        law_the_first_stranger_is_told(names, ms, i + 1, k);
    }
}

/// What is said of an edge: a gate without a judge or without consumers, any other
/// edge without enough members, and either with a port or a member that is no
/// vertex, the first of them.
pub proof fn law_faults_of_edges_are_said(names: Seq<Seq<char>>, h: GHedge)
    ensures
        ({
            let f = hyper_project::hedge_fault(names, h);
            let n = text::debug_quoted(h.name);
            let ports = h.producers + seq![h.judge->0] + h.consumers;
            let port = hyper_project::stranger(names, ports, 0);
            let member = hyper_project::stranger(names, h.members, 0);
            let gate = h.kind == HedgeKind::Gate;
            let least: nat = if h.kind == HedgeKind::Bundle {
                1
            } else {
                2
            };
            &&& gate && h.judge is None ==> f == Some(
                "gate hedge "@ + n
                    + " needs judge=… (explicit ports; no last-member heuristic)"@,
            )
            &&& gate && h.judge is Some && h.consumers.len() == 0 ==> f == Some(
                "gate hedge "@ + n + " needs consumers=…"@,
            )
            &&& gate && h.judge is Some && h.consumers.len() > 0 && port is Some ==> f == Some(
                "hyperedge "@ + n + " port "@ + text::debug_quoted(port->0) + " unknown vertex"@,
            )
            &&& h.kind == HedgeKind::Chain && h.members.len() < 2 ==> f == Some(
                "chain hedge "@ + n + " needs ≥2 members"@,
            )
            &&& h.kind == HedgeKind::Xor && h.members.len() == 1 ==> f == Some(
                "xor hedge "@ + n + " needs ≥2 members (slot=first, rest=alts)"@,
            )
            &&& (h.kind == HedgeKind::Bundle || h.kind == HedgeKind::Xor) && h.members.len() == 0
                ==> f == Some("hyperedge "@ + n + " has no members"@)
            &&& !gate && h.members.len() >= least && member is Some ==> f == Some(
                "hyperedge "@ + n + " member "@ + text::debug_quoted(member->0)
                    + " unknown vertex"@,
            )
        }),
{
}

/// What is said of a delivery that is no vertex, or no stage.
pub proof fn law_unknown_deliveries_are_said(
    vs: Seq<GVertex>,
    hs: Seq<GHedge>,
    ss: Seq<GStage>,
    d: Seq<char>,
)
    ensures
        hyper_project::graph_fault(vs, hs, None) is None && (forall|i: int|
            0 <= i < vs.len() ==> (#[trigger] vs[i]).name != d) ==> hyper_project::graph_fault(
            vs,
            hs,
            Some(d),
        ) == Some(".deliver("@ + text::debug_quoted(d) + ") unknown vertex"@),
        hyper_project::refs_fault(ss, None) is None && (forall|i: int|
            0 <= i < ss.len() ==> (#[trigger] ss[i]).name != d) ==> hyper_project::refs_fault(
            ss,
            Some(d),
        ) == Some(".deliver("@ + text::debug_quoted(d) + ") unknown stage"@),
{
    let names = hyper_project::vertex_names(vs);
    if names.contains(d) {
        let i = choose|i: int| 0 <= i < names.len() && names[i] == d;
        assert(vs[i].name == d);
    }
    let stages = hyper_project::stage_names(ss);
    if stages.contains(d) {
        let i = choose|i: int| 0 <= i < stages.len() && stages[i] == d;
        assert(ss[i].name == d);
    }
}

// ── Writes ──

/// Whether a node writes `x`: the file, and the class of what is written.
pub open spec fn writes(m: Graph, procs: Seq<Proc>, c: int, i: int, x: (int, Seq<char>, Option<int>)) -> bool {
    &&& x.0 == c
    &&& egraph::write_path(procs, m.classes[c].nodes[i], m.classes[c].origins[i]) == Some(x.1)
    &&& egraph::written_class(m, procs, m.classes[c].origins[i]) == x.2
}

proof fn lemma_class_writes(
    m: Graph,
    procs: Seq<Proc>,
    c: int,
    i: int,
    x: (int, Seq<char>, Option<int>),
)
    requires
        0 <= i <= m.classes[c].nodes.len(),
    ensures
        egraph::class_writes(m, procs, c, i).contains(x) <==> exists|k: int|
            i <= k < m.classes[c].nodes.len() && #[trigger] writes(m, procs, c, k, x),
    decreases m.classes[c].nodes.len() - i,
{
    if i < m.classes[c].nodes.len() {
        lemma_class_writes(m, procs, c, i + 1, x);
        let o = m.classes[c].origins[i];
        let p = egraph::write_path(procs, m.classes[c].nodes[i], o);
        if p is Some {
            let one = (c, p->0, egraph::written_class(m, procs, o));
            vstd::seq_lib::lemma_seq_concat_contains_all_elements(
                seq![one],
                egraph::class_writes(m, procs, c, i + 1),
                x,
            );
            assert(seq![one][0] == one);
            assert(seq![one].contains(x) <==> x == one);
            assert(writes(m, procs, c, i, x) <==> x == one);
        } else {
            assert(!writes(m, procs, c, i, x));
        }
    }
}

/// The writes of a graph are those of the nodes of its roots.
pub proof fn law_all_writes_are_seen(
    m: Graph,
    procs: Seq<Proc>,
    c: int,
    x: (int, Seq<char>, Option<int>),
)
    requires
        0 <= c <= m.classes.len(),
    ensures
        egraph::all_writes(m, procs, c).contains(x) <==> c <= x.0 < m.classes.len() && m.roots[x.0]
            == x.0 && exists|k: int|
            0 <= k < m.classes[x.0].nodes.len() && #[trigger] writes(m, procs, x.0, k, x),
    decreases m.classes.len() - c,
{
    if c < m.classes.len() {
        law_all_writes_are_seen(m, procs, c + 1, x);
        lemma_class_writes(m, procs, c, 0, x);
        if m.roots[c] == c {
            vstd::seq_lib::lemma_seq_concat_contains_all_elements(
                egraph::class_writes(m, procs, c, 0),
                egraph::all_writes(m, procs, c + 1),
                x,
            );
        }
    }
}

// ── Words ──

/// The tokens of a call are those with something in them, in order.
pub proof fn law_empty_tokens_do_not_count(ts: Seq<Seq<char>>, n: int)
    requires
        0 <= n <= ts.len(),
    ensures
        script::full_tokens(ts, n) == ts.take(n).filter(|t: Seq<char>| t.len() > 0),
    decreases n,
{
    let keep = |t: Seq<char>| t.len() > 0;
    if n > 0 {
        law_empty_tokens_do_not_count(ts, n - 1);
        let t = ts.take(n - 1);
        assert(ts.take(n) =~= t.push(ts[n - 1]));
        t.lemma_filter_push(ts[n - 1], keep);
    } else {
        reveal(Seq::filter);
        assert(ts.take(0) =~= Seq::empty());
        assert(ts.take(0).filter(keep) =~= Seq::empty());
    }
}

/// A degree of concurrency is named by its word, whatever space is around it; any
/// other word is refused.
pub proof fn law_words_for_concurrency(s: Seq<char>)
    ensures
        script_card::concurrency_of(s) == Ok::<_, Seq<char>>(Concurrency::Safe) <==> text::trimmed(
            s,
        ) == "safe"@,
        script_card::concurrency_of(s) == Ok::<_, Seq<char>>(Concurrency::Exclusive)
            <==> text::trimmed(s) == "exclusive"@,
        script_card::concurrency_of(s) == Ok::<_, Seq<char>>(Concurrency::Serial)
            <==> text::trimmed(s) == "serial"@,
        negotiate::concurrency_name(Concurrency::Safe) == "Safe"@,
        negotiate::concurrency_name(Concurrency::Exclusive) == "Exclusive"@,
        negotiate::concurrency_name(Concurrency::Serial) == "Serial"@,
        ast::status_text(Status::Done) == "Ok"@,
        ast::status_text(Status::Fail) == "Fail"@,
{
    reveal_strlit("safe");
    reveal_strlit("exclusive");
    reveal_strlit("serial");
    assert("safe"@.len() == 4 && "exclusive"@.len() == 9 && "serial"@.len() == 6);
}

/// A card that is given to a model tells its script, what it is for, what it takes
/// and gives, and how it may be called.
#[verifier::rlimit(60)]
#[verifier::spinoff_prover]
pub proof fn law_cards_are_told(name: Seq<char>, c: GCard)
    ensures
        ({
            let pure = if c.pure {
                "true"@
            } else {
                "false"@
            };
            let again = if c.idempotent {
                "true"@
            } else {
                "false"@
            };
            let head = "# script:"@ + name + (" 契约卡\nname="@ + c.name) + ("\ndesc="@ + c.desc);
            let ports = "\nparams="@ + c.params + ("\noutput="@ + c.output);
            let calls = "\npure="@ + pure + (" idempotent="@ + again) + (" concurrency="@
                + negotiate::concurrency_name(c.concurrency));
            negotiate::card_text(name, c) == head + ports + calls
        }),
{
    let pure = if c.pure {
        "true"@
    } else {
        "false"@
    };
    let again = if c.idempotent {
        "true"@
    } else {
        "false"@
    };
    let head = "# script:"@ + name + (" 契约卡\nname="@ + c.name) + ("\ndesc="@ + c.desc);
    let ports = "\nparams="@ + c.params + ("\noutput="@ + c.output);
    let calls = "\npure="@ + pure + (" idempotent="@ + again) + (" concurrency="@
        + negotiate::concurrency_name(c.concurrency));
    assert(negotiate::card_text(name, c) =~= head + ports + calls);
}

/// The evidence of a review that nobody gave is what was delivered, cut to its
/// first eighteen hundred characters; that of a fatal failure is its message, cut
/// to two thousand.
pub proof fn law_evidence_is_what_was_seen(m: Seq<char>, who: Reviewer, shown: Seq<char>)
    ensures
        review::run_verdict(Some(m), who, shown).fail,
        m.len() <= 2000 ==> review::run_verdict(Some(m), who, shown).evidence == "critical: "@ + m,
        m.len() > 2000 ==> review::run_verdict(Some(m), who, shown).evidence == "critical: "@
            + m.take(2000),
        shown.len() <= 1800 ==> review::run_verdict(None, Reviewer::Silent, shown).evidence
            == "[no independent review: bridge unavailable] "@ + shown,
        shown.len() > 1800 ==> review::run_verdict(None, Reviewer::Silent, shown).evidence
            == "[no independent review: bridge unavailable] "@ + shown.take(1800),
        shown.len() == 0 ==> review::run_verdict(None, Reviewer::Nobody, shown).evidence
            == "no deliver proc; all procs completed"@,
        0 < shown.len() <= 1800 ==> review::run_verdict(None, Reviewer::Nobody, shown).evidence
            == "[no independent review] "@ + shown,
        shown.len() > 1800 ==> review::run_verdict(None, Reviewer::Nobody, shown).evidence
            == "[no independent review] "@ + shown.take(1800),
        !review::run_verdict(None, Reviewer::Silent, shown).fail,
        !review::run_verdict(None, Reviewer::Nobody, shown).fail,
{
}

// ── Lists of nodes ──

/// What is said of a node that is not there: whether a stage or a proc is missing,
/// which, and where.
pub proof fn law_missing_nodes_are_said(node: Seq<char>, path: Seq<char>)
    ensures
        hyper_nodes::missing_node(GraphKind::Hyper, node, path) == "stage "@ + text::debug_quoted(
            node,
        ) + " not in "@ + path,
        hyper_nodes::missing_node(GraphKind::Pipeline, node, path) == "proc "@ + text::debug_quoted(
            node,
        ) + " not in "@ + path,
{
}

/// A report on nodes starts with its mode, and ends with its hits; a list of
/// reports with its path, and with them.
#[verifier::rlimit(60)]
#[verifier::spinoff_prover]
pub proof fn law_reports_end_with_their_hits(
    label: Seq<char>,
    key: Seq<char>,
    hs: Seq<GNodeHit>,
    mode: Seq<char>,
    path: Seq<char>,
    reports: Seq<Seq<char>>,
)
    ensures
        ("{\"mode\":\""@ + json::escaped(mode) + "\",\"query\":\""@ + json::escaped(label)
            + "\",\"node_key\":\""@ + json::escaped(key)).is_prefix_of(
            hyper_nodes::nodes_report(label, key, hs, mode),
        ),
        ("\"hits\":["@ + text::join_spec(hyper_nodes::kept_hits(hs, mode, hs.len() as int), ","@)
            + "]}"@).is_suffix_of(hyper_nodes::nodes_report(label, key, hs, mode)),
        "{\"mode\":\"list\",\"query\":\""@.is_prefix_of(hyper_nodes::nodes_list(path, reports)),
        ("\",\"nodes\":["@ + text::join_spec(reports, ","@) + "]}"@).is_suffix_of(
            hyper_nodes::nodes_list(path, reports),
        ),
{
    let t = hyper_nodes::nodes_report(label, key, hs, mode);
    let a = "{\"mode\":\""@ + json::escaped(mode) + "\",\"query\":\""@ + json::escaped(label)
        + "\",\"node_key\":\""@ + json::escaped(key);
    let z = "\"hits\":["@ + text::join_spec(
        hyper_nodes::kept_hits(hs, mode, hs.len() as int),
        ","@,
    ) + "]}"@;
    assert(t.subrange(0, a.len() as int) =~= a);
    assert(t.subrange(t.len() - z.len(), t.len() as int) =~= z);
    let l = hyper_nodes::nodes_list(path, reports);
    let b = "{\"mode\":\"list\",\"query\":\""@;
    let y = "\",\"nodes\":["@ + text::join_spec(reports, ","@) + "]}"@;
    assert(l.subrange(0, b.len() as int) =~= b);
    assert(l.subrange(l.len() - y.len(), l.len() as int) =~= y);
}

} // verus!
