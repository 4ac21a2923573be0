//! What logs and reports for programs say, field by field.

use crate::hyper;
use crate::hyper::{GStage, HyperRole};
use crate::hyper_emit;
use crate::hyper_key;
use crate::hyper_nodes;
use crate::hyper_nodes::{GNode, GNodeHit};
use crate::hyper_rank;
use crate::hyper_similar;
use crate::hyper_similar::GHit;
use crate::json;
use crate::negotiate;
use crate::negotiate::{GMissing, RoundSummary};
use crate::order;
use crate::review;
use crate::review::{L4Phase, L4ReviewRow};
use crate::text;
use crate::tree;
use crate::tree::{GRun, GTree};
use vstd::prelude::*;

verus! {

// ── Parts of texts ──

proof fn lemma_mid(s: Seq<char>, a: Seq<char>, b: Seq<char>, c: Seq<char>)
    requires
        s == a + b + c,
    ensures
        text::has(s, b),
{
    assert(s.subrange(a.len() as int, (a.len() + b.len()) as int) =~= b);
    assert(text::occurs_at(s, b, a.len() as int));
}

/// The parts of a joined text all stand in it.
#[verifier::rlimit(60)]
#[verifier::spinoff_prover]
pub proof fn law_joined_texts_hold_their_parts(ps: Seq<Seq<char>>, sep: Seq<char>, i: int)
    requires
        0 <= i < ps.len(),
    ensures
        text::has(text::join_spec(ps, sep), ps[i]),
    decreases ps.len(),
{
    let all = text::join_spec(ps, sep);
    if ps.len() == 1 {
        assert(all =~= Seq::<char>::empty() + ps[i] + Seq::<char>::empty());
        lemma_mid(all, Seq::empty(), ps[i], Seq::empty());
    } else if i == ps.len() - 1 {
        let head = text::join_spec(ps.drop_last(), sep) + sep;
        assert(all =~= head + ps[i] + Seq::<char>::empty());
        lemma_mid(all, head, ps[i], Seq::empty());
    } else {
        let before = ps.drop_last();
        law_joined_texts_hold_their_parts(before, sep, i);
        let head = text::join_spec(before, sep);
        let k = choose|k: int| text::occurs_at(head, before[i], k);
        let x = before[i];
        let front = head.take(k);
        let back = head.skip(k + x.len()) + sep + ps.last();
        assert(head =~= head.take(k) + x + head.skip(k + x.len()));
        assert(all =~= front + x + back);
        lemma_mid(all, front, x, back);
    }
}

#[verifier::rlimit(60)]
#[verifier::spinoff_prover]
proof fn lemma_in_join(
    t: Seq<char>,
    front: Seq<char>,
    ps: Seq<Seq<char>>,
    sep: Seq<char>,
    i: int,
    back: Seq<char>,
)
    requires
        0 <= i < ps.len(),
        t == front + text::join_spec(ps, sep) + back,
    ensures
        text::has(t, ps[i]),
{
    law_joined_texts_hold_their_parts(ps, sep, i);
    let j = text::join_spec(ps, sep);
    let x = ps[i];
    let k = choose|k: int| text::occurs_at(j, x, k);
    assert(j =~= j.take(k) + x + j.skip(k + x.len()));
    assert(t =~= (front + j.take(k)) + x + (j.skip(k + x.len()) + back));
    lemma_mid(t, front + j.take(k), x, j.skip(k + x.len()) + back);
}

// ── Trees ──

/// A run is written with its implementation, its status and its time.
#[verifier::rlimit(60)]
#[verifier::spinoff_prover]
pub proof fn law_runs_are_written(r: GRun)
    ensures
        ("{\"impl\":\""@ + tree::quoted(r.0)).is_prefix_of(tree::run_json(r)),
        text::has(tree::run_json(r), "\",\"status\":\""@ + tree::quoted(r.1)),
        text::has(tree::run_json(r), "\",\"latency_ms\":"@ + text::signed_dec(r.2) + "}"@),
        tree::run_text(r) == r.0 + (":"@ + r.1) + ("("@ + text::signed_dec(r.2) + "ms)"@),
{
    let t = tree::run_json(r);
    let a = "{\"impl\":\""@ + tree::quoted(r.0);
    let b = "\",\"status\":\""@ + tree::quoted(r.1);
    let c = "\",\"latency_ms\":"@ + text::signed_dec(r.2) + "}"@;
    assert(t =~= a + b + c);
    assert(t.subrange(0, a.len() as int) =~= a);
    lemma_mid(t, a, b, c);
    assert(t =~= (a + b) + c + Seq::<char>::empty());
    lemma_mid(t, a + b, c, Seq::empty());
    assert(tree::run_text(r) =~= r.0 + (":"@ + r.1) + ("("@ + text::signed_dec(r.2) + "ms)"@));
}

/// A node is written with its proc, how often it was tried, its status, its score
/// and all its runs.
#[verifier::rlimit(60)]
#[verifier::spinoff_prover]
pub proof fn law_nodes_are_written(n: tree::GNode, i: int)
    ensures
        ("{\"proc\":\""@ + tree::quoted(n.proc)).is_prefix_of(tree::node_json(n)),
        text::has(tree::node_json(n), "\",\"attempts\":"@ + text::dec(n.attempts as nat)),
        text::has(tree::node_json(n), ",\"status\":\""@ + tree::quoted(n.status)),
        text::has(tree::node_json(n), "\",\"score\":"@ + n.score.plain),
        0 <= i < n.impls.len() ==> text::has(tree::node_json(n), tree::run_json(n.impls[i])),
{
    let t = tree::node_json(n);
    let a = "{\"proc\":\""@ + tree::quoted(n.proc);
    let b = "\",\"attempts\":"@ + text::dec(n.attempts as nat);
    let c = ",\"status\":\""@ + tree::quoted(n.status);
    let d = "\",\"score\":"@ + n.score.plain;
    let rs = n.impls.map_values(|r: GRun| tree::run_json(r));
    let e = ",\"impls\":["@ + text::join_spec(rs, ","@) + "]}"@;
    assert(t =~= a + b + (c + d + e));
    lemma_mid(t, a, b, c + d + e);
    assert(t.subrange(0, a.len() as int) =~= a);
    assert(t =~= (a + b) + c + (d + e));
    lemma_mid(t, a + b, c, d + e);
    assert(t =~= (a + b + c) + d + e);
    lemma_mid(t, a + b + c, d, e);
    if 0 <= i < n.impls.len() {
        let front = a + b + c + d + ",\"impls\":["@;
        let j = text::join_spec(rs, ","@);
        assert(t =~= front + j + "]}"@);
        lemma_in_join(t, front, rs, ","@, i, "]}"@);
    }
}

/// An edge is written from where it comes to where it goes.
pub proof fn law_edges_are_written(e: (Seq<char>, Seq<char>))
    ensures
        tree::edge_json(e) == seq!['"'] + tree::quoted(e.0) + seq!['-', '>'] + tree::quoted(e.1)
            + seq!['"'],
{
    reveal_strlit("\"");
    reveal_strlit("->");
    assert("\""@ =~= seq!['"']);
    assert("->"@ =~= seq!['-', '>']);
}

/// A tree is written with its session, its pipeline, its time, all its nodes, all
/// its edges and its worth.
pub proof fn law_trees_are_written(t: GTree)
    ensures
        ({
            let nodes = t.nodes.map_values(|n: tree::GNode| tree::node_json(n));
            let edges = t.edges.map_values(|e: (Seq<char>, Seq<char>)| tree::edge_json(e));
            tree::tree_json(t) == "{\"session\":\""@ + tree::quoted(t.session)
                + "\",\"pipeline\":\""@ + tree::quoted(t.pipeline) + "\",\"recorded_at\":\""@
                + tree::quoted(t.recorded_at) + "\",\"nodes\":["@ + text::join_spec(nodes, ","@)
                + "],\"edges\":["@ + text::join_spec(edges, ","@) + "],\"v_proxy\":"@ + t.v_four
                + "}"@
        }),
{
    reveal(tree::tree_json);
}

/// A tree is shown with its session, its pipeline, its time and how many nodes it
/// has, with all of these, its edges where it has any, and its worth.
pub proof fn law_trees_are_shown(t: GTree)
    ensures
        ({
            let head = "session "@ + t.session + "  ["@ + t.pipeline + "]  "@ + t.recorded_at
                + "  ("@ + text::dec(t.nodes.len()) + " nodes)\n"@;
            let edges = if t.edges.len() == 0 {
                Seq::empty()
            } else {
                "  edges: "@ + text::join_spec(
                    t.edges.map_values(|e: (Seq<char>, Seq<char>)| e.0 + "→"@ + e.1),
                    " "@,
                ) + "\n"@
            };
            tree::tree_text(t) == head + t.nodes.map_values(
                |n: tree::GNode| tree::node_text(n),
            ).flatten_alt() + edges + "  V(β1=.02,β2=.01 proxy) = "@ + t.v_signed + "\n\n"@
        }),
{
    law_all_nodes_are_shown(t.nodes, t.nodes.len() as int);
    assert(t.nodes.take(t.nodes.len() as int) =~= t.nodes);
}

/// All nodes are shown, in order.
pub proof fn law_all_nodes_are_shown(nodes: Seq<tree::GNode>, n: int)
    requires
        0 <= n <= nodes.len(),
    ensures
        tree::nodes_text(nodes, n) == nodes.take(n).map_values(
            |x: tree::GNode| tree::node_text(x),
        ).flatten_alt(),
    decreases n,
{
    let f = |x: tree::GNode| tree::node_text(x);
    let m = nodes.take(n).map_values(f);
    if n > 0 {
        law_all_nodes_are_shown(nodes, n - 1);
        assert(m.drop_last() =~= nodes.take(n - 1).map_values(f));
    }
}

/// Where there is no session, that is said, and for which pipeline where one was
/// asked for.
pub proof fn law_missing_sessions_are_said(p: Seq<char>)
    ensures
        "no sessions found"@.is_prefix_of(tree::nothing_found(None)),
        ("no sessions found"@ + (" for pipeline '"@ + p + "'"@)).is_prefix_of(
            tree::nothing_found(Some(p)),
        ),
{
    let a = tree::nothing_found(None);
    let b = tree::nothing_found(Some(p));
    let x = "no sessions found"@;
    let y = x + (" for pipeline '"@ + p + "'"@);
    assert(a.subrange(0, x.len() as int) =~= x);
    assert(b.subrange(0, y.len() as int) =~= y);
}

// ── Negotiations ──

/// A round is logged with its number, the length of what was asked, what was
/// lacking, what was found and what was not.
#[verifier::rlimit(60)]
#[verifier::spinoff_prover]
pub proof fn law_rounds_are_logged(r: RoundSummary)
    ensures
        ({
            let lacking = negotiate::missing_views(r.missing@).map_values(
                |m: GMissing| negotiate::missing_json(m),
            );
            let found = text::views(r.resolved@).map_values(
                |s: Seq<char>| negotiate::string_json(s),
            );
            let not_found = text::views(r.unavailable@).map_values(
                |s: Seq<char>| negotiate::string_json(s),
            );
            let t = negotiate::round_json(r);
            &&& ("{\"round\":"@ + text::dec(r.round as nat)).is_prefix_of(t)
            &&& text::has(t, ",\"prompt_len\":"@ + text::dec(r.prompt_len as nat))
            &&& text::has(t, ",\"missing\":["@ + text::join_spec(lacking, ","@))
            &&& text::has(t, "],\"resolved\":["@ + text::join_spec(found, ","@))
            &&& text::has(t, "],\"unavailable\":["@ + text::join_spec(not_found, ","@))
        }),
{
    let lacking = negotiate::missing_views(r.missing@).map_values(
        |m: GMissing| negotiate::missing_json(m),
    );
    let found = text::views(r.resolved@).map_values(|s: Seq<char>| negotiate::string_json(s));
    let not_found = text::views(r.unavailable@).map_values(
        |s: Seq<char>| negotiate::string_json(s),
    );
    let t = negotiate::round_json(r);
    let a = "{\"round\":"@ + text::dec(r.round as nat);
    let b = ",\"prompt_len\":"@ + text::dec(r.prompt_len as nat);
    let c = ",\"missing\":["@ + text::join_spec(lacking, ","@);
    let d = "],\"resolved\":["@ + text::join_spec(found, ","@);
    let e = "],\"unavailable\":["@ + text::join_spec(not_found, ","@);
    let z = "]}"@;
    assert(t =~= a + b + (c + d + e + z));
    lemma_mid(t, a, b, c + d + e + z);
    assert(t.subrange(0, a.len() as int) =~= a);
    assert(t =~= (a + b) + c + (d + e + z));
    lemma_mid(t, a + b, c, d + e + z);
    assert(t =~= (a + b + c) + d + (e + z));
    lemma_mid(t, a + b + c, d, e + z);
    assert(t =~= (a + b + c + d) + e + z);
    lemma_mid(t, a + b + c + d, e, z);
}

/// What is lacking is logged with its name and the reason.
pub proof fn law_lacking_things_are_logged(m: GMissing)
    ensures
        ("{\"ref\":\""@ + negotiate::quoted(m.ref_str)).is_prefix_of(negotiate::missing_json(m)),
        ("\",\"why\":\""@ + negotiate::quoted(m.why) + "\"}"@).is_suffix_of(
            negotiate::missing_json(m),
        ),
{
    let t = negotiate::missing_json(m);
    let a = "{\"ref\":\""@ + negotiate::quoted(m.ref_str);
    let b = "\",\"why\":\""@ + negotiate::quoted(m.why) + "\"}"@;
    assert(t =~= a + b);
    assert(t.subrange(0, a.len() as int) =~= a);
    assert(t.subrange(t.len() - b.len(), t.len() as int) =~= b);
}

/// A log holds all rounds, in order, and the length of what was asked at last.
#[verifier::rlimit(60)]
#[verifier::spinoff_prover]
pub proof fn law_all_rounds_are_logged(rounds: Seq<RoundSummary>, len: int, i: int)
    requires
        0 <= i < rounds.len(),
    ensures
        text::has(negotiate::log_json(rounds, len), negotiate::round_json(rounds[i])),
        ("],\"final_prompt_len\":"@ + text::dec(len as nat) + "}"@).is_suffix_of(
            negotiate::log_json(rounds, len),
        ),
{
    let t = negotiate::log_json(rounds, len);
    let rs = rounds.map_values(|r: RoundSummary| negotiate::round_json(r));
    let j = text::join_spec(rs, ","@);
    let end = "],\"final_prompt_len\":"@ + text::dec(len as nat) + "}"@;
    assert(t =~= "{\"rounds\":["@ + j + end);
    lemma_in_join(t, "{\"rounds\":["@, rs, ","@, i, end);
    assert(t.subrange(t.len() - end.len(), t.len() as int) =~= end);
}

// ── Reviews ──

/// A review is shown with its number, its verdict, its pipeline and its label, or a
/// dash where it has none.
#[verifier::rlimit(60)]
#[verifier::spinoff_prover]
pub proof fn law_reviews_are_shown(r: L4ReviewRow)
    ensures
        ("#"@ + text::signed_dec(r.id as int) + (" ["@ + r.verdict@) + ("] "@
            + r.pipeline@)).is_prefix_of(review::review_line(r)),
        r.label@.len() == 0 ==> (" label="@ + "-"@ + "\n"@).is_suffix_of(review::review_line(r)),
        r.label@.len() > 0 ==> (" label="@ + r.label@ + "\n"@).is_suffix_of(
            review::review_line(r),
        ),
        text::has(review::review_line(r), " evidence="@ + r.evidence@),
{
    let t = review::review_line(r);
    let a = "#"@ + text::signed_dec(r.id as int) + (" ["@ + r.verdict@) + ("] "@ + r.pipeline@);
    let b = " evidence="@ + r.evidence@;
    let l = if r.label@.len() == 0 {
        "-"@
    } else {
        r.label@
    };
    let c = " label="@ + l + "\n"@;
    assert(t =~= a + b + c);
    lemma_mid(t, a, b, c);
    assert(t.subrange(0, a.len() as int) =~= a);
    assert(t.subrange(t.len() - c.len(), t.len() as int) =~= c);
}

/// The list of reviews starts with the phase and the agreement, and shows every
/// review, in order; where there are none, it says so.
pub proof fn law_all_reviews_are_shown(p: L4Phase, rate: Option<Seq<char>>, rows: Seq<L4ReviewRow>)
    ensures
        ({
            let t = review::review_list(p, rate, rows);
            let phase = if p == L4Phase::LogOnly {
                "log_only"@
            } else {
                "enforcing"@
            };
            let agreed = if rate is Some {
                rate->0
            } else {
                "n/a"@
            };
            let head = "L4 phase: "@ + phase + " (agreement: "@ + agreed + ")\n"@;
            &&& rows.len() == 0 ==> t == head + "(no l4 reviews)"@
            &&& rows.len() > 0 ==> t == head + rows.map_values(
                |r: L4ReviewRow| review::review_line(r),
            ).flatten_alt()
        }),
{
    lemma_review_lines(rows, rows.len() as int);
    assert(rows.take(rows.len() as int) =~= rows);
}

proof fn lemma_review_lines(rows: Seq<L4ReviewRow>, n: int)
    requires
        0 <= n <= rows.len(),
    ensures
        review::review_lines(rows, n) == rows.take(n).map_values(
            |r: L4ReviewRow| review::review_line(r),
        ).flatten_alt(),
    decreases n,
{
    let f = |r: L4ReviewRow| review::review_line(r);
    let m = rows.take(n).map_values(f);
    if n > 0 {
        lemma_review_lines(rows, n - 1);
        assert(m.drop_last() =~= rows.take(n - 1).map_values(f));
    }
}

// ── Hits ──

/// A graph of the same shape is to be reused, any other to be adapted; its kind, its
/// name, its path, how far its tags overlap, its key and what is said of it are
/// told.
pub proof fn law_graph_hits_are_told(h: GHit)
    ensures
        ({
            let (same, act) = if h.structure_match {
                ("true"@, "reuse_pipeline"@)
            } else {
                ("false"@, "adapt_topology"@)
            };
            hyper_similar::hit_json(h) == "{\"isomorphic\":"@ + same + ",\"reuse_action\":\""@ + act
                + "\",\"kind\":\""@ + h.kind + "\",\"name\":\""@ + json::escaped(h.name)
                + "\",\"path\":\""@ + json::escaped(h.path) + "\",\"tag_jaccard\":"@ + h.shown
                + ",\"structure_key\":\""@ + json::escaped(h.structure_key) + "\",\"note\":\""@
                + json::escaped(h.note) + "\"}"@
        }),
{
}

/// A hit for a query that lists what it wants is a match, says so and has the key
/// of its node; the rest stays.
pub proof fn law_listed_hits_match(n: GNode, h: GNodeHit)
    ensures
        ({
            let r = hyper_nodes::filtered_hit(n, h);
            &&& r.structure_match
            &&& r.note == "matched node query filter"@
            &&& r.node_key == hyper_nodes::node_key_of(n)
            &&& r.path == h.path && r.graph_name == h.graph_name && r.node_name == h.node_name
            &&& r.kind == h.kind && r.key == h.key && r.shown == h.shown && r.body_preview
                == h.body_preview
        }),
{
}

/// Hits for a query that lists what it wants go by path and node alone; any other
/// go first where their shape is the same, and by their key after that.
pub proof fn law_hits_are_ranked(a: GNodeHit, b: GNodeHit)
    ensures
        hyper_nodes::node_rank(a, true).top == hyper_nodes::node_rank(b, true).top,
        hyper_nodes::node_rank(a, true).key == hyper_nodes::node_rank(b, true).key,
        a.structure_match && !b.structure_match ==> hyper_rank::ahead(
            hyper_nodes::node_rank(a, false),
            hyper_nodes::node_rank(b, false),
        ),
        hyper_nodes::node_rank(a, false).key == a.key,
        forall|by: bool| (#[trigger] hyper_nodes::node_rank(a, by)).path == a.path
            && hyper_nodes::node_rank(a, by).node == a.node_name,
        a.path == b.path && order::text_lt(a.node_name, b.node_name) ==> hyper_rank::ahead(
            hyper_nodes::node_rank(a, true),
            hyper_nodes::node_rank(b, true),
        ),
{
}

// ── Pipelines of hypergraphs ──

/// All ways of a stage are written, in order.
pub proof fn law_all_ways_are_written(s: GStage, after: Seq<Seq<char>>, n: int, total: int)
    requires
        0 <= n,
    ensures
        hyper_emit::way_lines(s, after, n, total) == Seq::new(
            n as nat,
            |i: int| hyper_emit::way_line(s, after, i, total),
        ).flatten_alt(),
    decreases n,
{
    let m = Seq::new(n as nat, |i: int| hyper_emit::way_line(s, after, i, total));
    if n > 0 {
        law_all_ways_are_written(s, after, n - 1, total);
        assert(m.drop_last() =~= Seq::new(
            (n - 1) as nat,
            |i: int| hyper_emit::way_line(s, after, i, total),
        ));
    }
}

/// Each role that a stage has is told with how many stages have it, and no other.
pub proof fn law_roles_are_counted(ss: Seq<GStage>, role: HyperRole)
    ensures
        ({
            let n = ss.filter(|s: GStage| s.role == role).len();
            let t = hyper::role_name(role) + "×"@ + text::dec(n);
            &&& n > 0 ==> hyper_key::role_parts(ss).contains(t)
            &&& n > 0 ==> hyper_key::role_part(ss, role) == seq![t]
            &&& n == 0 ==> hyper_key::role_part(ss, role).len() == 0
        }),
        hyper_key::role_parts(ss).len() == hyper_key::role_part(ss, HyperRole::Default).len()
            + hyper_key::role_part(ss, HyperRole::Judge).len() + hyper_key::role_part(
            ss,
            HyperRole::Sink,
        ).len() + hyper_key::role_part(ss, HyperRole::Source).len(),
{
    lemma_role_count(ss, role, ss.len() as int);
    assert(ss.take(ss.len() as int) =~= ss);
    let n = ss.filter(|s: GStage| s.role == role).len();
    let t = hyper::role_name(role) + "×"@ + text::dec(n);
    let a = hyper_key::role_part(ss, HyperRole::Default);
    let b = hyper_key::role_part(ss, HyperRole::Judge);
    let c = hyper_key::role_part(ss, HyperRole::Sink);
    let d = hyper_key::role_part(ss, HyperRole::Source);
    vstd::seq_lib::lemma_seq_concat_contains_all_elements(a, b, t);
    vstd::seq_lib::lemma_seq_concat_contains_all_elements(a + b, c, t);
    vstd::seq_lib::lemma_seq_concat_contains_all_elements(a + b + c, d, t);
    if n > 0 {
        assert(hyper_key::role_part(ss, role)[0] == t);
    }
}

proof fn lemma_role_count(ss: Seq<GStage>, role: HyperRole, n: int)
    requires
        0 <= n <= ss.len(),
    ensures
        hyper_key::role_count(ss, role, n) == ss.take(n).filter(
            |s: GStage| s.role == role,
        ).len(),
    decreases n,
{
    let keep = |s: GStage| s.role == role;
    if n > 0 {
        lemma_role_count(ss, role, n - 1);
        let t = ss.take(n - 1);
        assert(ss.take(n) =~= t.push(ss[n - 1]));
        t.lemma_filter_push(ss[n - 1], keep);
    } else {
        reveal(Seq::filter);
        assert(ss.take(0) =~= Seq::empty());
    }
}

} // verus!
