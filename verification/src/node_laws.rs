//! What the nodes of graphs are told by, what is reported of them, and how graphs
//! are compared.

use crate::ast;
use crate::ast::{Impl, Proc};
use crate::body;
use crate::hyper;
use crate::hyper::{GStage, HyperRole};
use crate::hyper_emit;
use crate::hyper_nodes;
use crate::hyper_nodes::{GNode, GNodeHit, GRequest, NodeQuery};
use crate::hyper_rank;
use crate::hyper_sig;
use crate::hyper_sig::GSig;
use crate::hyper_similar;
use crate::hyper_similar::{GHit, GraphKind};
use crate::text;
use crate::text_laws;
use vstd::prelude::*;

verus! {

// ── Keys ──

proof fn lemma_parts(a: Seq<char>, x: Seq<char>, y: Seq<char>)
    requires
        a + x == a + y,
    ensures
        x == y,
{
    assert((a + x).skip(a.len() as int) =~= x);
    assert((a + y).skip(a.len() as int) =~= y);
}

proof fn lemma_dec(a: nat, b: nat)
    requires
        text::dec(a) == text::dec(b),
    ensures
        a == b,
{
    text_laws::law_decimals_read_back(a);
    text_laws::law_decimals_read_back(b);
}

/// Nodes have the same key where they do the same, in the same role, with as many
/// inputs, both or neither behind a judge, and both or neither in more than one
/// way; their tags do not count, and each of the others does.
pub proof fn law_nodes_are_told_by_what_they_do(a: GNode, b: GNode)
    requires
        a.role == b.role,
        a.op == b.op,
    ensures
        a.in_arity == b.in_arity && a.gated == b.gated && a.impl_bucket == b.impl_bucket
            ==> hyper_nodes::node_key_of(a) == hyper_nodes::node_key_of(b),
        a.in_arity == b.in_arity && a.gated != b.gated ==> hyper_nodes::node_key_of(a)
            != hyper_nodes::node_key_of(b),
        a.in_arity == b.in_arity && a.gated == b.gated && a.impl_bucket != b.impl_bucket
            ==> hyper_nodes::node_key_of(a) != hyper_nodes::node_key_of(b),
        a.gated == b.gated && a.impl_bucket == b.impl_bucket && a.in_arity != b.in_arity
            ==> hyper_nodes::node_key_of(a) != hyper_nodes::node_key_of(b),
{
    reveal_strlit("1");
    reveal_strlit("0");
    let head = "role="@ + a.role + "|op="@ + a.op + "|in="@;
    let ga = if a.gated {
        "1"@
    } else {
        "0"@
    };
    let gb = if b.gated {
        "1"@
    } else {
        "0"@
    };
    let ka = hyper_nodes::node_key_of(a);
    let kb = hyper_nodes::node_key_of(b);
    let ta = "|gated="@ + ga + "|impls="@ + text::dec(a.impl_bucket as nat);
    let tb = "|gated="@ + gb + "|impls="@ + text::dec(b.impl_bucket as nat);
    assert(ka =~= head + (text::dec(a.in_arity) + ta));
    assert(kb =~= head + (text::dec(b.in_arity) + tb));
    if ka == kb {
        lemma_parts(head, text::dec(a.in_arity) + ta, text::dec(b.in_arity) + tb);
        if a.in_arity == b.in_arity {
            lemma_parts(text::dec(a.in_arity), ta, tb);
            assert(ta =~= "|gated="@ + (ga + "|impls="@ + text::dec(a.impl_bucket as nat)));
            assert(tb =~= "|gated="@ + (gb + "|impls="@ + text::dec(b.impl_bucket as nat)));
            lemma_parts(
                "|gated="@,
                ga + "|impls="@ + text::dec(a.impl_bucket as nat),
                gb + "|impls="@ + text::dec(b.impl_bucket as nat),
            );
            assert((ga + "|impls="@ + text::dec(a.impl_bucket as nat))[0] == ga[0]);
            assert((gb + "|impls="@ + text::dec(b.impl_bucket as nat))[0] == gb[0]);
            if a.gated == b.gated {
                assert(ga + "|impls="@ + text::dec(a.impl_bucket as nat) =~= (ga + "|impls="@)
                    + text::dec(a.impl_bucket as nat));
                lemma_parts(
                    ga + "|impls="@,
                    text::dec(a.impl_bucket as nat),
                    text::dec(b.impl_bucket as nat),
                );
                lemma_dec(a.impl_bucket as nat, b.impl_bucket as nat);
            }
        } else if a.gated == b.gated && a.impl_bucket == b.impl_bucket {
            let x = text::dec(a.in_arity);
            let y = text::dec(b.in_arity);
            assert((x + ta).len() == (y + tb).len());
            assert((x + ta).take(x.len() as int) =~= x);
            assert((y + tb).take(y.len() as int) =~= y);
            lemma_dec(a.in_arity, b.in_arity);
        }
    }
}

// ── Operations ──

/// A body calls what stands in front of a bracket, at its start or behind a sign
/// that a call may start behind.
pub proof fn law_calls_are_found(a: Seq<char>, name: Seq<char>, rest: Seq<char>)
    requires
        a.len() > 0 ==> a.last() == ' ' || a.last() == '\t' || a.last() == '\n' || a.last() == '('
            || a.last() == ',' || a.last() == '>' || a.last() == '=',
    ensures
        hyper_nodes::called(a + name + seq!['('] + rest, name),
{
    let s = a + name + seq!['('] + rest;
    let i = a.len() as int;
    assert(s.subrange(i, i + name.len()) =~= name);
    if i > 0 {
        assert(s[i - 1] == a.last());
    }
    assert(s[i + name.len()] == '(');
    assert(hyper_nodes::called_at(s, name, i));
}

/// A name that no bracket follows, or that is the end of a longer word, is not
/// called.
pub proof fn law_other_words_are_not_called(s: Seq<char>, name: Seq<char>)
    requires
        forall|i: int|
            #[trigger] text::occurs_at(s, name, i) ==> i + name.len() >= s.len() || s[i
                + name.len()] != '(' || (i > 0 && text::ascii_alnum(s[i - 1])),
    ensures
        !hyper_nodes::called(s, name),
{
    if hyper_nodes::called(s, name) {
        let i = choose|i: int| hyper_nodes::called_at(s, name, i);
        assert(text::occurs_at(s, name, i));
        if i > 0 {
            lemma_edges(s[i - 1]);
        }
    }
}

proof fn lemma_edges(c: char)
    ensures
        hyper_nodes::call_edge(c) ==> !text::ascii_alnum(c),
{
}

/// The operation of a body is the first of the known ones, in their order, that it
/// calls, and unknown where it calls none.
pub proof fn law_bodies_do_the_first_known_thing(b: Seq<char>)
    ensures
        hyper_nodes::called(b, "llm"@) ==> hyper_nodes::body_operation(b) == "llm"@,
        !hyper_nodes::called(b, "llm"@) && hyper_nodes::called(b, "read"@) ==> hyper_nodes::body_operation(b) == "read"@,
        !hyper_nodes::called(b, "llm"@) && !hyper_nodes::called(b, "read"@) && hyper_nodes::called(b, "write"@) ==> hyper_nodes::body_operation(b) == "write"@,
        !hyper_nodes::called(b, "llm"@) && !hyper_nodes::called(b, "read"@) && !hyper_nodes::called(b, "write"@) && hyper_nodes::called(b, "run"@) ==> hyper_nodes::body_operation(b) == "run"@,
        !hyper_nodes::called(b, "llm"@) && !hyper_nodes::called(b, "read"@) && !hyper_nodes::called(b, "write"@) && !hyper_nodes::called(b, "run"@) && hyper_nodes::called(b, "script"@) ==> hyper_nodes::body_operation(b) == "script"@,
        !hyper_nodes::called(b, "llm"@) && !hyper_nodes::called(b, "read"@) && !hyper_nodes::called(b, "write"@) && !hyper_nodes::called(b, "run"@) && !hyper_nodes::called(b, "script"@) && hyper_nodes::called(b, "search"@) ==> hyper_nodes::body_operation(b) == "search"@,
        !hyper_nodes::called(b, "llm"@) && !hyper_nodes::called(b, "read"@) && !hyper_nodes::called(b, "write"@) && !hyper_nodes::called(b, "run"@) && !hyper_nodes::called(b, "script"@) && !hyper_nodes::called(b, "search"@) && hyper_nodes::called(b, "merge"@) ==> hyper_nodes::body_operation(b) == "merge"@,
        !hyper_nodes::called(b, "llm"@) && !hyper_nodes::called(b, "read"@) && !hyper_nodes::called(b, "write"@) && !hyper_nodes::called(b, "run"@) && !hyper_nodes::called(b, "script"@) && !hyper_nodes::called(b, "search"@) && !hyper_nodes::called(b, "merge"@) && hyper_nodes::called(b, "spawn"@) ==> hyper_nodes::body_operation(b) == "spawn"@,
        !hyper_nodes::called(b, "llm"@) && !hyper_nodes::called(b, "read"@) && !hyper_nodes::called(b, "write"@) && !hyper_nodes::called(b, "run"@) && !hyper_nodes::called(b, "script"@) && !hyper_nodes::called(b, "search"@) && !hyper_nodes::called(b, "merge"@) && !hyper_nodes::called(b, "spawn"@) && hyper_nodes::called(b, "exists"@) ==> hyper_nodes::body_operation(b) == "exists"@,
        !hyper_nodes::called(b, "llm"@) && !hyper_nodes::called(b, "read"@) && !hyper_nodes::called(b, "write"@) && !hyper_nodes::called(b, "run"@) && !hyper_nodes::called(b, "script"@) && !hyper_nodes::called(b, "search"@) && !hyper_nodes::called(b, "merge"@) && !hyper_nodes::called(b, "spawn"@) && !hyper_nodes::called(b, "exists"@) && hyper_nodes::called(b, "mkdir"@) ==> hyper_nodes::body_operation(b) == "mkdir"@,
        !hyper_nodes::called(b, "llm"@) && !hyper_nodes::called(b, "read"@) && !hyper_nodes::called(b, "write"@) && !hyper_nodes::called(b, "run"@) && !hyper_nodes::called(b, "script"@) && !hyper_nodes::called(b, "search"@) && !hyper_nodes::called(b, "merge"@) && !hyper_nodes::called(b, "spawn"@) && !hyper_nodes::called(b, "exists"@) && !hyper_nodes::called(b, "mkdir"@) && hyper_nodes::called(b, "cp"@) ==> hyper_nodes::body_operation(b) == "cp"@,
        !hyper_nodes::called(b, "llm"@) && !hyper_nodes::called(b, "read"@) && !hyper_nodes::called(b, "write"@) && !hyper_nodes::called(b, "run"@) && !hyper_nodes::called(b, "script"@) && !hyper_nodes::called(b, "search"@) && !hyper_nodes::called(b, "merge"@) && !hyper_nodes::called(b, "spawn"@) && !hyper_nodes::called(b, "exists"@) && !hyper_nodes::called(b, "mkdir"@) && !hyper_nodes::called(b, "cp"@) && hyper_nodes::called(b, "ls"@) ==> hyper_nodes::body_operation(b) == "ls"@,
        !hyper_nodes::called(b, "llm"@) && !hyper_nodes::called(b, "read"@) && !hyper_nodes::called(b, "write"@) && !hyper_nodes::called(b, "run"@) && !hyper_nodes::called(b, "script"@) && !hyper_nodes::called(b, "search"@) && !hyper_nodes::called(b, "merge"@) && !hyper_nodes::called(b, "spawn"@) && !hyper_nodes::called(b, "exists"@) && !hyper_nodes::called(b, "mkdir"@) && !hyper_nodes::called(b, "cp"@) && !hyper_nodes::called(b, "ls"@) && hyper_nodes::called(b, "stat"@) ==> hyper_nodes::body_operation(b) == "stat"@,
        !hyper_nodes::called(b, "llm"@) && !hyper_nodes::called(b, "read"@) && !hyper_nodes::called(b, "write"@) && !hyper_nodes::called(b, "run"@) && !hyper_nodes::called(b, "script"@) && !hyper_nodes::called(b, "search"@) && !hyper_nodes::called(b, "merge"@) && !hyper_nodes::called(b, "spawn"@) && !hyper_nodes::called(b, "exists"@) && !hyper_nodes::called(b, "mkdir"@) && !hyper_nodes::called(b, "cp"@) && !hyper_nodes::called(b, "ls"@) && !hyper_nodes::called(b, "stat"@) ==> hyper_nodes::body_operation(b) == "unknown"@,
{
}

/// Tags tell what a node does, asking a model before writing, writing before
/// reading, reading before judging and that before searching; without such tags
/// its role does.
pub proof fn law_tags_tell_what_nodes_do(tags: Set<Seq<char>>, role: HyperRole)
    ensures
        ({
            let op = hyper_nodes::tagged_operation(tags, role);
            let model = tags.contains("llm"@) || tags.contains("extract"@);
            let writes = tags.contains("write"@);
            let reads = tags.contains("read"@) || tags.contains("io"@);
            let judges = tags.contains("judge"@) || tags.contains("gate"@);
            &&& model ==> op == "llm"@
            &&& !model && writes ==> op == "write"@
            &&& !model && !writes && reads ==> op == "read"@
            &&& !model && !writes && !reads && (judges || role == HyperRole::Judge) ==> op
                == "run"@
            &&& !model && !writes && !reads && !judges && tags.contains("search"@) && role
                != HyperRole::Judge ==> op == "search"@
            &&& !model && !writes && !reads && !judges && !tags.contains("search"@) ==> (
            match role {
                HyperRole::Source => op == "read"@,
                HyperRole::Sink => op == "write"@,
                HyperRole::Judge => op == "run"@,
                HyperRole::Default => op == "unknown"@,
            })
        }),
{
}

/// The first enabled implementation is found.
pub proof fn law_the_first_enabled_way_counts(plan: Seq<Impl>, i: int, k: int)
    requires
        0 <= i <= k <= plan.len(),
        forall|j: int| i <= j < k ==> !(#[trigger] plan[j]).enabled,
        k < plan.len() ==> plan[k].enabled,
    ensures
        hyper_nodes::first_enabled(plan, i) == (if k < plan.len() {
            Some(k)
        } else {
            None
        }),
    decreases k - i,
{
    if i < k {
        assert(!plan[i].enabled);
        law_the_first_enabled_way_counts(plan, i + 1, k);
    }
}

/// A proc does what its first enabled body does, and where that is not known, or
/// there is none, what its tags tell; its body is shown up to eighty characters.
pub proof fn law_procs_do_what_their_body_does(p: Proc, k: int)
    requires
        0 <= k <= p.plan@.len(),
        forall|j: int| 0 <= j < k ==> !(#[trigger] p.plan@[j]).enabled,
        k < p.plan@.len() ==> p.plan@[k].enabled,
    ensures
        ({
            let op = hyper_nodes::proc_operation(p);
            let tags = ast::plan_tags(p.plan@);
            let told = hyper_nodes::tagged_operation(tags, hyper_sig::role_of_proc(p, tags));
            let known = k < p.plan@.len() && hyper_nodes::body_operation(p.plan@[k].body_text@)
                != "unknown"@;
            &&& known ==> op == hyper_nodes::body_operation(p.plan@[k].body_text@)
            &&& !known ==> op == told
        }),
        k < p.plan@.len() && p.plan@[k].body_text@.len() <= 80 ==> hyper_nodes::preview_of(p.plan@)
            == p.plan@[k].body_text@,
        k < p.plan@.len() && p.plan@[k].body_text@.len() > 80 ==> hyper_nodes::preview_of(p.plan@)
            == p.plan@[k].body_text@.take(80),
        k == p.plan@.len() ==> hyper_nodes::preview_of(p.plan@).len() == 0,
{
    law_the_first_enabled_way_counts(p.plan@, 0, k);
}

/// The node of a stage has its role, as many inputs as the stage stands behind, is
/// behind a judge where the stage is, and has more than one way where the stage
/// needs two.
pub proof fn law_stage_nodes_are_of_their_stage(s: GStage)
    ensures
        ({
            let n = hyper_nodes::stage_node(s);
            &&& n.role == hyper::role_name(s.role)
            &&& n.in_arity == s.after.to_set().len()
            &&& n.gated <==> s.gated_by is Some
            &&& n.impl_bucket == 2 <==> s.min_impls >= 2
            &&& n.impl_bucket == 1 <==> s.min_impls < 2
            &&& n.tags == hyper_emit::tags_of(s)
            &&& n.op == hyper_nodes::tagged_operation(n.tags, s.role)
        }),
{
}

/// The node of a proc has as many inputs as its enabled ways take from, is behind a
/// judge where one of them has a condition, and has more than one way where two are
/// enabled.
pub proof fn law_proc_nodes_are_of_their_proc(p: Proc, x: Seq<char>)
    ensures
        ({
            let n = hyper_nodes::proc_node(p);
            &&& n.op == hyper_nodes::proc_operation(p)
            &&& n.gated <==> exists|k: int|
                0 <= k < p.plan@.len() && (#[trigger] p.plan@[k]).enabled && p.plan@[k].when is Some
            &&& n.in_arity == hyper_nodes::taken_upto(p.plan@, p.plan@.len() as int).len()
            &&& hyper_nodes::taken_upto(p.plan@, p.plan@.len() as int).contains(x) <==> exists|
                k: int,
            |
                0 <= k < p.plan@.len() && draws(#[trigger] p.plan@[k], x)
            &&& n.impl_bucket == 1 || n.impl_bucket == 2
            &&& n.tags == ast::plan_tags(p.plan@)
        }),
{
    let t = hyper_nodes::taken_upto(p.plan@, p.plan@.len() as int);
    if t.contains(x) {
        let k = choose|k: int|
            0 <= k < p.plan@.len() && #[trigger] hyper_nodes::takes(p.plan@[k], x);
        assert(draws(p.plan@[k], x));
    }
    if exists|k: int| 0 <= k < p.plan@.len() && draws(#[trigger] p.plan@[k], x) {
        let k = choose|k: int| 0 <= k < p.plan@.len() && draws(#[trigger] p.plan@[k], x);
        assert(hyper_nodes::takes(p.plan@[k], x));
    }
}

/// Whether an enabled implementation draws on `x`: among its references, or in a
/// condition that looks at no verdict.
pub open spec fn draws(i: Impl, x: Seq<char>) -> bool {
    i.enabled && (text::views(i.refs@).contains(x) || (i.when is Some && !text::has(
        i.when->0@,
        ".score"@,
    ) && !text::has(i.when->0@, ".ok"@) && body::body_refs_spec(i.when->0@).contains(x)))
}

/// A proc has the role of its tags; where they give none it is a source where it
/// reads without inputs, a sink where it writes, and else just works.
pub proof fn law_nodes_have_a_role(p: Proc, op: Seq<char>, arity: nat)
    requires
        op == "read"@ || op == "write"@ || op == "ls"@ || op == "llm"@,
    ensures
        ({
            let tags = ast::plan_tags(p.plan@);
            let told = hyper_sig::role_of_proc(p, tags);
            let role = hyper_nodes::node_role(p, op, arity);
            &&& told != HyperRole::Default ==> role == told
            &&& told == HyperRole::Default && (op == "read"@ || op == "ls"@) && arity == 0 ==> role
                == HyperRole::Source
            &&& told == HyperRole::Default && (op == "read"@ || op == "ls"@) && arity > 0 ==> role
                == HyperRole::Default
            &&& told == HyperRole::Default && op == "write"@ ==> role == HyperRole::Sink
            &&& told == HyperRole::Default && op == "llm"@ ==> role == HyperRole::Default
        }),
{
    reveal_strlit("read");
    reveal_strlit("write");
    reveal_strlit("ls");
    reveal_strlit("llm");
    reveal_strlit("stat");
    reveal_strlit("exists");
    reveal_strlit("run");
    assert("read"@[0] == 'r' && "read"@.len() == 4 && "write"@.len() == 5 && "ls"@.len() == 2
        && "llm"@.len() == 3 && "llm"@[0] == 'l' && "stat"@.len() == 4 && "stat"@[0] == 's'
        && "exists"@.len() == 6 && "run"@.len() == 3 && "run"@[0] == 'r');
}

// ── Hits ──

/// What is said of a node: it is the same where its key is, it can be adapted where
/// its role and its operation are, it is a hint where its role is, and else it is
/// none.
pub proof fn law_nodes_are_reused_adapted_or_passed(q: GNode, c: GNode)
    ensures
        ({
            let note = hyper_nodes::node_note(q, c);
            let same = hyper_nodes::node_key_of(q) == hyper_nodes::node_key_of(c);
            &&& same ==> note == "node isomorphic — reuse this proc/stage impl"@
            &&& !same && q.role == c.role && q.op == c.op ==> "same role+op"@.is_prefix_of(note)
            &&& !same && q.role == c.role && q.op != c.op ==> note == "same role only — weak hint"@
            &&& !same && q.role != c.role ==> note == "not a node match"@
        }),
{
    reveal_strlit("same role+op");
    reveal_strlit("same role+op; arity/gate/impls differ — adapt ports");
    let a = "same role+op; arity/gate/impls differ — adapt ports"@;
    assert(a.subrange(0, 12) =~= "same role+op"@);
}

/// A node is as asked exactly where it has every role, operation, number of inputs
/// and judge that is asked for.
pub proof fn law_filters_ask_for_each_thing(q: NodeQuery, n: GNode)
    ensures
        hyper_nodes::fits(q, n) <==> (q.role is None || q.role->0@ == n.role) && (q.op is None
            || q.op->0@ == n.op) && (q.in_arity is None || q.in_arity->0 == n.in_arity) && (
        q.gated is None || q.gated->0 == n.gated),
        hyper_nodes::asks_anything(q) <==> !(q.role is None && q.op is None && q.in_arity is None
            && q.gated is None),
{
}

/// Whether a hit is worth a place in a report.
pub open spec fn worth(h: GNodeHit, mode: Seq<char>) -> bool {
    h.structure_match || mode == "filter"@ || "same role+op"@.is_prefix_of(h.note)
}

/// A report shows the hits that are worth it, in order, and no more than forty of
/// them.
pub proof fn law_reports_show_forty_hits(hs: Seq<GNodeHit>, mode: Seq<char>, n: int)
    requires
        0 <= n <= hs.len(),
    ensures
        ({
            let shown = hs.take(n).filter(|h: GNodeHit| worth(h, mode)).map_values(
                |h: GNodeHit| hyper_nodes::node_hit_json(h, mode),
            );
            let k: int = if shown.len() <= 40 {
                shown.len() as int
            } else {
                40
            };
            hyper_nodes::kept_hits(hs, mode, n) == shown.take(k)
        }),
    decreases n,
{
    let keep = |h: GNodeHit| worth(h, mode);
    let show = |h: GNodeHit| hyper_nodes::node_hit_json(h, mode);
    let now = hyper_nodes::kept_hits(hs, mode, n);
    let shown = hs.take(n).filter(keep).map_values(show);
    if n > 0 {
        law_reports_show_forty_hits(hs, mode, n - 1);
        let t = hs.take(n - 1);
        assert(hs.take(n) =~= t.push(hs[n - 1]));
        t.lemma_filter_push(hs[n - 1], keep);
        let old_shown = t.filter(keep).map_values(show);
        if keep(hs[n - 1]) {
            assert(t.filter(keep).push(hs[n - 1]).map_values(show) =~= old_shown.push(
                show(hs[n - 1]),
            ));
            assert(shown == old_shown.push(show(hs[n - 1])));
            if old_shown.len() < 40 {
                assert(old_shown.take(old_shown.len() as int) =~= old_shown);
                assert(shown.take(shown.len() as int) =~= shown);
            } else {
                assert(shown.take(40) =~= old_shown.take(40));
            }
        }
    } else {
        reveal(Seq::filter);
        assert(hs.take(0) =~= Seq::empty());
        assert(shown =~= Seq::empty());
        assert(shown.take(0) =~= now);
    }
}

/// A node of the same shape is reused, one of the same role and operation adapted,
/// and one that was asked for by a filter is a candidate.
pub proof fn law_hits_say_what_to_do(h: GNodeHit, mode: Seq<char>)
    ensures
        mode != "filter"@ && h.structure_match ==> hyper_nodes::node_action(h, mode)
            == "reuse_node"@,
        mode != "filter"@ && !h.structure_match && "same role+op"@.is_prefix_of(h.note)
            ==> hyper_nodes::node_action(h, mode) == "adapt_ports"@,
        mode == "filter"@ && !"same role+op"@.is_prefix_of(h.note) ==> hyper_nodes::node_action(
            h,
            mode,
        ) == "candidate_node"@,
        mode != "filter"@ && !h.structure_match && !"same role+op"@.is_prefix_of(h.note)
            ==> hyper_nodes::node_action(h, mode) == "inspect"@,
{
}

/// A hit is the node that was asked about where its name and, but for the direction
/// of its slashes, its path are the same.
pub proof fn law_a_node_is_not_its_own_hit(h: GNodeHit, path: Seq<char>, node: Seq<char>)
    ensures
        h.node_name != node ==> !hyper_nodes::is_self(h, path, node),
        h.node_name == node && h.path == path ==> hyper_nodes::is_self(h, path, node),
        hyper_nodes::is_self(h, path, node) ==> text::replace_spec(h.path, "\\"@, "/"@)
            == text::replace_spec(path, "\\"@, "/"@),
{
}

// ── Requests ──

/// A file holds a hypergraph or a pipeline by its ending, and nothing else is a
/// graph.
pub proof fn law_endings_tell_graphs(a: Seq<char>)
    ensures
        hyper_similar::kind_of_path(a + ".hyper"@) == Some(GraphKind::Hyper),
        hyper_similar::kind_of_path(a + ".pipeline"@) == Some(GraphKind::Pipeline),
        hyper_similar::kind_of_path(a) is Some ==> ".hyper"@.is_suffix_of(a)
            || ".pipeline"@.is_suffix_of(a),
{
    reveal_strlit(".hyper");
    reveal_strlit(".pipeline");
    let x = a + ".hyper"@;
    let y = a + ".pipeline"@;
    assert(x.subrange(x.len() - 6, x.len() as int) =~= ".hyper"@);
    assert(y.subrange(y.len() - 9, y.len() as int) =~= ".pipeline"@);
    if ".hyper"@.is_suffix_of(y) {
        let t = y.subrange(y.len() - 6, y.len() as int);
        assert(t == ".hyper"@);
        assert(t[0] == y[y.len() - 6]);
        assert(y[y.len() - 6] == ".pipeline"@[3]);
        assert(".pipeline"@[3] == 'p');
        assert(".hyper"@[0] == '.');
    }
}

/// A node stands behind the last colon of a request, where a graph stands in front
/// of it.
pub proof fn law_nodes_stand_behind_a_colon(p: Seq<char>, n: Seq<char>)
    requires
        hyper_similar::kind_of_path(p) is Some,
        n.len() > 0,
        forall|i: int|
            0 <= i < n.len() ==> #[trigger] n[i] != ':' && n[i] != '/' && n[i] != '\\' && n[i]
                != '.',
        forall|i: int| 0 <= i < p.len() ==> #[trigger] p[i] != ':',
    ensures
        hyper_nodes::path_and_node(p + seq![':'] + n) == (p, Some(n)),
        hyper_nodes::path_and_node(p) == (p, None::<Seq<char>>),
{
    let q = p + seq![':'] + n;
    text_laws::law_the_last_is_found(p, ':', n);
    assert(q.take(p.len() as int) =~= p);
    assert(q.skip(p.len() as int + 1) =~= n);
    text::lemma_find_char_none(n, '/', 0);
    text::lemma_find_char_none(n, '\\', 0);
    text::lemma_find_char_none(n, '.', 0);
    text_laws::law_the_last_is_found(p, ':', p);
}

/// A request with a filter that asks for anything is answered by it; any other by
/// the node or the graph that it names, and refused where it names none.
pub proof fn law_requests_are_filters_or_graphs(query: Seq<char>, filter: Option<NodeQuery>)
    ensures
        ({
            let asks = filter is Some && (filter->0.role is Some || filter->0.op is Some
                || filter->0.in_arity is Some || filter->0.gated is Some);
            let pn = hyper_nodes::path_and_node(query);
            let k = hyper_similar::kind_of_path(pn.0);
            let r = hyper_nodes::request_of(query, filter);
            &&& asks ==> r is Filter
            &&& !asks && pn.0.len() > 0 && k is Some && pn.1 is Some ==> r == GRequest::One(
                k->0,
                pn.0,
                pn.1->0,
            )
            &&& !asks && pn.0.len() > 0 && k is Some && pn.1 is None ==> r == GRequest::All(
                k->0,
                pn.0,
            )
            &&& !asks && (pn.0.len() == 0 || k is None) ==> r is Refused
        }),
{
}

// ── Comparing graphs ──

/// Two graphs have the same shape both ways round, and each has its own; two
/// hypergraphs by their edges, any other two by their projections.
pub proof fn law_shapes_are_compared_alike(a: GSig, b: GSig)
    ensures
        hyper_similar::same_structure(a, b) == hyper_similar::same_structure(b, a),
        hyper_similar::same_structure(a, a),
        a.hypergraph_key is Some && b.hypergraph_key is Some ==> (hyper_similar::same_structure(
            a,
            b,
        ) <==> a.hypergraph_key == b.hypergraph_key),
        a.hypergraph_key is None || b.hypergraph_key is None ==> (hyper_similar::same_structure(
            a,
            b,
        ) <==> hyper_sig::dag_key_of(a) == hyper_sig::dag_key_of(b)),
{
}

/// What is said of a graph: whether its shape is the same, by its edges or its
/// projection; whether at least its roles are; or neither.
pub proof fn law_graphs_are_reused_adapted_or_passed(q: GSig, c: GSig, kind: Seq<char>, key: u64)
    ensures
        ({
            let note = hyper_similar::similar_note(q, c, kind, key);
            let same = hyper_similar::same_structure(q, c);
            let both = q.hypergraph_key is Some && c.hypergraph_key is Some;
            &&& same && both ==> note == "ordered typed hypergraph isomorphic (incidence key)"@
            &&& same && !both && (kind == "pipeline"@ || q.hypergraph_key is Some) ==> note
                == "DAG projection isomorphic (not hypergraph iso — pipeline has no hyperedges)"@
            &&& !same && q.roles == c.roles ==> "same role sequence"@.is_prefix_of(note)
            &&& !same && q.roles != c.roles ==> note
                == "not isomorphic (role/edge mismatch) — tag overlap ignored for reuse"@
        }),
{
    reveal_strlit("same role sequence");
    reveal_strlit("same role sequence; edge/gate/hyperedge pattern differs");
    let a = "same role sequence; edge/gate/hyperedge pattern differs"@;
    assert(a.subrange(0, 18) =~= "same role sequence"@);
}

/// What is known of a graph goes into its hit as it is.
pub proof fn law_hits_tell_of_their_graph(
    q: GSig,
    c: GSig,
    path: Seq<char>,
    name: Seq<char>,
    kind: Seq<char>,
    key: u64,
    shown: Seq<char>,
)
    ensures
        ({
            let h = hyper_similar::scored(q, c, path, name, kind, key, shown);
            &&& h.path == path && h.name == name && h.kind == kind && h.key == key && h.shown
                == shown
            &&& h.structure_match <==> hyper_similar::same_structure(q, c)
            &&& h.note == hyper_similar::similar_note(q, c, kind, key)
            &&& c.hypergraph_key is None ==> h.structure_key == hyper_sig::dag_key_of(c)
        }),
{
}

/// Whether a hit is told of: it is another graph, with the same shape or roles.
pub open spec fn told(path: Seq<char>, h: GHit) -> bool {
    hyper_similar::slashed(h.path) != hyper_similar::slashed(path) && (h.structure_match
        || "same role sequence"@.is_prefix_of(h.note))
}

/// A report tells of all hits of other graphs with the same shape or roles, in
/// order.
pub proof fn law_reports_tell_of_other_graphs(path: Seq<char>, hits: Seq<GHit>)
    ensures
        hyper_similar::reported_hits(path, hits, hits.len() as int) == hits.filter(
            |h: GHit| told(path, h),
        ).map_values(|h: GHit| hyper_similar::hit_json(h)),
{
    lemma_reported(path, hits, hits.len() as int);
    assert(hits.take(hits.len() as int) =~= hits);
}

proof fn lemma_reported(path: Seq<char>, hits: Seq<GHit>, n: int)
    requires
        0 <= n <= hits.len(),
    ensures
        hyper_similar::reported_hits(path, hits, n) == hits.take(n).filter(
            |h: GHit| told(path, h),
        ).map_values(|h: GHit| hyper_similar::hit_json(h)),
    decreases n,
{
    let keep = |h: GHit| told(path, h);
    let show = |h: GHit| hyper_similar::hit_json(h);
    if n > 0 {
        lemma_reported(path, hits, n - 1);
        let t = hits.take(n - 1);
        assert(hits.take(n) =~= t.push(hits[n - 1]));
        t.lemma_filter_push(hits[n - 1], keep);
        if keep(hits[n - 1]) {
            assert(t.filter(keep).push(hits[n - 1]).map_values(show) =~= t.filter(
                keep,
            ).map_values(show).push(show(hits[n - 1])));
        }
    } else {
        reveal(Seq::filter);
        assert(hits.take(0) =~= Seq::empty());
        assert(hits.take(0).filter(keep).map_values(show) =~= Seq::empty());
    }
}

/// Graphs are looked for where it is said, and else in the directories of
/// examples.
pub proof fn law_examples_are_looked_through(roots: Seq<Seq<char>>)
    ensures
        roots.len() > 0 ==> hyper_similar::scan_of(roots) == roots,
        roots.len() == 0 ==> hyper_similar::scan_of(roots) == seq![
            "examples"@,
            "examples/hyper"@,
            "examples/scripts"@,
        ],
{
}

/// Tags overlap both ways alike, never more than they are together, and wholly
/// where they are the same.
pub proof fn law_tags_overlap_alike(a: Set<Seq<char>>, b: Set<Seq<char>>)
    requires
        a.finite(),
        b.finite(),
    ensures
        hyper_rank::overlap_of(a, b) == hyper_rank::overlap_of(b, a),
        hyper_rank::overlap_of(a, b).0 <= hyper_rank::overlap_of(a, b).1,
        hyper_rank::overlap_of(a, a) == (a.len(), a.len()),
        a.disjoint(b) ==> hyper_rank::overlap_of(a, b).0 == 0 && hyper_rank::overlap_of(a, b).1
            == a.len() + b.len(),
{
    assert(a.intersect(b) =~= b.intersect(a));
    assert(a.union(b) =~= b.union(a));
    assert(a.intersect(a) =~= a);
    assert(a.union(a) =~= a);
    vstd::set_lib::lemma_len_subset(a.intersect(b), a.union(b));
    if a.disjoint(b) {
        assert(a.intersect(b) =~= Set::<Seq<char>>::empty());
        vstd::set_lib::lemma_set_disjoint_lens(a, b);
    }
}

/// Graphs with as many nodes are compared node by node, any other by all their
/// tags.
pub proof fn law_overlaps_are_taken_node_by_node(
    a: Seq<Set<Seq<char>>>,
    b: Seq<Set<Seq<char>>>,
    i: int,
)
    ensures
        a.len() == b.len() ==> hyper_rank::overlaps_of(a, b).len() == a.len(),
        a.len() == b.len() && 0 <= i < a.len() ==> hyper_rank::overlaps_of(a, b)[i]
            == hyper_rank::overlap_of(a[i], b[i]),
        a.len() != b.len() ==> hyper_rank::overlaps_of(a, b).len() == 1
            && hyper_rank::overlaps_of(a, b)[0] == hyper_rank::overlap_of(
            hyper_rank::pooled(a, a.len() as int),
            hyper_rank::pooled(b, b.len() as int),
        ),
{
}

/// All tags of a graph are those of its nodes.
pub proof fn law_all_tags_are_pooled(ts: Seq<Set<Seq<char>>>, n: int, t: Seq<char>)
    requires
        0 <= n <= ts.len(),
    ensures
        hyper_rank::pooled(ts, n).contains(t) <==> exists|i: int|
            0 <= i < n && (#[trigger] ts[i]).contains(t),
    decreases n,
{
    if n > 0 {
        law_all_tags_are_pooled(ts, n - 1, t);
        assert(ts[n - 1] == ts[n - 1]);
    }
}

// ── Shapes of pipelines ──

/// Tags tell the role of a proc: judging before all, writing without reading is the
/// end, reading without inputs the start, and any other writing the end again.
pub proof fn law_tags_tell_roles(p: Proc, tags: Set<Seq<char>>)
    ensures
        ({
            let r = hyper_sig::role_of_proc(p, tags);
            let judges = tags.contains("judge"@) || tags.contains("gate"@);
            let reads = tags.contains("read"@) || tags.contains("io"@) || tags.contains("file"@);
            let alone = forall|k: int|
                0 <= k < p.plan@.len() ==> (#[trigger] p.plan@[k]).refs@.len() == 0;
            &&& r == HyperRole::Judge <==> judges
            &&& !judges && tags.contains("write"@) && !tags.contains("read"@) ==> r
                == HyperRole::Sink
            &&& !judges && tags.contains("write"@) && tags.contains("read"@) ==> r == (if alone {
                HyperRole::Source
            } else {
                HyperRole::Sink
            })
            &&& !judges && !tags.contains("write"@) && reads && alone ==> r == HyperRole::Source
            &&& !judges && !tags.contains("write"@) && !(reads && alone) ==> r
                == HyperRole::Default
        }),
{
}

/// A plan takes data from what its conditions ask, and from what it reads but for
/// those whose verdict it waits for.
pub proof fn law_verdicts_are_no_data(plan: Seq<Impl>, x: Seq<char>)
    ensures
        hyper_sig::data_of(plan).contains(x) <==> (exists|k: int|
            0 <= k < plan.len() && #[trigger] hyper_sig::asks(plan[k], x)) || ((exists|k: int|
            0 <= k < plan.len() && text::views((#[trigger] plan[k]).refs@).contains(x)) && !(exists|
            k: int,
        |
            0 <= k < plan.len() && #[trigger] hyper_sig::judged_by(plan[k], x))),
{
    let n = plan.len() as int;
    if hyper_sig::read_upto(plan, n).contains(x) {
        let k = choose|k: int| 0 <= k < n && #[trigger] text::views(plan[k].refs@).contains(x);
        assert(text::views(plan[k].refs@).contains(x));
    }
    if exists|k: int| 0 <= k < plan.len() && text::views((#[trigger] plan[k]).refs@).contains(x) {
        let k = choose|k: int|
            0 <= k < plan.len() && text::views((#[trigger] plan[k]).refs@).contains(x);
        assert(text::views(plan[k].refs@).contains(x));
    }
}

/// A condition looks at a verdict where it speaks of a score or of success: then it
/// waits for the procs that it names, and else it asks them for data.
pub proof fn law_conditions_wait_or_ask(i: Impl, x: Seq<char>)
    ensures
        ({
            let verdict = text::has(i.when->0@, ".score"@) || text::has(i.when->0@, ".ok"@);
            let named = body::body_refs_spec(i.when->0@).contains(x);
            &&& hyper_sig::judged_by(i, x) <==> i.when is Some && verdict && named
            &&& hyper_sig::asks(i, x) <==> i.when is Some && !verdict && named
        }),
{
}

/// The workers of a pipeline are its procs that are not there to deliver, in order.
pub proof fn law_workers_do_not_deliver(procs: Seq<Proc>, n: int, w: usize)
    requires
        0 <= n <= procs.len() <= usize::MAX,
    ensures
        hyper_sig::workers(procs, n).contains(w) <==> w < n && !procs[w as int].deliver
            && procs[w as int].name@ != "deliver"@,
        forall|i: int, j: int|
            0 <= i < j < hyper_sig::workers(procs, n).len() ==> hyper_sig::workers(procs, n)[i]
                < hyper_sig::workers(procs, n)[j],
    decreases n,
{
    let now = hyper_sig::workers(procs, n);
    if n > 0 {
        law_workers_do_not_deliver(procs, n - 1, w);
        let before = hyper_sig::workers(procs, n - 1);
        assert forall|i: int| 0 <= i < before.len() implies before[i] < n - 1 by {
            law_workers_do_not_deliver(procs, n - 1, before[i]);
            assert(before.contains(before[i]));
        }
        if hyper_sig::works(procs[n - 1]) {
            assert(now[before.len() as int] == (n - 1) as usize);
            if before.contains(w) {
                let i = choose|i: int| 0 <= i < before.len() && before[i] == w;
                assert(now[i] == w);
            }
            if now.contains(w) {
                let i = choose|i: int| 0 <= i < now.len() && now[i] == w;
                if i < before.len() {
                    assert(before[i] == w);
                }
            }
        }
    }
}

} // verus!
