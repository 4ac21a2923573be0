//! What is said of what is refused, and what classes wait for.

use crate::ast::{GValue, Impl, Proc};
use crate::config;
use crate::egraph::Graph;
use crate::explore;
use crate::fault_laws;
use crate::harvest;
use crate::harvest::StateProbe;
use crate::hyper::{GSpec, HyperRole};
use crate::hyper_args;
use crate::hyper_key;
use crate::hyper_nodes;
use crate::hyper_parse;
use crate::hyper_parse::GDraft;
use crate::hyper_similar;
use crate::json;
use crate::order;
use crate::plan;
use crate::report;
use crate::review;
use crate::text;
use crate::text_laws;
use crate::tries;
use vstd::prelude::*;

verus! {

/// A task is refused by the first thing that it lacks: its name, its goal, its kind,
/// its plan or its criterion; a kind that is none and an empty criterion are told
/// with the name of the task.
pub proof fn law_tasks_are_refused_by_what_they_lack(obj: Seq<char>)
    ensures
        ({
            let r = explore::task_of(obj);
            let id = explore::whole_text(obj, "id"@);
            let goal = explore::whole_text(obj, "goal"@);
            let kind = explore::whole_text(obj, "kind"@);
            let plan = explore::whole_text(obj, "plan"@);
            let judge = explore::whole_text(obj, "judge"@);
            let known = explore::kind_of(kind->0) is Some;
            let named = id is Some && goal is Some && kind is Some;
            &&& id is None ==> r == Err::<explore::GTask, _>("curriculum: task 缺 id"@)
            &&& id is Some && goal is None ==> r == Err::<explore::GTask, _>(
                "curriculum: task 缺 goal"@,
            )
            &&& id is Some && goal is Some && kind is None ==> r == Err::<explore::GTask, _>(
                "curriculum: task 缺 kind"@,
            )
            &&& named && !known ==> r == Err::<explore::GTask, _>(
                "curriculum: task "@ + id->0 + " kind 非法 "@ + text::debug_quoted(kind->0),
            )
            &&& named && known && plan is None ==> r == Err::<explore::GTask, _>(
                "curriculum: task 缺 plan"@,
            )
            &&& named && known && plan is Some && judge is None ==> r == Err::<explore::GTask, _>(
                "curriculum: task 缺 judge"@,
            )
            &&& named && known && plan is Some && judge is Some && text::blank(judge->0) ==> r
                == Err::<explore::GTask, _>(
                "curriculum: task "@ + id->0 + " judge 为空（判据必须确定性可判）"@,
            )
        }),
{
}

/// The evidence of an answer is its first line, cut to two thousand characters.
pub proof fn law_answers_are_their_own_evidence(first: Seq<char>, lower: Seq<char>)
    ensures
        first.len() <= 2000 ==> review::answer_verdict(first, lower).evidence
            == "[independent review] "@ + first,
        first.len() > 2000 ==> review::answer_verdict(first, lower).evidence
            == "[independent review] "@ + first.take(2000),
{
}

/// A line that is neither a header nor a directive is told, up to forty-eight
/// characters; a header without a quoted name is told to need one.
pub proof fn law_other_lines_are_told(d: GDraft, raw: Seq<char>)
    ensures
        ({
            let line = text::trimmed(hyper_args::uncommented(raw));
            let r = hyper_parse::with_line(d, raw);
            let head = hyper_parse::header(line);
            let start = if line.len() > 48 {
                line.take(48)
            } else {
                line
            };
            &&& line.len() == 0 ==> r == Ok::<_, Seq<char>>(d)
            &&& line.len() > 0 && head is Some && hyper_args::first_quoted(head->0) is None ==> r
                == Err::<GDraft, _>("Hyper[Graph](\"name\") needs a quoted name"@)
            &&& line.len() > 0 && head is Some && hyper_args::first_quoted(head->0) is Some ==> r
                == Ok::<_, Seq<char>>(
                (GDraft { name: Some(hyper_args::first_quoted(head->0)->0), ..d }),
            )
            &&& line.len() > 0 && head is None && line[0] != '.' ==> r == Err::<GDraft, _>(
                "expected HyperGraph(...) or .directive, got "@ + text::debug_quoted(start),
            )
        }),
{
}

/// A directive without a bracket, or with one that is not closed, is told.
pub proof fn law_open_directives_are_told(line: Seq<char>)
    requires
        line.len() > 0,
        line[0] == '.',
    ensures
        ({
            let body = line.skip(1);
            let r = hyper_args::directive(line);
            &&& !body.contains('(') ==> r == Err::<(Seq<char>, Seq<char>), _>(
                "directive missing '(': "@ + line,
            )
            &&& body.contains('(') && hyper_args::closing(body, 0, 0) is None ==> r == Err::<
                (Seq<char>, Seq<char>),
                _,
            >("unclosed '(': "@ + line)
        }),
{
    let body = line.skip(1);
    text::lemma_find_char_from(body, '(', 0);
    if body.contains('(') {
        let k = choose|k: int| 0 <= k < body.len() && body[k] == '(';
        assert(body[k] == '(');
    }
}

/// Rules are shown with how often they were applied, and aliases with what stands
/// for them.
pub proof fn law_rules_and_aliases_are_shown(
    rules: Seq<(String, usize)>,
    aliases: Seq<(String, String)>,
    i: int,
)
    ensures
        report::fusion_texts(rules).len() == rules.len(),
        0 <= i < rules.len() ==> report::fusion_texts(rules)[i] == rules[i].0@ + seq!['×']
            + text::dec(rules[i].1 as nat),
        report::alias_texts(aliases).len() == aliases.len(),
        0 <= i < aliases.len() ==> report::alias_texts(aliases)[i] == aliases[i].0@ + seq!['→']
            + aliases[i].1@,
{
    reveal_strlit("×");
    reveal_strlit("→");
    assert("×"@ =~= seq!['×']);
    assert("→"@ =~= seq!['→']);
}

/// The node of a proc has more than one way exactly where two are enabled.
pub proof fn law_two_enabled_ways_are_more_than_one(p: Proc)
    ensures
        hyper_nodes::proc_node(p).impl_bucket == 2 <==> p.plan@.filter(
            |i: Impl| i.enabled,
        ).len() >= 2,
        hyper_nodes::proc_node(p).impl_bucket == 1 <==> p.plan@.filter(
            |i: Impl| i.enabled,
        ).len() < 2,
{
    fault_laws::law_enabled_ways_are_counted(p.plan@, p.plan@.len() as int);
    assert(p.plan@.take(p.plan@.len() as int) =~= p.plan@);
}

/// A class depends on another exactly where an edge leads from a proc of the other
/// to one of its own.
pub proof fn law_classes_depend_by_their_procs(
    m: Graph,
    edges: Seq<(Seq<char>, Seq<char>)>,
    to: int,
    from: int,
)
    ensures
        plan::depends(m, edges, to, from) <==> to != from && exists|k: int|
            0 <= k < edges.len() && m.index.dom().contains((#[trigger] edges[k]).0)
                && m.index.dom().contains(edges[k].1) && m.roots[m.index[edges[k].0]] == from
                && m.roots[m.index[edges[k].1]] == to,
{
    if plan::depends(m, edges, to, from) {
        let k = choose|k: int|
            0 <= k < edges.len() && #[trigger] plan::edge_links(m, edges[k], to, from);
        assert(m.index.dom().contains(edges[k].0));
    }
    if exists|k: int|
        0 <= k < edges.len() && m.index.dom().contains((#[trigger] edges[k]).0)
            && m.index.dom().contains(edges[k].1) && m.roots[m.index[edges[k].0]] == from
            && m.roots[m.index[edges[k].1]] == to {
        let k = choose|k: int|
            0 <= k < edges.len() && m.index.dom().contains((#[trigger] edges[k]).0)
                && m.index.dom().contains(edges[k].1) && m.roots[m.index[edges[k].0]] == from
                && m.roots[m.index[edges[k].1]] == to;
        assert(plan::edge_links(m, edges[k], to, from));
    }
}

/// A line without an equals sign can be read.
pub proof fn law_lines_without_values_can_be_read(line: Seq<char>)
    requires
        forall|i: int| 0 <= i < line.len() ==> #[trigger] line[i] != '=',
    ensures
        config::closed_line(line),
{
    text::lemma_find_char_none(line, '=', 0);
}

/// A text that does not end is none.
pub proof fn law_open_texts_are_none(s: Seq<char>, key: Seq<char>, t: Seq<char>)
    ensures
        json::text_field(s, key) == Some((t, true)) ==> explore::whole_text(s, key) == Some(t),
        json::text_field(s, key) == Some((t, false)) ==> explore::whole_text(s, key) is None,
        json::text_field(s, key) is None ==> explore::whole_text(s, key) is None,
{
}

/// A file and nothing are one item each, by what a program would write.
pub proof fn law_files_are_one_item(f: Seq<char>)
    ensures
        tries::items_of(GValue::File(f)) == seq!["File("@ + text::debug_quoted(f) + ")"@],
        tries::items_of(GValue::Null) == seq!["Null"@],
{
}

/// The key of a hypergraph tells its roles, its edges in order, and whether it is
/// judged: where a judge is asked for, or a vertex is one.
pub proof fn law_keys_tell_roles_edges_and_judges(g: GSpec)
    ensures
        ({
            let judged = g.require.judge || exists|i: int|
                0 <= i < g.vertices.len() && (#[trigger] g.vertices[i]).role == HyperRole::Judge;
            let k = hyper_key::key_of(g);
            let parts = "V=["@ + text::join_spec(hyper_key::role_parts(g.stages), ","@) + "]|E=["@
                + text::join_spec(
                order::sorted(hyper_key::edge_parts(g.vertices, g.hedges)),
                ";"@,
            ) + "]|judge="@;
            &&& judged ==> k == parts + "1"@
            &&& !judged ==> k == parts + "0"@
        }),
{
}

/// The store of sessions is well exactly where it holds recent messages.
pub proof fn law_stores_are_well_with_messages(p: StateProbe)
    ensures
        harvest::state_check(p).0 == "hermes state.db health"@,
        harvest::state_check(p).1 <==> p is Recent && p->Recent_0 > 0,
        p is Missing ==> harvest::state_check(p).2 == "MISSING at "@ + p->Missing_0@,
        p is Unopened ==> harvest::state_check(p).2 == "cannot open: "@ + p->Unopened_0@,
        p is Recent && p->Recent_0 > 0 ==> harvest::state_check(p).2 == "readable, "@
            + text::signed_dec(p->Recent_0 as int) + " msgs in last 7d"@,
{
}

/// Paths are compared with slashes in place of backslashes.
pub proof fn law_backslashes_are_slashes(a: Seq<char>, b: Seq<char>)
    requires
        forall|i: int| 0 <= i < a.len() ==> #[trigger] a[i] != '\\',
    ensures
        hyper_similar::slashed(a) == a,
        hyper_similar::slashed(a + seq!['\\'] + b) == a + seq!['/'] + hyper_similar::slashed(b),
{
    reveal_strlit("\\");
    reveal_strlit("/");
    let p = "\\"@;
    let s = a + seq!['\\'] + b;
    let k = a.len() as int;
    assert(!text::has(a, p)) by {
        if text::has(a, p) {
            let i = choose|i: int| text::occurs_at(a, p, i);
            assert(a.subrange(i, i + 1)[0] == a[i]);
        }
    }
    text_laws::law_replacing_goes_on(a, p, "/"@, 0);
    assert(s.subrange(k, k + 1) =~= p);
    assert(text::occurs_at(s, p, k));
    assert forall|j: int| 0 <= j < k implies !#[trigger] text::occurs_at(s, p, j) by {
        if text::occurs_at(s, p, j) {
            assert(s.subrange(j, j + 1)[0] == s[j]);
            assert(s[j] == a[j]);
        }
    }
    text_laws::law_replacing_goes_on(s, p, "/"@, k);
    assert(s.take(k) =~= a);
    assert(s.skip(k + 1) =~= b);
    assert("/"@ =~= seq!['/']);
}

} // verus!
