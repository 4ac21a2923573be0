//! What reports show, and of what.

use crate::ast::{Check, GValue, Impl, Proc};
use crate::egraph::EClass;
use crate::errflow;
use crate::records::ProcRow;
use crate::report;
use crate::report::Chosen;
use crate::text;
use vstd::prelude::*;

verus! {

// ── Lines ──

/// The line of an implementation.
pub open spec fn impl_lines(i: Impl) -> Seq<char> {
    "    Impl: "@ + i.name@ + (if i.tags.seq().len() == 0 {
        Seq::empty()
    } else {
        " ["@ + report::hash_tags(i.tags.seq()) + "]"@
    }) + "\n"@ + (if i.description@.len() == 0 {
        Seq::empty()
    } else {
        "      Desc: "@ + i.description@ + "\n"@
    })
}

/// Tags are shown in order, each behind its sign and apart by commas; no tags show
/// nothing, and any do.
pub proof fn law_tags_are_shown_behind_a_sign(tags: Seq<Seq<char>>, t: Seq<char>)
    ensures
        report::hash_tags(Seq::empty()).len() == 0,
        report::hash_tags(seq![t]) == seq!['#'] + t,
        tags.len() > 0 ==> report::hash_tags(tags.push(t)) == report::hash_tags(tags)
            + seq![',', ' ', '#'] + t,
        tags.len() > 0 ==> report::hash_tags(tags).len() > 0,
    decreases tags.len(),
{
    reveal_strlit("#");
    reveal_strlit(", ");
    let f = |t: Seq<char>| "#"@ + t;
    assert(Seq::<Seq<char>>::empty().map_values(f) =~= Seq::empty());
    assert(seq![t].map_values(f) =~= seq!["#"@ + t]);
    reveal_with_fuel(text::join_spec, 3);
    assert(seq!["#"@ + t].drop_last() =~= Seq::empty());
    assert("#"@ + t =~= seq!['#'] + t);
    assert(report::hash_tags(seq![t]) =~= seq!['#'] + t);
    if tags.len() > 0 {
        let m = tags.push(t).map_values(f);
        assert(m.drop_last() =~= tags.map_values(f));
        assert(m.last() == "#"@ + t);
        assert(report::hash_tags(tags.push(t)) =~= report::hash_tags(tags) + seq![',', ' ', '#']
            + t);
        let a = tags.drop_last();
        law_tags_are_shown_behind_a_sign(a, tags.last());
        assert(tags =~= a.push(tags.last()));
        if a.len() == 0 {
            assert(tags =~= seq![tags.last()]);
        }
    }
}

/// An implementation is shown with its tags and its description, where it has any.
pub proof fn law_implementations_are_shown(i: Impl)
    ensures
        report::impl_text(i) == impl_lines(i),
{
    law_tags_are_shown_behind_a_sign(i.tags.seq(), Seq::empty());
    if i.tags.seq().len() == 0 {
        assert(i.tags.seq() =~= Seq::empty());
    }
}

/// All implementations are shown, in order.
pub proof fn law_all_implementations_are_shown(plan: Seq<Impl>, n: int)
    requires
        0 <= n <= plan.len(),
    ensures
        report::impls_text(plan, n) == plan.take(n).map_values(
            |i: Impl| impl_lines(i),
        ).flatten_alt(),
    decreases n,
{
    let f = |i: Impl| impl_lines(i);
    let m = plan.take(n).map_values(f);
    if n > 0 {
        law_all_implementations_are_shown(plan, n - 1);
        law_implementations_are_shown(plan[n - 1]);
        assert(m.drop_last() =~= plan.take(n - 1).map_values(f));
    }
}

/// The line of a check.
pub open spec fn check_line(c: Check) -> Seq<char> {
    "    Check: \""@ + c.msg@ + "\"\n"@
}

/// All checks are shown by what they say, in order.
pub proof fn law_all_checks_are_shown(checks: Seq<Check>, n: int)
    requires
        0 <= n <= checks.len(),
    ensures
        report::checks_text(checks, n) == checks.take(n).map_values(
            |c: Check| check_line(c),
        ).flatten_alt(),
    decreases n,
{
    let f = |c: Check| check_line(c);
    let m = checks.take(n).map_values(f);
    if n > 0 {
        law_all_checks_are_shown(checks, n - 1);
        assert(m.drop_last() =~= checks.take(n - 1).map_values(f));
    }
}

/// All procs are shown, in order.
pub proof fn law_all_procs_are_shown(procs: Seq<Proc>, n: int)
    requires
        0 <= n <= procs.len(),
    ensures
        report::procs_text(procs, n) == procs.take(n).map_values(
            |p: Proc| report::proc_text(p),
        ).flatten_alt(),
    decreases n,
{
    let f = |p: Proc| report::proc_text(p);
    let m = procs.take(n).map_values(f);
    if n > 0 {
        law_all_procs_are_shown(procs, n - 1);
        assert(m.drop_last() =~= procs.take(n - 1).map_values(f));
    }
}

/// A proc is shown by its name and how many implementations it has, marked where it
/// delivers, with its description where it has one, and with its implementations
/// and its checks.
pub proof fn law_procs_are_shown(p: Proc)
    ensures
        ({
            let head = "  Proc: "@ + p.name@ + " ("@ + text::dec(p.plan@.len()) + " impls)"@;
            let mark = if p.deliver {
                " [deliver]\n"@
            } else {
                "\n"@
            };
            let about = if p.description@.len() > 0 {
                "    Desc: "@ + p.description@ + "\n"@
            } else {
                Seq::empty()
            };
            let all = p.plan@.len() as int;
            report::proc_text(p) == head + mark + about + report::impls_text(p.plan@, all)
                + report::checks_text(p.checks@, p.checks@.len() as int)
        }),
{
}

// ── Graphs ──

/// The classes of more than one proc are shown, each once and by its root.
pub proof fn law_shared_classes_are_shown(
    classes: Seq<EClass>,
    roots: Seq<int>,
    n: int,
    x: Seq<Seq<char>>,
)
    requires
        0 <= n <= classes.len(),
    ensures
        report::shared_upto(classes, roots, n).contains(x) <==> exists|c: int|
            0 <= c < n && roots[c] == c && x == text::views((#[trigger] classes[c]).procs@)
                && classes[c].procs@.len() > 1,
    decreases n,
{
    if n > 0 {
        law_shared_classes_are_shown(classes, roots, n - 1, x);
        let before = report::shared_upto(classes, roots, n - 1);
        let now = report::shared_upto(classes, roots, n);
        if now.len() > before.len() {
            let last = text::views(classes[n - 1].procs@);
            assert(now == before.push(last));
            assert(now[before.len() as int] == last);
            if before.contains(x) {
                let i = choose|i: int| 0 <= i < before.len() && before[i] == x;
                assert(now[i] == x);
            }
            if now.contains(x) && x != last {
                let i = choose|i: int| 0 <= i < now.len() && now[i] == x;
                assert(before[i] == x);
            }
        }
    }
}

/// The line of a choice.
pub open spec fn choice_line(c: Chosen) -> Seq<char> {
    "  "@ + c.name@ + " <- "@ + c.proc@ + "::"@ + c.imp@ + " (cost "@ + c.cost@ + ")\n"@
}

/// All choices are shown, in order.
pub proof fn law_all_choices_are_shown(v: Seq<Chosen>, n: int)
    requires
        0 <= n <= v.len(),
    ensures
        report::chosen_text(v, n) == v.take(n).map_values(
            |c: Chosen| choice_line(c),
        ).flatten_alt(),
    decreases n,
{
    let f = |c: Chosen| choice_line(c);
    let m = v.take(n).map_values(f);
    if n > 0 {
        law_all_choices_are_shown(v, n - 1);
        assert(m.drop_last() =~= v.take(n - 1).map_values(f));
    }
}

/// All groups are shown, in order.
pub proof fn law_all_groups_are_shown(v: Seq<Vec<String>>, n: int)
    requires
        0 <= n <= v.len(),
    ensures
        report::groups_text(v, n) == v.take(n).map_values(
            |g: Vec<String>| "  "@ + report::list_text(text::views(g@)) + "\n"@,
        ).flatten_alt(),
        report::shared_text(v, n) == v.take(n).map_values(
            |g: Vec<String>| "  [class] {"@ + text::join_spec(text::views(g@), ", "@) + "}\n"@,
        ).flatten_alt(),
    decreases n,
{
    let f = |g: Vec<String>| "  "@ + report::list_text(text::views(g@)) + "\n"@;
    let h = |g: Vec<String>| "  [class] {"@ + text::join_spec(text::views(g@), ", "@) + "}\n"@;
    let m = v.take(n).map_values(f);
    let k = v.take(n).map_values(h);
    if n > 0 {
        law_all_groups_are_shown(v, n - 1);
        assert(m.drop_last() =~= v.take(n - 1).map_values(f));
        assert(k.drop_last() =~= v.take(n - 1).map_values(h));
    }
}

// ── Results ──

/// A text of at most two hundred bytes is shown whole, a longer one by its first
/// two hundred characters and dots, a file by its path.
pub proof fn law_long_results_are_cut(t: Seq<char>)
    ensures
        vstd::utf8::encode_utf8(t).len() <= 200 ==> report::shown(GValue::Text(t)) == t,
        vstd::utf8::encode_utf8(t).len() > 200 && t.len() > 200 ==> report::shown(GValue::Text(t))
            == t.take(200) + "..."@,
        vstd::utf8::encode_utf8(t).len() > 200 && t.len() <= 200 ==> report::shown(GValue::Text(t))
            == t + "..."@,
        report::shown(GValue::File(t)) == "<file: "@ + t + ">"@,
        report::shown(GValue::Null) == "<null>"@,
{
}

/// All results are shown by their names, in order.
pub proof fn law_all_results_are_shown(
    names: Seq<Seq<char>>,
    results: Map<Seq<char>, GValue>,
    n: int,
)
    requires
        0 <= n <= names.len(),
    ensures
        report::results_text(names, results, n) == names.take(n).map_values(
            |x: Seq<char>| "    "@ + x + " => "@ + report::shown(results[x]) + "\n"@,
        ).flatten_alt(),
    decreases n,
{
    let f = |x: Seq<char>| "    "@ + x + " => "@ + report::shown(results[x]) + "\n"@;
    let m = names.take(n).map_values(f);
    if n > 0 {
        law_all_results_are_shown(names, results, n - 1);
        assert(m.drop_last() =~= names.take(n - 1).map_values(f));
    }
}

/// The line of a result of a run that failed.
pub open spec fn partial_line(x: Seq<char>, v: GValue) -> Seq<char> {
    if errflow::is_left(v) {
        "    ["@ + "LEFT"@ + "] "@ + x + " => "@ + report::written(v) + "\n"@
    } else {
        "    ["@ + "OK  "@ + "] "@ + x + " => "@ + report::written(v) + "\n"@
    }
}

/// All results of a run that failed are shown, those of failed procs marked.
pub proof fn law_failed_results_are_marked(
    names: Seq<Seq<char>>,
    results: Map<Seq<char>, GValue>,
    n: int,
)
    requires
        0 <= n <= names.len(),
    ensures
        report::partial_text(names, results, n) == names.take(n).map_values(
            |x: Seq<char>| partial_line(x, results[x]),
        ).flatten_alt(),
    decreases n,
{
    let f = |x: Seq<char>| partial_line(x, results[x]);
    let m = names.take(n).map_values(f);
    if n > 0 {
        law_failed_results_are_marked(names, results, n - 1);
        assert(m.drop_last() =~= names.take(n - 1).map_values(f));
    }
}

/// A run that went well says so and how many procs it finished.
pub proof fn law_success_is_said(names: Seq<Seq<char>>, results: Map<Seq<char>, GValue>)
    ensures
        "Pipeline executed successfully"@.is_prefix_of(report::success_text(names, results)),
        report::success_text(names, results).len() == "Pipeline executed successfully"@.len() + 20
            + text::dec(names.len()).len() + 1 + report::results_text(
            names,
            results,
            names.len() as int,
        ).len(),
{
    reveal_strlit("Pipeline executed successfully");
    reveal_strlit("Pipeline executed successfully\n  Procs completed: ");
    reveal_strlit("\n");
    let t = report::success_text(names, results);
    let p = "Pipeline executed successfully"@;
    assert(t.subrange(0, p.len() as int) =~= p);
}

/// A run that failed says so and what failed, and how to go on.
pub proof fn law_failure_is_said(
    pipeline: Seq<char>,
    error: Seq<char>,
    names: Seq<Seq<char>>,
    results: Map<Seq<char>, GValue>,
)
    ensures
        ({
            let t = report::failure_text(pipeline, error, names, results);
            let part = "  [partial] "@ + text::dec(names.len())
                + " procs completed/marked:\n"@ + report::partial_text(
                names,
                results,
                names.len() as int,
            );
            let end = "[degraded] flag set — fix then: ductile degraded clear "@ + pipeline
                + "\n"@;
            &&& ("Pipeline failed: "@ + error).is_prefix_of(t)
            &&& names.len() > 0 ==> t == "Pipeline failed: "@ + error + "\n"@ + part + end
            &&& names.len() == 0 ==> t == "Pipeline failed: "@ + error + "\n"@ + end
        }),
{
    let t = report::failure_text(pipeline, error, names, results);
    let p = "Pipeline failed: "@ + error;
    assert(t.subrange(0, p.len() as int) =~= p);
    let part = "  [partial] "@ + text::dec(names.len()) + " procs completed/marked:\n"@
        + report::partial_text(names, results, names.len() as int);
    let end = "[degraded] flag set — fix then: ductile degraded clear "@ + pipeline + "\n"@;
    if names.len() > 0 {
        assert(t =~= p + "\n"@ + part + end);
    } else {
        assert(t =~= p + "\n"@ + end);
    }
}

// ── Searching the library ──

/// A query asks for the tags that stand between its commas.
pub proof fn law_queries_ask_for_tags(query: Seq<char>, t: Seq<char>)
    ensures
        ({
            let parts = text::split_char_spec(text::front_spec(query, "#"@), ',');
            report::tags_asked(query).contains(t) <==> t.len() > 0 && exists|i: int|
                0 <= i < parts.len() && t == text::trimmed(#[trigger] parts[i])
        }),
{
    let parts = text::split_char_spec(text::front_spec(query, "#"@), ',');
    lemma_query(parts, parts.len() as int, t);
}

proof fn lemma_query(parts: Seq<Seq<char>>, n: int, t: Seq<char>)
    requires
        0 <= n <= parts.len(),
    ensures
        report::query_tags(parts, n).contains(t) <==> t.len() > 0 && exists|i: int|
            0 <= i < n && t == text::trimmed(#[trigger] parts[i]),
    decreases n,
{
    if n > 0 {
        lemma_query(parts, n - 1, t);
        assert(parts[n - 1] == parts[n - 1]);
    }
}

/// The procs that match are found in their order, each once.
pub proof fn law_matches_are_in_order(rows: Seq<ProcRow>, tags: Set<Seq<char>>, n: int)
    requires
        0 <= n <= rows.len(),
        rows.len() <= usize::MAX,
    ensures
        forall|i: int, j: int|
            0 <= i < j < report::matching(rows, tags, n).len() ==> report::matching(
                rows,
                tags,
                n,
            )[i] < report::matching(rows, tags, n)[j],
    decreases n,
{
    if n > 0 {
        law_matches_are_in_order(rows, tags, n - 1);
        report::law_offers_have_the_tags(rows, tags, n - 1);
        let before = report::matching(rows, tags, n - 1);
        let now = report::matching(rows, tags, n);
        assert forall|i: int, j: int| 0 <= i < j < now.len() implies now[i] < now[j] by {
            assert(before[i] < n - 1);
            if j < before.len() {
                assert(now[j] == before[j]);
            }
        }
    }
}

/// The line of an offer.
pub open spec fn offer_line(p: ProcRow) -> Seq<char> {
    "  → "@ + p.name@ + " ["@ + p.pipeline@ + "] "@ + p.description@ + "\n"@
}

/// Offers are shown in the order in which they were found.
pub proof fn law_offers_are_shown(rows: Seq<ProcRow>, found: Seq<usize>, n: int)
    requires
        0 <= n <= found.len(),
    ensures
        report::offers(rows, found, n) == found.take(n).map_values(
            |k: usize| offer_line(rows[k as int]),
        ).flatten_alt(),
    decreases n,
{
    let f = |k: usize| offer_line(rows[k as int]);
    let m = found.take(n).map_values(f);
    if n > 0 {
        law_offers_are_shown(rows, found, n - 1);
        assert(m.drop_last() =~= found.take(n - 1).map_values(f));
    }
}

/// A step offers at most three procs and selects the first; without any it says so.
pub proof fn law_steps_select_the_first(
    rows: Seq<ProcRow>,
    number: int,
    tags: Seq<Seq<char>>,
    found: Seq<usize>,
)
    ensures
        ({
            let t = report::step_text(rows, number, tags, found);
            let head = "Step "@ + text::dec(number as nat) + " {"@ + report::hash_tags(tags)
                + "}:\n"@;
            let first = rows[found[0] as int];
            let pick = "  ✓ Selected: "@ + first.name@ + " ["@ + first.pipeline@ + "]\n"@;
            &&& found.len() == 0 ==> t == head + "  ✗ No matching procs\n"@ + "\n"@
            &&& 0 < found.len() <= 3 ==> t == head + (report::offers(
                rows,
                found,
                found.len() as int,
            ) + pick) + "\n"@
            &&& found.len() > 3 ==> t == head + (report::offers(rows, found, 3) + pick) + "\n"@
        }),
{
}

/// The line of a proc with tags.
pub open spec fn tagged_line(p: ProcRow) -> Seq<char> {
    "  {"@ + report::hash_tags(p.tags.seq()) + "} "@ + p.name@ + " — "@ + p.description@ + " ["@
        + p.pipeline@ + "]\n"@
}

/// The procs with tags are shown, all of them and in order, and no others.
pub proof fn law_tagged_procs_are_shown(rows: Seq<ProcRow>, n: int)
    requires
        0 <= n <= rows.len(),
    ensures
        report::tagged_text(rows, n) == rows.take(n).filter(
            |p: ProcRow| p.tags.seq().len() > 0,
        ).map_values(|p: ProcRow| tagged_line(p)).flatten_alt(),
    decreases n,
{
    let keep = |p: ProcRow| p.tags.seq().len() > 0;
    let f = |p: ProcRow| tagged_line(p);
    if n > 0 {
        law_tagged_procs_are_shown(rows, n - 1);
        let t = rows.take(n - 1);
        assert(rows.take(n) =~= t.push(rows[n - 1]));
        t.lemma_filter_push(rows[n - 1], keep);
        if keep(rows[n - 1]) {
            let m = t.filter(keep).push(rows[n - 1]).map_values(f);
            assert(m.drop_last() =~= t.filter(keep).map_values(f));
            assert(m.last() == tagged_line(rows[n - 1]));
        }
    } else {
        reveal(Seq::filter);
        assert(rows.take(0) =~= Seq::empty());
        assert(rows.take(0).filter(keep).map_values(f) =~= Seq::empty());
    }
}

/// The line of a member of a group.
pub open spec fn member_line(p: ProcRow) -> Seq<char> {
    "    "@ + p.name@ + " — "@ + p.description@ + " ["@ + p.pipeline@ + "]\n"@
}

/// All members of a group are shown, in order.
pub proof fn law_all_members_are_shown(rows: Seq<ProcRow>, group: Seq<usize>, n: int)
    requires
        0 <= n <= group.len(),
    ensures
        report::members_text(rows, group, n) == group.take(n).map_values(
            |k: usize| member_line(rows[k as int]),
        ).flatten_alt(),
    decreases n,
{
    let f = |k: usize| member_line(rows[k as int]);
    let m = group.take(n).map_values(f);
    if n > 0 {
        law_all_members_are_shown(rows, group, n - 1);
        assert(m.drop_last() =~= group.take(n - 1).map_values(f));
    }
}

/// All groups of procs that are alike are shown: the tags of the first member, how
/// many there are, and each of them.
pub proof fn law_all_alike_are_shown(rows: Seq<ProcRow>, groups: Seq<Vec<usize>>, n: int)
    requires
        0 <= n <= groups.len(),
    ensures
        report::alike_text(rows, groups, n) == groups.take(n).map_values(
            |g: Vec<usize>| group_lines(rows, g@),
        ).flatten_alt(),
    decreases n,
{
    let f = |g: Vec<usize>| group_lines(rows, g@);
    let m = groups.take(n).map_values(f);
    if n > 0 {
        law_all_alike_are_shown(rows, groups, n - 1);
        assert(m.drop_last() =~= groups.take(n - 1).map_values(f));
    }
}

/// The lines of a group of procs that are alike.
pub open spec fn group_lines(rows: Seq<ProcRow>, g: Seq<usize>) -> Seq<char> {
    "\n  {"@ + report::hash_tags(rows[g[0] as int].tags.seq()) + "} — "@ + text::dec(g.len())
        + " procs\n"@ + report::members_text(rows, g, g.len() as int)
}

} // verus!
