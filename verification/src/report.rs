//! What is shown to people: pipelines, graphs, results and the library of procs.

use crate::ast;
use crate::ast::{Check, GValue, Impl, Pipeline, Proc, Value};
use crate::egraph;
use crate::egraph::{EClass, EGraph};
use crate::errflow;
use crate::order;
use crate::order::{TextMap, TextSet};
use crate::records;
use crate::records::ProcRow;
use crate::schedule;
use crate::text;
use vstd::prelude::*;

verus! {

// ── Tags ──

/// The tags with their signs.
pub open spec fn hash_tags(tags: Seq<Seq<char>>) -> Seq<char> {
    text::join_spec(tags.map_values(|t: Seq<char>| "#"@ + t), ", "@)
}

/// The tags with their signs.
pub fn show_tags(tags: &TextSet) -> (r: String)
    ensures
        r@ == hash_tags(tags.seq()),
{
    let ghost tv = tags.seq();
    let ghost all = tv.map_values(|t: Seq<char>| "#"@ + t);
    let mut out: Vec<String> = Vec::new();
    let mut i: usize = 0;
    assert(text::views(out@) =~= all.take(0));
    while i < tags.len()
        invariant
            i <= tv.len(),
            tv == tags.seq(),
            all == tv.map_values(|t: Seq<char>| "#"@ + t),
            text::views(out@) == all.take(i as int),
        decreases tv.len() - i,
    {
        let mut s = "#".to_owned();
        s.append(tags.at(i).as_str());
        assert(s@ == all[i as int]);
        let ghost sv = s@;
        let ghost before = out@;
        out.push(s);
        assert(text::views(out@) =~= text::views(before).push(sv));
        assert(all.take(i + 1) =~= all.take(i as int).push(all[i as int]));
        i += 1;
    }
    assert(all.take(all.len() as int) =~= all);
    text::join(out.as_slice(), ", ")
}

/// A text between two others, where it is not empty.
pub open spec fn unless_empty(before: Seq<char>, s: Seq<char>, after: Seq<char>) -> Seq<char> {
    if s.len() == 0 {
        Seq::empty()
    } else {
        before + s + after
    }
}

/// Adds a text between two others, where it is not empty.
fn push_unless_empty(out: &mut String, before: &str, s: &str, after: &str)
    ensures
        final(out)@ == old(out)@ + unless_empty(before@, s@, after@),
{
    let ghost start = out@;
    if !s.is_empty() {
        let mut t = before.to_owned();
        t.append(s);
        t.append(after);
        out.append(t.as_str());
    } else {
        assert(out@ =~= start + Seq::<char>::empty());
    }
}

// ── A pipeline ──

/// An implementation.
pub open spec fn impl_text(i: Impl) -> Seq<char> {
    "    Impl: "@ + i.name@ + unless_empty(" ["@, hash_tags(i.tags.seq()), "]"@) + "\n"@
        + unless_empty("      Desc: "@, i.description@, "\n"@)
}

/// The first `n` implementations.
pub open spec fn impls_text(plan: Seq<Impl>, n: int) -> Seq<char>
    decreases n,
{
    if n <= 0 {
        Seq::empty()
    } else {
        impls_text(plan, n - 1) + impl_text(plan[n - 1])
    }
}

/// The first `n` checks.
pub open spec fn checks_text(checks: Seq<Check>, n: int) -> Seq<char>
    decreases n,
{
    if n <= 0 {
        Seq::empty()
    } else {
        checks_text(checks, n - 1) + ("    Check: \""@ + checks[n - 1].msg@ + "\"\n"@)
    }
}

/// A proc with its implementations and checks.
pub open spec fn proc_text(p: Proc) -> Seq<char> {
    "  Proc: "@ + p.name@ + " ("@ + text::dec(p.plan@.len()) + " impls)"@ + (if p.deliver {
        " [deliver]\n"@
    } else {
        "\n"@
    }) + unless_empty("    Desc: "@, p.description@, "\n"@) + impls_text(
        p.plan@,
        p.plan@.len() as int,
    ) + checks_text(p.checks@, p.checks@.len() as int)
}

/// The first `n` procs.
pub open spec fn procs_text(procs: Seq<Proc>, n: int) -> Seq<char>
    decreases n,
{
    if n <= 0 {
        Seq::empty()
    } else {
        procs_text(procs, n - 1) + proc_text(procs[n - 1])
    }
}

/// The structure of a pipeline.
pub open spec fn pipeline_text(pl: Pipeline) -> Seq<char> {
    "Pipeline: "@ + pl.name@ + "\n"@ + unless_empty("Description: "@, pl.description@, "\n"@)
        + unless_empty(
        "Tags: "@,
        hash_tags(order::in_order(ast::procs_tags(pl.procs@))),
        "\n"@,
    ) + "\n"@ + procs_text(pl.procs@, pl.procs@.len() as int)
}

/// An implementation.
fn show_impl(i: &Impl) -> (r: String)
    ensures
        r@ == impl_text(*i),
{
    let mut s = "    Impl: ".to_owned();
    s.append(i.name.as_str());
    push_unless_empty(&mut s, " [", show_tags(&i.tags).as_str(), "]");
    s.append("\n");
    push_unless_empty(&mut s, "      Desc: ", i.description.as_str(), "\n");
    s
}

/// A proc with its implementations and checks.
fn show_proc(p: &Proc) -> (r: String)
    ensures
        r@ == proc_text(*p),
{
    let mut s = "  Proc: ".to_owned();
    s.append(p.name.as_str());
    s.append(" (");
    s.append(text::decimal(p.plan.len() as u128).as_str());
    s.append(" impls)");
    s.append(if p.deliver {
        " [deliver]\n"
    } else {
        "\n"
    });
    push_unless_empty(&mut s, "    Desc: ", p.description.as_str(), "\n");
    let ghost head = s@;
    let mut i: usize = 0;
    assert(head + impls_text(p.plan@, 0) =~= head);
    while i < p.plan.len()
        invariant
            i <= p.plan@.len(),
            s@ == head + impls_text(p.plan@, i as int),
        decreases p.plan@.len() - i,
    {
        s.append(show_impl(&p.plan[i]).as_str());
        assert(s@ =~= head + impls_text(p.plan@, i + 1));
        i += 1;
    }
    let ghost middle = s@;
    let mut k: usize = 0;
    assert(middle + checks_text(p.checks@, 0) =~= middle);
    while k < p.checks.len()
        invariant
            k <= p.checks@.len(),
            s@ == middle + checks_text(p.checks@, k as int),
        decreases p.checks@.len() - k,
    {
        let mut t = "    Check: \"".to_owned();
        t.append(p.checks[k].msg.as_str());
        t.append("\"\n");
        s.append(t.as_str());
        assert(s@ =~= middle + checks_text(p.checks@, k + 1));
        k += 1;
    }
    s
}

/// The structure of a pipeline.
pub fn describe_pipeline(pl: &Pipeline) -> (r: String)
    ensures
        r@ == pipeline_text(*pl),
{
    let tags = pl.computed_tags();
    proof {
        assert(tags@ =~= tags.seq().to_set());
        order::lemma_in_order(tags.seq());
    }
    let mut s = "Pipeline: ".to_owned();
    s.append(pl.name.as_str());
    s.append("\n");
    push_unless_empty(&mut s, "Description: ", pl.description.as_str(), "\n");
    push_unless_empty(&mut s, "Tags: ", show_tags(&tags).as_str(), "\n");
    s.append("\n");
    let ghost head = s@;
    let mut i: usize = 0;
    assert(head + procs_text(pl.procs@, 0) =~= head);
    while i < pl.procs.len()
        invariant
            i <= pl.procs@.len(),
            s@ == head + procs_text(pl.procs@, i as int),
        decreases pl.procs@.len() - i,
    {
        s.append(show_proc(&pl.procs[i]).as_str());
        assert(s@ =~= head + procs_text(pl.procs@, i + 1));
        i += 1;
    }
    s
}

// ── A graph ──

/// The classes of more than one proc among the first `n`, each by its root.
pub open spec fn shared_upto(classes: Seq<EClass>, roots: Seq<int>, n: int) -> Seq<Seq<Seq<char>>>
    decreases n,
{
    if n <= 0 {
        Seq::empty()
    } else if roots[n - 1] == n - 1 && classes[n - 1].procs@.len() >= 2 {
        shared_upto(classes, roots, n - 1).push(text::views(classes[n - 1].procs@))
    } else {
        shared_upto(classes, roots, n - 1)
    }
}

/// The procs of each class of more than one.
pub fn shared_classes(eg: &EGraph) -> (r: Vec<Vec<String>>)
    requires
        eg.wf(),
    ensures
        schedule::views2(r@) == shared_upto(
            eg.classes@,
            eg.model().roots,
            eg.classes@.len() as int,
        ),
{
    let mut out: Vec<Vec<String>> = Vec::new();
    let mut i: usize = 0;
    assert(schedule::views2(out@) =~= Seq::<Seq<Seq<char>>>::empty());
    while i < eg.classes.len()
        invariant
            i <= eg.classes@.len(),
            eg.wf(),
            schedule::views2(out@) == shared_upto(eg.classes@, eg.model().roots, i as int),
        decreases eg.classes@.len() - i,
    {
        if eg.canon_imm(i) == i && eg.classes[i].procs.len() >= 2 {
            let v = text::copy_all(&eg.classes[i].procs);
            let ghost vv = text::views(v@);
            let ghost before = out@;
            out.push(v);
            assert(schedule::views2(out@) =~= schedule::views2(before).push(vv));
        }
        i += 1;
    }
    out
}

/// What is chosen for a proc: its name, the proc and the implementation that
/// stand for it, and the cost as it is shown.
#[derive(Debug)]
pub struct Chosen {
    pub name: String,
    pub proc: String,
    pub imp: String,
    pub cost: String,
}

/// What a graph shows of itself.
#[derive(Debug)]
pub struct GraphFigures {
    pub nodes: usize,
    pub edges: usize,
    pub classes: usize,
    /// How often each rule was applied.
    pub fusions: Vec<(String, usize)>,
    /// The procs of each class of more than one.
    pub shared: Vec<Vec<String>>,
    /// Which proc stands for which.
    pub aliases: Vec<(String, String)>,
    pub groups: Vec<Vec<String>>,
    pub path: Vec<String>,
    pub chosen: Vec<Chosen>,
}

/// A rule and how often it was applied.
pub open spec fn fusion_texts(v: Seq<(String, usize)>) -> Seq<Seq<char>> {
    v.map_values(|p: (String, usize)| p.0@ + "×"@ + text::dec(p.1 as nat))
}

/// Which proc stands for which.
pub open spec fn alias_texts(v: Seq<(String, String)>) -> Seq<Seq<char>> {
    v.map_values(|p: (String, String)| p.0@ + "→"@ + p.1@)
}

/// A list of texts as a program would write it.
pub open spec fn list_text(v: Seq<Seq<char>>) -> Seq<char> {
    "["@ + text::join_spec(v.map_values(|s: Seq<char>| text::debug_quoted(s)), ", "@) + "]"@
}

/// The first `n` classes of more than one proc.
pub open spec fn shared_text(v: Seq<Vec<String>>, n: int) -> Seq<char>
    decreases n,
{
    if n <= 0 {
        Seq::empty()
    } else {
        shared_text(v, n - 1) + ("  [class] {"@ + text::join_spec(
            text::views(v[n - 1]@),
            ", "@,
        ) + "}\n"@)
    }
}

/// The first `n` groups.
pub open spec fn groups_text(v: Seq<Vec<String>>, n: int) -> Seq<char>
    decreases n,
{
    if n <= 0 {
        Seq::empty()
    } else {
        groups_text(v, n - 1) + ("  "@ + list_text(text::views(v[n - 1]@)) + "\n"@)
    }
}

/// The first `n` choices.
pub open spec fn chosen_text(v: Seq<Chosen>, n: int) -> Seq<char>
    decreases n,
{
    if n <= 0 {
        Seq::empty()
    } else {
        chosen_text(v, n - 1) + ("  "@ + v[n - 1].name@ + " <- "@ + v[n - 1].proc@ + "::"@
            + v[n - 1].imp@ + " (cost "@ + v[n - 1].cost@ + ")\n"@)
    }
}

/// The structure of a graph.
pub open spec fn graph_text(f: GraphFigures) -> Seq<char> {
    "E-Graph:\n  Nodes: "@ + text::dec(f.nodes as nat) + "\n  Edges: "@ + text::dec(f.edges as nat)
        + "\n  E-classes: "@ + text::dec(f.classes as nat) + "\n\n"@ + (if f.fusions@.len() > 0 {
        "  Fusion rules fired: "@ + text::join_spec(fusion_texts(f.fusions@), ", "@) + "\n"@
    } else {
        Seq::empty()
    }) + shared_text(f.shared@, f.shared@.len() as int) + (if f.aliases@.len() > 0 {
        "  CSE aliases: "@ + text::join_spec(alias_texts(f.aliases@), ", "@) + "\n"@
    } else {
        Seq::empty()
    }) + "\nParallel groups:\n"@ + groups_text(f.groups@, f.groups@.len() as int)
        + "\nCritical path: "@ + list_text(text::views(f.path@))
        + "\n\nExtracted plan (static):\n"@ + chosen_text(f.chosen@, f.chosen@.len() as int)
}

/// A list of texts as a program would write it.
fn show_list(v: &Vec<String>) -> (r: String)
    ensures
        r@ == list_text(text::views(v@)),
{
    let ghost vv = text::views(v@);
    let ghost all = vv.map_values(|s: Seq<char>| text::debug_quoted(s));
    let mut out: Vec<String> = Vec::new();
    let mut i: usize = 0;
    assert(text::views(out@) =~= all.take(0));
    while i < v.len()
        invariant
            i <= v@.len(),
            vv == text::views(v@),
            all == vv.map_values(|s: Seq<char>| text::debug_quoted(s)),
            text::views(out@) == all.take(i as int),
        decreases v@.len() - i,
    {
        let s = text::debug_quote(v[i].as_str());
        assert(s@ == all[i as int]);
        let ghost sv = s@;
        let ghost before = out@;
        out.push(s);
        assert(text::views(out@) =~= text::views(before).push(sv));
        assert(all.take(i + 1) =~= all.take(i as int).push(all[i as int]));
        i += 1;
    }
    assert(all.take(all.len() as int) =~= all);
    let mut r = "[".to_owned();
    r.append(text::join(out.as_slice(), ", ").as_str());
    r.append("]");
    r
}

/// How often each rule was applied.
fn show_fusions(v: &Vec<(String, usize)>) -> (r: String)
    ensures
        r@ == text::join_spec(fusion_texts(v@), ", "@),
{
    let ghost all = fusion_texts(v@);
    let mut out: Vec<String> = Vec::new();
    let mut i: usize = 0;
    assert(text::views(out@) =~= all.take(0));
    while i < v.len()
        invariant
            i <= v@.len(),
            all == fusion_texts(v@),
            text::views(out@) == all.take(i as int),
        decreases v@.len() - i,
    {
        let mut s = v[i].0.clone();
        s.append("×");
        s.append(text::decimal(v[i].1 as u128).as_str());
        assert(s@ == all[i as int]);
        let ghost sv = s@;
        let ghost before = out@;
        out.push(s);
        assert(text::views(out@) =~= text::views(before).push(sv));
        assert(all.take(i + 1) =~= all.take(i as int).push(all[i as int]));
        i += 1;
    }
    assert(all.take(all.len() as int) =~= all);
    text::join(out.as_slice(), ", ")
}

/// Which proc stands for which.
fn show_aliases(v: &Vec<(String, String)>) -> (r: String)
    ensures
        r@ == text::join_spec(alias_texts(v@), ", "@),
{
    let ghost all = alias_texts(v@);
    let mut out: Vec<String> = Vec::new();
    let mut i: usize = 0;
    assert(text::views(out@) =~= all.take(0));
    while i < v.len()
        invariant
            i <= v@.len(),
            all == alias_texts(v@),
            text::views(out@) == all.take(i as int),
        decreases v@.len() - i,
    {
        let mut s = v[i].0.clone();
        s.append("→");
        s.append(v[i].1.as_str());
        assert(s@ == all[i as int]);
        let ghost sv = s@;
        let ghost before = out@;
        out.push(s);
        assert(text::views(out@) =~= text::views(before).push(sv));
        assert(all.take(i + 1) =~= all.take(i as int).push(all[i as int]));
        i += 1;
    }
    assert(all.take(all.len() as int) =~= all);
    text::join(out.as_slice(), ", ")
}

/// The structure of a graph.
pub fn describe_graph(f: &GraphFigures) -> (r: String)
    ensures
        r@ == graph_text(*f),
{
    let mut s = "E-Graph:\n  Nodes: ".to_owned();
    s.append(text::decimal(f.nodes as u128).as_str());
    s.append("\n  Edges: ");
    s.append(text::decimal(f.edges as u128).as_str());
    s.append("\n  E-classes: ");
    s.append(text::decimal(f.classes as u128).as_str());
    s.append("\n\n");
    let ghost a = s@;
    if f.fusions.len() > 0 {
        let mut t = "  Fusion rules fired: ".to_owned();
        t.append(show_fusions(&f.fusions).as_str());
        t.append("\n");
        s.append(t.as_str());
    } else {
        assert(s@ =~= a + Seq::<char>::empty());
    }
    let ghost b = s@;
    let mut i: usize = 0;
    assert(b + shared_text(f.shared@, 0) =~= b);
    while i < f.shared.len()
        invariant
            i <= f.shared@.len(),
            s@ == b + shared_text(f.shared@, i as int),
        decreases f.shared@.len() - i,
    {
        let mut t = "  [class] {".to_owned();
        t.append(text::join(f.shared[i].as_slice(), ", ").as_str());
        t.append("}\n");
        s.append(t.as_str());
        assert(s@ =~= b + shared_text(f.shared@, i + 1));
        i += 1;
    }
    let ghost c = s@;
    if f.aliases.len() > 0 {
        let mut t = "  CSE aliases: ".to_owned();
        t.append(show_aliases(&f.aliases).as_str());
        t.append("\n");
        s.append(t.as_str());
    } else {
        assert(s@ =~= c + Seq::<char>::empty());
    }
    s.append("\nParallel groups:\n");
    let ghost d = s@;
    let mut g: usize = 0;
    assert(d + groups_text(f.groups@, 0) =~= d);
    while g < f.groups.len()
        invariant
            g <= f.groups@.len(),
            s@ == d + groups_text(f.groups@, g as int),
        decreases f.groups@.len() - g,
    {
        let mut t = "  ".to_owned();
        t.append(show_list(&f.groups[g]).as_str());
        t.append("\n");
        s.append(t.as_str());
        assert(s@ =~= d + groups_text(f.groups@, g + 1));
        g += 1;
    }
    s.append("\nCritical path: ");
    s.append(show_list(&f.path).as_str());
    s.append("\n\nExtracted plan (static):\n");
    let ghost e = s@;
    let mut k: usize = 0;
    assert(e + chosen_text(f.chosen@, 0) =~= e);
    while k < f.chosen.len()
        invariant
            k <= f.chosen@.len(),
            s@ == e + chosen_text(f.chosen@, k as int),
        decreases f.chosen@.len() - k,
    {
        let mut t = "  ".to_owned();
        t.append(f.chosen[k].name.as_str());
        t.append(" <- ");
        t.append(f.chosen[k].proc.as_str());
        t.append("::");
        t.append(f.chosen[k].imp.as_str());
        t.append(" (cost ");
        t.append(f.chosen[k].cost.as_str());
        t.append(")\n");
        s.append(t.as_str());
        assert(s@ =~= e + chosen_text(f.chosen@, k + 1));
        k += 1;
    }
    s
}

// ── The end of a run ──

/// A result in short: more than two hundred bytes of text are cut.
pub open spec fn shown(v: GValue) -> Seq<char> {
    match v {
        GValue::Text(t) => if vstd::utf8::encode_utf8(t).len() > 200 {
            text::cut_spec(t, 200) + "..."@
        } else {
            t
        },
        GValue::File(f) => "<file: "@ + f + ">"@,
        GValue::Null => "<null>"@,
    }
}

/// A result as a program would write it.
pub open spec fn written(v: GValue) -> Seq<char> {
    match v {
        GValue::Text(t) => "Text("@ + text::debug_quoted(t) + ")"@,
        GValue::File(f) => "File("@ + text::debug_quoted(f) + ")"@,
        GValue::Null => "Null"@,
    }
}

/// The first `n` results of a run that went well.
pub open spec fn results_text(
    names: Seq<Seq<char>>,
    results: Map<Seq<char>, GValue>,
    n: int,
) -> Seq<char>
    decreases n,
{
    if n <= 0 {
        Seq::empty()
    } else {
        results_text(names, results, n - 1) + ("    "@ + names[n - 1] + " => "@ + shown(
            results[names[n - 1]],
        ) + "\n"@)
    }
}

/// The first `n` results of a run that failed.
pub open spec fn partial_text(
    names: Seq<Seq<char>>,
    results: Map<Seq<char>, GValue>,
    n: int,
) -> Seq<char>
    decreases n,
{
    if n <= 0 {
        Seq::empty()
    } else {
        partial_text(names, results, n - 1) + ("    ["@ + (if errflow::is_left(
            results[names[n - 1]],
        ) {
            "LEFT"@
        } else {
            "OK  "@
        }) + "] "@ + names[n - 1] + " => "@ + written(results[names[n - 1]]) + "\n"@)
    }
}

/// What is shown of a run that went well.
pub open spec fn success_text(names: Seq<Seq<char>>, results: Map<Seq<char>, GValue>) -> Seq<char> {
    "Pipeline executed successfully\n  Procs completed: "@ + text::dec(names.len()) + "\n"@
        + results_text(names, results, names.len() as int)
}

/// What is shown of a run that failed.
pub open spec fn failure_text(
    pipeline: Seq<char>,
    error: Seq<char>,
    names: Seq<Seq<char>>,
    results: Map<Seq<char>, GValue>,
) -> Seq<char> {
    "Pipeline failed: "@ + error + "\n"@ + (if names.len() > 0 {
        "  [partial] "@ + text::dec(names.len()) + " procs completed/marked:\n"@ + partial_text(
            names,
            results,
            names.len() as int,
        )
    } else {
        Seq::empty()
    }) + "[degraded] flag set — fix then: ductile degraded clear "@ + pipeline + "\n"@
}

/// A result in short.
pub fn show_value(v: &Value) -> (r: String)
    ensures
        r@ == shown(v@),
{
    match v {
        Value::Text(t) => {
            if t.as_str().as_bytes().len() > 200 {
                let mut s = text::cut(t.as_str(), 200);
                s.append("...");
                s
            } else {
                t.clone()
            }
        },
        Value::File(f) => {
            let mut s = "<file: ".to_owned();
            s.append(f.as_str());
            s.append(">");
            s
        },
        Value::Null => "<null>".to_owned(),
    }
}

/// A result as a program would write it.
fn write_value(v: &Value) -> (r: String)
    ensures
        r@ == written(v@),
{
    match v {
        Value::Text(t) => {
            let mut s = "Text(".to_owned();
            s.append(text::debug_quote(t.as_str()).as_str());
            s.append(")");
            s
        },
        Value::File(f) => {
            let mut s = "File(".to_owned();
            s.append(text::debug_quote(f.as_str()).as_str());
            s.append(")");
            s
        },
        Value::Null => "Null".to_owned(),
    }
}

/// What is shown of a run that went well.
pub fn report_success(results: &TextMap<Value>) -> (r: String)
    requires
        results.wf(),
    ensures
        r@ == success_text(results.keys(), ast::result_views(*results)),
{
    let ghost names = results.keys();
    let ghost rv = ast::result_views(*results);
    let mut s = "Pipeline executed successfully\n  Procs completed: ".to_owned();
    s.append(text::decimal(results.len() as u128).as_str());
    s.append("\n");
    let ghost head = s@;
    let mut i: usize = 0;
    assert(head + results_text(names, rv, 0) =~= head);
    while i < results.len()
        invariant
            i <= names.len(),
            names == results.keys(),
            rv == ast::result_views(*results),
            results.wf(),
            s@ == head + results_text(names, rv, i as int),
        decreases names.len() - i,
    {
        proof {
            results.lemma_entry(i as int);
        }
        let mut t = "    ".to_owned();
        t.append(results.key_at(i).as_str());
        t.append(" => ");
        t.append(show_value(results.value_at(i)).as_str());
        t.append("\n");
        s.append(t.as_str());
        assert(s@ =~= head + results_text(names, rv, i + 1));
        i += 1;
    }
    s
}

/// What is shown of a run that failed.
pub fn report_failure(pipeline: &str, error: &str, partial: &TextMap<Value>) -> (r: String)
    requires
        partial.wf(),
    ensures
        r@ == failure_text(pipeline@, error@, partial.keys(), ast::result_views(*partial)),
{
    let ghost names = partial.keys();
    let ghost rv = ast::result_views(*partial);
    let mut s = "Pipeline failed: ".to_owned();
    s.append(error);
    s.append("\n");
    let ghost start = s@;
    let mut p = String::new();
    assert(p@ =~= Seq::<char>::empty());
    if partial.len() > 0 {
        p.append("  [partial] ");
        p.append(text::decimal(partial.len() as u128).as_str());
        p.append(" procs completed/marked:\n");
        let ghost head = p@;
        assert(head =~= "  [partial] "@ + text::dec(names.len()) + " procs completed/marked:\n"@);
        let mut i: usize = 0;
        assert(head + partial_text(names, rv, 0) =~= head);
        while i < partial.len()
            invariant
                i <= names.len(),
                names == partial.keys(),
                rv == ast::result_views(*partial),
                partial.wf(),
                p@ == head + partial_text(names, rv, i as int),
            decreases names.len() - i,
        {
            proof {
                partial.lemma_entry(i as int);
            }
            let v = partial.value_at(i);
            let mut t = "    [".to_owned();
            t.append(if errflow::is_error_value(v) {
                "LEFT"
            } else {
                "OK  "
            });
            t.append("] ");
            t.append(partial.key_at(i).as_str());
            t.append(" => ");
            t.append(write_value(v).as_str());
            t.append("\n");
            p.append(t.as_str());
            assert(p@ =~= head + partial_text(names, rv, i + 1));
            i += 1;
        }
    }
    s.append(p.as_str());
    s.append("[degraded] flag set — fix then: ductile degraded clear ");
    s.append(pipeline);
    s.append("\n");
    s
}

// ── The library of procs ──

/// The tags that a query asks for, of the first `n` parts.
pub open spec fn query_tags(parts: Seq<Seq<char>>, n: int) -> Set<Seq<char>>
    decreases n,
{
    if n <= 0 {
        Set::empty()
    } else if text::trimmed(parts[n - 1]).len() > 0 {
        query_tags(parts, n - 1).insert(text::trimmed(parts[n - 1]))
    } else {
        query_tags(parts, n - 1)
    }
}

/// The tags that a query asks for.
pub open spec fn tags_asked(query: Seq<char>) -> Set<Seq<char>> {
    let parts = text::split_char_spec(text::front_spec(query, "#"@), ',');
    query_tags(parts, parts.len() as int)
}

/// The tags that a query asks for.
pub fn parse_query(query: &str) -> (r: TextSet)
    ensures
        r.wf(),
        r@ == tags_asked(query@),
{
    let parts = text::split_char(text::trim_front(query, "#").as_str(), ',');
    let ghost pv = text::views(parts@);
    let mut out = TextSet::new();
    let mut i: usize = 0;
    assert(out@ =~= Set::<Seq<char>>::empty());
    while i < parts.len()
        invariant
            i <= parts@.len(),
            pv == text::views(parts@),
            out.wf(),
            out@ == query_tags(pv, i as int),
        decreases parts@.len() - i,
    {
        let t = text::trim(parts[i].as_str());
        assert(t@ == text::trimmed(pv[i as int]));
        if !t.as_str().is_empty() {
            let _ = out.insert(t);
        }
        i += 1;
    }
    out
}

/// The places of the procs among the first `n` that have all these tags.
pub open spec fn matching(rows: Seq<ProcRow>, tags: Set<Seq<char>>, n: int) -> Seq<usize>
    decreases n,
{
    if n <= 0 {
        Seq::empty()
    } else if tags.subset_of(rows[n - 1].tags@) {
        matching(rows, tags, n - 1).push((n - 1) as usize)
    } else {
        matching(rows, tags, n - 1)
    }
}

/// The places of the procs that have all these tags; the first is taken.
pub fn candidates(rows: &Vec<ProcRow>, tags: &TextSet) -> (r: Vec<usize>)
    requires
        records::rows_wf(rows@),
        tags.wf(),
    ensures
        r@ == matching(rows@, tags@, rows@.len() as int),
{
    let mut out: Vec<usize> = Vec::new();
    let mut i: usize = 0;
    while i < rows.len()
        invariant
            i <= rows@.len(),
            records::rows_wf(rows@),
            tags.wf(),
            out@ == matching(rows@, tags@, i as int),
        decreases rows@.len() - i,
    {
        assert(rows@[i as int].tags.wf());
        if tags.is_subset(&rows[i].tags) {
            out.push(i);
        }
        i += 1;
    }
    out
}

/// The first procs that a step offers, of the first `n` candidates.
pub open spec fn offers(rows: Seq<ProcRow>, found: Seq<usize>, n: int) -> Seq<char>
    decreases n,
{
    if n <= 0 {
        Seq::empty()
    } else {
        let p = rows[found[n - 1] as int];
        offers(rows, found, n - 1) + ("  → "@ + p.name@ + " ["@ + p.pipeline@ + "] "@
            + p.description@ + "\n"@)
    }
}

/// A step of a composition.
pub open spec fn step_text(
    rows: Seq<ProcRow>,
    number: int,
    tags: Seq<Seq<char>>,
    found: Seq<usize>,
) -> Seq<char> {
    "Step "@ + text::dec(number as nat) + " {"@ + hash_tags(tags) + "}:\n"@ + (if found.len()
        == 0 {
        "  ✗ No matching procs\n"@
    } else {
        offers(
            rows,
            found,
            if found.len() < 3 {
                found.len() as int
            } else {
                3
            },
        ) + ("  ✓ Selected: "@ + rows[found[0] as int].name@ + " ["@
            + rows[found[0] as int].pipeline@ + "]\n"@)
    }) + "\n"@
}

/// A step of a composition: up to three offers, of which the first is taken.
pub fn compose_step(rows: &Vec<ProcRow>, number: usize, tags: &TextSet, found: &Vec<usize>) -> (r:
    String)
    requires
        forall|i: int| 0 <= i < found@.len() ==> (#[trigger] found@[i]) < rows@.len(),
    ensures
        r@ == step_text(rows@, number as int, tags.seq(), found@),
{
    let mut s = "Step ".to_owned();
    s.append(text::decimal(number as u128).as_str());
    s.append(" {");
    s.append(show_tags(tags).as_str());
    s.append("}:\n");
    if found.len() == 0 {
        s.append("  ✗ No matching procs\n");
    } else {
        let n: usize = if found.len() < 3 {
            found.len()
        } else {
            3
        };
        let mut t = String::new();
        assert(t@ =~= Seq::<char>::empty());
        let mut i: usize = 0;
        while i < n
            invariant
                i <= n,
                n <= found@.len(),
                forall|i: int| 0 <= i < found@.len() ==> (#[trigger] found@[i]) < rows@.len(),
                t@ == offers(rows@, found@, i as int),
            decreases n - i,
        {
            assert(found@[i as int] < rows@.len());
            let p: &ProcRow = &rows[found[i]];
            let mut line = "  → ".to_owned();
            line.append(p.name.as_str());
            line.append(" [");
            line.append(p.pipeline.as_str());
            line.append("] ");
            line.append(p.description.as_str());
            line.append("\n");
            t.append(line.as_str());
            i += 1;
        }
        assert(found@[0] < rows@.len());
        let p: &ProcRow = &rows[found[0]];
        let mut line = "  ✓ Selected: ".to_owned();
        line.append(p.name.as_str());
        line.append(" [");
        line.append(p.pipeline.as_str());
        line.append("]\n");
        t.append(line.as_str());
        s.append(t.as_str());
    }
    s.append("\n");
    s
}

/// The first `n` members of a group.
pub open spec fn members_text(rows: Seq<ProcRow>, group: Seq<usize>, n: int) -> Seq<char>
    decreases n,
{
    if n <= 0 {
        Seq::empty()
    } else {
        let p = rows[group[n - 1] as int];
        members_text(rows, group, n - 1) + ("    "@ + p.name@ + " — "@ + p.description@ + " ["@
            + p.pipeline@ + "]\n"@)
    }
}

/// The first `n` groups of procs that are alike.
pub open spec fn alike_text(rows: Seq<ProcRow>, groups: Seq<Vec<usize>>, n: int) -> Seq<char>
    decreases n,
{
    if n <= 0 {
        Seq::empty()
    } else {
        let g = groups[n - 1]@;
        alike_text(rows, groups, n - 1) + ("\n  {"@ + hash_tags(rows[g[0] as int].tags.seq())
            + "} — "@ + text::dec(g.len()) + " procs\n"@ + members_text(rows, g, g.len() as int))
    }
}

/// The first `n` procs that have tags.
pub open spec fn tagged_text(rows: Seq<ProcRow>, n: int) -> Seq<char>
    decreases n,
{
    if n <= 0 {
        Seq::empty()
    } else if rows[n - 1].tags.seq().len() == 0 {
        tagged_text(rows, n - 1)
    } else {
        tagged_text(rows, n - 1) + ("  {"@ + hash_tags(rows[n - 1].tags.seq()) + "} "@
            + rows[n - 1].name@ + " — "@ + rows[n - 1].description@ + " ["@ + rows[n - 1].pipeline@
            + "]\n"@)
    }
}

/// What the library of procs has in common.
pub open spec fn discovery_text(rows: Seq<ProcRow>, groups: Seq<Vec<usize>>) -> Seq<char> {
    "Proc Registry — Isomorphism Discovery\n=====================================\n\nTotal registered procs: "@
        + text::dec(rows.len()) + "\nIsomorphic groups (≥2 pipelines): "@ + text::dec(groups.len())
        + "\n\n"@ + (if groups.len() == 0 {
        "No isomorphic groups found.\n"@
    } else {
        alike_text(rows, groups, groups.len() as int)
    }) + "\nAll procs by tag signature:\n---------------------------\n"@ + tagged_text(
        rows,
        rows.len() as int,
    )
}

/// What the library of procs has in common: groups of procs that are alike, and
/// all procs with tags.
pub fn describe_discovery(rows: &Vec<ProcRow>, groups: &Vec<Vec<usize>>) -> (r: String)
    requires
        forall|i: int| 0 <= i < groups@.len() ==> (#[trigger] groups@[i]@).len() > 0,
        forall|i: int, k: int|
            0 <= i < groups@.len() && 0 <= k < groups@[i]@.len() ==> (#[trigger] groups@[i]@[k])
                < rows@.len(),
    ensures
        r@ == discovery_text(rows@, groups@),
{
    let mut s = "Proc Registry — Isomorphism Discovery\n=====================================\n\nTotal registered procs: ".to_owned();
    s.append(text::decimal(rows.len() as u128).as_str());
    s.append("\nIsomorphic groups (≥2 pipelines): ");
    s.append(text::decimal(groups.len() as u128).as_str());
    s.append("\n\n");
    if groups.len() == 0 {
        s.append("No isomorphic groups found.\n");
    } else {
        let mut a = String::new();
        assert(a@ =~= Seq::<char>::empty());
        let mut i: usize = 0;
        while i < groups.len()
            invariant
                i <= groups@.len(),
                forall|i: int| 0 <= i < groups@.len() ==> (#[trigger] groups@[i]@).len() > 0,
                forall|i: int, k: int|
                    0 <= i < groups@.len() && 0 <= k < groups@[i]@.len() ==> (
                    #[trigger] groups@[i]@[k]) < rows@.len(),
                a@ == alike_text(rows@, groups@, i as int),
            decreases groups@.len() - i,
        {
            let g: &Vec<usize> = &groups[i];
            assert(groups@[i as int]@.len() > 0);
            assert(groups@[i as int]@[0] < rows@.len());
            let mut t = "\n  {".to_owned();
            t.append(show_tags(&rows[g[0]].tags).as_str());
            t.append("} — ");
            t.append(text::decimal(g.len() as u128).as_str());
            t.append(" procs\n");
            let ghost head = t@;
            let mut k: usize = 0;
            assert(head + members_text(rows@, g@, 0) =~= head);
            while k < g.len()
                invariant
                    k <= g@.len(),
                    i < groups@.len(),
                    g@ == groups@[i as int]@,
                    forall|i: int, k: int|
                        0 <= i < groups@.len() && 0 <= k < groups@[i]@.len() ==> (
                        #[trigger] groups@[i]@[k]) < rows@.len(),
                    t@ == head + members_text(rows@, g@, k as int),
                decreases g@.len() - k,
            {
                assert(groups@[i as int]@[k as int] < rows@.len());
                let p: &ProcRow = &rows[g[k]];
                let mut line = "    ".to_owned();
                line.append(p.name.as_str());
                line.append(" — ");
                line.append(p.description.as_str());
                line.append(" [");
                line.append(p.pipeline.as_str());
                line.append("]\n");
                t.append(line.as_str());
                assert(t@ =~= head + members_text(rows@, g@, k + 1));
                k += 1;
            }
            a.append(t.as_str());
            i += 1;
        }
        s.append(a.as_str());
    }
    s.append("\nAll procs by tag signature:\n---------------------------\n");
    let ghost head = s@;
    let mut n: usize = 0;
    assert(head + tagged_text(rows@, 0) =~= head);
    while n < rows.len()
        invariant
            n <= rows@.len(),
            s@ == head + tagged_text(rows@, n as int),
        decreases rows@.len() - n,
    {
        if !rows[n].tags.is_empty() {
            let mut t = "  {".to_owned();
            t.append(show_tags(&rows[n].tags).as_str());
            t.append("} ");
            t.append(rows[n].name.as_str());
            t.append(" — ");
            t.append(rows[n].description.as_str());
            t.append(" [");
            t.append(rows[n].pipeline.as_str());
            t.append("]\n");
            s.append(t.as_str());
            assert(s@ =~= head + tagged_text(rows@, n + 1));
        }
        n += 1;
    }
    s
}

/// What a query takes is a proc that has every tag it asks for.
pub proof fn law_offers_have_the_tags(rows: Seq<ProcRow>, tags: Set<Seq<char>>, n: int)
    requires
        0 <= n <= rows.len(),
        rows.len() <= usize::MAX,
    ensures
        forall|i: int|
            0 <= i < matching(rows, tags, n).len() ==> (#[trigger] matching(rows, tags, n)[i]) < n
                && tags.subset_of(rows[matching(rows, tags, n)[i] as int].tags@),
        forall|k: int|
            0 <= k < n && tags.subset_of((#[trigger] rows[k]).tags@) ==> matching(
                rows,
                tags,
                n,
            ).contains(k as usize),
    decreases n,
{
    if n > 0 {
        law_offers_have_the_tags(rows, tags, n - 1);
        let before = matching(rows, tags, n - 1);
        let after = matching(rows, tags, n);
        assert forall|k: int| 0 <= k < n && tags.subset_of(
            (#[trigger] rows[k]).tags@,
        ) implies after.contains(k as usize) by {
            if k < n - 1 {
                let i = choose|i: int| 0 <= i < before.len() && before[i] == k as usize;
                assert(after[i] == k as usize);
            } else {
                assert(after.last() == k as usize);
            }
        }
    }
}

// ── Usage ──

/// How the program is used.
pub fn usage(version: &str) -> (r: String)
    ensures
        r@ == "Ductile v"@ + version@ + usage_text(),
{
    let mut s = "Ductile v".to_owned();
    s.append(version);
    s.append(
        " — declarative pipeline DSL\n\nUsage: ductile <command> <file.pipeline> [args]\n\nCommands:\n  check <file>           Parse + type check\n  run   <file> [topic] [--policy f.eval] [--restrict-shell]\n                         Parse + check + execute\n                         --restrict-shell blocks run/sh/spawn (or set DUCTILE_RESTRICT_SHELL=1)\n  graph <file>           Show e-graph structure\n  parse <file>           Parse only (show structure)\n\nDatabase:\n  import <dir|file>      Import pipelines into SQLite\n  search \"query\"         Search proc library (LIKE)\n  fts \"query\"            BM25 full-text search (relevance ranked)\n  compose <name> <desc> <#tag1> <#tag2>...  Assemble from library\n  db-stats               Show database statistics\n\nDiscovery:\n  discover [file]        Show isomorphic proc groups\n  learn [dir]            Discover compressive abstractions\n\nVersion:\n  version save <file> \"desc\"   Save version snapshot\n  version log  <file>          Show version history\n  version diff <file> v1 v2    Diff two versions\n\nPatch (hot override, no file edit):\n  patch <pipeline> <proc> <impl> <field> <value>\n  patch list\n  patch clear <pipeline>\n\nScript contracts (v0.12 — 脚本即 API):\n  script attach <file>    Register script (parses # ductile: contract header)\n  script list             Show attached scripts\n  script show <name>      Show contract card (LLM reads this, not the script)\n  script call <name> \"k=v, k=v\"   One-off invoke (debug)\n  script detach <name>    Unregister\n",
    );
    s
}

/// How the program is used, after its version.
pub open spec fn usage_text() -> Seq<char> {
    " — declarative pipeline DSL\n\nUsage: ductile <command> <file.pipeline> [args]\n\nCommands:\n  check <file>           Parse + type check\n  run   <file> [topic] [--policy f.eval] [--restrict-shell]\n                         Parse + check + execute\n                         --restrict-shell blocks run/sh/spawn (or set DUCTILE_RESTRICT_SHELL=1)\n  graph <file>           Show e-graph structure\n  parse <file>           Parse only (show structure)\n\nDatabase:\n  import <dir|file>      Import pipelines into SQLite\n  search \"query\"         Search proc library (LIKE)\n  fts \"query\"            BM25 full-text search (relevance ranked)\n  compose <name> <desc> <#tag1> <#tag2>...  Assemble from library\n  db-stats               Show database statistics\n\nDiscovery:\n  discover [file]        Show isomorphic proc groups\n  learn [dir]            Discover compressive abstractions\n\nVersion:\n  version save <file> \"desc\"   Save version snapshot\n  version log  <file>          Show version history\n  version diff <file> v1 v2    Diff two versions\n\nPatch (hot override, no file edit):\n  patch <pipeline> <proc> <impl> <field> <value>\n  patch list\n  patch clear <pipeline>\n\nScript contracts (v0.12 — 脚本即 API):\n  script attach <file>    Register script (parses # ductile: contract header)\n  script list             Show attached scripts\n  script show <name>      Show contract card (LLM reads this, not the script)\n  script call <name> \"k=v, k=v\"   One-off invoke (debug)\n  script detach <name>    Unregister\n"@
}

} // verus!
