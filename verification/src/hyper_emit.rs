//! A skeleton pipeline out of a hypergraph: one proc for each stage, with stub
//! bodies chosen by role and tags.

use crate::hyper;
use crate::hyper::{GSpec, GStage, HyperRequire, HyperRole, HyperSpec, HyperStage};
use crate::order;
use crate::order::TextSet;
use crate::text;
use vstd::prelude::*;

verus! {

// ── Inputs and delivery ──

/// The input that a stage of that name without inputs gets among the first `n`
/// stages: the stage declared before it.
pub open spec fn stage_before(ss: Seq<GStage>, name: Seq<char>, n: int) -> Option<Seq<char>>
    decreases n,
{
    if n <= 1 {
        None
    } else if ss[n - 1].name == name && ss[n - 1].after.len() == 0 {
        Some(ss[n - 2].name)
    } else {
        stage_before(ss, name, n - 1)
    }
}

/// The inputs of a stage: those it has, or the stage declared before it.
pub open spec fn inputs_of(ss: Seq<GStage>, s: GStage) -> Seq<Seq<char>> {
    if s.after.len() > 0 {
        s.after
    } else {
        match stage_before(ss, s.name, ss.len() as int) {
            Some(p) => seq![p],
            None => Seq::empty(),
        }
    }
}

/// The last sink among the first `n` stages.
pub open spec fn last_sink(ss: Seq<GStage>, n: int) -> Option<Seq<char>>
    decreases n,
{
    if n <= 0 {
        None
    } else if ss[n - 1].role == HyperRole::Sink {
        Some(ss[n - 1].name)
    } else {
        last_sink(ss, n - 1)
    }
}

/// What a hypergraph delivers: what it says, its last sink or its last stage.
pub open spec fn delivery(g: GSpec) -> Seq<char> {
    match g.deliver {
        Some(d) => d,
        None => match last_sink(g.stages, g.stages.len() as int) {
            Some(s) => s,
            None => if g.stages.len() > 0 {
                g.stages.last().name
            } else {
                "out"@
            },
        },
    }
}

/// The larger number.
pub open spec fn at_least(a: nat, b: nat) -> nat {
    if a < b {
        b
    } else {
        a
    }
}

/// How many ways to do its work a stage needs.
pub open spec fn need_of(r: HyperRequire, s: GStage) -> nat {
    at_least(s.min_impls, at_least(r.min_impls as nat, 1))
}

/// The inputs of a stage: those it has, or the stage declared before it.
pub fn stage_inputs(stages: &Vec<HyperStage>, s: &HyperStage) -> (r: Vec<String>)
    ensures
        text::views(r@) == inputs_of(hyper::stage_views(stages@), s@),
{
    let ghost ss = hyper::stage_views(stages@);
    if s.after.len() > 0 {
        return text::copy_all(&s.after);
    }
    let mut out: Vec<String> = Vec::new();
    assert(text::views(out@) =~= Seq::<Seq<char>>::empty());
    let mut n: usize = stages.len();
    while n > 1
        invariant
            n <= stages@.len(),
            ss == hyper::stage_views(stages@),
            s.after@.len() == 0,
            text::views(out@) == Seq::<Seq<char>>::empty(),
            stage_before(ss, s.name@, ss.len() as int) == stage_before(ss, s.name@, n as int),
        decreases n,
    {
        assert(ss[n - 1] == stages@[n - 1]@);
        assert(ss[n - 2] == stages@[n - 2]@);
        if text::same(stages[n - 1].name.as_str(), s.name.as_str()) && stages[n - 1].after.len()
            == 0 {
            out.push(stages[n - 2].name.clone());
            assert(text::views(out@) =~= seq![ss[n - 2].name]);
            return out;
        }
        n -= 1;
    }
    out
}

/// What a hypergraph delivers: what it says, its last sink or its last stage.
pub fn resolve_deliver(spec: &HyperSpec) -> (r: String)
    ensures
        r@ == delivery(spec@),
{
    match &spec.deliver {
        Some(d) => {
            return d.clone();
        },
        None => {},
    }
    let ghost ss = hyper::stage_views(spec.stages@);
    let mut n: usize = spec.stages.len();
    while n > 0
        invariant
            n <= spec.stages@.len(),
            ss == hyper::stage_views(spec.stages@),
            spec.deliver is None,
            last_sink(ss, ss.len() as int) == last_sink(ss, n as int),
        decreases n,
    {
        assert(ss[n - 1] == spec.stages@[n - 1]@);
        if spec.stages[n - 1].role == HyperRole::Sink {
            return spec.stages[n - 1].name.clone();
        }
        n -= 1;
    }
    if spec.stages.len() > 0 {
        assert(ss.last() == spec.stages@.last()@);
        spec.stages[spec.stages.len() - 1].name.clone()
    } else {
        "out".to_owned()
    }
}

/// How many ways to do its work a stage needs.
pub fn stage_need(require: &HyperRequire, s: &HyperStage) -> (r: usize)
    ensures
        r == need_of(*require, s@),
{
    let floor: usize = if require.min_impls < 1 {
        1
    } else {
        require.min_impls
    };
    if s.min_impls < floor {
        floor
    } else {
        s.min_impls
    }
}

// ── Bodies ──

/// The tags of a stage that has none.
pub open spec fn role_tags(role: HyperRole) -> Set<Seq<char>> {
    match role {
        HyperRole::Judge => Set::empty().insert("judge"@).insert("gate"@),
        HyperRole::Source => Set::empty().insert("read"@).insert("file"@),
        HyperRole::Sink => Set::empty().insert("write"@).insert("file"@),
        HyperRole::Default => Set::empty().insert("work"@),
    }
}

/// The tags of a stage, or those of its role.
pub open spec fn tags_of(s: GStage) -> Set<Seq<char>> {
    if s.tags == Set::<Seq<char>>::empty() {
        role_tags(s.role)
    } else {
        s.tags
    }
}

/// The names as references.
pub open spec fn as_refs(names: Seq<Seq<char>>) -> Seq<Seq<char>> {
    names.map_values(|n: Seq<char>| "@"@ + n)
}

/// The first input as a reference, or `other` where there is none.
pub open spec fn first_ref(after: Seq<Seq<char>>, other: Seq<char>) -> Seq<char> {
    if after.len() > 0 {
        "@"@ + after[0]
    } else {
        other
    }
}

/// The main body of a stage.
pub open spec fn main_body(s: GStage, after: Seq<Seq<char>>, tags: Set<Seq<char>>) -> Seq<char> {
    if s.role == HyperRole::Judge || tags.contains("judge"@) || tags.contains("gate"@) {
        "run(\"printf '%s\\n' '##DSL_RESULT' 'score=100' 'deps="@ + text::join_spec(
            as_refs(after),
            " "@,
        ) + "' '##DSL_END'\")"@
    } else if tags.contains("llm"@) || tags.contains("extract"@) {
        "llm(prompt="@ + first_ref(after, "\"{topic}\""@)
            + ", system=\"extract\", schema=\"title,url,topic\")"@
    } else if tags.contains("write"@) {
        "write(to=\"/tmp/ductile_hyper_"@ + s.name + ".txt\", content="@ + first_ref(
            after,
            "\"ok\""@,
        ) + ")"@
    } else if tags.contains("read"@) || tags.contains("file"@) || tags.contains("io"@)
        || after.len() == 0 {
        "read(from=\"{topic}\")"@
    } else {
        "write(to=\"/tmp/ductile_hyper_"@ + s.name + ".txt\", content="@ + first_ref(
            after,
            "\"ok\""@,
        ) + ")"@
    }
}

/// The body of a fallback of a stage.
pub open spec fn spare_body(s: GStage, after: Seq<Seq<char>>, tags: Set<Seq<char>>) -> Seq<char> {
    if (tags.contains("write"@) || tags.contains("file"@)) && after.len() == 0 {
        "write(to=\"/tmp/ductile_hyper_fallback.txt\", content=\"fallback\")"@
    } else if after.len() > 0 {
        "write(to=\"/tmp/ductile_hyper_"@ + s.name + "_fb.txt\", content=@"@ + after[0] + ")"@
    } else {
        "read(from=\"{topic}\")"@
    }
}

/// The name of the `i`-th way to do the work of a stage.
pub open spec fn way_name(i: int) -> Seq<char> {
    if i == 0 {
        "primary"@
    } else if i == 1 {
        "fallback"@
    } else {
        "alt"@ + text::dec(i as nat)
    }
}

/// The tags as written in a pipeline.
pub open spec fn tags_text(tags: Set<Seq<char>>) -> Seq<char> {
    let names = order::in_order(tags);
    if names.len() == 0 {
        Seq::empty()
    } else {
        ".tags("@ + text::join_spec(names.map_values(|t: Seq<char>| "#"@ + t), ", "@) + ")"@
    }
}

/// The line of the `i`-th of `total` ways to do the work of a stage.
pub open spec fn way_line(s: GStage, after: Seq<Seq<char>>, i: int, total: int) -> Seq<char> {
    let tags = tags_of(s);
    "      "@ + way_name(i) + " -> "@ + (if i == 0 {
        main_body(s, after, tags)
    } else {
        spare_body(s, after, tags)
    }) + tags_text(tags) + (if i > 0 {
        ".stub"@
    } else {
        ""@
    }) + (if i + 1 < total {
        ","@
    } else {
        ""@
    }) + "\n"@
}

/// The lines of the first `n` of `total` ways.
pub open spec fn way_lines(s: GStage, after: Seq<Seq<char>>, n: int, total: int) -> Seq<char>
    decreases n,
{
    if n <= 0 {
        Seq::empty()
    } else {
        way_lines(s, after, n - 1, total) + way_line(s, after, n - 1, total)
    }
}

/// The line of the condition of a stage.
pub open spec fn when_line(s: GStage) -> Seq<char> {
    match s.gated_by {
        Some(g) => "    .when(@"@ + g + ".score >= 80)\n"@,
        None => Seq::empty(),
    }
}

/// The lines of a stage.
pub open spec fn stage_text(g: GSpec, s: GStage) -> Seq<char> {
    let need = need_of(g.require, s) as int;
    "  .proc(\""@ + s.name + "\")\n"@ + "    .desc(\"hyper stage "@ + s.name + " role="@
        + hyper::role_name(s.role) + "\")\n"@ + when_line(s) + "    .plan(\n"@ + way_lines(
        s,
        inputs_of(g.stages, s),
        need,
        need,
    ) + "    )\n"@
}

/// The lines of the first `n` stages.
pub open spec fn stages_text(g: GSpec, n: int) -> Seq<char>
    decreases n,
{
    if n <= 0 {
        Seq::empty()
    } else {
        stages_text(g, n - 1) + stage_text(g, g.stages[n - 1])
    }
}

/// A text with its backslashes and quotes escaped.
pub open spec fn escaped(s: Seq<char>) -> Seq<char> {
    text::replace_spec(text::replace_spec(s, "\\"@, "\\\\"@), "\""@, "\\\""@)
}

/// The header line of the pipeline.
pub open spec fn header_line(g: GSpec) -> Seq<char> {
    if g.goal.len() == 0 {
        "Pipeline(\""@ + g.name + "\")\n"@
    } else {
        "Pipeline(\""@ + g.name + "\", \""@ + escaped(g.goal) + "\")\n"@
    }
}

/// The skeleton pipeline of a hypergraph.
pub open spec fn pipeline_text(g: GSpec) -> Seq<char> {
    "// Generated by ductile hyper — topology from Hyper(\""@ + g.name
        + "\"); fill real impls as needed.\n"@
        + "// Regenerate: ductile hyper build <file.hyper> -o <file.pipeline>\n"@ + header_line(g)
        + stages_text(g, g.stages.len() as int) + "  .proc(\"deliver\")\n"@ + "    .deliver(@"@
        + delivery(g) + ")\n"@
}

/// A set with up to two members.
fn tag_pair(a: &str, b: &str) -> (r: TextSet)
    ensures
        r.wf(),
        r@ == Set::empty().insert(a@).insert(b@),
{
    let mut t = TextSet::new();
    t.insert(a.to_owned());
    t.insert(b.to_owned());
    t
}

/// The tags of a stage that has none.
pub fn default_tags_for_role(role: HyperRole) -> (r: TextSet)
    ensures
        r.wf(),
        r@ == role_tags(role),
{
    match role {
        HyperRole::Judge => tag_pair("judge", "gate"),
        HyperRole::Source => tag_pair("read", "file"),
        HyperRole::Sink => tag_pair("write", "file"),
        HyperRole::Default => {
            let mut t = TextSet::new();
            t.insert("work".to_owned());
            t
        },
    }
}

/// A set without members is the empty set.
proof fn lemma_empty_set(s: Seq<Seq<char>>)
    ensures
        (s.len() == 0) == (s.to_set() == Set::<Seq<char>>::empty()),
{
    if s.len() == 0 {
        assert(s.to_set() =~= Set::<Seq<char>>::empty());
    } else {
        assert(s.to_set().contains(s[0])) by {
            assert(s.contains(s[0]));
        }
    }
}

/// The tags of a stage, or those of its role.
pub fn stage_tags(s: &HyperStage) -> (r: TextSet)
    requires
        s.tags.wf(),
    ensures
        r.wf(),
        r@ == tags_of(s@),
{
    proof {
        lemma_empty_set(s.tags.seq());
    }
    if s.tags.is_empty() {
        default_tags_for_role(s.role)
    } else {
        s.tags.duplicate()
    }
}

/// The names, each behind `mark`.
fn marked(names: &Vec<String>, mark: &str) -> (r: Vec<String>)
    ensures
        text::views(r@) == text::views(names@).map_values(|n: Seq<char>| mark@ + n),
{
    let ghost all = text::views(names@).map_values(|n: Seq<char>| mark@ + n);
    let mut out: Vec<String> = Vec::new();
    let mut i: usize = 0;
    assert(text::views(out@) =~= all.take(0));
    while i < names.len()
        invariant
            i <= names@.len(),
            all == text::views(names@).map_values(|n: Seq<char>| mark@ + n),
            text::views(out@) == all.take(i as int),
        decreases names@.len() - i,
    {
        let mut s = mark.to_owned();
        s.append(names[i].as_str());
        assert(s@ == all[i as int]);
        let ghost before = out@;
        out.push(s);
        assert(text::views(out@) =~= text::views(before).push(all[i as int]));
        assert(all.take(i + 1) =~= all.take(i as int).push(all[i as int]));
        i += 1;
    }
    assert(all.take(i as int) =~= all);
    out
}

/// The first input as a reference, or `other` where there is none.
fn ref_or(after: &Vec<String>, other: &str) -> (r: String)
    ensures
        r@ == first_ref(text::views(after@), other@),
{
    if after.len() > 0 {
        let mut s = "@".to_owned();
        s.append(after[0].as_str());
        s
    } else {
        other.to_owned()
    }
}

/// A body that writes the first input.
fn write_body(s: &HyperStage, after: &Vec<String>) -> (r: String)
    ensures
        r@ == "write(to=\"/tmp/ductile_hyper_"@ + s.name@ + ".txt\", content="@ + first_ref(
            text::views(after@),
            "\"ok\""@,
        ) + ")"@,
{
    let mut b = "write(to=\"/tmp/ductile_hyper_".to_owned();
    b.append(s.name.as_str());
    b.append(".txt\", content=");
    b.append(ref_or(after, "\"ok\"").as_str());
    b.append(")");
    b
}

/// The main body of a stage.
pub fn primary_body(s: &HyperStage, after: &Vec<String>, tags: &TextSet) -> (r: String)
    requires
        tags.wf(),
    ensures
        r@ == main_body(s@, text::views(after@), tags@),
{
    if s.role == HyperRole::Judge || tags.contains("judge") || tags.contains("gate") {
        let refs = marked(after, "@");
        assert(text::views(refs@) =~= as_refs(text::views(after@)));
        let mut b = "run(\"printf '%s\\n' '##DSL_RESULT' 'score=100' 'deps=".to_owned();
        b.append(text::join(refs.as_slice(), " ").as_str());
        b.append("' '##DSL_END'\")");
        b
    } else if tags.contains("llm") || tags.contains("extract") {
        let mut b = "llm(prompt=".to_owned();
        b.append(ref_or(after, "\"{topic}\"").as_str());
        b.append(", system=\"extract\", schema=\"title,url,topic\")");
        b
    } else if tags.contains("write") {
        write_body(s, after)
    } else if tags.contains("read") || tags.contains("file") || tags.contains("io")
        || after.len() == 0 {
        "read(from=\"{topic}\")".to_owned()
    } else {
        write_body(s, after)
    }
}

/// The body of a fallback of a stage.
fn fallback_body(s: &HyperStage, after: &Vec<String>, tags: &TextSet) -> (r: String)
    requires
        tags.wf(),
    ensures
        r@ == spare_body(s@, text::views(after@), tags@),
{
    if (tags.contains("write") || tags.contains("file")) && after.len() == 0 {
        "write(to=\"/tmp/ductile_hyper_fallback.txt\", content=\"fallback\")".to_owned()
    } else if after.len() > 0 {
        let mut b = "write(to=\"/tmp/ductile_hyper_".to_owned();
        b.append(s.name.as_str());
        b.append("_fb.txt\", content=@");
        b.append(after[0].as_str());
        b.append(")");
        b
    } else {
        "read(from=\"{topic}\")".to_owned()
    }
}

/// The tags as written in a pipeline.
fn tags_part(tags: &TextSet) -> (r: String)
    requires
        tags.wf(),
    ensures
        r@ == tags_text(tags@),
{
    proof {
        order::lemma_in_order(tags.seq());
    }
    if tags.is_empty() {
        let s = String::new();
        assert(s@ =~= Seq::<char>::empty());
        s
    } else {
        let names = tags.to_vec();
        let hashed = marked(&names, "#");
        let mut s = ".tags(".to_owned();
        s.append(text::join(hashed.as_slice(), ", ").as_str());
        s.append(")");
        s
    }
}

/// The lines of the ways to do the work of a stage.
pub fn stub_bodies(s: &HyperStage, after: &Vec<String>, total: usize) -> (r: String)
    requires
        s.tags.wf(),
        total >= 1,
    ensures
        r@ == way_lines(s@, text::views(after@), total as int, total as int),
{
    let tags = stage_tags(s);
    let shown = tags_part(&tags);
    let ghost av = text::views(after@);
    let mut out = String::new();
    let mut i: usize = 0;
    assert(out@ =~= Seq::<char>::empty());
    while i < total
        invariant
            i <= total,
            s.tags.wf(),
            tags.wf(),
            tags@ == tags_of(s@),
            shown@ == tags_text(tags@),
            av == text::views(after@),
            out@ == way_lines(s@, av, i as int, total as int),
        decreases total - i,
    {
        let mut line = "      ".to_owned();
        if i == 0 {
            line.append("primary");
        } else if i == 1 {
            line.append("fallback");
        } else {
            let mut name = "alt".to_owned();
            name.append(text::decimal(i as u128).as_str());
            line.append(name.as_str());
        }
        line.append(" -> ");
        if i == 0 {
            line.append(primary_body(s, after, &tags).as_str());
        } else {
            line.append(fallback_body(s, after, &tags).as_str());
        }
        line.append(shown.as_str());
        line.append(
            if i > 0 {
                ".stub"
            } else {
                ""
            },
        );
        line.append(
            if total - i > 1 {
                ","
            } else {
                ""
            },
        );
        line.append("\n");
        assert(line@ == way_line(s@, av, i as int, total as int));
        out.append(line.as_str());
        i += 1;
    }
    out
}

/// A text with its backslashes and quotes escaped.
pub fn escape_quotes(s: &str) -> (r: String)
    ensures
        r@ == escaped(s@),
{
    proof {
        reveal_strlit("\\");
        reveal_strlit("\"");
    }
    let a = text::replace(s, "\\", "\\\\");
    text::replace(a.as_str(), "\"", "\\\"")
}

/// The lines of a stage.
fn emit_stage(spec: &HyperSpec, s: &HyperStage) -> (r: String)
    requires
        s.tags.wf(),
    ensures
        r@ == stage_text(spec@, s@),
{
    let after = stage_inputs(&spec.stages, s);
    let need = stage_need(&spec.require, s);
    let mut out = "  .proc(\"".to_owned();
    out.append(s.name.as_str());
    out.append("\")\n");
    out.append("    .desc(\"hyper stage ");
    out.append(s.name.as_str());
    out.append(" role=");
    out.append(s.role.as_str());
    out.append("\")\n");
    let ghost head = out@;
    match &s.gated_by {
        Some(g) => {
            let mut w = "    .when(@".to_owned();
            w.append(g.as_str());
            w.append(".score >= 80)\n");
            out.append(w.as_str());
        },
        None => {
            assert(head + Seq::<char>::empty() =~= head);
        },
    }
    assert(out@ == head + when_line(s@));
    out.append("    .plan(\n");
    out.append(stub_bodies(s, &after, need).as_str());
    out.append("    )\n");
    out
}

/// The skeleton pipeline of a hypergraph.
pub fn emit_pipeline(spec: &HyperSpec) -> (r: String)
    requires
        spec.wf(),
    ensures
        r@ == pipeline_text(spec@),
{
    let ghost g = spec@;
    let mut out = "// Generated by ductile hyper — topology from Hyper(\"".to_owned();
    out.append(spec.name.as_str());
    out.append("\"); fill real impls as needed.\n");
    out.append("// Regenerate: ductile hyper build <file.hyper> -o <file.pipeline>\n");
    let mut head = "Pipeline(\"".to_owned();
    head.append(spec.name.as_str());
    if spec.goal.as_str().is_empty() {
        head.append("\")\n");
    } else {
        head.append("\", \"");
        head.append(escape_quotes(spec.goal.as_str()).as_str());
        head.append("\")\n");
    }
    assert(head@ == header_line(g));
    out.append(head.as_str());
    let ghost start = out@;
    let mut i: usize = 0;
    assert(start + stages_text(g, 0) =~= start);
    while i < spec.stages.len()
        invariant
            i <= spec.stages@.len(),
            spec.wf(),
            g == spec@,
            out@ == start + stages_text(g, i as int),
        decreases spec.stages@.len() - i,
    {
        assert(spec.stages@[i as int].tags.wf());
        let t = emit_stage(spec, &spec.stages[i]);
        assert(g.stages[i as int] == spec.stages@[i as int]@);
        out.append(t.as_str());
        assert(start + stages_text(g, i as int) + t@ =~= start + stages_text(g, i + 1));
        i += 1;
    }
    out.append("  .proc(\"deliver\")\n");
    out.append("    .deliver(@");
    out.append(resolve_deliver(spec).as_str());
    out.append(")\n");
    out
}

} // verus!
