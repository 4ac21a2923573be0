//! A hypergraph out of its text: line by line, then checked and projected as a
//! whole.

use crate::hyper;
use crate::hyper::{GError, GHedge, GSpec, GStage, GVertex, HedgeKind, HyperError, HyperRequire, HyperRole, HyperSpec, HyperStage, Hyperedge, Vertex};
use crate::hyper_args;
use crate::hyper_graph;
use crate::hyper_project;
use crate::text;
use vstd::prelude::*;

verus! {

/// What the lines so far have said, as values.
pub struct GDraft {
    pub name: Option<Seq<char>>,
    pub goal: Seq<char>,
    pub require: HyperRequire,
    pub vertices: Seq<GVertex>,
    pub hedges: Seq<GHedge>,
    pub stages: Seq<GStage>,
    pub deliver: Option<Seq<char>>,
}

/// What the lines so far have said.
struct Draft {
    name: Option<String>,
    goal: String,
    require: HyperRequire,
    vertices: Vec<Vertex>,
    hedges: Vec<Hyperedge>,
    stages: Vec<HyperStage>,
    deliver: Option<String>,
}

impl Draft {
    spec fn view(&self) -> GDraft {
        GDraft {
            name: text::opt_view(self.name),
            goal: self.goal@,
            require: self.require,
            vertices: hyper::vertex_views(self.vertices@),
            hedges: hyper::hedge_views(self.hedges@),
            stages: hyper::stage_views(self.stages@),
            deliver: text::opt_view(self.deliver),
        }
    }

    spec fn wf(self) -> bool {
        hyper::vertices_wf(self.vertices@) && hyper::stages_wf(self.stages@)
    }
}

/// What is known before the first line.
pub open spec fn blank_draft() -> GDraft {
    GDraft {
        name: None,
        goal: Seq::empty(),
        require: HyperRequire { judge: false, min_impls: 1 },
        vertices: Seq::empty(),
        hedges: Seq::empty(),
        stages: Seq::empty(),
        deliver: None,
    }
}

/// What stands behind the opening of a header line.
pub open spec fn header(line: Seq<char>) -> Option<Seq<char>> {
    match text::after_prefix(line, "HyperGraph("@) {
        Some(rest) => Some(rest),
        None => text::after_prefix(line, "Hyper("@),
    }
}

/// The draft with a stage: its vertex is new unless there is one of its name.
pub open spec fn with_stage(d: GDraft, s: GStage) -> GDraft {
    GDraft {
        vertices: if hyper_project::vertex_names(d.vertices).contains(s.name) {
            d.vertices
        } else {
            d.vertices.push(GVertex { name: s.name, role: s.role, tags: s.tags })
        },
        stages: d.stages.push(s),
        ..d
    }
}

/// The draft after a directive, or what is wrong with it.
pub open spec fn with_directive(d: GDraft, word: Seq<char>, args: Seq<char>) -> Result<
    GDraft,
    Seq<char>,
> {
    if word == "goal"@ {
        match hyper_args::first_quoted(args) {
            Some(g) => Ok(GDraft { goal: g, ..d }),
            None => Err(".goal(\"...\") needs a quoted string"@),
        }
    } else if word == "require"@ {
        match hyper_args::required(d.require, args) {
            Ok(require) => Ok(GDraft { require, ..d }),
            Err(m) => Err(m),
        }
    } else if word == "vertex"@ || word == "v"@ {
        match hyper_args::vertex_result(args) {
            Ok(v) => Ok(GDraft { vertices: d.vertices.push(v), ..d }),
            Err(m) => Err(m),
        }
    } else if word == "hedge"@ || word == "edge"@ || word == "hyperedge"@ {
        match hyper_args::hedge_result(args) {
            Ok(h) => Ok(GDraft { hedges: d.hedges.push(h), ..d }),
            Err(m) => Err(m),
        }
    } else if word == "stage"@ {
        match hyper_args::stage_result(args) {
            Ok(s) => Ok(with_stage(d, s)),
            Err(m) => Err(m),
        }
    } else if word == "deliver"@ {
        match hyper_args::deliver_result(args) {
            Ok(t) => Ok(GDraft { deliver: Some(t), ..d }),
            Err(m) => Err(m),
        }
    } else {
        Err("unknown directive ."@ + word)
    }
}

/// The draft after a line, or what is wrong with it.
pub open spec fn with_line(d: GDraft, raw: Seq<char>) -> Result<GDraft, Seq<char>> {
    let line = text::trimmed(hyper_args::uncommented(raw));
    if line.len() == 0 {
        Ok(d)
    } else {
        match header(line) {
            Some(rest) => match hyper_args::first_quoted(rest) {
                Some(n) => Ok(GDraft { name: Some(n), ..d }),
                None => Err("Hyper[Graph](\"name\") needs a quoted name"@),
            },
            None => if line[0] != '.' {
                Err(
                    "expected HyperGraph(...) or .directive, got "@ + text::debug_quoted(
                        text::cut_spec(line, 48),
                    ),
                )
            } else {
                match hyper_args::directive(line) {
                    Ok((word, args)) => with_directive(d, word, args),
                    Err(m) => Err(m),
                }
            },
        }
    }
}

/// The draft after the lines from the `i`-th on, or what is wrong with the
/// first bad one.
pub open spec fn with_lines(d: GDraft, lines: Seq<Seq<char>>, i: int) -> Result<GDraft, GError>
    decreases lines.len() - i,
{
    if i >= lines.len() {
        Ok(d)
    } else {
        match with_line(d, lines[i]) {
            Ok(e) => with_lines(e, lines, i + 1),
            Err(msg) => Err(GError { line: i + 1, msg }),
        }
    }
}

/// The edges of a draft: those that were written, or those of its stages.
pub open spec fn draft_hedges(d: GDraft) -> Seq<GHedge> {
    if d.hedges.len() == 0 && d.stages.len() > 0 {
        hyper_graph::edges_of_stages(d.stages)
    } else {
        d.hedges
    }
}

/// Whether a hypergraph has a judge.
pub open spec fn judged(vs: Seq<GVertex>, hs: Seq<GHedge>) -> bool {
    ||| exists|i: int| 0 <= i < vs.len() && (#[trigger] vs[i]).role == HyperRole::Judge
    ||| exists|i: int| 0 <= i < hs.len() && (#[trigger] hs[i]).kind == HedgeKind::Gate
}

/// The stages, each with at least `floor` ways to do its work.
pub open spec fn raised(ss: Seq<GStage>, floor: nat) -> Seq<GStage> {
    ss.map_values(
        |s: GStage|
            GStage {
                min_impls: if s.min_impls < floor {
                    floor
                } else {
                    s.min_impls
                },
                ..s
            },
    )
}

/// The least number of ways that a hypergraph asks of every stage.
pub open spec fn floor_of(r: HyperRequire) -> nat {
    if r.min_impls < 1 {
        1
    } else {
        r.min_impls as nat
    }
}

/// The hypergraph of a draft.
pub open spec fn finished(d: GDraft) -> Result<GSpec, GError> {
    match d.name {
        None => Err(
            hyper_project::whole("missing HyperGraph(\"name\") or Hyper(\"name\") header"@),
        ),
        Some(name) => if d.vertices.len() == 0 {
            Err(
                hyper_project::whole(
                    "hypergraph needs at least one .vertex(...) or .stage(...)"@,
                ),
            )
        } else {
            let hs = draft_hedges(d);
            match hyper_project::graph_fault(d.vertices, hs, d.deliver) {
                Some(m) => Err(hyper_project::whole(m)),
                None => match hyper_project::projection(d.vertices, hs) {
                    Err(e) => Err(e),
                    Ok(ss) => if ss.len() == 0 {
                        Err(hyper_project::whole("projection produced no stages"@))
                    } else if d.require.judge && !judged(d.vertices, hs) {
                        Err(
                            hyper_project::whole(
                                "require.judge=true but no judge vertex / gate hyperedge"@,
                            ),
                        )
                    } else {
                        let stages = raised(ss, floor_of(d.require));
                        match hyper_project::refs_fault(stages, d.deliver) {
                            Some(m) => Err(hyper_project::whole(m)),
                            None => Ok(
                                GSpec {
                                    name,
                                    goal: d.goal,
                                    require: d.require,
                                    vertices: d.vertices,
                                    hedges: hs,
                                    stages,
                                    deliver: d.deliver,
                                },
                            ),
                        }
                    },
                },
            }
        },
    }
}

/// The hypergraph of a text, or what is wrong with it.
pub open spec fn hypergraph(input: Seq<char>) -> Result<GSpec, GError> {
    match with_lines(blank_draft(), text::lines_spec(input), 0) {
        Ok(d) => finished(d),
        Err(e) => Err(e),
    }
}

/// A hypergraph, or a complaint, as values.
pub open spec fn spec_result(r: Result<HyperSpec, HyperError>) -> Result<GSpec, GError> {
    match r {
        Ok(s) => Ok(s@),
        Err(e) => Err(e@),
    }
}

/// A draft, or what is wrong, as values.
spec fn draft_result(r: Result<Draft, String>) -> Result<GDraft, Seq<char>> {
    match r {
        Ok(d) => Ok(d@),
        Err(m) => Err(m@),
    }
}

/// Whether a vertex of the name is there.
fn has_vertex(vertices: &Vec<Vertex>, x: &str) -> (r: bool)
    ensures
        r == hyper_project::vertex_names(hyper::vertex_views(vertices@)).contains(x@),
{
    let ghost names = hyper_project::vertex_names(hyper::vertex_views(vertices@));
    let mut i: usize = 0;
    while i < vertices.len()
        invariant
            i <= vertices@.len(),
            names == hyper_project::vertex_names(hyper::vertex_views(vertices@)),
            forall|k: int| 0 <= k < i ==> #[trigger] names[k] != x@,
        decreases vertices@.len() - i,
    {
        assert(names[i as int] == vertices@[i as int].name@);
        if text::same(vertices[i].name.as_str(), x) {
            return true;
        }
        i += 1;
    }
    false
}

/// The draft with a stage.
fn add_stage(d: Draft, s: HyperStage) -> (r: Draft)
    requires
        d.wf(),
        s.tags.wf(),
    ensures
        r.wf(),
        r@ == with_stage(d@, s@),
{
    let ghost dv = d@;
    let ghost sv = s@;
    let mut d = d;
    if !has_vertex(&d.vertices, s.name.as_str()) {
        let ghost before = d.vertices@;
        let v = Vertex { name: s.name.clone(), role: s.role, tags: s.tags.duplicate() };
        let ghost vv = v@;
        d.vertices.push(v);
        assert(hyper::vertex_views(d.vertices@) =~= hyper::vertex_views(before).push(vv));
    }
    let ghost before = d.stages@;
    d.stages.push(s);
    assert(hyper::stage_views(d.stages@) =~= hyper::stage_views(before).push(sv));
    d
}

/// The draft after a directive.
fn apply_directive(d: Draft, word: &str, args: &str) -> (r: Result<Draft, String>)
    requires
        d.wf(),
    ensures
        draft_result(r) == with_directive(d@, word@, args@),
        r matches Ok(e) ==> e.wf(),
{
    let mut d = d;
    if text::same(word, "goal") {
        match hyper_args::extract_first_quoted(args) {
            Some(g) => {
                d.goal = g;
                Ok(d)
            },
            None => Err(".goal(\"...\") needs a quoted string".to_owned()),
        }
    } else if text::same(word, "require") {
        match hyper_args::apply_require(d.require, args) {
            Ok(q) => {
                d.require = q;
                Ok(d)
            },
            Err(m) => Err(m),
        }
    } else if text::same(word, "vertex") || text::same(word, "v") {
        match hyper_args::parse_vertex(args) {
            Ok(v) => {
                let ghost vv = v@;
                let ghost before = d.vertices@;
                d.vertices.push(v);
                assert(hyper::vertex_views(d.vertices@) =~= hyper::vertex_views(before).push(vv));
                Ok(d)
            },
            Err(m) => Err(m),
        }
    } else if text::same(word, "hedge") || text::same(word, "edge") || text::same(
        word,
        "hyperedge",
    ) {
        match hyper_args::parse_hedge(args) {
            Ok(h) => {
                let ghost hv = h@;
                let ghost before = d.hedges@;
                d.hedges.push(h);
                assert(hyper::hedge_views(d.hedges@) =~= hyper::hedge_views(before).push(hv));
                Ok(d)
            },
            Err(m) => Err(m),
        }
    } else if text::same(word, "stage") {
        match hyper_args::parse_stage(args) {
            Ok(s) => Ok(add_stage(d, s)),
            Err(m) => Err(m),
        }
    } else if text::same(word, "deliver") {
        match hyper_args::parse_deliver_arg(args) {
            Ok(t) => {
                d.deliver = Some(t);
                Ok(d)
            },
            Err(m) => Err(m),
        }
    } else {
        let mut m = "unknown directive .".to_owned();
        m.append(word);
        Err(m)
    }
}

/// The draft after a line.
fn apply_line(d: Draft, raw: &str) -> (r: Result<Draft, String>)
    requires
        d.wf(),
    ensures
        draft_result(r) == with_line(d@, raw@),
        r matches Ok(e) ==> e.wf(),
{
    let mut d = d;
    let code = hyper_args::strip_comment(raw);
    let line = text::trim(code.as_str());
    if line.as_str().is_empty() {
        return Ok(d);
    }
    let rest = match text::strip_prefix(line.as_str(), "HyperGraph(") {
        Some(rest) => Some(rest),
        None => text::strip_prefix(line.as_str(), "Hyper("),
    };
    match rest {
        Some(rest) => {
            match hyper_args::extract_first_quoted(rest.as_str()) {
                Some(n) => {
                    d.name = Some(n);
                    Ok(d)
                },
                None => Err("Hyper[Graph](\"name\") needs a quoted name".to_owned()),
            }
        },
        None => {
            if !text::starts_with_char(line.as_str(), '.') {
                let mut m = "expected HyperGraph(...) or .directive, got ".to_owned();
                let c = text::cut(line.as_str(), 48);
                m.append(text::debug_quote(c.as_str()).as_str());
                return Err(m);
            }
            match hyper_args::split_directive(line.as_str()) {
                Ok((word, args)) => apply_directive(d, word.as_str(), args.as_str()),
                Err(m) => Err(m),
            }
        },
    }
}

/// Whether a hypergraph has a judge.
pub fn has_judge(vertices: &Vec<Vertex>, hedges: &Vec<Hyperedge>) -> (r: bool)
    ensures
        r == judged(hyper::vertex_views(vertices@), hyper::hedge_views(hedges@)),
{
    let ghost vs = hyper::vertex_views(vertices@);
    let ghost hs = hyper::hedge_views(hedges@);
    let mut i: usize = 0;
    while i < vertices.len()
        invariant
            i <= vertices@.len(),
            vs == hyper::vertex_views(vertices@),
            forall|k: int| 0 <= k < i ==> (#[trigger] vs[k]).role != HyperRole::Judge,
        decreases vertices@.len() - i,
    {
        assert(vs[i as int].role == vertices@[i as int].role);
        if vertices[i].role == HyperRole::Judge {
            return true;
        }
        i += 1;
    }
    let mut j: usize = 0;
    while j < hedges.len()
        invariant
            j <= hedges@.len(),
            hs == hyper::hedge_views(hedges@),
            forall|k: int| 0 <= k < j ==> (#[trigger] hs[k]).kind != HedgeKind::Gate,
        decreases hedges@.len() - j,
    {
        assert(hs[j as int].kind == hedges@[j as int].kind);
        if hedges[j].kind == HedgeKind::Gate {
            return true;
        }
        j += 1;
    }
    false
}

/// The stages, each with at least `floor` ways to do its work.
fn raise_floor(stages: Vec<HyperStage>, floor: usize) -> (r: Vec<HyperStage>)
    requires
        hyper::stages_wf(stages@),
    ensures
        hyper::stages_wf(r@),
        hyper::stage_views(r@) == raised(hyper::stage_views(stages@), floor as nat),
{
    let ghost ss = hyper::stage_views(stages@);
    let ghost all = raised(ss, floor as nat);
    let mut out: Vec<HyperStage> = Vec::new();
    let mut i: usize = 0;
    assert(hyper::stage_views(out@) =~= all.take(0));
    while i < stages.len()
        invariant
            i <= stages@.len(),
            ss == hyper::stage_views(stages@),
            all == raised(ss, floor as nat),
            hyper::stages_wf(stages@),
            hyper::stages_wf(out@),
            hyper::stage_views(out@) == all.take(i as int),
        decreases stages@.len() - i,
    {
        let s: &HyperStage = &stages[i];
        let t = HyperStage {
            name: s.name.clone(),
            role: s.role,
            tags: s.tags.duplicate(),
            after: text::copy_all(&s.after),
            gated_by: match &s.gated_by {
                Some(g) => Some(g.clone()),
                None => None,
            },
            min_impls: if s.min_impls < floor {
                floor
            } else {
                s.min_impls
            },
        };
        let ghost tv = t@;
        let ghost before = out@;
        assert(ss[i as int] == s@);
        assert(tv == all[i as int]);
        out.push(t);
        assert(hyper::stage_views(out@) =~= hyper::stage_views(before).push(tv));
        assert(all.take(i + 1) =~= all.take(i as int).push(tv));
        i += 1;
    }
    assert(all.take(i as int) =~= all);
    out
}

/// The hypergraph of a draft.
fn finish(d: Draft) -> (r: Result<HyperSpec, HyperError>)
    requires
        d.wf(),
    ensures
        spec_result(r) == finished(d@),
        r matches Ok(s) ==> s.wf(),
{
    let ghost dv = d@;
    let name = match d.name {
        Some(n) => n,
        None => {
            return Err(
                hyper_project::complaint(
                    "missing HyperGraph(\"name\") or Hyper(\"name\") header".to_owned(),
                ),
            );
        },
    };
    if d.vertices.len() == 0 {
        return Err(
            hyper_project::complaint(
                "hypergraph needs at least one .vertex(...) or .stage(...)".to_owned(),
            ),
        );
    }
    let hedges = if d.hedges.len() == 0 && d.stages.len() > 0 {
        hyper_graph::synthesize_hedges_from_stages(&d.stages)
    } else {
        d.hedges
    };
    match hyper_project::validate_hypergraph(&d.vertices, &hedges, &d.deliver) {
        Ok(_) => {},
        Err(e) => {
            return Err(e);
        },
    }
    let projected = match hyper_project::project_stages(&d.vertices, &hedges) {
        Ok(v) => v,
        Err(e) => {
            return Err(e);
        },
    };
    if projected.len() == 0 {
        return Err(hyper_project::complaint("projection produced no stages".to_owned()));
    }
    if d.require.judge && !has_judge(&d.vertices, &hedges) {
        return Err(
            hyper_project::complaint(
                "require.judge=true but no judge vertex / gate hyperedge".to_owned(),
            ),
        );
    }
    let floor: usize = if d.require.min_impls < 1 {
        1
    } else {
        d.require.min_impls
    };
    let stages = raise_floor(projected, floor);
    match hyper_project::validate_spec_refs(&stages, &d.deliver) {
        Ok(_) => {},
        Err(e) => {
            return Err(e);
        },
    }
    Ok(
        HyperSpec {
            name,
            goal: d.goal,
            require: d.require,
            vertices: d.vertices,
            hedges,
            stages,
            deliver: d.deliver,
        },
    )
}

/// The hypergraph of a text, with its projection.
pub fn parse_hyper(input: &str) -> (r: Result<HyperSpec, HyperError>)
    ensures
        spec_result(r) == hypergraph(input@),
        r matches Ok(s) ==> s.wf(),
{
    let lines = text::lines(input);
    let ghost lv = text::views(lines@);
    let mut d = Draft {
        name: None,
        goal: String::new(),
        require: HyperRequire { judge: false, min_impls: 1 },
        vertices: Vec::new(),
        hedges: Vec::new(),
        stages: Vec::new(),
        deliver: None,
    };
    proof {
        assert(d.goal@ =~= Seq::<char>::empty());
        assert(hyper::vertex_views(d.vertices@) =~= Seq::<GVertex>::empty());
        assert(hyper::hedge_views(d.hedges@) =~= Seq::<GHedge>::empty());
        assert(hyper::stage_views(d.stages@) =~= Seq::<GStage>::empty());
        assert(d@ == blank_draft());
    }
    let mut i: usize = 0;
    while i < lines.len()
        invariant
            i <= lines@.len(),
            lv == text::views(lines@),
            lv == text::lines_spec(input@),
            d.wf(),
            with_lines(blank_draft(), lv, 0) == with_lines(d@, lv, i as int),
        decreases lines@.len() - i,
    {
        match apply_line(d, lines[i].as_str()) {
            Ok(e) => {
                d = e;
            },
            Err(msg) => {
                return Err(HyperError { line: i + 1, msg });
            },
        }
        i += 1;
    }
    finish(d)
}

} // verus!
