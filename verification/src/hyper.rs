//! Hypergraphs: the shape of a pipeline as typed edges over named vertices.
//!
//! An edge is a chain of vertices, a gate (a judge between producers and
//! consumers), a bundle that must occur together, or a slot with alternatives.
//! Every hypergraph has a projection to stages that a pipeline can run.

use crate::order::TextSet;
use crate::text;
use vstd::prelude::*;

verus! {

/// What a hypergraph asks of every pipeline built from it.
#[derive(Debug, Clone, Copy, PartialEq, Eq, Structural)]
pub struct HyperRequire {
    pub judge: bool,
    pub min_impls: usize,
}

/// What a vertex is for.
#[derive(Debug, Clone, Copy, PartialEq, Eq, Structural)]
pub enum HyperRole {
    Default,
    Judge,
    Source,
    Sink,
}

/// The name of a role.
pub open spec fn role_name(r: HyperRole) -> Seq<char> {
    match r {
        HyperRole::Default => "default"@,
        HyperRole::Judge => "judge"@,
        HyperRole::Source => "source"@,
        HyperRole::Sink => "sink"@,
    }
}

/// The role that a word stands for, in whatever case it is written.
pub open spec fn role_word(s: Seq<char>) -> Option<HyperRole> {
    let w = text::lower_ascii_spec(text::trimmed(s));
    if w.len() == 0 || w == "default"@ || w == "worker"@ {
        Some(HyperRole::Default)
    } else if w == "judge"@ || w == "gate"@ {
        Some(HyperRole::Judge)
    } else if w == "source"@ || w == "ingest"@ {
        Some(HyperRole::Source)
    } else if w == "sink"@ || w == "deliver"@ || w == "out"@ {
        Some(HyperRole::Sink)
    } else {
        None
    }
}

/// `role_word`, with what is said of a word that stands for none.
pub open spec fn role_result(s: Seq<char>) -> Result<HyperRole, Seq<char>> {
    match role_word(s) {
        Some(r) => Ok(r),
        None => Err(
            "unknown role "@ + text::debug_quoted(text::lower_ascii_spec(text::trimmed(s))),
        ),
    }
}

/// A result with its message as a text.
pub open spec fn res_view<T>(r: Result<T, String>) -> Result<T, Seq<char>> {
    match r {
        Ok(x) => Ok(x),
        Err(e) => Err(e@),
    }
}

impl HyperRole {
    /// The role that a word stands for.
    pub fn parse(s: &str) -> (r: Result<HyperRole, String>)
        ensures
            res_view(r) == role_result(s@),
    {
        let t = text::trim(s);
        let w = text::ascii_lowercase(t.as_str());
        let x = w.as_str();
        if x.is_empty() || text::same(x, "default") || text::same(x, "worker") {
            Ok(HyperRole::Default)
        } else if text::same(x, "judge") || text::same(x, "gate") {
            Ok(HyperRole::Judge)
        } else if text::same(x, "source") || text::same(x, "ingest") {
            Ok(HyperRole::Source)
        } else if text::same(x, "sink") || text::same(x, "deliver") || text::same(x, "out") {
            Ok(HyperRole::Sink)
        } else {
            let mut m = "unknown role ".to_owned();
            m.append(text::debug_quote(x).as_str());
            Err(m)
        }
    }

    /// The name of the role.
    pub fn as_str(&self) -> (r: &'static str)
        ensures
            r@ == role_name(*self),
    {
        match self {
            HyperRole::Default => "default",
            HyperRole::Judge => "judge",
            HyperRole::Source => "source",
            HyperRole::Sink => "sink",
        }
    }
}

/// What an edge means.
#[derive(Debug, Clone, Copy, PartialEq, Eq, Structural)]
pub enum HedgeKind {
    Chain,
    Bundle,
    Gate,
    Xor,
}

/// The name of a kind.
pub open spec fn kind_name(k: HedgeKind) -> Seq<char> {
    match k {
        HedgeKind::Chain => "chain"@,
        HedgeKind::Bundle => "bundle"@,
        HedgeKind::Gate => "gate"@,
        HedgeKind::Xor => "xor"@,
    }
}

/// The kind that a word stands for, in whatever case it is written.
pub open spec fn kind_word(s: Seq<char>) -> Option<HedgeKind> {
    let w = text::lower_ascii_spec(text::trimmed(s));
    if w == "chain"@ || w == "path"@ || w == "flow"@ {
        Some(HedgeKind::Chain)
    } else if w == "bundle"@ || w == "and"@ || w == "co"@ {
        Some(HedgeKind::Bundle)
    } else if w == "gate"@ || w == "judge"@ {
        Some(HedgeKind::Gate)
    } else if w == "xor"@ || w == "alt"@ || w == "or"@ {
        Some(HedgeKind::Xor)
    } else {
        None
    }
}

/// `kind_word`, with what is said of a word that stands for none.
pub open spec fn kind_result(s: Seq<char>) -> Result<HedgeKind, Seq<char>> {
    match kind_word(s) {
        Some(k) => Ok(k),
        None => Err(
            "unknown hedge kind "@ + text::debug_quoted(text::lower_ascii_spec(text::trimmed(s)))
                + " (chain|bundle|gate|xor)"@,
        ),
    }
}

impl HedgeKind {
    /// The kind that a word stands for.
    pub fn parse(s: &str) -> (r: Result<HedgeKind, String>)
        ensures
            res_view(r) == kind_result(s@),
    {
        let t = text::trim(s);
        let w = text::ascii_lowercase(t.as_str());
        let x = w.as_str();
        if text::same(x, "chain") || text::same(x, "path") || text::same(x, "flow") {
            Ok(HedgeKind::Chain)
        } else if text::same(x, "bundle") || text::same(x, "and") || text::same(x, "co") {
            Ok(HedgeKind::Bundle)
        } else if text::same(x, "gate") || text::same(x, "judge") {
            Ok(HedgeKind::Gate)
        } else if text::same(x, "xor") || text::same(x, "alt") || text::same(x, "or") {
            Ok(HedgeKind::Xor)
        } else {
            let mut m = "unknown hedge kind ".to_owned();
            m.append(text::debug_quote(x).as_str());
            m.append(" (chain|bundle|gate|xor)");
            Err(m)
        }
    }

    /// The name of the kind.
    pub fn as_str(&self) -> (r: &'static str)
        ensures
            r@ == kind_name(*self),
    {
        match self {
            HedgeKind::Chain => "chain",
            HedgeKind::Bundle => "bundle",
            HedgeKind::Gate => "gate",
            HedgeKind::Xor => "xor",
        }
    }
}

/// Every role and every kind is read back from its name.
pub proof fn law_names_read_back(r: HyperRole, k: HedgeKind)
    ensures
        role_word(role_name(r)) == Some(r),
        kind_word(kind_name(k)) == Some(k),
{
    lemma_plain_role(r);
    lemma_plain_kind(k);
    reveal_strlit("default");
    reveal_strlit("worker");
    reveal_strlit("judge");
    reveal_strlit("gate");
    reveal_strlit("source");
    reveal_strlit("ingest");
    reveal_strlit("sink");
    reveal_strlit("deliver");
    reveal_strlit("out");
    reveal_strlit("chain");
    reveal_strlit("path");
    reveal_strlit("flow");
    reveal_strlit("bundle");
    reveal_strlit("and");
    reveal_strlit("co");
    reveal_strlit("xor");
    assert("judge"@[0] == 'j' && "gate"@[0] == 'g' && "source"@[0] == 's' && "sink"@[1] == 'i'
        && "source"@[1] == 'o' && "default"@[0] == 'd' && "worker"@[0] == 'w' && "ingest"@[0]
        == 'i' && "deliver"@[2] == 'l' && "default"@[2] == 'f' && "out"@[0] == 'o');
    assert("chain"@[0] == 'c' && "path"@[0] == 'p' && "flow"@[0] == 'f' && "bundle"@[0] == 'b'
        && "and"@[0] == 'a' && "co"@.len() == 2 && "chain"@.len() == 5 && "xor"@[0] == 'x');
}

/// A text of small letters is trimmed and in lower case already.
pub open spec fn small_letters(s: Seq<char>) -> bool {
    forall|i: int| 0 <= i < s.len() ==> 'a' as u32 <= (#[trigger] s[i]) as u32 <= 'z' as u32
}

proof fn lemma_small_letters(s: Seq<char>)
    requires
        small_letters(s),
    ensures
        text::lower_ascii_spec(text::trimmed(s)) == s,
{
    if s.len() > 0 {
        assert(!text::is_space(s[0]));
        assert(!text::is_space(s[s.len() - 1]));
    }
    assert(text::trimmed(s) == s);
    assert(text::lower_ascii_spec(s) =~= s);
}

proof fn lemma_plain_role(r: HyperRole)
    ensures
        text::lower_ascii_spec(text::trimmed(role_name(r))) == role_name(r),
        role_name(r).len() > 0,
{
    reveal_strlit("default");
    reveal_strlit("judge");
    reveal_strlit("source");
    reveal_strlit("sink");
    lemma_small_letters(role_name(r));
}

proof fn lemma_plain_kind(k: HedgeKind)
    ensures
        text::lower_ascii_spec(text::trimmed(kind_name(k))) == kind_name(k),
{
    reveal_strlit("chain");
    reveal_strlit("bundle");
    reveal_strlit("gate");
    reveal_strlit("xor");
    lemma_small_letters(kind_name(k));
}

/// A vertex.
#[derive(Debug)]
pub struct Vertex {
    pub name: String,
    pub role: HyperRole,
    pub tags: TextSet,
}

/// An edge. A gate has a judge, producers and consumers, and lists them all as
/// its members; any other edge has members alone.
#[derive(Debug)]
pub struct Hyperedge {
    pub name: String,
    pub kind: HedgeKind,
    pub members: Vec<String>,
    pub judge: Option<String>,
    pub producers: Vec<String>,
    pub consumers: Vec<String>,
}

/// A stage of the projection.
#[derive(Debug)]
pub struct HyperStage {
    pub name: String,
    pub role: HyperRole,
    pub tags: TextSet,
    pub after: Vec<String>,
    pub gated_by: Option<String>,
    pub min_impls: usize,
}

/// A hypergraph with its projection.
#[derive(Debug)]
pub struct HyperSpec {
    pub name: String,
    pub goal: String,
    pub require: HyperRequire,
    pub vertices: Vec<Vertex>,
    pub hedges: Vec<Hyperedge>,
    pub stages: Vec<HyperStage>,
    pub deliver: Option<String>,
}

/// What is wrong with a text, and in which line; line 0 is the text as a whole.
#[derive(Debug)]
pub struct HyperError {
    pub line: usize,
    pub msg: String,
}

// ── Values ──

/// A vertex as values.
pub struct GVertex {
    pub name: Seq<char>,
    pub role: HyperRole,
    pub tags: Set<Seq<char>>,
}

/// An edge as values.
pub struct GHedge {
    pub name: Seq<char>,
    pub kind: HedgeKind,
    pub members: Seq<Seq<char>>,
    pub judge: Option<Seq<char>>,
    pub producers: Seq<Seq<char>>,
    pub consumers: Seq<Seq<char>>,
}

/// A stage as values.
pub struct GStage {
    pub name: Seq<char>,
    pub role: HyperRole,
    pub tags: Set<Seq<char>>,
    pub after: Seq<Seq<char>>,
    pub gated_by: Option<Seq<char>>,
    pub min_impls: nat,
}

/// A hypergraph as values.
pub struct GSpec {
    pub name: Seq<char>,
    pub goal: Seq<char>,
    pub require: HyperRequire,
    pub vertices: Seq<GVertex>,
    pub hedges: Seq<GHedge>,
    pub stages: Seq<GStage>,
    pub deliver: Option<Seq<char>>,
}

/// A complaint as values.
pub struct GError {
    pub line: int,
    pub msg: Seq<char>,
}

impl Vertex {
    pub open spec fn view(&self) -> GVertex {
        GVertex { name: self.name@, role: self.role, tags: self.tags@ }
    }
}

impl Hyperedge {
    pub open spec fn view(&self) -> GHedge {
        GHedge {
            name: self.name@,
            kind: self.kind,
            members: text::views(self.members@),
            judge: text::opt_view(self.judge),
            producers: text::views(self.producers@),
            consumers: text::views(self.consumers@),
        }
    }
}

impl HyperStage {
    pub open spec fn view(&self) -> GStage {
        GStage {
            name: self.name@,
            role: self.role,
            tags: self.tags@,
            after: text::views(self.after@),
            gated_by: text::opt_view(self.gated_by),
            min_impls: self.min_impls as nat,
        }
    }
}

impl HyperError {
    pub open spec fn view(&self) -> GError {
        GError { line: self.line as int, msg: self.msg@ }
    }

    /// The complaint as one line.
    pub fn text(&self) -> (r: String)
        ensures
            r@ == (if self.line > 0 {
                "hyper L"@ + text::dec(self.line as nat) + ": "@ + self.msg@
            } else {
                "hyper: "@ + self.msg@
            }),
    {
        if self.line > 0 {
            let mut s = "hyper L".to_owned();
            s.append(text::decimal(self.line as u128).as_str());
            s.append(": ");
            s.append(self.msg.as_str());
            s
        } else {
            let mut s = "hyper: ".to_owned();
            s.append(self.msg.as_str());
            s
        }
    }
}

/// The vertices as values.
pub open spec fn vertex_views(s: Seq<Vertex>) -> Seq<GVertex> {
    s.map_values(|v: Vertex| v@)
}

/// The edges as values.
pub open spec fn hedge_views(s: Seq<Hyperedge>) -> Seq<GHedge> {
    s.map_values(|h: Hyperedge| h@)
}

/// The stages as values.
pub open spec fn stage_views(s: Seq<HyperStage>) -> Seq<GStage> {
    s.map_values(|t: HyperStage| t@)
}

/// The tags of every vertex are in order.
pub open spec fn vertices_wf(s: Seq<Vertex>) -> bool {
    forall|i: int| 0 <= i < s.len() ==> (#[trigger] s[i]).tags.wf()
}

/// The tags of every stage are in order.
pub open spec fn stages_wf(s: Seq<HyperStage>) -> bool {
    forall|i: int| 0 <= i < s.len() ==> (#[trigger] s[i]).tags.wf()
}

impl HyperSpec {
    pub open spec fn view(&self) -> GSpec {
        GSpec {
            name: self.name@,
            goal: self.goal@,
            require: self.require,
            vertices: vertex_views(self.vertices@),
            hedges: hedge_views(self.hedges@),
            stages: stage_views(self.stages@),
            deliver: text::opt_view(self.deliver),
        }
    }

    /// All tags are in order.
    pub open spec fn wf(self) -> bool {
        vertices_wf(self.vertices@) && stages_wf(self.stages@)
    }
}

} // verus!
