//! Single nodes that can be used again: stages of hypergraphs and procs of
//! pipelines with the same role, operation and ports.

use crate::ast;
use crate::ast::{Impl, Proc};
use crate::body;
use crate::hyper;
use crate::hyper::{GStage, HyperRole, HyperStage};
use crate::hyper_check;
use crate::hyper_emit;
use crate::hyper_rank;
use crate::hyper_rank::{GRank, Rank};
use crate::hyper_sig;
use crate::hyper_similar;
use crate::hyper_similar::{GraphKind, Overlap};
use crate::json;
use crate::order;
use crate::order::TextSet;
use crate::text;
use vstd::prelude::*;

verus! {

/// What a node does and how it is connected; the tags do not count.
#[derive(Debug)]
pub struct NodeSig {
    pub role: &'static str,
    pub op: String,
    pub in_arity: usize,
    pub gated: bool,
    /// 2 where there is more than one way to do the work, else 1.
    pub impl_bucket: u8,
    pub tags: TextSet,
}

/// What a node does, as values.
pub struct GNode {
    pub role: Seq<char>,
    pub op: Seq<char>,
    pub in_arity: nat,
    pub gated: bool,
    pub impl_bucket: u8,
    pub tags: Set<Seq<char>>,
}

impl NodeSig {
    pub open spec fn view(&self) -> GNode {
        GNode {
            role: self.role@,
            op: self.op@,
            in_arity: self.in_arity as nat,
            gated: self.gated,
            impl_bucket: self.impl_bucket,
            tags: self.tags@,
        }
    }
}

/// The key of a node.
pub open spec fn node_key_of(n: GNode) -> Seq<char> {
    "role="@ + n.role + "|op="@ + n.op + "|in="@ + text::dec(n.in_arity) + "|gated="@ + (if n.gated {
        "1"@
    } else {
        "0"@
    }) + "|impls="@ + text::dec(n.impl_bucket as nat)
}

impl NodeSig {
    /// The key of a node: its role, operation, number of inputs, gate and
    /// number of ways.
    pub fn node_key(&self) -> (r: String)
        ensures
            r@ == node_key_of(self@),
    {
        let mut s = "role=".to_owned();
        s.append(self.role);
        s.append("|op=");
        s.append(self.op.as_str());
        s.append("|in=");
        s.append(text::decimal(self.in_arity as u128).as_str());
        s.append("|gated=");
        s.append(
            if self.gated {
                "1"
            } else {
                "0"
            },
        );
        s.append("|impls=");
        s.append(text::decimal(self.impl_bucket as u128).as_str());
        s
    }
}

// ── Operations ──

/// Whether a call may start behind the character.
pub open spec fn call_edge(c: char) -> bool {
    c == ' ' || c == '\t' || c == '\n' || c == '(' || c == ',' || c == '>' || c == '='
}

/// Whether `name` is called at place `i` of a body.
pub open spec fn called_at(body: Seq<char>, name: Seq<char>, i: int) -> bool {
    &&& 0 <= i
    &&& i + name.len() < body.len()
    &&& text::occurs_at(body, name, i)
    &&& i == 0 || call_edge(body[i - 1])
    &&& body[i + name.len()] == '('
}

/// Whether `name` is called in a body.
pub open spec fn called(body: Seq<char>, name: Seq<char>) -> bool {
    exists|i: int| called_at(body, name, i)
}

/// The operation of a body: the first of the known ones that it calls.
pub open spec fn body_operation(b: Seq<char>) -> Seq<char> {
    if called(b, "llm"@) {
        "llm"@
    } else if called(b, "read"@) {
        "read"@
    } else if called(b, "write"@) {
        "write"@
    } else if called(b, "run"@) {
        "run"@
    } else if called(b, "script"@) {
        "script"@
    } else if called(b, "search"@) {
        "search"@
    } else if called(b, "merge"@) {
        "merge"@
    } else if called(b, "spawn"@) {
        "spawn"@
    } else if called(b, "exists"@) {
        "exists"@
    } else if called(b, "mkdir"@) {
        "mkdir"@
    } else if called(b, "cp"@) {
        "cp"@
    } else if called(b, "ls"@) {
        "ls"@
    } else if called(b, "stat"@) {
        "stat"@
    } else {
        "unknown"@
    }
}

/// The operation of a node with these tags and this role.
pub open spec fn tagged_operation(tags: Set<Seq<char>>, role: HyperRole) -> Seq<char> {
    if tags.contains("llm"@) || tags.contains("extract"@) {
        "llm"@
    } else if tags.contains("write"@) {
        "write"@
    } else if tags.contains("read"@) || tags.contains("io"@) {
        "read"@
    } else if tags.contains("judge"@) || tags.contains("gate"@) || role == HyperRole::Judge {
        "run"@
    } else if tags.contains("search"@) {
        "search"@
    } else {
        match role {
            HyperRole::Source => "read"@,
            HyperRole::Sink => "write"@,
            HyperRole::Judge => "run"@,
            HyperRole::Default => "unknown"@,
        }
    }
}

/// Whether `name` is called in a body.
fn calls(b: &Vec<char>, name: &str) -> (r: bool)
    ensures
        r == called(b@, name@),
{
    let n = text::chars_of(name);
    let len: usize = b.len();
    let mut i: usize = 0;
    while i < len
        invariant
            i <= len,
            len == b@.len(),
            n@ == name@,
            forall|k: int| 0 <= k < i ==> !(#[trigger] called_at(b@, name@, k)),
        decreases len - i,
    {
        if len - i > n.len() {
            let mut same = true;
            let mut j: usize = 0;
            assert(b@.subrange(i as int, i + j) =~= name@.take(0));
            while j < n.len()
                invariant
                    j <= n@.len(),
                    len == b@.len(),
                    n@ == name@,
                    i + n@.len() < len,
                    same == (b@.subrange(i as int, i + j) == name@.take(j as int)),
                decreases n@.len() - j,
            {
                proof {
                    let x = b@.subrange(i as int, i + j);
                    let y = b@.subrange(i as int, i + j + 1);
                    let u = name@.take(j as int);
                    let v = name@.take(j + 1);
                    assert(y =~= x.push(b@[i + j]));
                    assert(v =~= u.push(name@[j as int]));
                    if y == v {
                        assert(y.last() == v.last());
                        assert(y.drop_last() =~= x);
                        assert(v.drop_last() =~= u);
                    }
                }
                if b[i + j] != n[j] {
                    same = false;
                }
                j += 1;
            }
            assert(name@.take(j as int) =~= name@);
            let edge = i == 0 || {
                let c = b[i - 1];
                c == ' ' || c == '\t' || c == '\n' || c == '(' || c == ',' || c == '>' || c == '='
            };
            if same && edge && b[i + n.len()] == '(' {
                assert(called_at(b@, name@, i as int));
                return true;
            }
        }
        assert(!called_at(b@, name@, i as int));
        i += 1;
    }
    assert forall|k: int| !called_at(b@, name@, k) by {
        if 0 <= k < len {
        }
    }
    false
}

/// The operation of a body: the first of the known ones that it calls.
pub fn op_from_body(b: &str) -> (r: String)
    ensures
        r@ == body_operation(b@),
{
    let v = text::chars_of(b);
    let w = if calls(&v, "llm") {
        "llm"
    } else if calls(&v, "read") {
        "read"
    } else if calls(&v, "write") {
        "write"
    } else if calls(&v, "run") {
        "run"
    } else if calls(&v, "script") {
        "script"
    } else if calls(&v, "search") {
        "search"
    } else if calls(&v, "merge") {
        "merge"
    } else if calls(&v, "spawn") {
        "spawn"
    } else if calls(&v, "exists") {
        "exists"
    } else if calls(&v, "mkdir") {
        "mkdir"
    } else if calls(&v, "cp") {
        "cp"
    } else if calls(&v, "ls") {
        "ls"
    } else if calls(&v, "stat") {
        "stat"
    } else {
        "unknown"
    };
    w.to_owned()
}

/// The operation of a node with these tags and this role.
pub fn op_from_tags_role(tags: &TextSet, role: HyperRole) -> (r: String)
    requires
        tags.wf(),
    ensures
        r@ == tagged_operation(tags@, role),
{
    let w = if tags.contains("llm") || tags.contains("extract") {
        "llm"
    } else if tags.contains("write") {
        "write"
    } else if tags.contains("read") || tags.contains("io") {
        "read"
    } else if tags.contains("judge") || tags.contains("gate") || role == HyperRole::Judge {
        "run"
    } else if tags.contains("search") {
        "search"
    } else {
        match role {
            HyperRole::Source => "read",
            HyperRole::Sink => "write",
            HyperRole::Judge => "run",
            HyperRole::Default => "unknown",
        }
    };
    w.to_owned()
}

// ── Nodes out of stages and procs ──

/// The node of a stage.
pub open spec fn stage_node(s: GStage) -> GNode {
    let tags = hyper_emit::tags_of(s);
    GNode {
        role: hyper::role_name(s.role),
        op: tagged_operation(tags, s.role),
        in_arity: s.after.to_set().len(),
        gated: s.gated_by is Some,
        impl_bucket: if s.min_impls >= 2 {
            2
        } else {
            1
        },
        tags,
    }
}

/// The node of a stage.
pub fn node_sig_from_stage(s: &HyperStage) -> (r: NodeSig)
    requires
        s.tags.wf(),
    ensures
        r@ == stage_node(s@),
        r.tags.wf(),
{
    let tags = hyper_emit::stage_tags(s);
    let op = op_from_tags_role(&tags, s.role);
    let mut inputs = TextSet::new();
    hyper_sig::insert_all(&mut inputs, &s.after);
    proof {
        assert(inputs@ =~= s@.after.to_set());
        order::lemma_ascending_distinct(inputs.seq());
        inputs.seq().unique_seq_to_set();
    }
    NodeSig {
        role: s.role.as_str(),
        op,
        in_arity: inputs.len(),
        gated: s.gated_by.is_some(),
        impl_bucket: if s.min_impls >= 2 {
            2
        } else {
            1
        },
        tags,
    }
}

/// The first enabled implementation from the `i`-th on.
pub open spec fn first_enabled(plan: Seq<Impl>, i: int) -> Option<int>
    decreases plan.len() - i,
{
    if i >= plan.len() {
        None
    } else if plan[i].enabled {
        Some(i)
    } else {
        first_enabled(plan, i + 1)
    }
}

/// Whether an implementation takes data from `x`.
pub open spec fn takes(i: Impl, x: Seq<char>) -> bool {
    i.enabled && (text::views(i.refs@).contains(x) || hyper_sig::asks(i, x))
}

/// What the enabled ones of the first `n` implementations take data from.
pub open spec fn taken_upto(plan: Seq<Impl>, n: int) -> Set<Seq<char>> {
    Set::new(|x: Seq<char>| exists|k: int| 0 <= k < n && #[trigger] takes(plan[k], x))
}

/// Whether an enabled implementation has a condition.
pub open spec fn has_condition(plan: Seq<Impl>) -> bool {
    exists|k: int| 0 <= k < plan.len() && (#[trigger] plan[k]).enabled && plan[k].when is Some
}

/// The operation of a proc: that of its first enabled body, or else that of its
/// tags.
pub open spec fn proc_operation(p: Proc) -> Seq<char> {
    let tags = ast::plan_tags(p.plan@);
    let other = tagged_operation(tags, hyper_sig::role_of_proc(p, tags));
    match first_enabled(p.plan@, 0) {
        Some(k) => {
            let o = body_operation(p.plan@[k].body_text@);
            if o == "unknown"@ {
                other
            } else {
                o
            }
        },
        None => other,
    }
}

/// The role of a proc: that of its tags, or else that of its operation.
pub open spec fn node_role(p: Proc, op: Seq<char>, arity: nat) -> HyperRole {
    let tags = ast::plan_tags(p.plan@);
    let role = hyper_sig::role_of_proc(p, tags);
    if role != HyperRole::Default {
        role
    } else if (op == "read"@ || op == "ls"@ || op == "stat"@ || op == "exists"@) && arity == 0 {
        HyperRole::Source
    } else if op == "write"@ {
        HyperRole::Sink
    } else if op == "run"@ && (tags.contains("judge"@) || tags.contains("gate"@)) {
        HyperRole::Judge
    } else {
        role
    }
}

/// The node of a proc.
pub open spec fn proc_node(p: Proc) -> GNode {
    let arity = taken_upto(p.plan@, p.plan@.len() as int).len();
    let op = proc_operation(p);
    GNode {
        role: hyper::role_name(node_role(p, op, arity)),
        op,
        in_arity: arity,
        gated: has_condition(p.plan@),
        impl_bucket: if hyper_check::enabled_count(p.plan@, p.plan@.len() as int) >= 2 {
            2
        } else {
            1
        },
        tags: ast::plan_tags(p.plan@),
    }
}

/// The first enabled implementation.
fn enabled_first(plan: &Vec<Impl>) -> (r: Option<usize>)
    ensures
        text::opt_int(r) == first_enabled(plan@, 0),
        r matches Some(k) ==> k < plan@.len(),
{
    let mut i: usize = 0;
    while i < plan.len()
        invariant
            i <= plan@.len(),
            first_enabled(plan@, 0) == first_enabled(plan@, i as int),
        decreases plan@.len() - i,
    {
        if plan[i].enabled {
            return Some(i);
        }
        i += 1;
    }
    None
}

/// What the enabled implementations take data from.
fn taken(plan: &Vec<Impl>) -> (r: TextSet)
    ensures
        r.wf(),
        r@ == taken_upto(plan@, plan@.len() as int),
{
    let mut out = TextSet::new();
    let mut k: usize = 0;
    assert(out@ =~= taken_upto(plan@, 0));
    while k < plan.len()
        invariant
            k <= plan@.len(),
            out.wf(),
            out@ == taken_upto(plan@, k as int),
        decreases plan@.len() - k,
    {
        let i: &Impl = &plan[k];
        let ghost before = out@;
        if i.enabled {
            hyper_sig::insert_all(&mut out, &i.refs);
            match &i.when {
                Some(w) => {
                    if !hyper_sig::is_verdict(w.as_str()) {
                        let refs = body::body_refs(w.as_str());
                        hyper_sig::insert_all(&mut out, &refs);
                    }
                },
                None => {},
            }
        }
        proof {
            assert forall|x: Seq<char>| out@.contains(x) <==> taken_upto(plan@, k + 1).contains(
                x,
            ) by {
                assert(out@.contains(x) <==> before.contains(x) || takes(plan@[k as int], x));
            }
            assert(out@ =~= taken_upto(plan@, k + 1));
        }
        k += 1;
    }
    out
}

/// Whether an enabled implementation has a condition.
fn conditional(plan: &Vec<Impl>) -> (r: bool)
    ensures
        r == has_condition(plan@),
{
    let mut k: usize = 0;
    while k < plan.len()
        invariant
            k <= plan@.len(),
            forall|j: int| 0 <= j < k ==> !((#[trigger] plan@[j]).enabled && plan@[j].when is Some),
        decreases plan@.len() - k,
    {
        if plan[k].enabled && plan[k].when.is_some() {
            assert(plan@[k as int].enabled && plan@[k as int].when is Some);
            return true;
        }
        k += 1;
    }
    false
}

/// The node of a proc.
pub fn node_sig_from_proc(p: &Proc) -> (r: NodeSig)
    ensures
        r@ == proc_node(*p),
        r.tags.wf(),
{
    let tags = ast::proc_tags(p);
    let guess = hyper_sig::infer_role(p, &tags);
    let from_body = match enabled_first(&p.plan) {
        Some(k) => op_from_body(p.plan[k].body_text.as_str()),
        None => "unknown".to_owned(),
    };
    let op = if text::same(from_body.as_str(), "unknown") {
        op_from_tags_role(&tags, guess)
    } else {
        from_body
    };
    assert(op@ == proc_operation(*p));
    let refs = taken(&p.plan);
    proof {
        order::lemma_ascending_distinct(refs.seq());
        refs.seq().unique_seq_to_set();
    }
    let in_arity = refs.len();
    let role = if guess != HyperRole::Default {
        guess
    } else if (text::same(op.as_str(), "read") || text::same(op.as_str(), "ls") || text::same(
        op.as_str(),
        "stat",
    ) || text::same(op.as_str(), "exists")) && in_arity == 0 {
        HyperRole::Source
    } else if text::same(op.as_str(), "write") {
        HyperRole::Sink
    } else if text::same(op.as_str(), "run") && (tags.contains("judge") || tags.contains("gate")) {
        HyperRole::Judge
    } else {
        guess
    };
    NodeSig {
        role: role.as_str(),
        op,
        in_arity,
        gated: conditional(&p.plan),
        impl_bucket: if hyper_check::count_enabled(&p.plan) >= 2 {
            2
        } else {
            1
        },
        tags,
    }
}

/// The start of the first enabled body.
pub open spec fn preview_of(plan: Seq<Impl>) -> Seq<char> {
    match first_enabled(plan, 0) {
        Some(k) => text::cut_spec(plan[k].body_text@, 80),
        None => Seq::empty(),
    }
}

/// The start of the first enabled body.
pub fn body_preview_proc(p: &Proc) -> (r: String)
    ensures
        r@ == preview_of(p.plan@),
{
    match enabled_first(&p.plan) {
        Some(k) => text::cut(p.plan[k].body_text.as_str(), 80),
        None => {
            let s = String::new();
            assert(s@ =~= Seq::<char>::empty());
            s
        },
    }
}

// ── Hits ──

/// How a node compares with a query.
#[derive(Debug)]
pub struct NodeHit {
    pub path: String,
    pub graph_name: String,
    pub node_name: String,
    /// `hyper-stage` or `pipeline-proc`.
    pub kind: &'static str,
    pub structure_match: bool,
    pub tag_jaccard: Overlap,
    pub node_key: String,
    pub note: String,
    pub body_preview: String,
}

/// How a node compares with a query, as values.
pub struct GNodeHit {
    pub path: Seq<char>,
    pub graph_name: Seq<char>,
    pub node_name: Seq<char>,
    pub kind: Seq<char>,
    pub structure_match: bool,
    pub key: u64,
    pub shown: Seq<char>,
    pub node_key: Seq<char>,
    pub note: Seq<char>,
    pub body_preview: Seq<char>,
}

impl NodeHit {
    pub open spec fn view(&self) -> GNodeHit {
        GNodeHit {
            path: self.path@,
            graph_name: self.graph_name@,
            node_name: self.node_name@,
            kind: self.kind@,
            structure_match: self.structure_match,
            key: self.tag_jaccard.key,
            shown: self.tag_jaccard.text@,
            node_key: self.node_key@,
            note: self.note@,
            body_preview: self.body_preview@,
        }
    }
}

/// The hits as values.
pub open spec fn node_hit_views(v: Seq<NodeHit>) -> Seq<GNodeHit> {
    v.map_values(|h: NodeHit| h@)
}

/// What to say of a node.
pub open spec fn node_note(q: GNode, c: GNode) -> Seq<char> {
    if node_key_of(q) == node_key_of(c) {
        "node isomorphic — reuse this proc/stage impl"@
    } else if q.role == c.role && q.op == c.op {
        "same role+op; arity/gate/impls differ — adapt ports"@
    } else if q.role == c.role {
        "same role only — weak hint"@
    } else {
        "not a node match"@
    }
}

/// How a node compares with a query. `overlap` says how far their tags overlap;
/// it does not count for the match.
pub fn score_node(
    query: &NodeSig,
    cand: &NodeSig,
    path: &str,
    graph: &str,
    node: &str,
    kind: &'static str,
    preview: &str,
    overlap: Overlap,
) -> (r: NodeHit)
    ensures
        r@ == (GNodeHit {
            path: path@,
            graph_name: graph@,
            node_name: node@,
            kind: kind@,
            structure_match: node_key_of(query@) == node_key_of(cand@),
            key: overlap.key,
            shown: overlap.text@,
            node_key: node_key_of(cand@),
            note: node_note(query@, cand@),
            body_preview: preview@,
        }),
{
    let qk = query.node_key();
    let ck = cand.node_key();
    let structure_match = text::same(qk.as_str(), ck.as_str());
    let same_role = text::same(query.role, cand.role);
    let note = if structure_match {
        "node isomorphic — reuse this proc/stage impl"
    } else if same_role && text::same(query.op.as_str(), cand.op.as_str()) {
        "same role+op; arity/gate/impls differ — adapt ports"
    } else if same_role {
        "same role only — weak hint"
    } else {
        "not a node match"
    };
    NodeHit {
        path: path.to_owned(),
        graph_name: graph.to_owned(),
        node_name: node.to_owned(),
        kind,
        structure_match,
        tag_jaccard: overlap,
        node_key: ck,
        note: note.to_owned(),
        body_preview: preview.to_owned(),
    }
}

/// What a node has to be like to be listed.
#[derive(Debug)]
pub struct NodeQuery {
    pub role: Option<String>,
    pub op: Option<String>,
    pub in_arity: Option<usize>,
    pub gated: Option<bool>,
}

/// Whether a node is as asked.
pub open spec fn fits(q: NodeQuery, n: GNode) -> bool {
    &&& q.role matches Some(r) ==> n.role == r@
    &&& q.op matches Some(o) ==> n.op == o@
    &&& q.in_arity matches Some(a) ==> n.in_arity == a
    &&& q.gated matches Some(g) ==> n.gated == g
}

/// Whether anything is asked.
pub open spec fn asks_anything(q: NodeQuery) -> bool {
    q.role is Some || q.op is Some || q.in_arity is Some || q.gated is Some
}

/// A quoted text that may be missing, as in listings of values.
pub open spec fn debug_opt_text(o: Option<String>) -> Seq<char> {
    match o {
        Some(s) => "Some("@ + text::debug_quoted(s@) + ")"@,
        None => "None"@,
    }
}

/// What is asked, as a label.
pub open spec fn query_label(q: NodeQuery) -> Seq<char> {
    "NodeQuery { role: "@ + debug_opt_text(q.role) + ", op: "@ + debug_opt_text(q.op)
        + ", in_arity: "@ + (match q.in_arity {
        Some(n) => "Some("@ + text::dec(n as nat) + ")"@,
        None => "None"@,
    }) + ", gated: "@ + (match q.gated {
        Some(b) => "Some("@ + hyper_similar::bool_text(b) + ")"@,
        None => "None"@,
    }) + " }"@
}

/// A quoted text that may be missing.
fn opt_label(o: &Option<String>) -> (r: String)
    ensures
        r@ == debug_opt_text(*o),
{
    match o {
        Some(s) => {
            let mut t = "Some(".to_owned();
            t.append(text::debug_quote(s.as_str()).as_str());
            t.append(")");
            t
        },
        None => "None".to_owned(),
    }
}

impl NodeQuery {
    /// Whether a node is as asked.
    pub fn matches_filter(&self, sig: &NodeSig) -> (r: bool)
        ensures
            r == fits(*self, sig@),
    {
        match &self.role {
            Some(x) => {
                if !text::same(sig.role, x.as_str()) {
                    return false;
                }
            },
            None => {},
        }
        match &self.op {
            Some(x) => {
                if !text::same(sig.op.as_str(), x.as_str()) {
                    return false;
                }
            },
            None => {},
        }
        match self.in_arity {
            Some(a) => {
                if sig.in_arity != a {
                    return false;
                }
            },
            None => {},
        }
        match self.gated {
            Some(g) => {
                if sig.gated != g {
                    return false;
                }
            },
            None => {},
        }
        true
    }

    /// Whether anything is asked.
    pub fn is_set(&self) -> (r: bool)
        ensures
            r == asks_anything(*self),
    {
        self.role.is_some() || self.op.is_some() || self.in_arity.is_some() || self.gated.is_some()
    }

    /// What is asked, as a label.
    pub fn label(&self) -> (r: String)
        ensures
            r@ == query_label(*self),
    {
        let mut s = "NodeQuery { role: ".to_owned();
        s.append(opt_label(&self.role).as_str());
        s.append(", op: ");
        s.append(opt_label(&self.op).as_str());
        s.append(", in_arity: ");
        let arity = match self.in_arity {
            Some(n) => {
                let mut t = "Some(".to_owned();
                t.append(text::decimal(n as u128).as_str());
                t.append(")");
                t
            },
            None => "None".to_owned(),
        };
        s.append(arity.as_str());
        s.append(", gated: ");
        let gated = match self.gated {
            Some(b) => {
                let mut t = "Some(".to_owned();
                t.append(
                    if b {
                        "true"
                    } else {
                        "false"
                    },
                );
                t.append(")");
                t
            },
            None => "None".to_owned(),
        };
        s.append(gated.as_str());
        s.append(" }");
        s
    }
}

/// A hit for a query that listed what it wants.
pub open spec fn filtered_hit(n: GNode, h: GNodeHit) -> GNodeHit {
    GNodeHit {
        node_key: node_key_of(n),
        structure_match: true,
        note: "matched node query filter"@,
        ..h
    }
}

/// A hit for a query that listed what it wants.
pub fn filter_hit(sig: &NodeSig, hit: NodeHit) -> (r: NodeHit)
    ensures
        r@ == filtered_hit(sig@, hit@),
{
    let mut h = hit;
    h.node_key = sig.node_key();
    h.structure_match = true;
    h.note = "matched node query filter".to_owned();
    h
}

/// What decides on the place of a hit; hits for a listed query are ordered by
/// path and node alone.
pub open spec fn node_rank(h: GNodeHit, by_name: bool) -> GRank {
    GRank {
        top: by_name || h.structure_match,
        key: if by_name {
            0
        } else {
            h.key
        },
        path: h.path,
        node: h.node_name,
    }
}

/// The ranks of the hits.
pub open spec fn node_ranks(hs: Seq<GNodeHit>, by_name: bool) -> Seq<GRank> {
    hs.map_values(|h: GNodeHit| node_rank(h, by_name))
}

/// The hits in the order in which they are shown, by their places.
pub fn rank_nodes(hits: &Vec<NodeHit>, by_name: bool) -> (r: Vec<usize>)
    ensures
        r@ == hyper_rank::ranking(
            node_ranks(node_hit_views(hits@), by_name),
            hits@.len() as int,
        ),
        forall|i: int| 0 <= i < r@.len() ==> #[trigger] r@[i] < hits@.len(),
{
    let ghost all = node_ranks(node_hit_views(hits@), by_name);
    let mut ranks: Vec<Rank> = Vec::new();
    let mut i: usize = 0;
    assert(hyper_rank::rank_views(ranks@) =~= all.take(0));
    while i < hits.len()
        invariant
            i <= hits@.len(),
            all == node_ranks(node_hit_views(hits@), by_name),
            hyper_rank::rank_views(ranks@) == all.take(i as int),
        decreases hits@.len() - i,
    {
        let h: &NodeHit = &hits[i];
        let k = Rank {
            top: by_name || h.structure_match,
            key: if by_name {
                0
            } else {
                h.tag_jaccard.key
            },
            path: h.path.clone(),
            node: h.node_name.clone(),
        };
        assert(k@ == all[i as int]);
        let ghost before = ranks@;
        ranks.push(k);
        assert(hyper_rank::rank_views(ranks@) =~= hyper_rank::rank_views(before).push(
            all[i as int],
        ));
        assert(all.take(i + 1) =~= all.take(i as int).push(all[i as int]));
        i += 1;
    }
    assert(all.take(i as int) =~= all);
    hyper_rank::rank(&ranks)
}

/// Whether a hit is the node that was asked about.
pub open spec fn is_self(h: GNodeHit, path: Seq<char>, node: Seq<char>) -> bool {
    hyper_similar::slashed(h.path) == hyper_similar::slashed(path) && h.node_name == node
}

/// Whether a hit is the node that was asked about.
pub fn is_same_node(h: &NodeHit, path: &str, node: &str) -> (r: bool)
    ensures
        r == is_self(h@, path@, node@),
{
    text::same(
        hyper_similar::with_slashes(h.path.as_str()).as_str(),
        hyper_similar::with_slashes(path).as_str(),
    ) && text::same(h.node_name.as_str(), node)
}

// ── Report ──

/// How many hits a report shows.
pub const MAX_HITS: usize = 40;

/// Whether a hit belongs into a report of this mode.
pub open spec fn kept(h: GNodeHit, mode: Seq<char>) -> bool {
    h.structure_match || "same role+op"@.is_prefix_of(h.note) || mode == "filter"@
}

/// What to do with a hit.
pub open spec fn node_action(h: GNodeHit, mode: Seq<char>) -> Seq<char> {
    if h.structure_match && mode != "filter"@ {
        "reuse_node"@
    } else if "same role+op"@.is_prefix_of(h.note) {
        "adapt_ports"@
    } else if mode == "filter"@ {
        "candidate_node"@
    } else {
        "inspect"@
    }
}

/// A hit in the report.
pub open spec fn node_hit_json(h: GNodeHit, mode: Seq<char>) -> Seq<char> {
    "{\"isomorphic\":"@ + hyper_similar::bool_text(h.structure_match) + ",\"reuse_action\":\""@
        + node_action(h, mode) + "\",\"kind\":\""@ + h.kind + "\",\"graph\":\""@ + json::escaped(
        h.graph_name,
    ) + "\",\"node\":\""@ + json::escaped(h.node_name) + "\",\"path\":\""@ + json::escaped(h.path)
        + "\",\"tag_jaccard\":"@ + h.shown + ",\"node_key\":\""@ + json::escaped(h.node_key)
        + "\",\"body_preview\":\""@ + json::escaped(h.body_preview) + "\",\"note\":\""@
        + json::escaped(h.note) + "\"}"@
}

/// The kept ones of the first `n` hits, up to the limit.
pub open spec fn kept_hits(hs: Seq<GNodeHit>, mode: Seq<char>, n: int) -> Seq<Seq<char>>
    decreases n,
{
    if n <= 0 {
        Seq::empty()
    } else {
        let before = kept_hits(hs, mode, n - 1);
        if kept(hs[n - 1], mode) && before.len() < MAX_HITS {
            before.push(node_hit_json(hs[n - 1], mode))
        } else {
            before
        }
    }
}

/// The report on nodes.
pub open spec fn nodes_report(
    label: Seq<char>,
    key: Seq<char>,
    hs: Seq<GNodeHit>,
    mode: Seq<char>,
) -> Seq<char> {
    "{\"mode\":\""@ + json::escaped(mode) + "\",\"query\":\""@ + json::escaped(label)
        + "\",\"node_key\":\""@ + json::escaped(key) + "\","@
        + "\"match_rule\":\"node_key = role + op + in_arity + gated + impl_bucket; tags soft only\","@
        + "\"agent_instruction\":\"When building a graph node: call node reuse before writing a new proc. isomorphic=true → reuse_action=reuse_node (copy/adapt that proc's plan). same role+op → adapt_ports. Prefer pipeline-proc hits with body_preview. Tags alone are not reuse permission. For whole-graph reuse use hyper similar.\","@
        + "\"hits\":["@ + text::join_spec(kept_hits(hs, mode, hs.len() as int), ","@) + "]}"@
}

/// A hit in the report.
fn node_hit_text(h: &NodeHit, mode: &str) -> (r: String)
    ensures
        r@ == node_hit_json(h@, mode@),
{
    let filter = text::same(mode, "filter");
    let mut s = "{\"isomorphic\":".to_owned();
    s.append(
        if h.structure_match {
            "true"
        } else {
            "false"
        },
    );
    s.append(",\"reuse_action\":\"");
    let ports = text::starts_with(h.note.as_str(), "same role+op");
    s.append(
        if h.structure_match && !filter {
            "reuse_node"
        } else if ports {
            "adapt_ports"
        } else if filter {
            "candidate_node"
        } else {
            "inspect"
        },
    );
    s.append("\",\"kind\":\"");
    s.append(h.kind);
    s.append("\",\"graph\":\"");
    s.append(json::escape(h.graph_name.as_str()).as_str());
    s.append("\",\"node\":\"");
    s.append(json::escape(h.node_name.as_str()).as_str());
    s.append("\",\"path\":\"");
    s.append(json::escape(h.path.as_str()).as_str());
    s.append("\",\"tag_jaccard\":");
    s.append(h.tag_jaccard.text.as_str());
    s.append(",\"node_key\":\"");
    s.append(json::escape(h.node_key.as_str()).as_str());
    s.append("\",\"body_preview\":\"");
    s.append(json::escape(h.body_preview.as_str()).as_str());
    s.append("\",\"note\":\"");
    s.append(json::escape(h.note.as_str()).as_str());
    s.append("\"}");
    s
}

/// The report on nodes, as JSON.
pub fn nodes_report_json(
    query_label: &str,
    query_key: &str,
    hits: &Vec<NodeHit>,
    mode: &str,
) -> (r: String)
    ensures
        r@ == nodes_report(query_label@, query_key@, node_hit_views(hits@), mode@),
{
    let ghost hv = node_hit_views(hits@);
    let filter = text::same(mode, "filter");
    let mut shown: Vec<String> = Vec::new();
    let mut i: usize = 0;
    assert(text::views(shown@) =~= Seq::<Seq<char>>::empty());
    while i < hits.len()
        invariant
            i <= hits@.len(),
            hv == node_hit_views(hits@),
            filter == (mode@ == "filter"@),
            text::views(shown@) == kept_hits(hv, mode@, i as int),
        decreases hits@.len() - i,
    {
        let h: &NodeHit = &hits[i];
        assert(hv[i as int] == h@);
        assert(shown@.len() == text::views(shown@).len());
        if (h.structure_match || text::starts_with(h.note.as_str(), "same role+op") || filter)
            && shown.len() < MAX_HITS {
            let t = node_hit_text(h, mode);
            let ghost tv = t@;
            let ghost before = shown@;
            shown.push(t);
            assert(text::views(shown@) =~= text::views(before).push(tv));
        }
        i += 1;
    }
    let mut s = "{\"mode\":\"".to_owned();
    s.append(json::escape(mode).as_str());
    s.append("\",\"query\":\"");
    s.append(json::escape(query_label).as_str());
    s.append("\",\"node_key\":\"");
    s.append(json::escape(query_key).as_str());
    s.append("\",");
    s.append(
        "\"match_rule\":\"node_key = role + op + in_arity + gated + impl_bucket; tags soft only\",",
    );
    s.append(
        "\"agent_instruction\":\"When building a graph node: call node reuse before writing a new proc. isomorphic=true → reuse_action=reuse_node (copy/adapt that proc's plan). same role+op → adapt_ports. Prefer pipeline-proc hits with body_preview. Tags alone are not reuse permission. For whole-graph reuse use hyper similar.\",",
    );
    s.append("\"hits\":[");
    s.append(text::join(shown.as_slice(), ",").as_str());
    s.append("]}");
    s
}

/// The reports on all nodes of a graph.
pub open spec fn nodes_list(path: Seq<char>, reports: Seq<Seq<char>>) -> Seq<char> {
    "{\"mode\":\"list\",\"query\":\""@ + hyper_emit::escaped(path) + "\",\"nodes\":["@
        + text::join_spec(reports, ","@) + "]}"@
}

/// The reports on all nodes of a graph, as JSON.
pub fn nodes_list_json(path: &str, reports: &Vec<String>) -> (r: String)
    ensures
        r@ == nodes_list(path@, text::views(reports@)),
{
    let mut s = "{\"mode\":\"list\",\"query\":\"".to_owned();
    s.append(hyper_emit::escape_quotes(path).as_str());
    s.append("\",\"nodes\":[");
    s.append(text::join(reports.as_slice(), ",").as_str());
    s.append("]}");
    s
}

/// The label of a node of a graph.
pub fn node_label(path: &str, node: &str) -> (r: String)
    ensures
        r@ == path@ + ":"@ + node@,
{
    let mut s = path.to_owned();
    s.append(":");
    s.append(node);
    s
}

// ── Requests ──

/// A path and a node behind a colon, where there is one.
pub open spec fn path_and_node(q: Seq<char>) -> (Seq<char>, Option<Seq<char>>) {
    match text::rfind_char_spec(q, ':') {
        Some(i) => {
            let left = q.take(i);
            let node = q.skip(i + 1);
            if node.len() > 0 && text::find_char_spec(node, '/') is None && text::find_char_spec(
                node,
                '\\',
            ) is None && text::find_char_spec(node, '.') is None
                && hyper_similar::kind_of_path(left) is Some {
                (left, Some(node))
            } else {
                (q, None)
            }
        },
        None => (q, None),
    }
}

/// A path and a node behind a colon, where there is one.
pub fn split_path_node(q: &str) -> (r: (String, Option<String>))
    ensures
        r.0@ == path_and_node(q@).0,
        text::opt_view(r.1) == path_and_node(q@).1,
{
    let v = text::chars_of(q);
    let n: usize = v.len();
    match text::rfind_char(q, ':') {
        Some(i) => {
            proof {
                text::lemma_rfind_char(q@, ':', q@.len() as int);
            }
            assert(i < n);
            let left = text::slice(q, 0, i);
            let node = text::slice(q, i + 1, n);
            assert(left@ =~= q@.take(i as int));
            assert(node@ =~= q@.skip(i + 1));
            if !node.as_str().is_empty() && text::find_char(node.as_str(), '/').is_none()
                && text::find_char(node.as_str(), '\\').is_none() && text::find_char(
                node.as_str(),
                '.',
            ).is_none() && hyper_similar::graph_kind(left.as_str()).is_some() {
                return (left, Some(node));
            }
        },
        None => {},
    }
    (q.to_owned(), None)
}

/// What a request for nodes comes to.
#[derive(Debug)]
pub enum NodesRequest {
    /// All nodes that are as asked.
    Filter,
    /// Nodes like one node of a graph.
    One(GraphKind, String, String),
    /// Nodes like each node of a graph.
    All(GraphKind, String),
    /// Nothing that can be done.
    Refused(&'static str),
}

/// What a request for nodes comes to, as values.
pub enum GRequest {
    Filter,
    One(GraphKind, Seq<char>, Seq<char>),
    All(GraphKind, Seq<char>),
    Refused(Seq<char>),
}

impl NodesRequest {
    pub open spec fn view(&self) -> GRequest {
        match self {
            NodesRequest::Filter => GRequest::Filter,
            NodesRequest::One(k, p, n) => GRequest::One(*k, p@, n@),
            NodesRequest::All(k, p) => GRequest::All(*k, p@),
            NodesRequest::Refused(m) => GRequest::Refused(m@),
        }
    }
}

/// What a request for nodes comes to: a filter where anything is asked, else
/// the nodes of the named graph.
pub open spec fn request_of(query: Seq<char>, filter: Option<NodeQuery>) -> GRequest {
    if filter is Some && asks_anything(filter->0) {
        GRequest::Filter
    } else {
        let (path, node) = path_and_node(query);
        if path.len() == 0 {
            GRequest::Refused(
                "hyper nodes needs <file.hyper|file.pipeline>[:node] or --role/--op filter"@,
            )
        } else {
            match hyper_similar::kind_of_path(path) {
                Some(k) => match node {
                    Some(n) => GRequest::One(k, path, n),
                    None => GRequest::All(k, path),
                },
                None => GRequest::Refused("query must be .hyper/.pipeline or path:node"@),
            }
        }
    }
}

/// What a request for nodes comes to: a filter where anything is asked, else
/// the nodes of the named graph.
pub fn nodes_request(query: &str, filter: &Option<NodeQuery>) -> (r: NodesRequest)
    ensures
        r@ == request_of(query@, *filter),
{
    match filter {
        Some(f) => {
            if f.is_set() {
                return NodesRequest::Filter;
            }
        },
        None => {},
    }
    let (path, node) = split_path_node(query);
    if path.as_str().is_empty() {
        return NodesRequest::Refused(
            "hyper nodes needs <file.hyper|file.pipeline>[:node] or --role/--op filter",
        );
    }
    match hyper_similar::graph_kind(path.as_str()) {
        Some(k) => match node {
            Some(n) => NodesRequest::One(k, path, n),
            None => NodesRequest::All(k, path),
        },
        None => NodesRequest::Refused("query must be .hyper/.pipeline or path:node"),
    }
}

/// What is said of a node that the graph does not have.
pub open spec fn missing_node(kind: GraphKind, node: Seq<char>, path: Seq<char>) -> Seq<char> {
    (match kind {
        GraphKind::Hyper => "stage "@,
        GraphKind::Pipeline => "proc "@,
    }) + text::debug_quoted(node) + " not in "@ + path
}

/// What is said of a node that the graph does not have.
pub fn no_such_node(kind: GraphKind, node: &str, path: &str) -> (r: String)
    ensures
        r@ == missing_node(kind, node@, path@),
{
    let mut s = match kind {
        GraphKind::Hyper => "stage ".to_owned(),
        GraphKind::Pipeline => "proc ".to_owned(),
    };
    s.append(text::debug_quote(node).as_str());
    s.append(" not in ");
    s.append(path);
    s
}

} // verus!
