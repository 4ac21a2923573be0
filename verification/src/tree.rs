//! The tree of a session: which procs ran in it, how often, and how it went.

use crate::ast::{Pipeline, Proc};
use crate::order;
use crate::order::TextSet;
use crate::text;
use vstd::prelude::*;

verus! {

// ── Asking for trees ──

/// What was asked for.
#[derive(Debug)]
pub struct TreeRequest {
    pub json: bool,
    /// The file that holds the pipeline, for its edges.
    pub file: Option<String>,
    pub pipeline: Option<String>,
}

/// What was asked for, as values.
pub struct GRequest {
    pub json: bool,
    pub file: Option<Seq<char>>,
    pub pipeline: Option<Seq<char>>,
}

impl TreeRequest {
    pub open spec fn view(&self) -> GRequest {
        GRequest {
            json: self.json,
            file: text::opt_view(self.file),
            pipeline: text::opt_view(self.pipeline),
        }
    }
}

/// What the words from the `i`-th on ask for beside what was asked before: the
/// first word that is no option is the pipeline, and later ones say nothing.
pub open spec fn request_from(args: Seq<Seq<char>>, i: int, r: GRequest) -> GRequest
    decreases args.len() - i,
{
    if i < 0 || i >= args.len() {
        r
    } else if args[i] == "--json"@ {
        request_from(args, i + 1, (GRequest { json: true, ..r }))
    } else if args[i] == "--file"@ {
        if i + 1 < args.len() {
            request_from(args, i + 2, (GRequest { file: Some(args[i + 1]), ..r }))
        } else {
            GRequest { file: None, ..r }
        }
    } else if r.pipeline is None {
        request_from(args, i + 1, (GRequest { pipeline: Some(args[i]), ..r }))
    } else {
        request_from(args, i + 1, r)
    }
}

/// What the words ask for.
pub fn parse_tree_args(args: &Vec<String>) -> (r: TreeRequest)
    ensures
        r@ == request_from(
            text::views(args@),
            0,
            (GRequest { json: false, file: None, pipeline: None }),
        ),
{
    let ghost av = text::views(args@);
    let n: usize = args.len();
    let mut r = TreeRequest { json: false, file: None, pipeline: None };
    let ghost all = request_from(av, 0, r@);
    let mut i: usize = 0;
    while i < n
        invariant
            i <= n,
            n == args@.len(),
            av == text::views(args@),
            all == request_from(av, i as int, r@),
        decreases n - i,
    {
        assert(av[i as int] == args@[i as int]@);
        let a = args[i].as_str();
        if text::same(a, "--json") {
            r.json = true;
            i += 1;
        } else if text::same(a, "--file") {
            if i < n - 1 {
                assert(av[i + 1] == args@[i + 1]@);
                r.file = Some(args[i + 1].clone());
                i += 2;
            } else {
                r.file = None;
                i = n;
            }
        } else if r.pipeline.is_none() {
            r.pipeline = Some(a.to_owned());
            i += 1;
        } else {
            i += 1;
        }
    }
    r
}

// ── Nodes ──

/// A score: the number in binary form, and how it is shown.
#[derive(Debug)]
pub struct Score {
    pub bits: u64,
    /// As short as possible.
    pub plain: String,
    /// With two decimals.
    pub two: String,
}

/// A score, as values.
pub struct GScore {
    pub bits: u64,
    pub plain: Seq<char>,
    pub two: Seq<char>,
}

impl Score {
    pub open spec fn view(&self) -> GScore {
        GScore { bits: self.bits, plain: self.plain@, two: self.two@ }
    }

    /// An equal score of its own.
    pub fn duplicate(&self) -> (r: Score)
        ensures
            r@ == self@,
    {
        Score { bits: self.bits, plain: self.plain.clone(), two: self.two.clone() }
    }
}

/// No score.
pub open spec fn zero_score() -> GScore {
    GScore { bits: 0, plain: "0"@, two: "0.00"@ }
}

/// The score of a run that went well and was not judged.
pub open spec fn full_score() -> GScore {
    GScore { bits: 0x3FF0_0000_0000_0000, plain: "1"@, two: "1.00"@ }
}

/// One run of an implementation of a proc.
#[derive(Debug)]
pub struct RunLine {
    pub session: String,
    pub pipeline: String,
    pub proc_name: String,
    pub impl_name: String,
    pub status: String,
    pub latency_ms: i64,
    pub score: Option<Score>,
    pub recorded_at: String,
}

/// A proc in a session, with all its runs.
#[derive(Debug)]
pub struct TreeNode {
    pub proc: String,
    /// The implementation, the status and the time of each run.
    pub impls: Vec<(String, String, i64)>,
    pub attempts: usize,
    pub score: Score,
    pub status: String,
}

/// A run in a node, as values.
pub type GRun = (Seq<char>, Seq<char>, int);

/// A proc in a session, as values.
pub struct GNode {
    pub proc: Seq<char>,
    pub impls: Seq<GRun>,
    pub attempts: int,
    pub score: GScore,
    pub status: Seq<char>,
}

/// Runs as values.
pub open spec fn run_views(v: Seq<(String, String, i64)>) -> Seq<GRun> {
    v.map_values(|p: (String, String, i64)| (p.0@, p.1@, p.2 as int))
}

impl TreeNode {
    pub open spec fn view(&self) -> GNode {
        GNode {
            proc: self.proc@,
            impls: run_views(self.impls@),
            attempts: self.attempts as int,
            score: self.score@,
            status: self.status@,
        }
    }
}

/// Nodes as values.
pub open spec fn node_views(v: Seq<TreeNode>) -> Seq<GNode> {
    v.map_values(|n: TreeNode| n@)
}

/// A proc that has not run.
pub open spec fn fresh(proc: Seq<char>) -> GNode {
    GNode {
        proc: proc,
        impls: Seq::empty(),
        attempts: 0,
        score: zero_score(),
        status: "Ok"@,
    }
}

/// A node after one more run: the last status that is not well counts, and so
/// does the last score.
pub open spec fn touched(n: GNode, row: RunLine) -> GNode {
    GNode {
        proc: n.proc,
        impls: n.impls.push((row.impl_name@, row.status@, row.latency_ms as int)),
        attempts: n.attempts + 1,
        score: match row.score {
            Some(s) => s@,
            None => if row.status@ == "Ok"@ {
                full_score()
            } else {
                n.score
            },
        },
        status: if row.status@ == "Ok"@ {
            n.status
        } else {
            row.status@
        },
    }
}

/// The place of a proc among the nodes, from the `i`-th on.
pub open spec fn place_of(nodes: Seq<GNode>, proc: Seq<char>, i: int) -> Option<int>
    decreases nodes.len() - i,
{
    if i >= nodes.len() {
        None
    } else if nodes[i].proc == proc {
        Some(i)
    } else {
        place_of(nodes, proc, i + 1)
    }
}

/// The nodes after one more run.
pub open spec fn with_run(nodes: Seq<GNode>, row: RunLine) -> Seq<GNode> {
    match place_of(nodes, row.proc_name@, 0) {
        Some(k) => nodes.update(k, touched(nodes[k], row)),
        None => nodes.push(touched(fresh(row.proc_name@), row)),
    }
}

/// Whether a row is asked for.
pub open spec fn wanted(row: RunLine, pipeline: Option<Seq<char>>) -> bool {
    match pipeline {
        Some(p) => row.pipeline@ == p,
        None => true,
    }
}

/// What a row is put together by: its session, or for an old row without one its
/// pipeline and its time.
pub open spec fn bucket_of(row: RunLine) -> Seq<char> {
    if row.session@.len() > 0 {
        row.session@
    } else {
        "legacy\n"@ + row.pipeline@ + "\n"@ + row.recorded_at@
    }
}

/// The name of the session of a row.
pub open spec fn session_name(row: RunLine) -> Seq<char> {
    if row.session@.len() > 0 {
        row.session@
    } else {
        "legacy"@
    }
}

/// The nodes of a bucket by the first `n` rows.
pub open spec fn nodes_of(
    rows: Seq<RunLine>,
    pipeline: Option<Seq<char>>,
    bucket: Seq<char>,
    n: int,
) -> Seq<GNode>
    decreases n,
{
    if n <= 0 {
        Seq::empty()
    } else if wanted(rows[n - 1], pipeline) && bucket_of(rows[n - 1]) == bucket {
        with_run(nodes_of(rows, pipeline, bucket, n - 1), rows[n - 1])
    } else {
        nodes_of(rows, pipeline, bucket, n - 1)
    }
}

/// The session, the pipeline and the time of the last of the first `n` rows of a
/// bucket.
pub open spec fn last_of(
    rows: Seq<RunLine>,
    pipeline: Option<Seq<char>>,
    bucket: Seq<char>,
    n: int,
) -> (Seq<char>, Seq<char>, Seq<char>)
    decreases n,
{
    if n <= 0 {
        (bucket, Seq::empty(), Seq::empty())
    } else if wanted(rows[n - 1], pipeline) && bucket_of(rows[n - 1]) == bucket {
        (session_name(rows[n - 1]), rows[n - 1].pipeline@, rows[n - 1].recorded_at@)
    } else {
        last_of(rows, pipeline, bucket, n - 1)
    }
}

/// The buckets of the first `n` rows.
pub open spec fn buckets(rows: Seq<RunLine>, pipeline: Option<Seq<char>>, n: int) -> Set<
    Seq<char>,
>
    decreases n,
{
    if n <= 0 {
        Set::empty()
    } else if wanted(rows[n - 1], pipeline) {
        buckets(rows, pipeline, n - 1).insert(bucket_of(rows[n - 1]))
    } else {
        buckets(rows, pipeline, n - 1)
    }
}

/// The tree of a session.
#[derive(Debug)]
pub struct SessionTree {
    pub session: String,
    pub pipeline: String,
    pub recorded_at: String,
    pub nodes: Vec<TreeNode>,
    /// Which proc each proc needs.
    pub edges: Vec<(String, String)>,
    /// The value of the session, with four decimals and with a sign and three.
    pub v_four: String,
    pub v_signed: String,
}

/// The tree of a session, as values.
pub struct GTree {
    pub session: Seq<char>,
    pub pipeline: Seq<char>,
    pub recorded_at: Seq<char>,
    pub nodes: Seq<GNode>,
    pub edges: Seq<(Seq<char>, Seq<char>)>,
    pub v_four: Seq<char>,
    pub v_signed: Seq<char>,
}

/// Edges as values.
pub open spec fn edge_views(v: Seq<(String, String)>) -> Seq<(Seq<char>, Seq<char>)> {
    v.map_values(|p: (String, String)| (p.0@, p.1@))
}

impl SessionTree {
    pub open spec fn view(&self) -> GTree {
        GTree {
            session: self.session@,
            pipeline: self.pipeline@,
            recorded_at: self.recorded_at@,
            nodes: node_views(self.nodes@),
            edges: edge_views(self.edges@),
            v_four: self.v_four@,
            v_signed: self.v_signed@,
        }
    }
}

/// Trees as values.
pub open spec fn tree_views(v: Seq<SessionTree>) -> Seq<GTree> {
    v.map_values(|t: SessionTree| t@)
}

/// The tree of a bucket, without edges and without its value.
pub open spec fn bare_tree(
    rows: Seq<RunLine>,
    pipeline: Option<Seq<char>>,
    bucket: Seq<char>,
) -> GTree {
    let n = rows.len() as int;
    let last = last_of(rows, pipeline, bucket, n);
    GTree {
        session: last.0,
        pipeline: last.1,
        recorded_at: last.2,
        nodes: nodes_of(rows, pipeline, bucket, n),
        edges: Seq::empty(),
        v_four: Seq::empty(),
        v_signed: Seq::empty(),
    }
}

/// The trees of all rows that are asked for: one for each session, in the order
/// of the names, and one for the old rows without a session of each pipeline and
/// time.
pub open spec fn trees_of(rows: Seq<RunLine>, pipeline: Option<Seq<char>>) -> Seq<GTree> {
    order::in_order(buckets(rows, pipeline, rows.len() as int)).map_values(
        |s: Seq<char>| bare_tree(rows, pipeline, s),
    )
}

/// The place of a proc among the nodes.
fn find_node(nodes: &Vec<TreeNode>, proc: &str) -> (r: Option<usize>)
    ensures
        text::opt_int(r) == place_of(node_views(nodes@), proc@, 0),
        match r {
            Some(k) => k < nodes@.len(),
            None => true,
        },
{
    let ghost nv = node_views(nodes@);
    let mut i: usize = 0;
    while i < nodes.len()
        invariant
            i <= nodes@.len(),
            nv == node_views(nodes@),
            place_of(nv, proc@, 0) == place_of(nv, proc@, i as int),
        decreases nodes@.len() - i,
    {
        assert(nv[i as int] == nodes@[i as int]@);
        if text::same(nodes[i].proc.as_str(), proc) {
            return Some(i);
        }
        i += 1;
    }
    None
}

/// Adds a run to a node.
fn touch(node: &mut TreeNode, row: &RunLine)
    requires
        old(node).attempts < usize::MAX,
    ensures
        final(node)@ == touched(old(node)@, *row),
        final(node).attempts == old(node).attempts + 1,
{
    let ghost before = run_views(node.impls@);
    node.attempts = node.attempts + 1;
    node.impls.push((row.impl_name.clone(), row.status.clone(), row.latency_ms));
    assert(run_views(node.impls@) =~= before.push(
        (row.impl_name@, row.status@, row.latency_ms as int),
    ));
    let ok = text::same(row.status.as_str(), "Ok");
    if !ok {
        node.status = row.status.clone();
    }
    match &row.score {
        Some(s) => {
            node.score = s.duplicate();
        },
        None => {
            if ok {
                node.score = Score {
                    bits: 0x3FF0_0000_0000_0000,
                    plain: "1".to_owned(),
                    two: "1.00".to_owned(),
                };
            }
        },
    }
}

/// Whether a row is asked for.
fn is_wanted(row: &RunLine, pipeline: &Option<String>) -> (r: bool)
    ensures
        r == wanted(*row, text::opt_view(*pipeline)),
{
    match pipeline {
        Some(p) => text::same(row.pipeline.as_str(), p.as_str()),
        None => true,
    }
}

/// What a row is put together by.
fn row_bucket(row: &RunLine) -> (r: String)
    ensures
        r@ == bucket_of(*row),
{
    if !row.session.as_str().is_empty() {
        return row.session.clone();
    }
    let mut s = "legacy\n".to_owned();
    s.append(row.pipeline.as_str());
    s.append("\n");
    s.append(row.recorded_at.as_str());
    s
}

/// The name of the session of a row.
fn row_session(row: &RunLine) -> (r: String)
    ensures
        r@ == session_name(*row),
{
    if !row.session.as_str().is_empty() {
        row.session.clone()
    } else {
        "legacy".to_owned()
    }
}

/// The tree of a session, or of another bucket: runs of the same proc are one
/// node.
pub fn build_tree(rows: &Vec<RunLine>, pipeline: &Option<String>, bucket: &str) -> (r: SessionTree)
    ensures
        r@ == bare_tree(rows@, text::opt_view(*pipeline), bucket@),
{
    let ghost pv = text::opt_view(*pipeline);
    let n: usize = rows.len();
    let mut nodes: Vec<TreeNode> = Vec::new();
    let mut session = bucket.to_owned();
    let mut name = String::new();
    let mut time = String::new();
    let mut i: usize = 0;
    assert(node_views(nodes@) =~= Seq::<GNode>::empty());
    assert(name@ =~= Seq::<char>::empty());
    assert(time@ =~= Seq::<char>::empty());
    while i < n
        invariant
            i <= n,
            n == rows@.len(),
            pv == text::opt_view(*pipeline),
            node_views(nodes@) == nodes_of(rows@, pv, bucket@, i as int),
            (session@, name@, time@) == last_of(rows@, pv, bucket@, i as int),
            forall|k: int| 0 <= k < nodes@.len() ==> (#[trigger] nodes@[k]).attempts <= i,
        decreases n - i,
    {
        let row: &RunLine = &rows[i];
        if is_wanted(row, pipeline) && text::same(row_bucket(row).as_str(), bucket) {
            let ghost before = node_views(nodes@);
            session = row_session(row);
            name = row.pipeline.clone();
            time = row.recorded_at.clone();
            match find_node(&nodes, row.proc_name.as_str()) {
                Some(k) => {
                    let ghost old_node = nodes@[k as int]@;
                    let ghost old_nodes = nodes@;
                    touch(&mut nodes[k], row);
                    assert(node_views(nodes@) =~= before.update(
                        k as int,
                        touched(old_node, *row),
                    ));
                },
                None => {
                    let mut fresh_node = TreeNode {
                        proc: row.proc_name.clone(),
                        impls: Vec::new(),
                        attempts: 0,
                        score: Score { bits: 0, plain: "0".to_owned(), two: "0.00".to_owned() },
                        status: "Ok".to_owned(),
                    };
                    assert(run_views(fresh_node.impls@) =~= Seq::<GRun>::empty());
                    touch(&mut fresh_node, row);
                    let ghost fv = fresh_node@;
                    nodes.push(fresh_node);
                    assert(node_views(nodes@) =~= before.push(fv));
                },
            }
        }
        i += 1;
    }
    let r = SessionTree {
        session,
        pipeline: name,
        recorded_at: time,
        nodes,
        edges: Vec::new(),
        v_four: String::new(),
        v_signed: String::new(),
    };
    assert(r@.edges =~= Seq::<(Seq<char>, Seq<char>)>::empty());
    assert(r@.v_four =~= Seq::<char>::empty());
    assert(r@.v_signed =~= Seq::<char>::empty());
    r
}

/// The trees of all rows that are asked for: one for each session, in the order
/// of the names, and one for the old rows without a session of each pipeline and
/// time.
pub fn load_sessions(rows: &Vec<RunLine>, pipeline: &Option<String>) -> (r: Vec<SessionTree>)
    ensures
        tree_views(r@) == trees_of(rows@, text::opt_view(*pipeline)),
{
    let ghost pv = text::opt_view(*pipeline);
    let mut names = TextSet::new();
    let mut i: usize = 0;
    while i < rows.len()
        invariant
            i <= rows@.len(),
            pv == text::opt_view(*pipeline),
            names.wf(),
            names@ == buckets(rows@, pv, i as int),
        decreases rows@.len() - i,
    {
        if is_wanted(&rows[i], pipeline) {
            let _ = names.insert(row_bucket(&rows[i]));
        }
        i += 1;
    }
    let ghost nv = names.seq();
    proof {
        assert(names@ =~= nv.to_set());
        order::lemma_in_order(nv);
    }
    let ghost all = trees_of(rows@, pv);
    assert(all.len() == nv.len());
    let mut out: Vec<SessionTree> = Vec::new();
    let mut k: usize = 0;
    assert(tree_views(out@) =~= all.take(0));
    while k < names.len()
        invariant
            k <= nv.len(),
            nv == names.seq(),
            pv == text::opt_view(*pipeline),
            all == nv.map_values(|s: Seq<char>| bare_tree(rows@, pv, s)),
            tree_views(out@) == all.take(k as int),
        decreases nv.len() - k,
    {
        let t = build_tree(rows, pipeline, names.at(k).as_str());
        let ghost tv = t@;
        let ghost before = out@;
        out.push(t);
        assert(tree_views(out@) =~= tree_views(before).push(tv));
        assert(all.take(k + 1) =~= all.take(k as int).push(all[k as int]));
        k += 1;
    }
    assert(all.take(all.len() as int) =~= all);
    out
}

// ── Edges ──

/// The edges of the first `n` needs of a proc.
pub open spec fn need_edges(proc: Proc, n: int) -> Seq<(Seq<char>, Seq<char>)>
    decreases n,
{
    if n <= 0 {
        Seq::empty()
    } else {
        need_edges(proc, n - 1).push((text::front_spec(proc.needs@[n - 1]@, "@"@), proc.name@))
    }
}

/// The edges of the first `n` procs.
pub open spec fn edges_of(procs: Seq<Proc>, n: int) -> Seq<(Seq<char>, Seq<char>)>
    decreases n,
{
    if n <= 0 {
        Seq::empty()
    } else {
        edges_of(procs, n - 1) + need_edges(procs[n - 1], procs[n - 1].needs@.len() as int)
    }
}

/// Which proc each proc of a pipeline needs.
pub fn static_edges(pl: &Pipeline) -> (r: Vec<(String, String)>)
    ensures
        edge_views(r@) == edges_of(pl.procs@, pl.procs@.len() as int),
{
    let mut out: Vec<(String, String)> = Vec::new();
    let mut i: usize = 0;
    assert(edge_views(out@) =~= Seq::<(Seq<char>, Seq<char>)>::empty());
    while i < pl.procs.len()
        invariant
            i <= pl.procs@.len(),
            edge_views(out@) == edges_of(pl.procs@, i as int),
        decreases pl.procs@.len() - i,
    {
        let proc: &Proc = &pl.procs[i];
        let ghost start = edge_views(out@);
        let mut k: usize = 0;
        assert(start + need_edges(*proc, 0) =~= start);
        while k < proc.needs.len()
            invariant
                k <= proc.needs@.len(),
                edge_views(out@) == start + need_edges(*proc, k as int),
            decreases proc.needs@.len() - k,
        {
            let from = text::trim_front(proc.needs[k].as_str(), "@");
            let ghost e = (from@, proc.name@);
            let ghost before = edge_views(out@);
            out.push((from, proc.name.clone()));
            assert(edge_views(out@) =~= before.push(e));
            assert(before.push(e) =~= start + need_edges(*proc, k as int).push(e));
            k += 1;
        }
        i += 1;
    }
    out
}

// ── Showing ──

/// A text inside a string of the output.
pub open spec fn quoted(s: Seq<char>) -> Seq<char> {
    text::replace_spec(text::replace_spec(s, "\\"@, "\\\\"@), "\""@, "\\\""@)
}

/// A run in the output.
pub open spec fn run_json(r: GRun) -> Seq<char> {
    "{\"impl\":\""@ + quoted(r.0) + "\",\"status\":\""@ + quoted(r.1) + "\",\"latency_ms\":"@
        + text::signed_dec(r.2) + "}"@
}

/// A node in the output.
pub open spec fn node_json(n: GNode) -> Seq<char> {
    "{\"proc\":\""@ + quoted(n.proc) + "\",\"attempts\":"@ + text::dec(n.attempts as nat)
        + ",\"status\":\""@ + quoted(n.status) + "\",\"score\":"@ + n.score.plain + ",\"impls\":["@
        + text::join_spec(n.impls.map_values(|r: GRun| run_json(r)), ","@) + "]}"@
}

/// An edge in the output.
pub open spec fn edge_json(e: (Seq<char>, Seq<char>)) -> Seq<char> {
    "\""@ + quoted(e.0) + "->"@ + quoted(e.1) + "\""@
}

/// A tree in the output.
#[verifier::opaque]
pub open spec fn tree_json(t: GTree) -> Seq<char> {
    "{\"session\":\""@ + quoted(t.session) + "\",\"pipeline\":\""@ + quoted(t.pipeline)
        + "\",\"recorded_at\":\""@ + quoted(t.recorded_at) + "\",\"nodes\":["@ + text::join_spec(
        t.nodes.map_values(|n: GNode| node_json(n)),
        ","@,
    ) + "],\"edges\":["@ + text::join_spec(
        t.edges.map_values(|e: (Seq<char>, Seq<char>)| edge_json(e)),
        ","@,
    ) + "],\"v_proxy\":"@ + t.v_four + "}"@
}

/// The trees for a program to read.
pub open spec fn trees_json(trees: Seq<GTree>) -> Seq<char> {
    "["@ + text::join_spec(trees.map_values(|t: GTree| tree_json(t)), ",\n"@) + "]"@
}

/// A run for people.
pub open spec fn run_text(r: GRun) -> Seq<char> {
    r.0 + ":"@ + r.1 + "("@ + text::signed_dec(r.2) + "ms)"@
}

/// A node for people.
pub open spec fn node_text(n: GNode) -> Seq<char> {
    "  "@ + (if n.status == "Ok"@ {
        "✓"@
    } else {
        "✗"@
    }) + " "@ + n.proc + " ×"@ + text::dec(n.attempts as nat) + "  score="@ + n.score.two
        + "  ["@ + text::join_spec(n.impls.map_values(|r: GRun| run_text(r)), ", "@) + "]\n"@
}

/// The first `n` nodes for people.
pub open spec fn nodes_text(nodes: Seq<GNode>, n: int) -> Seq<char>
    decreases n,
{
    if n <= 0 {
        Seq::empty()
    } else {
        nodes_text(nodes, n - 1) + node_text(nodes[n - 1])
    }
}

/// A tree for people.
pub open spec fn tree_text(t: GTree) -> Seq<char> {
    "session "@ + t.session + "  ["@ + t.pipeline + "]  "@ + t.recorded_at + "  ("@ + text::dec(
        t.nodes.len(),
    ) + " nodes)\n"@ + nodes_text(t.nodes, t.nodes.len() as int) + (if t.edges.len() > 0 {
        "  edges: "@ + text::join_spec(
            t.edges.map_values(|e: (Seq<char>, Seq<char>)| e.0 + "→"@ + e.1),
            " "@,
        ) + "\n"@
    } else {
        Seq::empty()
    }) + "  V(β1=.02,β2=.01 proxy) = "@ + t.v_signed + "\n\n"@
}

/// What is said where there is no session.
pub open spec fn nothing_found(pipeline: Option<Seq<char>>) -> Seq<char> {
    "no sessions found"@ + (match pipeline {
        Some(p) => " for pipeline '"@ + p + "'"@,
        None => Seq::empty(),
    }) + " — runs 需 v0.20+ 引擎跑出（runs.session 列）"@
}

/// A text inside a string of the output.
fn quote(s: &str) -> (r: String)
    ensures
        r@ == quoted(s@),
{
    proof {
        reveal_strlit("\\");
        reveal_strlit("\"");
    }
    let a = text::replace(s, "\\", "\\\\");
    text::replace(a.as_str(), "\"", "\\\"")
}

/// The runs of a node, for programs or for people.
fn show_runs(runs: &Vec<(String, String, i64)>, json: bool) -> (r: String)
    ensures
        r@ == (if json {
            text::join_spec(run_views(runs@).map_values(|r: GRun| run_json(r)), ","@)
        } else {
            text::join_spec(run_views(runs@).map_values(|r: GRun| run_text(r)), ", "@)
        }),
{
    let ghost all = if json {
        run_views(runs@).map_values(|r: GRun| run_json(r))
    } else {
        run_views(runs@).map_values(|r: GRun| run_text(r))
    };
    let mut out: Vec<String> = Vec::new();
    let mut i: usize = 0;
    assert(text::views(out@) =~= all.take(0));
    while i < runs.len()
        invariant
            i <= runs@.len(),
            all.len() == runs@.len(),
            json ==> all == run_views(runs@).map_values(|r: GRun| run_json(r)),
            !json ==> all == run_views(runs@).map_values(|r: GRun| run_text(r)),
            text::views(out@) == all.take(i as int),
        decreases runs@.len() - i,
    {
        let ghost rv = (runs@[i as int].0@, runs@[i as int].1@, runs@[i as int].2 as int);
        assert(run_views(runs@)[i as int] == rv);
        let s = if json {
            let mut s = "{\"impl\":\"".to_owned();
            s.append(quote(runs[i].0.as_str()).as_str());
            s.append("\",\"status\":\"");
            s.append(quote(runs[i].1.as_str()).as_str());
            s.append("\",\"latency_ms\":");
            s.append(text::signed_decimal(runs[i].2).as_str());
            s.append("}");
            s
        } else {
            let mut s = runs[i].0.clone();
            s.append(":");
            s.append(runs[i].1.as_str());
            s.append("(");
            s.append(text::signed_decimal(runs[i].2).as_str());
            s.append("ms)");
            s
        };
        assert(s@ == all[i as int]);
        let ghost sv = s@;
        let ghost before = out@;
        out.push(s);
        assert(text::views(out@) =~= text::views(before).push(sv));
        assert(all.take(i + 1) =~= all.take(i as int).push(all[i as int]));
        i += 1;
    }
    assert(all.take(all.len() as int) =~= all);
    if json {
        text::join(out.as_slice(), ",")
    } else {
        text::join(out.as_slice(), ", ")
    }
}

/// The edges, for programs or for people.
fn show_edges(edges: &Vec<(String, String)>, json: bool) -> (r: String)
    ensures
        r@ == (if json {
            text::join_spec(
                edge_views(edges@).map_values(|e: (Seq<char>, Seq<char>)| edge_json(e)),
                ","@,
            )
        } else {
            text::join_spec(
                edge_views(edges@).map_values(|e: (Seq<char>, Seq<char>)| e.0 + "→"@ + e.1),
                " "@,
            )
        }),
{
    let ghost all = if json {
        edge_views(edges@).map_values(|e: (Seq<char>, Seq<char>)| edge_json(e))
    } else {
        edge_views(edges@).map_values(|e: (Seq<char>, Seq<char>)| e.0 + "→"@ + e.1)
    };
    let mut out: Vec<String> = Vec::new();
    let mut i: usize = 0;
    assert(text::views(out@) =~= all.take(0));
    while i < edges.len()
        invariant
            i <= edges@.len(),
            all.len() == edges@.len(),
            json ==> all == edge_views(edges@).map_values(
                |e: (Seq<char>, Seq<char>)| edge_json(e),
            ),
            !json ==> all == edge_views(edges@).map_values(
                |e: (Seq<char>, Seq<char>)| e.0 + "→"@ + e.1,
            ),
            text::views(out@) == all.take(i as int),
        decreases edges@.len() - i,
    {
        let ghost ev = (edges@[i as int].0@, edges@[i as int].1@);
        assert(edge_views(edges@)[i as int] == ev);
        let s = if json {
            let mut s = "\"".to_owned();
            s.append(quote(edges[i].0.as_str()).as_str());
            s.append("->");
            s.append(quote(edges[i].1.as_str()).as_str());
            s.append("\"");
            s
        } else {
            let mut s = edges[i].0.clone();
            s.append("→");
            s.append(edges[i].1.as_str());
            s
        };
        assert(s@ == all[i as int]);
        let ghost sv = s@;
        let ghost before = out@;
        out.push(s);
        assert(text::views(out@) =~= text::views(before).push(sv));
        assert(all.take(i + 1) =~= all.take(i as int).push(all[i as int]));
        i += 1;
    }
    assert(all.take(all.len() as int) =~= all);
    if json {
        text::join(out.as_slice(), ",")
    } else {
        text::join(out.as_slice(), " ")
    }
}

/// A node for a program to read.
fn show_node(n: &TreeNode) -> (r: String)
    ensures
        r@ == node_json(n@),
{
    let mut s = "{\"proc\":\"".to_owned();
    s.append(quote(n.proc.as_str()).as_str());
    s.append("\",\"attempts\":");
    s.append(text::decimal(n.attempts as u128).as_str());
    s.append(",\"status\":\"");
    s.append(quote(n.status.as_str()).as_str());
    s.append("\",\"score\":");
    s.append(n.score.plain.as_str());
    s.append(",\"impls\":[");
    s.append(show_runs(&n.impls, true).as_str());
    s.append("]}");
    s
}

/// The nodes for a program to read.
fn show_nodes(nodes: &Vec<TreeNode>) -> (r: String)
    ensures
        r@ == text::join_spec(node_views(nodes@).map_values(|n: GNode| node_json(n)), ","@),
{
    let ghost all = node_views(nodes@).map_values(|n: GNode| node_json(n));
    let mut out: Vec<String> = Vec::new();
    let mut i: usize = 0;
    assert(text::views(out@) =~= all.take(0));
    while i < nodes.len()
        invariant
            i <= nodes@.len(),
            all == node_views(nodes@).map_values(|n: GNode| node_json(n)),
            text::views(out@) == all.take(i as int),
        decreases nodes@.len() - i,
    {
        let n: &TreeNode = &nodes[i];
        let s = show_node(n);
        assert(node_views(nodes@)[i as int] == n@);
        assert(s@ == all[i as int]);
        let ghost sv = s@;
        let ghost before = out@;
        out.push(s);
        assert(text::views(out@) =~= text::views(before).push(sv));
        assert(all.take(i + 1) =~= all.take(i as int).push(all[i as int]));
        i += 1;
    }
    assert(all.take(all.len() as int) =~= all);
    text::join(out.as_slice(), ",")
}

/// A tree for a program to read.
fn show_tree(t: &SessionTree) -> (r: String)
    ensures
        r@ == tree_json(t@),
{
    proof {
        reveal(tree_json);
    }
    let mut s = "{\"session\":\"".to_owned();
    s.append(quote(t.session.as_str()).as_str());
    s.append("\",\"pipeline\":\"");
    s.append(quote(t.pipeline.as_str()).as_str());
    s.append("\",\"recorded_at\":\"");
    s.append(quote(t.recorded_at.as_str()).as_str());
    s.append("\",\"nodes\":[");
    s.append(show_nodes(&t.nodes).as_str());
    s.append("],\"edges\":[");
    s.append(show_edges(&t.edges, true).as_str());
    s.append("],\"v_proxy\":");
    s.append(t.v_four.as_str());
    s.append("}");
    s
}

/// The trees for a program to read.
pub fn render_json(trees: &Vec<SessionTree>) -> (r: String)
    ensures
        r@ == trees_json(tree_views(trees@)),
{
    let ghost all = tree_views(trees@).map_values(|t: GTree| tree_json(t));
    let mut out: Vec<String> = Vec::new();
    let mut i: usize = 0;
    assert(text::views(out@) =~= all.take(0));
    while i < trees.len()
        invariant
            i <= trees@.len(),
            all == tree_views(trees@).map_values(|t: GTree| tree_json(t)),
            text::views(out@) == all.take(i as int),
        decreases trees@.len() - i,
    {
        let t: &SessionTree = &trees[i];
        let s = show_tree(t);
        assert(tree_views(trees@)[i as int] == t@);
        assert(s@ == all[i as int]);
        let ghost sv = s@;
        let ghost before = out@;
        out.push(s);
        assert(text::views(out@) =~= text::views(before).push(sv));
        assert(all.take(i + 1) =~= all.take(i as int).push(all[i as int]));
        i += 1;
    }
    assert(all.take(all.len() as int) =~= all);
    let mut r = "[".to_owned();
    r.append(text::join(out.as_slice(), ",\n").as_str());
    r.append("]");
    r
}

/// A tree for people.
pub fn render_tree(t: &SessionTree) -> (r: String)
    ensures
        r@ == tree_text(t@),
{
    let ghost nv = node_views(t.nodes@);
    assert(nv.len() == t.nodes@.len());
    assert(t@.edges.len() == t.edges@.len());
    let mut s = "session ".to_owned();
    s.append(t.session.as_str());
    s.append("  [");
    s.append(t.pipeline.as_str());
    s.append("]  ");
    s.append(t.recorded_at.as_str());
    s.append("  (");
    s.append(text::decimal(t.nodes.len() as u128).as_str());
    s.append(" nodes)\n");
    let ghost head = s@;
    let mut i: usize = 0;
    assert(head + nodes_text(nv, 0) =~= head);
    while i < t.nodes.len()
        invariant
            i <= t.nodes@.len(),
            nv == node_views(t.nodes@),
            s@ == head + nodes_text(nv, i as int),
        decreases t.nodes@.len() - i,
    {
        let n: &TreeNode = &t.nodes[i];
        let mut line = "  ".to_owned();
        line.append(if text::same(n.status.as_str(), "Ok") {
            "✓"
        } else {
            "✗"
        });
        line.append(" ");
        line.append(n.proc.as_str());
        line.append(" ×");
        line.append(text::decimal(n.attempts as u128).as_str());
        line.append("  score=");
        line.append(n.score.two.as_str());
        line.append("  [");
        line.append(show_runs(&n.impls, false).as_str());
        line.append("]\n");
        assert(nv[i as int] == n@);
        assert(line@ == node_text(nv[i as int]));
        s.append(line.as_str());
        assert(s@ =~= head + nodes_text(nv, i + 1));
        i += 1;
    }
    let ghost before = s@;
    let edges = if t.edges.len() > 0 {
        let mut e = "  edges: ".to_owned();
        e.append(show_edges(&t.edges, false).as_str());
        e.append("\n");
        e
    } else {
        let e = String::new();
        assert(e@ =~= Seq::<char>::empty());
        e
    };
    s.append(edges.as_str());
    s.append("  V(β1=.02,β2=.01 proxy) = ");
    s.append(t.v_signed.as_str());
    s.append("\n\n");
    s
}

/// What is said where there is no session.
pub fn no_sessions(pipeline: &Option<String>) -> (r: String)
    ensures
        r@ == nothing_found(text::opt_view(*pipeline)),
{
    let mut s = "no sessions found".to_owned();
    let which = match pipeline {
        Some(p) => {
            let mut w = " for pipeline '".to_owned();
            w.append(p.as_str());
            w.append("'");
            w
        },
        None => {
            let e = String::new();
            assert(e@ =~= Seq::<char>::empty());
            e
        },
    };
    s.append(which.as_str());
    s.append(" — runs 需 v0.20+ 引擎跑出（runs.session 列）");
    s
}

// ── Laws ──

/// How many of the first `n` rows belong to a bucket.
pub open spec fn row_count(
    rows: Seq<RunLine>,
    pipeline: Option<Seq<char>>,
    bucket: Seq<char>,
    n: int,
) -> int
    decreases n,
{
    if n <= 0 {
        0
    } else if wanted(rows[n - 1], pipeline) && bucket_of(rows[n - 1]) == bucket {
        row_count(rows, pipeline, bucket, n - 1) + 1
    } else {
        row_count(rows, pipeline, bucket, n - 1)
    }
}

/// The attempts of the first `n` nodes.
pub open spec fn attempts_of(nodes: Seq<GNode>, n: int) -> int
    decreases n,
{
    if n <= 0 {
        0
    } else {
        attempts_of(nodes, n - 1) + nodes[n - 1].attempts
    }
}

proof fn lemma_attempts_update(nodes: Seq<GNode>, k: int, x: GNode, n: int)
    requires
        0 <= k < nodes.len(),
        0 <= n <= nodes.len(),
    ensures
        attempts_of(nodes.update(k, x), n) == attempts_of(nodes, n) + (if k < n {
            x.attempts - nodes[k].attempts
        } else {
            0
        }),
    decreases n,
{
    if n > 0 {
        lemma_attempts_update(nodes, k, x, n - 1);
    }
}

proof fn lemma_attempts_prefix(a: Seq<GNode>, b: Seq<GNode>, n: int)
    requires
        n <= a.len(),
        n <= b.len(),
        forall|k: int| 0 <= k < n ==> a[k] == b[k],
    ensures
        attempts_of(a, n) == attempts_of(b, n),
    decreases n,
{
    if n > 0 {
        lemma_attempts_prefix(a, b, n - 1);
    }
}

/// The place that is found is the first of the proc.
proof fn lemma_place(nodes: Seq<GNode>, proc: Seq<char>, i: int)
    requires
        0 <= i <= nodes.len(),
    ensures
        match place_of(nodes, proc, i) {
            Some(k) => i <= k < nodes.len() && nodes[k].proc == proc,
            None => forall|k: int| i <= k < nodes.len() ==> (#[trigger] nodes[k]).proc != proc,
        },
    decreases nodes.len() - i,
{
    if i < nodes.len() {
        lemma_place(nodes, proc, i + 1);
    }
}

/// A tree leaves no run out and counts none twice: the attempts of its nodes are
/// as many as the rows of its bucket, and no proc has two nodes.
pub proof fn law_every_run_counts_once(
    rows: Seq<RunLine>,
    pipeline: Option<Seq<char>>,
    bucket: Seq<char>,
    n: int,
)
    requires
        0 <= n <= rows.len(),
    ensures
        attempts_of(
            nodes_of(rows, pipeline, bucket, n),
            nodes_of(rows, pipeline, bucket, n).len() as int,
        ) == row_count(rows, pipeline, bucket, n),
        forall|i: int, j: int|
            0 <= i < j < nodes_of(rows, pipeline, bucket, n).len() ==> (#[trigger] nodes_of(
                rows,
                pipeline,
                bucket,
                n,
            )[i]).proc != (#[trigger] nodes_of(rows, pipeline, bucket, n)[j]).proc,
    decreases n,
{
    if n > 0 {
        law_every_run_counts_once(rows, pipeline, bucket, n - 1);
        let before = nodes_of(rows, pipeline, bucket, n - 1);
        let after = nodes_of(rows, pipeline, bucket, n);
        let row = rows[n - 1];
        if wanted(row, pipeline) && bucket_of(row) == bucket {
            lemma_place(before, row.proc_name@, 0);
            match place_of(before, row.proc_name@, 0) {
                Some(k) => {
                    lemma_attempts_update(
                        before,
                        k,
                        touched(before[k], row),
                        before.len() as int,
                    );
                    assert forall|i: int, j: int| 0 <= i < j < after.len() implies (
                    #[trigger] after[i]).proc != (#[trigger] after[j]).proc by {
                        assert(before[i].proc != before[j].proc);
                    }
                },
                None => {
                    lemma_attempts_prefix(before, after, before.len() as int);
                    assert forall|i: int, j: int| 0 <= i < j < after.len() implies (
                    #[trigger] after[i]).proc != (#[trigger] after[j]).proc by {
                        if j < before.len() {
                            assert(before[i].proc != before[j].proc);
                        } else {
                            assert(before[i].proc != row.proc_name@);
                        }
                    }
                },
            }
        }
    }
}

/// Whether a run is in the node of its proc.
pub open spec fn holds_run(nodes: Seq<GNode>, row: RunLine) -> bool {
    exists|k: int|
        0 <= k < nodes.len() && (#[trigger] nodes[k]).proc == row.proc_name@
            && nodes[k].impls.contains((row.impl_name@, row.status@, row.latency_ms as int))
}

/// A run is in the nodes after it, and stays there.
proof fn lemma_run_stays(nodes: Seq<GNode>, row: RunLine, next: RunLine)
    ensures
        holds_run(with_run(nodes, row), row),
        holds_run(nodes, row) ==> holds_run(with_run(nodes, next), row),
{
    let run = (row.impl_name@, row.status@, row.latency_ms as int);
    lemma_place(nodes, row.proc_name@, 0);
    let own = with_run(nodes, row);
    match place_of(nodes, row.proc_name@, 0) {
        Some(k) => {
            assert(own[k].impls[nodes[k].impls.len() as int] == run);
        },
        None => {
            assert(own[nodes.len() as int].impls[0] == run);
        },
    }
    if holds_run(nodes, row) {
        lemma_place(nodes, next.proc_name@, 0);
        let now = with_run(nodes, next);
        let k = choose|k: int|
            0 <= k < nodes.len() && (#[trigger] nodes[k]).proc == row.proc_name@
                && nodes[k].impls.contains(run);
        let j = choose|j: int| 0 <= j < nodes[k].impls.len() && nodes[k].impls[j] == run;
        assert(now[k].impls[j] == run);
        assert(now[k].proc == row.proc_name@);
    }
}

/// A run of the first `n` rows is in the nodes of its bucket.
proof fn lemma_run_in_bucket(rows: Seq<RunLine>, pipeline: Option<Seq<char>>, n: int, i: int)
    requires
        0 <= i < n <= rows.len(),
        wanted(rows[i], pipeline),
    ensures
        buckets(rows, pipeline, n).contains(bucket_of(rows[i])),
        buckets(rows, pipeline, n).finite(),
        holds_run(nodes_of(rows, pipeline, bucket_of(rows[i]), n), rows[i]),
    decreases n,
{
    lemma_buckets_finite(rows, pipeline, n);
    let before = nodes_of(rows, pipeline, bucket_of(rows[i]), n - 1);
    lemma_run_stays(before, rows[i], rows[n - 1]);
    if i < n - 1 {
        lemma_run_in_bucket(rows, pipeline, n - 1, i);
    }
}

/// There are finitely many buckets.
proof fn lemma_buckets_finite(rows: Seq<RunLine>, pipeline: Option<Seq<char>>, n: int)
    ensures
        buckets(rows, pipeline, n).finite(),
    decreases n,
{
    if n > 0 {
        lemma_buckets_finite(rows, pipeline, n - 1);
    }
}

/// No run that is asked for is lost: each is in the tree of its bucket, also one
/// without a session.
pub proof fn law_no_run_is_lost(rows: Seq<RunLine>, pipeline: Option<Seq<char>>, i: int)
    requires
        0 <= i < rows.len(),
        wanted(rows[i], pipeline),
    ensures
        trees_of(rows, pipeline).contains(bare_tree(rows, pipeline, bucket_of(rows[i]))),
        holds_run(bare_tree(rows, pipeline, bucket_of(rows[i])).nodes, rows[i]),
{
    let all = buckets(rows, pipeline, rows.len() as int);
    lemma_run_in_bucket(rows, pipeline, rows.len() as int, i);
    order::lemma_in_order_exists(all);
    let names = order::in_order(all);
    assert(names.to_set().contains(bucket_of(rows[i])));
    let k = choose|k: int| 0 <= k < names.len() && names[k] == bucket_of(rows[i]);
    assert(trees_of(rows, pipeline)[k] == bare_tree(rows, pipeline, bucket_of(rows[i])));
}

} // verus!
