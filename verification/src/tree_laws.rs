//! What the trees of sessions hold and how they are asked for.

use crate::ast::Proc;
use crate::text;
use crate::tree;
use crate::tree::{GNode, GRequest, RunLine};
use vstd::prelude::*;

verus! {

// ── Requests ──

/// An option changes what it stands for and nothing else, wherever it stands; the
/// first word that is no option is the pipeline, and a later one says nothing.
pub proof fn law_requests_are_read_word_by_word(args: Seq<Seq<char>>, i: int, r: GRequest)
    requires
        0 <= i < args.len(),
    ensures
        args[i] == "--json"@ ==> tree::request_from(args, i, r) == tree::request_from(
            args,
            i + 1,
            (GRequest { json: true, file: r.file, pipeline: r.pipeline }),
        ),
        args[i] == "--file"@ && i + 1 < args.len() ==> tree::request_from(args, i, r)
            == tree::request_from(
            args,
            i + 2,
            (GRequest { json: r.json, file: Some(args[i + 1]), pipeline: r.pipeline }),
        ),
        args[i] != "--json"@ && args[i] != "--file"@ && r.pipeline is None ==> tree::request_from(
            args,
            i,
            r,
        ) == tree::request_from(
            args,
            i + 1,
            (GRequest { json: r.json, file: r.file, pipeline: Some(args[i]) }),
        ),
        args[i] != "--json"@ && args[i] != "--file"@ && r.pipeline is Some ==> tree::request_from(
            args,
            i,
            r,
        ) == tree::request_from(args, i + 1, r),
        tree::request_from(args, args.len() as int, r) == r,
{
    reveal_strlit("--json");
    reveal_strlit("--file");
    assert("--json"@[2] == 'j' && "--file"@[2] == 'f');
}

// ── Nodes ──

/// One more run of a proc is one more attempt and stands behind the others; a run
/// that did not go well sets the status, a judgement sets the score, and without
/// one a run that went well has the full score.
pub proof fn law_runs_leave_their_mark(n: GNode, row: RunLine)
    ensures
        ({
            let t = tree::touched(n, row);
            &&& t.proc == n.proc
            &&& t.attempts == n.attempts + 1
            &&& t.impls == n.impls.push((row.impl_name@, row.status@, row.latency_ms as int))
            &&& row.status@ == "Ok"@ ==> t.status == n.status
            &&& row.status@ != "Ok"@ ==> t.status == row.status@
            &&& row.score matches Some(s) ==> t.score == s@
            &&& row.score is None && row.status@ == "Ok"@ ==> t.score.bits == 0x3FF0_0000_0000_0000
                && t.score.plain == "1"@ && t.score.two == "1.00"@
            &&& row.score is None && row.status@ != "Ok"@ ==> t.score == n.score
        }),
        ({
            let f = tree::fresh(n.proc);
            &&& f.proc == n.proc && f.attempts == 0 && f.impls.len() == 0 && f.status == "Ok"@
            &&& f.score.bits == 0 && f.score.plain == "0"@ && f.score.two == "0.00"@
        }),
{
}

proof fn lemma_place(nodes: Seq<GNode>, proc: Seq<char>, i: int)
    requires
        0 <= i <= nodes.len(),
    ensures
        match tree::place_of(nodes, proc, i) {
            Some(k) => i <= k < nodes.len() && nodes[k].proc == proc && forall|j: int|
                i <= j < k ==> (#[trigger] nodes[j]).proc != proc,
            None => forall|j: int| i <= j < nodes.len() ==> (#[trigger] nodes[j]).proc != proc,
        },
    decreases nodes.len() - i,
{
    if i < nodes.len() && nodes[i].proc != proc {
        lemma_place(nodes, proc, i + 1);
    }
}

/// A run goes to the node of its proc and leaves the others as they are; a proc
/// without a node gets one behind them.
pub proof fn law_runs_go_to_their_proc(nodes: Seq<GNode>, row: RunLine, k: int)
    ensures
        0 <= k < nodes.len() && nodes[k].proc == row.proc_name@ && (forall|j: int|
            0 <= j < k ==> (#[trigger] nodes[j]).proc != row.proc_name@) ==> tree::with_run(
            nodes,
            row,
        ) == nodes.update(k, tree::touched(nodes[k], row)),
        (forall|j: int| 0 <= j < nodes.len() ==> (#[trigger] nodes[j]).proc != row.proc_name@)
            ==> tree::with_run(nodes, row) == nodes.push(
            tree::touched(tree::fresh(row.proc_name@), row),
        ),
{
    lemma_place(nodes, row.proc_name@, 0);
    match tree::place_of(nodes, row.proc_name@, 0) {
        Some(i) => {
            if 0 <= k < nodes.len() && nodes[k].proc == row.proc_name@ && (forall|j: int|
                0 <= j < k ==> (#[trigger] nodes[j]).proc != row.proc_name@) {
                if i < k {
                    assert(nodes[i].proc != row.proc_name@);
                }
                if k < i {
                    assert(nodes[k].proc != row.proc_name@);
                }
            }
        },
        None => {},
    }
}

/// A row is asked for where no pipeline is, or its own.
pub proof fn law_rows_are_asked_for_by_pipeline(row: RunLine, p: Seq<char>)
    ensures
        tree::wanted(row, None),
        tree::wanted(row, Some(p)) <==> row.pipeline@ == p,
{
}

/// Rows with a session go together by it and by nothing else; old rows go together
/// where their pipeline and their time are the same.
pub proof fn law_sessions_hold_rows_together(a: RunLine, b: RunLine)
    ensures
        a.session@.len() > 0 && b.session@.len() > 0 ==> (tree::bucket_of(a) == tree::bucket_of(b)
            <==> a.session@ == b.session@) && tree::session_name(a) == a.session@,
        a.session@.len() == 0 ==> tree::session_name(a) == "legacy"@,
        a.session@.len() == 0 && b.session@.len() == 0 && a.pipeline@ == b.pipeline@
            && a.recorded_at@ == b.recorded_at@ ==> tree::bucket_of(a) == tree::bucket_of(b),
        a.session@.len() == 0 && b.session@.len() == 0 && a.pipeline@ == b.pipeline@
            && a.recorded_at@ != b.recorded_at@ ==> tree::bucket_of(a) != tree::bucket_of(b),
{
    if a.session@.len() == 0 && b.session@.len() == 0 && a.pipeline@ == b.pipeline@
        && a.recorded_at@ != b.recorded_at@ {
        let head = "legacy\n"@ + a.pipeline@ + "\n"@;
        let x = tree::bucket_of(a);
        let y = tree::bucket_of(b);
        assert(x.skip(head.len() as int) =~= a.recorded_at@);
        assert(y.skip(head.len() as int) =~= b.recorded_at@);
    }
}

/// There is a tree for every row that is asked for and for no other, and it is
/// named and dated by the last of its rows.
pub proof fn law_trees_are_of_their_rows(
    rows: Seq<RunLine>,
    pipeline: Option<Seq<char>>,
    bucket: Seq<char>,
    n: int,
)
    requires
        0 <= n <= rows.len(),
    ensures
        tree::buckets(rows, pipeline, n).contains(bucket) <==> exists|i: int|
            0 <= i < n && tree::wanted(#[trigger] rows[i], pipeline) && tree::bucket_of(rows[i])
                == bucket,
        forall|i: int|
            0 <= i < n && tree::wanted(#[trigger] rows[i], pipeline) && tree::bucket_of(rows[i])
                == bucket && (forall|j: int|
                i < j < n ==> !(tree::wanted(#[trigger] rows[j], pipeline) && tree::bucket_of(
                    rows[j],
                ) == bucket)) ==> tree::last_of(rows, pipeline, bucket, n) == (
                tree::session_name(rows[i]),
                rows[i].pipeline@,
                rows[i].recorded_at@,
            ),
        n > 0 && tree::wanted(rows[n - 1], pipeline) && tree::bucket_of(rows[n - 1]) == bucket
            ==> tree::nodes_of(rows, pipeline, bucket, n) == tree::with_run(
            tree::nodes_of(rows, pipeline, bucket, n - 1),
            rows[n - 1],
        ),
        n > 0 && !(tree::wanted(rows[n - 1], pipeline) && tree::bucket_of(rows[n - 1]) == bucket)
            ==> tree::nodes_of(rows, pipeline, bucket, n) == tree::nodes_of(
            rows,
            pipeline,
            bucket,
            n - 1,
        ),
    decreases n,
{
    if n > 0 {
        law_trees_are_of_their_rows(rows, pipeline, bucket, n - 1);
        assert(rows[n - 1] == rows[n - 1]);
        assert forall|i: int|
            0 <= i < n && tree::wanted(#[trigger] rows[i], pipeline) && tree::bucket_of(rows[i])
                == bucket && (forall|j: int|
                i < j < n ==> !(tree::wanted(#[trigger] rows[j], pipeline) && tree::bucket_of(
                    rows[j],
                ) == bucket)) implies tree::last_of(rows, pipeline, bucket, n) == (
            tree::session_name(rows[i]),
            rows[i].pipeline@,
            rows[i].recorded_at@,
        ) by {
            if i < n - 1 {
                assert(!(tree::wanted(rows[n - 1], pipeline) && tree::bucket_of(rows[n - 1])
                    == bucket));
            }
        }
    }
}

// ── Edges ──

proof fn lemma_needs(p: Proc, n: int, e: (Seq<char>, Seq<char>))
    requires
        0 <= n <= p.needs@.len(),
    ensures
        tree::need_edges(p, n).contains(e) <==> e.1 == p.name@ && exists|i: int|
            0 <= i < n && e.0 == text::front_spec((#[trigger] p.needs@[i])@, "@"@),
    decreases n,
{
    let now = tree::need_edges(p, n);
    if n > 0 {
        lemma_needs(p, n - 1, e);
        let before = tree::need_edges(p, n - 1);
        assert(now[before.len() as int] == (text::front_spec(p.needs@[n - 1]@, "@"@), p.name@));
        if before.contains(e) {
            let i = choose|i: int| 0 <= i < before.len() && before[i] == e;
            assert(now[i] == e);
        }
        if now.contains(e) {
            let i = choose|i: int| 0 <= i < now.len() && now[i] == e;
            if i < before.len() {
                assert(before[i] == e);
            } else {
                assert(e.0 == text::front_spec(p.needs@[n - 1]@, "@"@));
            }
        }
    }
}

/// An edge leads to a proc from everything that it says it needs, without the sign
/// in front, and from nothing else.
pub proof fn law_edges_lead_from_needs(procs: Seq<Proc>, n: int, e: (Seq<char>, Seq<char>))
    requires
        0 <= n <= procs.len(),
    ensures
        tree::edges_of(procs, n).contains(e) <==> exists|p: int, i: int|
            0 <= p < n && 0 <= i < procs[p].needs@.len() && e.1 == procs[p].name@ && e.0
                == text::front_spec((#[trigger] procs[p].needs@[i])@, "@"@),
    decreases n,
{
    if n > 0 {
        law_edges_lead_from_needs(procs, n - 1, e);
        let p = procs[n - 1];
        lemma_needs(p, p.needs@.len() as int, e);
        vstd::seq_lib::lemma_seq_concat_contains_all_elements(
            tree::edges_of(procs, n - 1),
            tree::need_edges(p, p.needs@.len() as int),
            e,
        );
        if tree::need_edges(p, p.needs@.len() as int).contains(e) {
            let i = choose|i: int|
                0 <= i < p.needs@.len() && e.0 == text::front_spec((#[trigger] p.needs@[i])@, "@"@);
            assert(procs[n - 1].needs@[i] == p.needs@[i]);
        }
        if exists|q: int, i: int|
            0 <= q < n && 0 <= i < procs[q].needs@.len() && e.1 == procs[q].name@ && e.0
                == text::front_spec((#[trigger] procs[q].needs@[i])@, "@"@) {
            let (q, i) = choose|q: int, i: int|
                0 <= q < n && 0 <= i < procs[q].needs@.len() && e.1 == procs[q].name@ && e.0
                    == text::front_spec((#[trigger] procs[q].needs@[i])@, "@"@);
            if q == n - 1 {
                assert(p.needs@[i] == procs[q].needs@[i]);
            } else {
                assert(0 <= q < n - 1 && procs[q].needs@[i] == procs[q].needs@[i]);
            }
        }
    }
}

// ── Shown ──

/// A proc that went well is shown with a tick, any other with a cross, and with its
/// name behind it.
pub proof fn law_ticks_and_crosses(n: GNode)
    ensures
        n.status == "Ok"@ ==> ("  ✓ "@ + n.proc).is_prefix_of(tree::node_text(n)),
        n.status != "Ok"@ ==> ("  ✗ "@ + n.proc).is_prefix_of(tree::node_text(n)),
{
    reveal_strlit("  ");
    reveal_strlit(" ");
    reveal_strlit("✓");
    reveal_strlit("✗");
    reveal_strlit("  ✓ ");
    reveal_strlit("  ✗ ");
    let t = tree::node_text(n);
    let a = "  ✓ "@ + n.proc;
    let b = "  ✗ "@ + n.proc;
    assert(a =~= "  "@ + "✓"@ + " "@ + n.proc);
    assert(b =~= "  "@ + "✗"@ + " "@ + n.proc);
    if n.status == "Ok"@ {
        assert(t.subrange(0, a.len() as int) =~= a);
    } else {
        assert(t.subrange(0, b.len() as int) =~= b);
    }
}

} // verus!
