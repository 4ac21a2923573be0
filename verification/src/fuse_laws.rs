//! What is put together, and why.

use crate::ast::{Impl, Proc};
use crate::body;
use crate::egraph;
use crate::egraph::{GClass, GNode, Graph};
use crate::egraph_laws;
use crate::order;
use crate::plan;
use crate::plan::Pick;
use crate::text;
use crate::unionfind;
use vstd::prelude::*;

verus! {

// ── The graph before any rule ──

/// Whether no two procs have one name.
pub open spec fn distinct(procs: Seq<Proc>) -> bool {
    forall|i: int, j: int|
        0 <= i < procs.len() && 0 <= j < procs.len() && (#[trigger] procs[i]).name@ == (
        #[trigger] procs[j]).name@ ==> i == j
}

/// The class of a name is the last proc with that name, and no other name has one.
pub proof fn law_names_have_their_class(procs: Seq<Proc>, n: int, x: Seq<char>)
    requires
        0 <= n <= procs.len(),
    ensures
        egraph::name_index(procs, n).dom().contains(x) <==> exists|i: int|
            0 <= i < n && (#[trigger] procs[i]).name@ == x,
        egraph::name_index(procs, n).dom().contains(x) ==> ({
            let k = egraph::name_index(procs, n)[x];
            &&& 0 <= k < n
            &&& procs[k].name@ == x
            &&& forall|j: int| k < j < n ==> (#[trigger] procs[j]).name@ != x
        }),
    decreases n,
{
    if n > 0 {
        law_names_have_their_class(procs, n - 1, x);
        assert(procs[n - 1].name@ == procs[n - 1].name@);
    }
}

/// A proc is the first with its name.
pub proof fn law_the_first_of_a_name_counts(procs: Seq<Proc>, name: Seq<char>, i: int, k: int)
    requires
        0 <= i <= k <= procs.len(),
        forall|j: int| i <= j < k ==> (#[trigger] procs[j]).name@ != name,
        k < procs.len() ==> procs[k].name@ == name,
    ensures
        egraph::proc_at(procs, name, i) == (if k < procs.len() {
            Some(k)
        } else {
            None
        }),
    decreases k - i,
{
    if i < k {
        assert(procs[i].name@ != name);
        law_the_first_of_a_name_counts(procs, name, i + 1, k);
    }
}

/// The node of an implementation has its function and whether it is conditional,
/// and its children are the classes of the procs that it refers to.
pub proof fn law_nodes_tell_what_implementations_do(
    index: Map<Seq<char>, int>,
    i: Impl,
    c: int,
)
    ensures
        ({
            let n = egraph::impl_node(index, i);
            let refs = egraph::impl_refs(i);
            &&& n.op == body::body_op_spec(i.body_text@)
            &&& n.guard <==> i.when is Some
            &&& n.children.contains(c) <==> exists|k: int|
                0 <= k < refs.len() && index.dom().contains(#[trigger] refs[k]) && index[refs[k]]
                    == c
        }),
{
    let refs = egraph::impl_refs(i);
    lemma_ref_classes(index, refs, refs.len() as int, c);
}

proof fn lemma_ref_classes(index: Map<Seq<char>, int>, refs: Seq<Seq<char>>, n: int, c: int)
    requires
        0 <= n <= refs.len(),
    ensures
        egraph::ref_classes(index, refs, n).contains(c) <==> exists|k: int|
            0 <= k < n && index.dom().contains(#[trigger] refs[k]) && index[refs[k]] == c,
    decreases n,
{
    if n > 0 {
        lemma_ref_classes(index, refs, n - 1, c);
        let before = egraph::ref_classes(index, refs, n - 1);
        let now = egraph::ref_classes(index, refs, n);
        if index.dom().contains(refs[n - 1]) {
            assert(now[before.len() as int] == index[refs[n - 1]]);
            if before.contains(c) {
                let j = choose|j: int| 0 <= j < before.len() && before[j] == c;
                assert(now[j] == c);
            }
            if now.contains(c) && c != index[refs[n - 1]] {
                let j = choose|j: int| 0 <= j < now.len() && now[j] == c;
                assert(before[j] == c);
            }
        }
    }
}

/// Whether a node is that of one of the first `n` implementations.
pub open spec fn made_of(
    index: Map<Seq<char>, int>,
    plan: Seq<Impl>,
    n: int,
    node: GNode,
) -> bool {
    exists|i: int| 0 <= i < n && node == egraph::impl_node(index, #[trigger] plan[i])
}

proof fn lemma_added(c: GClass, node: GNode, o: (Seq<char>, int), n: GNode)
    ensures
        egraph::with_node(c, node, o).nodes.contains(n) <==> c.nodes.contains(n) || n == node,
{
    let now = egraph::with_node(c, node, o);
    if !c.nodes.contains(node) {
        assert(now.nodes[c.nodes.len() as int] == node);
        if c.nodes.contains(n) {
            let i = choose|i: int| 0 <= i < c.nodes.len() && c.nodes[i] == n;
            assert(now.nodes[i] == n);
        }
        if now.nodes.contains(n) && n != node {
            let i = choose|i: int| 0 <= i < now.nodes.len() && now.nodes[i] == n;
            assert(c.nodes[i] == n);
        }
    }
}

proof fn lemma_impls(m: Graph, procs: Seq<Proc>, p: int, i: int, node: GNode)
    requires
        0 <= p < procs.len(),
        0 <= i <= procs[p].plan@.len(),
        0 <= m.index[procs[p].name@] < m.classes.len(),
        m.roots[m.index[procs[p].name@]] == m.index[procs[p].name@],
    ensures
        ({
            let r = egraph::impls_added(m, procs, p, i);
            let k = m.index[procs[p].name@];
            &&& r.index == m.index
            &&& r.roots == m.roots
            &&& r.classes.len() == m.classes.len()
            &&& forall|c: int|
                0 <= c < m.classes.len() && c != k ==> #[trigger] r.classes[c] == m.classes[c]
            &&& r.classes[k].nodes.contains(node) <==> m.classes[k].nodes.contains(node)
                || made_of(m.index, procs[p].plan@, i, node)
        }),
    decreases i,
{
    if i > 0 {
        lemma_impls(m, procs, p, i - 1, node);
        let before = egraph::impls_added(m, procs, p, i - 1);
        let k = m.index[procs[p].name@];
        let n = egraph::impl_node(m.index, procs[p].plan@[i - 1]);
        lemma_added(before.classes[k], n, (procs[p].name@, i - 1), node);
        if made_of(m.index, procs[p].plan@, i, node) && node != n {
            let j = choose|j: int|
                0 <= j < i && node == egraph::impl_node(m.index, #[trigger] procs[p].plan@[j]);
            assert(procs[p].plan@[j] == procs[p].plan@[j]);
            assert(made_of(m.index, procs[p].plan@, i - 1, node));
        }
        if made_of(m.index, procs[p].plan@, i - 1, node) {
            let j = choose|j: int|
                0 <= j < i - 1 && node == egraph::impl_node(m.index, #[trigger] procs[p].plan@[j]);
            assert(procs[p].plan@[j] == procs[p].plan@[j]);
            assert(made_of(m.index, procs[p].plan@, i, node));
        }
        if node == n {
            assert(procs[p].plan@[i - 1] == procs[p].plan@[i - 1]);
            assert(made_of(m.index, procs[p].plan@, i, node));
        }
    }
}

proof fn lemma_procs(procs: Seq<Proc>, p: int, c: int, node: GNode)
    requires
        distinct(procs),
        0 <= p <= procs.len(),
        0 <= c < procs.len(),
    ensures
        ({
            let m = egraph::procs_added(egraph::bare_graph(procs), procs, p);
            let index = egraph::name_index(procs, procs.len() as int);
            &&& m.index == index
            &&& m.roots == egraph::bare_graph(procs).roots
            &&& m.classes.len() == procs.len()
            &&& m.classes[c].nodes.contains(node) <==> c < p && made_of(
                index,
                procs[c].plan@,
                procs[c].plan@.len() as int,
                node,
            )
        }),
    decreases p,
{
    if p > 0 {
        lemma_procs(procs, p - 1, c, node);
        let before = egraph::procs_added(egraph::bare_graph(procs), procs, p - 1);
        law_names_have_their_class(procs, procs.len() as int, procs[p - 1].name@);
        assert(procs[p - 1].name@ == procs[p - 1].name@);
        assert(before.index[procs[p - 1].name@] == p - 1);
        lemma_impls(before, procs, p - 1, procs[p - 1].plan@.len() as int, node);
    }
}

/// The class of a proc starts with the nodes of its implementations, all of them
/// and no others.
pub proof fn law_implementations_are_nodes(procs: Seq<Proc>, c: int, node: GNode)
    requires
        distinct(procs),
        0 <= c < procs.len(),
    ensures
        egraph_laws::unfused(procs).classes[c].nodes.contains(node) <==> exists|i: int|
            0 <= i < procs[c].plan@.len() && node == egraph::impl_node(
                egraph::name_index(procs, procs.len() as int),
                #[trigger] procs[c].plan@[i],
            ),
{
    lemma_procs(procs, procs.len() as int, c, node);
}

// ── Classes with the same ways ──

/// Whether two nodes are the same but for which of the classes put together their
/// children name.
pub open spec fn like(m: Graph, a: GNode, b: GNode) -> bool {
    a.op == b.op && a.guard == b.guard && a.children.len() == b.children.len() && forall|i: int|
        0 <= i < a.children.len() ==> m.roots[#[trigger] a.children[i]] == m.roots[b.children[i]]
}

/// Whether a node is like one of a class.
pub open spec fn found_in(m: Graph, n: GNode, b: int) -> bool {
    exists|j: int|
        0 <= j < m.classes[b].nodes.len() && #[trigger] like(m, n, m.classes[b].nodes[j])
}

/// Whether every node of the one class is like one of the other.
pub open spec fn within(m: Graph, a: int, b: int) -> bool {
    forall|i: int|
        0 <= i < m.classes[a].nodes.len() ==> found_in(m, #[trigger] m.classes[a].nodes[i], b)
}

proof fn lemma_like(m: Graph, a: GNode, b: GNode)
    ensures
        like(m, a, b) <==> egraph::canon_node(m, a) == egraph::canon_node(m, b),
{
    let x = egraph::canon_node(m, a);
    let y = egraph::canon_node(m, b);
    if like(m, a, b) {
        assert forall|i: int| 0 <= i < x.children.len() implies x.children[i] == y.children[i] by {
            assert(m.roots[a.children[i]] == m.roots[b.children[i]]);
        }
        assert(x.children =~= y.children);
    }
    if x == y {
        assert(x.children.len() == a.children.len() && y.children.len() == b.children.len());
        assert forall|i: int| 0 <= i < a.children.len() implies m.roots[#[trigger] a.children[i]]
            == m.roots[b.children[i]] by {
            assert(x.children[i] == m.roots[a.children[i]]);
            assert(y.children[i] == m.roots[b.children[i]]);
        }
    }
}

proof fn lemma_signature(m: Graph, a: int, b: int)
    ensures
        egraph::signature(m, a) == egraph::signature(m, b) <==> within(m, a, b) && within(m, b, a),
{
    if egraph::signature(m, a) == egraph::signature(m, b) {
        lemma_half(m, a, b);
        lemma_half(m, b, a);
    }
    if within(m, a, b) && within(m, b, a) {
        lemma_other_half(m, a, b);
        lemma_other_half(m, b, a);
        assert(egraph::signature(m, a) =~= egraph::signature(m, b));
    }
}

proof fn lemma_half(m: Graph, a: int, b: int)
    requires
        egraph::signature(m, a) == egraph::signature(m, b),
    ensures
        within(m, a, b),
{
    assert forall|i: int| 0 <= i < m.classes[a].nodes.len() implies found_in(
        m,
        #[trigger] m.classes[a].nodes[i],
        b,
    ) by {
        let x = m.classes[a].nodes[i];
        let n = egraph::canon_node(m, x);
        assert(egraph::signature(m, a).contains(n));
        assert(egraph::signature(m, b).contains(n));
        let j = choose|j: int|
            0 <= j < m.classes[b].nodes.len() && n == egraph::canon_node(
                m,
                #[trigger] m.classes[b].nodes[j],
            );
        lemma_like(m, x, m.classes[b].nodes[j]);
        assert(like(m, x, m.classes[b].nodes[j]));
    }
}

proof fn lemma_other_half(m: Graph, a: int, b: int)
    requires
        within(m, a, b),
    ensures
        egraph::signature(m, a).subset_of(egraph::signature(m, b)),
{
    assert forall|n: GNode| egraph::signature(m, a).contains(n) implies egraph::signature(
        m,
        b,
    ).contains(n) by {
        let i = choose|i: int|
            0 <= i < m.classes[a].nodes.len() && n == egraph::canon_node(
                m,
                #[trigger] m.classes[a].nodes[i],
            );
        let x = m.classes[a].nodes[i];
        assert(found_in(m, x, b));
        let j = choose|j: int|
            0 <= j < m.classes[b].nodes.len() && #[trigger] like(m, x, m.classes[b].nodes[j]);
        lemma_like(m, x, m.classes[b].nodes[j]);
    }
}

/// Whether two classes are to be put together: both stand for themselves and have
/// nodes, none of them conditional, and each has the nodes of the other.
pub open spec fn alike(m: Graph, a: int, b: int) -> bool {
    &&& m.roots[a] == a && m.roots[b] == b
    &&& m.classes[a].nodes.len() > 0 && m.classes[b].nodes.len() > 0
    &&& !egraph_laws::holds_guard(m.classes[a]) && !egraph_laws::holds_guard(m.classes[b])
    &&& within(m, a, b) && within(m, b, a)
}

proof fn lemma_twin(m: Graph, id: int, j: int)
    requires
        0 <= j <= id < m.classes.len(),
    ensures
        match egraph::twin(m, id, j) {
            Some(k) => j <= k < id && egraph::active(m, k) && egraph::signature(m, k)
                == egraph::signature(m, id),
            None => forall|k: int|
                j <= k < id ==> !(#[trigger] egraph::active(m, k) && egraph::signature(m, k)
                    == egraph::signature(m, id)),
        },
    decreases id - j,
{
    if j < id {
        lemma_twin(m, id, j + 1);
    }
}

proof fn lemma_guards_agree(m: Graph, a: int, b: int)
    requires
        within(m, a, b),
        egraph_laws::holds_guard(m.classes[a]),
    ensures
        egraph_laws::holds_guard(m.classes[b]),
{
    let i = choose|i: int|
        0 <= i < m.classes[a].nodes.len() && (#[trigger] m.classes[a].nodes[i]).guard;
    let x = m.classes[a].nodes[i];
    assert(found_in(m, x, b));
    let j = choose|j: int|
        0 <= j < m.classes[b].nodes.len() && #[trigger] like(m, x, m.classes[b].nodes[j]);
    assert(m.classes[b].nodes[j].guard);
}

proof fn lemma_pair(m: Graph, id: int)
    requires
        0 <= id <= m.classes.len(),
    ensures
        match egraph::same_nodes_pair(m, id) {
            Some((a, b)) => 0 <= a < b < m.classes.len() && alike(m, a, b),
            None => forall|a: int, b: int|
                0 <= a < b < m.classes.len() && b >= id ==> !#[trigger] alike(m, a, b),
        },
    decreases m.classes.len() - id,
{
    if id < m.classes.len() {
        lemma_pair(m, id + 1);
        lemma_twin(m, id, 0);
        let t = egraph::twin(m, id, 0);
        let here = t is Some && egraph::active(m, id) && !egraph::guarded(m, id)
            && !egraph::guarded(m, t->0);
        if here {
            lemma_signature(m, t->0, id);
            assert(alike(m, t->0, id));
        } else {
            assert forall|a: int, b: int| 0 <= a < b < m.classes.len() && b >= id
                && egraph::same_nodes_pair(m, id) is None implies !#[trigger] alike(m, a, b) by {
                if b == id && alike(m, a, id) {
                    lemma_signature(m, a, id);
                    assert(egraph::active(m, a));
                    assert(t is Some);
                    lemma_signature(m, t->0, id);
                    if egraph_laws::holds_guard(m.classes[t->0]) {
                        lemma_guards_agree(m, t->0, id);
                    }
                    assert(!egraph::guarded(m, id));
                    assert(!egraph::guarded(m, t->0));
                }
            }
        }
    }
}

/// The first rule puts two classes together exactly as long as there are two that
/// are alike.
pub proof fn law_classes_that_are_alike_are_put_together(m: Graph)
    ensures
        match egraph::same_nodes_pair(m, 0) {
            Some((a, b)) => 0 <= a < b < m.classes.len() && alike(m, a, b),
            None => forall|a: int, b: int|
                0 <= a < b < m.classes.len() ==> !#[trigger] alike(m, a, b),
        },
{
    lemma_pair(m, 0);
}

/// An application of a rule is counted once, for that rule alone.
pub proof fn law_applications_are_counted(m: Graph, rule: Seq<char>, other: Seq<char>)
    ensures
        ({
            let c = egraph::counted(m, rule);
            &&& c.hits.dom().contains(rule)
            &&& m.hits.dom().contains(rule) ==> c.hits[rule] == m.hits[rule] + 1
            &&& !m.hits.dom().contains(rule) ==> c.hits[rule] == 1
            &&& other != rule ==> c.hits.dom().contains(other) == m.hits.dom().contains(other)
            &&& other != rule && m.hits.dom().contains(other) ==> c.hits[other] == m.hits[other]
            &&& c.classes == m.classes && c.roots == m.roots && c.index == m.index
        }),
{
}

// ── Reading what was written ──

/// A node reads a file where it calls a function that reads one, and writes one
/// where it calls the function that writes: the file that its text names.
pub proof fn law_nodes_read_and_write_files(procs: Seq<Proc>, n: GNode, p: int, i: int)
    requires
        0 <= p < procs.len(),
        0 <= i < procs[p].plan@.len(),
        forall|j: int| 0 <= j < p ==> (#[trigger] procs[j]).name@ != procs[p].name@,
    ensures
        ({
            let o = (procs[p].name@, i);
            let b = procs[p].plan@[i].body_text@;
            &&& n.op == "read"@ || n.op == "read_file"@ ==> egraph::read_path(procs, n, o)
                == body::quoted_arg_from(b, "from"@, 0)
            &&& n.op != "read"@ && n.op != "read_file"@ ==> egraph::read_path(procs, n, o) is None
            &&& n.op == "write"@ ==> egraph::write_path(procs, n, o) == body::quoted_arg_from(
                b,
                "to"@,
                0,
            )
            &&& n.op != "write"@ ==> egraph::write_path(procs, n, o) is None
        }),
{
    law_the_first_of_a_name_counts(procs, procs[p].name@, 0, p);
}

/// What is written is the first reference that is a proc.
pub proof fn law_the_first_proc_is_written(
    index: Map<Seq<char>, int>,
    refs: Seq<Seq<char>>,
    i: int,
    k: int,
)
    requires
        0 <= i <= k <= refs.len(),
        forall|j: int| i <= j < k ==> !index.dom().contains(#[trigger] refs[j]),
        k < refs.len() ==> index.dom().contains(refs[k]),
    ensures
        egraph::first_class(index, refs, i) == (if k < refs.len() {
            Some(index[refs[k]])
        } else {
            None
        }),
    decreases k - i,
{
    if i < k {
        assert(!index.dom().contains(refs[i]));
        law_the_first_proc_is_written(index, refs, i + 1, k);
    }
}

/// Whether a read gives back what a write wrote: of the same file, in classes that
/// are not together, what was written is known and not yet together with the read,
/// and nothing about it is conditional.
pub open spec fn gives_back(
    m: Graph,
    r: (int, Seq<char>),
    w: (int, Seq<char>, Option<int>),
) -> bool {
    &&& w.1 == r.1
    &&& w.2 is Some
    &&& m.roots[w.0] != m.roots[r.0]
    &&& m.roots[w.2->0] != m.roots[r.0]
    &&& !egraph_laws::holds_guard(m.classes[m.roots[r.0]])
    &&& !egraph_laws::holds_guard(m.classes[m.roots[w.0]])
    &&& !egraph_laws::holds_guard(m.classes[m.roots[w.2->0]])
}

proof fn lemma_cancel_with(
    m: Graph,
    r: (int, Seq<char>),
    ws: Seq<(int, Seq<char>, Option<int>)>,
    j: int,
)
    requires
        0 <= j <= ws.len(),
    ensures
        match egraph::cancel_with(m, r, ws, j) {
            Some(s) => exists|k: int|
                j <= k < ws.len() && #[trigger] gives_back(m, r, ws[k]) && ws[k].2 == Some(s),
            None => forall|k: int| j <= k < ws.len() ==> !#[trigger] gives_back(m, r, ws[k]),
        },
    decreases ws.len() - j,
{
    if j < ws.len() {
        lemma_cancel_with(m, r, ws, j + 1);
        assert(egraph::cancels(m, r, ws[j]) <==> gives_back(m, r, ws[j]));
    }
}

/// The third rule puts a read together with what was written exactly as long as
/// some read gives back what some write wrote.
pub proof fn law_reads_give_back_what_was_written(
    m: Graph,
    rs: Seq<(int, Seq<char>)>,
    ws: Seq<(int, Seq<char>, Option<int>)>,
    i: int,
)
    requires
        0 <= i <= rs.len(),
    ensures
        match egraph::cancel_pair(m, rs, ws, i) {
            Some((a, b)) => exists|x: int, y: int|
                i <= x < rs.len() && 0 <= y < ws.len() && #[trigger] gives_back(m, rs[x], ws[y])
                    && rs[x].0 == a && ws[y].2 == Some(b),
            None => forall|x: int, y: int|
                i <= x < rs.len() && 0 <= y < ws.len() ==> !#[trigger] gives_back(
                    m,
                    rs[x],
                    ws[y],
                ),
        },
    decreases rs.len() - i,
{
    if i < rs.len() {
        law_reads_give_back_what_was_written(m, rs, ws, i + 1);
        lemma_cancel_with(m, rs[i], ws, 0);
        let c = egraph::cancel_with(m, rs[i], ws, 0);
        if c is Some {
            let y = choose|k: int|
                0 <= k < ws.len() && #[trigger] gives_back(m, rs[i], ws[k]) && ws[k].2 == Some(
                    c->0,
                );
            assert(gives_back(m, rs[i], ws[y]));
        }
    }
}

/// The reads of a graph are those of the nodes of its roots.
pub proof fn law_all_reads_are_seen(
    m: Graph,
    procs: Seq<Proc>,
    c: int,
    x: (int, Seq<char>),
)
    requires
        0 <= c <= m.classes.len(),
    ensures
        egraph::all_reads(m, procs, c).contains(x) <==> c <= x.0 < m.classes.len() && m.roots[x.0]
            == x.0 && exists|i: int|
            0 <= i < m.classes[x.0].nodes.len() && egraph::read_path(
                procs,
                #[trigger] m.classes[x.0].nodes[i],
                m.classes[x.0].origins[i],
            ) == Some(x.1),
    decreases m.classes.len() - c,
{
    if c < m.classes.len() {
        law_all_reads_are_seen(m, procs, c + 1, x);
        lemma_class_reads(m, procs, c, 0, x);
        if m.roots[c] == c {
            vstd::seq_lib::lemma_seq_concat_contains_all_elements(
                egraph::class_reads(m, procs, c, 0),
                egraph::all_reads(m, procs, c + 1),
                x,
            );
        }
    }
}

proof fn lemma_class_reads(m: Graph, procs: Seq<Proc>, c: int, i: int, x: (int, Seq<char>))
    requires
        0 <= i <= m.classes[c].nodes.len(),
    ensures
        egraph::class_reads(m, procs, c, i).contains(x) <==> x.0 == c && exists|k: int|
            i <= k < m.classes[c].nodes.len() && egraph::read_path(
                procs,
                #[trigger] m.classes[c].nodes[k],
                m.classes[c].origins[k],
            ) == Some(x.1),
    decreases m.classes[c].nodes.len() - i,
{
    if i < m.classes[c].nodes.len() {
        lemma_class_reads(m, procs, c, i + 1, x);
        let n = m.classes[c].nodes[i];
        let p = egraph::read_path(procs, n, m.classes[c].origins[i]);
        if p is Some {
            let one = seq![(c, p->0)];
            vstd::seq_lib::lemma_seq_concat_contains_all_elements(
                one,
                egraph::class_reads(m, procs, c, i + 1),
                x,
            );
            assert(one[0] == (c, p->0));
            assert(one.contains(x) <==> x == (c, p->0));
        }
    }
}

// ── Sets ──

/// After a union two members are together where they were, or where each was with
/// one of the two; the root of the higher rank stays the root.
pub proof fn law_unions_put_two_sets_together(
    roots: Seq<int>,
    ranks: Seq<int>,
    a: int,
    b: int,
    x: int,
    y: int,
)
    requires
        0 <= x < roots.len(),
        0 <= y < roots.len(),
        0 <= a < ranks.len(),
        0 <= b < ranks.len(),
        a != b,
    ensures
        ({
            let now = unionfind::union_roots(roots, ranks, a, b);
            let touched = |z: int| roots[z] == a || roots[z] == b;
            &&& touched(x) && touched(y) ==> now[x] == now[y]
            &&& !touched(x) ==> now[x] == roots[x]
            &&& touched(x) && ranks[a] >= ranks[b] ==> now[x] == a
            &&& touched(x) && ranks[a] < ranks[b] ==> now[x] == b
            &&& now.len() == roots.len()
        }),
        ranks[a] == ranks[b] ==> unionfind::union_ranks(ranks, a, b)[a] == ranks[a] + 1,
        ranks[a] != ranks[b] ==> unionfind::union_ranks(ranks, a, b) == ranks,
{
}

// ── Choosing ──

/// The candidates of a proc are its enabled implementations, with their costs and
/// whether they only read a file.
pub proof fn law_candidates_are_enabled(p: Proc, i: int, x: Pick)
    requires
        0 <= i <= p.plan@.len(),
    ensures
        plan::proc_pool(p, i).contains(x) <==> exists|k: int|
            i <= k < p.plan@.len() && stands_for(p, #[trigger] p.plan@[k], x),
    decreases p.plan@.len() - i,
{
    if i < p.plan@.len() {
        law_candidates_are_enabled(p, i + 1, x);
        let m = p.plan@[i];
        if m.enabled {
            let one = Pick {
                proc: p.name@,
                imp: m.name@,
                cost: m.cost_key as int,
                reads: plan::only_reads(m),
            };
            vstd::seq_lib::lemma_seq_concat_contains_all_elements(
                seq![one],
                plan::proc_pool(p, i + 1),
                x,
            );
            assert(seq![one][0] == one);
            assert(seq![one].contains(x) <==> x == one);
            assert(stands_for(p, m, x) <==> x == one);
        }
    }
}

/// Whether a candidate is this implementation.
pub open spec fn stands_for(p: Proc, i: Impl, x: Pick) -> bool {
    &&& i.enabled
    &&& x.proc == p.name@ && x.imp == i.name@ && x.cost == i.cost_key
    &&& x.reads <==> body::body_op_spec(i.body_text@) == "read"@ || body::body_op_spec(
        i.body_text@,
    ) == "read_file"@
}

/// The candidates of a class are those of its procs that deliver nothing.
pub proof fn law_procs_that_deliver_are_no_candidates(
    procs: Seq<Proc>,
    names: Seq<Seq<char>>,
    k: int,
    x: Pick,
)
    requires
        0 <= k <= names.len(),
    ensures
        plan::pool(procs, names, k).contains(x) <==> exists|j: int|
            k <= j < names.len() && offered(procs, #[trigger] names[j], x),
    decreases names.len() - k,
{
    if k < names.len() {
        law_procs_that_deliver_are_no_candidates(procs, names, k + 1, x);
        let p = egraph::proc_at(procs, names[k], 0);
        if p is Some && !procs[p->0].deliver {
            vstd::seq_lib::lemma_seq_concat_contains_all_elements(
                plan::proc_pool(procs[p->0], 0),
                plan::pool(procs, names, k + 1),
                x,
            );
        }
    }
}

/// Whether a candidate is one of the named proc.
pub open spec fn offered(procs: Seq<Proc>, name: Seq<char>, x: Pick) -> bool {
    let p = egraph::proc_at(procs, name, 0);
    p is Some && !procs[p->0].deliver && plan::proc_pool(procs[p->0], 0).contains(x)
}

/// The cheaper candidate is better, at equal cost the one whose proc comes first by
/// name, and of one proc the one that does.
pub proof fn law_the_cheaper_is_better(a: Pick, b: Pick)
    ensures
        a.cost < b.cost ==> plan::better(a, b) && !plan::better(b, a),
        a.cost == b.cost && order::text_lt(a.proc, b.proc) ==> plan::better(a, b),
        a.cost == b.cost && a.proc == b.proc ==> (plan::better(a, b) <==> order::text_lt(
            a.imp,
            b.imp,
        )),
        a.cost == b.cost && a.proc != b.proc ==> (plan::better(a, b) <==> order::text_lt(
            a.proc,
            b.proc,
        )),
{
    order::lemma_lt_irreflexive(a.proc);
}

/// What a plan runs is what was chosen for its classes, in their order, and each
/// with the cost of its choice.
pub proof fn law_plans_follow_the_choices(
    m: Graph,
    procs: Seq<Proc>,
    topo: Seq<int>,
    k: int,
)
    requires
        0 <= k < topo.len(),
    ensures
        ({
            let before = plan::plan_of(m, procs, topo, k);
            let now = plan::plan_of(m, procs, topo, k + 1);
            let c = plan::choice(m, procs, topo[k]);
            &&& c is None ==> now == before
            &&& c is Some ==> now.order == before.order.push(c->0.proc)
            &&& c is Some ==> now.costs == before.costs.insert(c->0.proc, c->0.cost)
            &&& c is Some ==> now.picks == before.picks.insert(
                c->0.proc,
                (c->0.proc, c->0.imp),
            )
        }),
        plan::plan_of(m, procs, topo, 0).order.len() == 0,
{
}

} // verus!
