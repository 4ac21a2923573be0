//! The e-graph of a pipeline: procs that compute the same thing share a class.
//!
//! Every proc starts in a class of its own; each of its implementations becomes
//! a node, made of the function that it calls and the classes that it refers
//! to. Three rules then put classes together until none applies. No rule makes
//! a new node, so every application leaves one class fewer.
//!
//! * Two classes with the same nodes are one.
//! * Merges of the same flattened set of classes are one; a merge of a single
//!   class is that class.
//! * Reading back a path that was written is the class of what was written.
//!
//! A class that holds a conditional implementation takes part in none of them.

use crate::ast::{Impl, Pipeline, Proc};
use crate::body;
use crate::order::{TextMap, TextSet};
use crate::text;
use crate::unionfind;
use crate::unionfind::UnionFind;
use vstd::prelude::*;

verus! {

// ── The model ──

/// A node: a function applied to classes.
pub struct GNode {
    pub op: Seq<char>,
    pub children: Seq<int>,
    pub guard: bool,
}

/// A class: its procs, and its nodes with the implementation each came from.
pub struct GClass {
    pub procs: Seq<Seq<char>>,
    pub nodes: Seq<GNode>,
    pub origins: Seq<(Seq<char>, int)>,
}

/// The classes, and which of them have been put together.
pub struct Graph {
    pub classes: Seq<GClass>,
    pub roots: Seq<int>,
    pub ranks: Seq<int>,
    pub index: Map<Seq<char>, int>,
    pub memo: Map<GNode, int>,
    pub hits: Map<Seq<char>, nat>,
}

/// Every class has a root and a rank, and a root is its own root.
pub open spec fn graph_ok(m: Graph) -> bool {
    &&& m.roots.len() == m.classes.len()
    &&& m.ranks.len() == m.classes.len()
    &&& forall|x: int| 0 <= x < m.roots.len() ==> 0 <= #[trigger] m.roots[x] < m.roots.len()
    &&& forall|x: int| 0 <= x < m.roots.len() ==> m.roots[#[trigger] m.roots[x]] == m.roots[x]
}

/// The classes that are their own root.
pub open spec fn live(m: Graph) -> Set<int> {
    Set::new(|x: int| 0 <= x < m.roots.len() && m.roots[x] == x)
}

/// There are finitely many live classes.
pub proof fn lemma_live_finite(m: Graph)
    ensures
        live(m).finite(),
        live(m).len() <= m.roots.len(),
{
    vstd::set_lib::lemma_int_range(0, m.roots.len() as int);
    assert(live(m).subset_of(vstd::set_lib::set_int_range(0, m.roots.len() as int)));
    vstd::set_lib::lemma_len_subset(
        live(m),
        vstd::set_lib::set_int_range(0, m.roots.len() as int),
    );
}

/// The class with the node added, unless it has it already.
pub open spec fn with_node(c: GClass, node: GNode, origin: (Seq<char>, int)) -> GClass {
    if c.nodes.contains(node) {
        c
    } else {
        GClass { procs: c.procs, nodes: c.nodes.push(node), origins: c.origins.push(origin) }
    }
}

/// The class with the first `n` nodes of `d` added.
pub open spec fn with_nodes(c: GClass, d: GClass, n: int) -> GClass
    decreases n,
{
    if n <= 0 {
        c
    } else {
        with_node(with_nodes(c, d, n - 1), d.nodes[n - 1], d.origins[n - 1])
    }
}

/// The procs and nodes of both classes, those of `c` first.
pub open spec fn joined(c: GClass, d: GClass) -> GClass {
    with_nodes(
        GClass { procs: c.procs + d.procs, nodes: c.nodes, origins: c.origins },
        d,
        d.nodes.len() as int,
    )
}

/// A class that has been emptied.
pub open spec fn hollow() -> GClass {
    GClass { procs: Seq::empty(), nodes: Seq::empty(), origins: Seq::empty() }
}

/// The hashcons with the first `n` nodes of `d` pointed at `k`.
pub open spec fn repointed(memo: Map<GNode, int>, d: GClass, n: int, k: int) -> Map<GNode, int>
    decreases n,
{
    if n <= 0 {
        memo
    } else {
        repointed(memo, d, n - 1, k).insert(d.nodes[n - 1], k)
    }
}

/// The graph with the classes of `a` and `b` put together: the class of the
/// common root has the procs and nodes of both, the other is empty.
pub open spec fn merged(m: Graph, a: int, b: int) -> Graph {
    let ra = m.roots[a];
    let rb = m.roots[b];
    if ra == rb {
        m
    } else {
        let k = unionfind::union_root(m.ranks, ra, rb);
        let lost = if k == ra {
            rb
        } else {
            ra
        };
        Graph {
            classes: m.classes.update(k, joined(m.classes[ra], m.classes[rb])).update(
                lost,
                hollow(),
            ),
            roots: unionfind::union_roots(m.roots, m.ranks, ra, rb),
            ranks: unionfind::union_ranks(m.ranks, ra, rb),
            index: m.index,
            memo: repointed(m.memo, m.classes[rb], m.classes[rb].nodes.len() as int, k),
            hits: m.hits,
        }
    }
}

/// The graph with one more application of `rule` counted.
pub open spec fn counted(m: Graph, rule: Seq<char>) -> Graph {
    Graph {
        hits: m.hits.insert(
            rule,
            if m.hits.dom().contains(rule) {
                m.hits[rule] + 1
            } else {
                1
            },
        ),
        ..m
    }
}

/// Putting two different classes together leaves one class fewer.
pub proof fn lemma_merged(m: Graph, a: int, b: int)
    requires
        graph_ok(m),
        0 <= a < m.roots.len(),
        0 <= b < m.roots.len(),
    ensures
        graph_ok(merged(m, a, b)),
        merged(m, a, b).roots.len() == m.roots.len(),
        m.roots[a] != m.roots[b] ==> live(merged(m, a, b)).len() + 1 == live(m).len(),
{
    let ra = m.roots[a];
    let rb = m.roots[b];
    if ra != rb {
        let m2 = merged(m, a, b);
        let k = unionfind::union_root(m.ranks, ra, rb);
        let lost = if k == ra {
            rb
        } else {
            ra
        };
        assert forall|x: int| 0 <= x < m2.roots.len() implies 0 <= #[trigger] m2.roots[x]
            < m2.roots.len() && m2.roots[m2.roots[x]] == m2.roots[x] by {
            assert(m.roots[m.roots[x]] == m.roots[x]);
            assert(m.roots[k] == k);
        }
        lemma_live_finite(m);
        assert(live(m2) =~= live(m).remove(lost)) by {
            assert forall|x: int| live(m2).contains(x) <==> live(m).remove(lost).contains(x) by {
                if 0 <= x < m.roots.len() {
                    assert(m.roots[m.roots[x]] == m.roots[x]);
                }
            }
        }
        assert(live(m).contains(lost));
    }
}

// ── Rule one: the same nodes ──

/// A node with each child replaced by its root.
pub open spec fn canon_node(m: Graph, n: GNode) -> GNode {
    GNode {
        op: n.op,
        children: Seq::new(n.children.len(), |i: int| m.roots[n.children[i]]),
        guard: n.guard,
    }
}

/// The nodes of a class, up to the classes put together so far.
pub open spec fn signature(m: Graph, c: int) -> Set<GNode> {
    Set::new(
        |n: GNode|
            exists|i: int|
                0 <= i < m.classes[c].nodes.len() && n == canon_node(m, #[trigger] m.classes[c].nodes[i]),
    )
}

/// A root with nodes.
pub open spec fn active(m: Graph, c: int) -> bool {
    m.roots[c] == c && m.classes[c].nodes.len() > 0
}

/// The class of `c` holds a conditional implementation.
pub open spec fn guarded(m: Graph, c: int) -> bool {
    exists|i: int|
        0 <= i < m.classes[m.roots[c]].nodes.len() && (
        #[trigger] m.classes[m.roots[c]].nodes[i]).guard
}

/// The first class from `j` on, before `id`, with the nodes of `id`.
pub open spec fn twin(m: Graph, id: int, j: int) -> Option<int>
    decreases id - j,
{
    if j >= id {
        None
    } else if active(m, j) && signature(m, j) == signature(m, id) {
        Some(j)
    } else {
        twin(m, id, j + 1)
    }
}

/// The first class from `id` on that equals an earlier one, with that one in front.
pub open spec fn same_nodes_pair(m: Graph, id: int) -> Option<(int, int)>
    decreases m.classes.len() - id,
{
    if id >= m.classes.len() {
        None
    } else {
        match twin(m, id, 0) {
            Some(j) if active(m, id) && !guarded(m, id) && !guarded(m, j) => Some((j, id)),
            _ => same_nodes_pair(m, id + 1),
        }
    }
}

/// A class found to have a twin is a root, and so is the twin.
pub proof fn lemma_twin(m: Graph, id: int, j: int)
    requires
        0 <= j,
    ensures
        twin(m, id, j) matches Some(k) ==> j <= k < id && active(m, k),
    decreases id - j,
{
    if j < id && !(active(m, j) && signature(m, j) == signature(m, id)) {
        lemma_twin(m, id, j + 1);
    }
}

/// The two classes found are different roots.
pub proof fn lemma_same_nodes_pair(m: Graph, id: int)
    requires
        0 <= id,
    ensures
        same_nodes_pair(m, id) matches Some((a, b)) ==> 0 <= a < b < m.classes.len() && m.roots[a]
            == a && m.roots[b] == b,
    decreases m.classes.len() - id,
{
    if id < m.classes.len() {
        lemma_twin(m, id, 0);
        lemma_same_nodes_pair(m, id + 1);
    }
}

/// The graph with the first rule applied until it no longer does.
pub open spec fn same_nodes_closed(m: Graph) -> Graph
    decreases live(m).len(),
{
    match same_nodes_pair(m, 0) {
        Some((a, b)) if graph_ok(m) => {
            let next = counted(merged(m, a, b), "isomorphic_union"@);
            proof {
                lemma_same_nodes_pair(m, 0);
                lemma_merged(m, a, b);
                assert(live(next) =~= live(merged(m, a, b)));
            }
            same_nodes_closed(next)
        },
        _ => m,
    }
}

// ── Rule two: the same merge ──

/// Every node of the class is a merge, and there is one.
pub open spec fn pure_merge(m: Graph, c: int) -> bool {
    m.classes[c].nodes.len() > 0 && forall|i: int|
        0 <= i < m.classes[c].nodes.len() ==> (#[trigger] m.classes[c].nodes[i]).op == "merge"@
}

/// The classes that the class of `cid` flattens to, and what has been worked
/// out on the way. `path` holds the classes being flattened: one that is met
/// again stands for itself. A path holds no class twice, so it is never longer
/// than there are classes.
pub open spec fn flat(m: Graph, cid: int, memo: Map<int, Set<int>>, path: Seq<int>) -> (
    Set<int>,
    Map<int, Set<int>>,
)
    decreases m.classes.len() - path.len(), 0int, 0int,
{
    let c = m.roots[cid];
    if memo.dom().contains(c) {
        (memo[c], memo)
    } else if path.contains(c) || path.len() >= m.classes.len() {
        (set![c], memo)
    } else if !pure_merge(m, c) {
        (set![c], memo.insert(c, set![c]))
    } else {
        let (agreed, memo2) = flat_nodes(m, c, 0, None, memo, path.push(c));
        let r = match agreed {
            Some(s) => s,
            None => set![c],
        };
        (r, memo2.insert(c, r))
    }
}

/// The set that the nodes of `c` from the `i`-th on, and `agreed`, all flatten
/// to; none where they differ.
pub open spec fn flat_nodes(
    m: Graph,
    c: int,
    i: int,
    agreed: Option<Set<int>>,
    memo: Map<int, Set<int>>,
    path: Seq<int>,
) -> (Option<Set<int>>, Map<int, Set<int>>)
    decreases m.classes.len() - path.len(), 2int, m.classes[c].nodes.len() - i,
{
    if i >= m.classes[c].nodes.len() || path.len() > m.classes.len() {
        (agreed, memo)
    } else {
        let (out, memo2) = flat_children(
            m,
            m.classes[c].nodes[i].children,
            0,
            Set::empty(),
            memo,
            path,
        );
        match agreed {
            Some(a) if a != out => (None, memo2),
            _ => flat_nodes(m, c, i + 1, Some(out), memo2, path),
        }
    }
}

/// `acc` and what the children from the `k`-th on flatten to.
pub open spec fn flat_children(
    m: Graph,
    children: Seq<int>,
    k: int,
    acc: Set<int>,
    memo: Map<int, Set<int>>,
    path: Seq<int>,
) -> (Set<int>, Map<int, Set<int>>)
    decreases m.classes.len() - path.len(), 1int, children.len() - k,
{
    if k >= children.len() || path.len() > m.classes.len() {
        (acc, memo)
    } else {
        let (s, memo2) = flat(m, children[k], memo, path);
        flat_children(m, children, k + 1, acc.union(s), memo2, path)
    }
}

/// What a merge node flattens to.
pub open spec fn flat_set(m: Graph, n: GNode) -> Set<int> {
    flat_children(m, n.children, 0, Set::empty(), Map::empty(), Seq::empty()).0
}

/// The merge nodes of class `c` from the `i`-th on: what each flattens to, and `c`.
pub open spec fn class_merges(m: Graph, c: int, i: int) -> Seq<(Set<int>, int)>
    decreases m.classes[c].nodes.len() - i,
{
    if i >= m.classes[c].nodes.len() {
        Seq::empty()
    } else if m.classes[c].nodes[i].op == "merge"@ {
        seq![(flat_set(m, m.classes[c].nodes[i]), c)] + class_merges(m, c, i + 1)
    } else {
        class_merges(m, c, i + 1)
    }
}

/// The merge nodes of all roots from `c` on.
pub open spec fn all_merges(m: Graph, c: int) -> Seq<(Set<int>, int)>
    decreases m.classes.len() - c,
{
    if c >= m.classes.len() {
        Seq::empty()
    } else if m.roots[c] == c {
        class_merges(m, c, 0) + all_merges(m, c + 1)
    } else {
        all_merges(m, c + 1)
    }
}

/// The first entry with the flattened set of the `i`-th.
pub open spec fn first_alike(l: Seq<(Set<int>, int)>, i: int, j: int) -> int
    decreases i - j,
{
    if j >= i || l[j].0 == l[i].0 {
        j
    } else {
        first_alike(l, i, j + 1)
    }
}

/// The set has exactly one member.
pub open spec fn single(s: Set<int>) -> bool {
    exists|x: int| s == set![x]
}

/// The only member.
pub open spec fn sole(s: Set<int>) -> int {
    choose|x: int| s == set![x]
}

/// The partner with which the `i`-th merge node is to be put together.
pub open spec fn merge_partner(m: Graph, l: Seq<(Set<int>, int)>, i: int) -> Option<int> {
    let other = if single(l[i].0) {
        Some(sole(l[i].0))
    } else if first_alike(l, i, 0) < i {
        Some(l[first_alike(l, i, 0)].1)
    } else {
        None
    };
    match other {
        Some(o) if m.roots[o] != m.roots[l[i].1] && !guarded(m, o) && !guarded(m, l[i].1) => Some(o),
        _ => None,
    }
}

/// The first merge node from the `i`-th on that has a partner: the two classes,
/// the kept one in front.
pub open spec fn merge_pair(m: Graph, l: Seq<(Set<int>, int)>, i: int) -> Option<(int, int)>
    decreases l.len() - i,
{
    if i >= l.len() {
        None
    } else {
        match merge_partner(m, l, i) {
            Some(o) => if single(l[i].0) {
                Some((l[i].1, o))
            } else {
                Some((o, l[i].1))
            },
            None => merge_pair(m, l, i + 1),
        }
    }
}

/// The pair names classes that are not together yet.
pub open spec fn apart(m: Graph, p: Option<(int, int)>) -> bool {
    p matches Some((a, b)) ==> 0 <= a < m.classes.len() && 0 <= b < m.classes.len() && m.roots[a]
        != m.roots[b]
}

/// The graph with the second rule applied until it no longer does.
pub open spec fn same_merge_closed(m: Graph) -> Graph
    decreases live(m).len(),
{
    let p = merge_pair(m, all_merges(m, 0), 0);
    match p {
        Some((a, b)) if graph_ok(m) && apart(m, p) => {
            let next = counted(merged(m, a, b), "merge_flatten"@);
            proof {
                lemma_merged(m, a, b);
                assert(live(next) =~= live(merged(m, a, b)));
            }
            same_merge_closed(next)
        },
        _ => m,
    }
}

// ── Rule three: reading back what was written ──

/// The first proc from the `i`-th on with this name.
pub open spec fn proc_at(procs: Seq<Proc>, name: Seq<char>, i: int) -> Option<int>
    decreases procs.len() - i,
{
    if i >= procs.len() {
        None
    } else if procs[i].name@ == name {
        Some(i)
    } else {
        proc_at(procs, name, i + 1)
    }
}

/// The text of the implementation that a node came from.
pub open spec fn origin_body(procs: Seq<Proc>, o: (Seq<char>, int)) -> Option<Seq<char>> {
    match proc_at(procs, o.0, 0) {
        Some(p) if 0 <= o.1 < procs[p].plan@.len() => Some(procs[p].plan@[o.1].body_text@),
        _ => None,
    }
}

/// The path that a node reads.
pub open spec fn read_path(procs: Seq<Proc>, n: GNode, o: (Seq<char>, int)) -> Option<Seq<char>> {
    match origin_body(procs, o) {
        Some(b) if n.op == "read"@ || n.op == "read_file"@ => body::quoted_arg_from(b, "from"@, 0),
        _ => None,
    }
}

/// The path that a node writes.
pub open spec fn write_path(procs: Seq<Proc>, n: GNode, o: (Seq<char>, int)) -> Option<Seq<char>> {
    match origin_body(procs, o) {
        Some(b) if n.op == "write"@ => body::quoted_arg_from(b, "to"@, 0),
        _ => None,
    }
}

/// The class of the first name from the `i`-th on that is a proc.
pub open spec fn first_class(index: Map<Seq<char>, int>, refs: Seq<Seq<char>>, i: int) -> Option<int>
    decreases refs.len() - i,
{
    if i >= refs.len() {
        None
    } else if index.dom().contains(refs[i]) {
        Some(index[refs[i]])
    } else {
        first_class(index, refs, i + 1)
    }
}

/// The class of what a write node writes.
pub open spec fn written_class(m: Graph, procs: Seq<Proc>, o: (Seq<char>, int)) -> Option<int> {
    match origin_body(procs, o) {
        Some(b) => first_class(m.index, body::body_refs_spec(b), 0),
        None => None,
    }
}

/// The reading nodes of class `c` from the `i`-th on: `c` and the path.
pub open spec fn class_reads(m: Graph, procs: Seq<Proc>, c: int, i: int) -> Seq<(int, Seq<char>)>
    decreases m.classes[c].nodes.len() - i,
{
    if i >= m.classes[c].nodes.len() {
        Seq::empty()
    } else {
        match read_path(procs, m.classes[c].nodes[i], m.classes[c].origins[i]) {
            Some(p) => seq![(c, p)] + class_reads(m, procs, c, i + 1),
            None => class_reads(m, procs, c, i + 1),
        }
    }
}

/// The reading nodes of all roots from `c` on.
pub open spec fn all_reads(m: Graph, procs: Seq<Proc>, c: int) -> Seq<(int, Seq<char>)>
    decreases m.classes.len() - c,
{
    if c >= m.classes.len() {
        Seq::empty()
    } else if m.roots[c] == c {
        class_reads(m, procs, c, 0) + all_reads(m, procs, c + 1)
    } else {
        all_reads(m, procs, c + 1)
    }
}

/// The writing nodes of class `c` from the `i`-th on: `c`, the path, and the
/// class of what is written.
pub open spec fn class_writes(m: Graph, procs: Seq<Proc>, c: int, i: int) -> Seq<
    (int, Seq<char>, Option<int>),
>
    decreases m.classes[c].nodes.len() - i,
{
    if i >= m.classes[c].nodes.len() {
        Seq::empty()
    } else {
        match write_path(procs, m.classes[c].nodes[i], m.classes[c].origins[i]) {
            Some(p) => seq![(c, p, written_class(m, procs, m.classes[c].origins[i]))]
                + class_writes(m, procs, c, i + 1),
            None => class_writes(m, procs, c, i + 1),
        }
    }
}

/// The writing nodes of all roots from `c` on.
pub open spec fn all_writes(m: Graph, procs: Seq<Proc>, c: int) -> Seq<
    (int, Seq<char>, Option<int>),
>
    decreases m.classes.len() - c,
{
    if c >= m.classes.len() {
        Seq::empty()
    } else if m.roots[c] == c {
        class_writes(m, procs, c, 0) + all_writes(m, procs, c + 1)
    } else {
        all_writes(m, procs, c + 1)
    }
}

/// A read of what a write wrote, not yet the class of what was written.
pub open spec fn cancels(m: Graph, r: (int, Seq<char>), w: (int, Seq<char>, Option<int>)) -> bool {
    &&& r.1 == w.1
    &&& m.roots[r.0] != m.roots[w.0]
    &&& w.2 matches Some(s) && m.roots[r.0] != m.roots[s] && !guarded(m, r.0) && !guarded(m, w.0)
        && !guarded(m, s)
}

/// The first write from the `j`-th on that cancels the read: the class of what
/// it writes.
pub open spec fn cancel_with(
    m: Graph,
    r: (int, Seq<char>),
    ws: Seq<(int, Seq<char>, Option<int>)>,
    j: int,
) -> Option<int>
    decreases ws.len() - j,
{
    if j >= ws.len() {
        None
    } else if cancels(m, r, ws[j]) {
        ws[j].2
    } else {
        cancel_with(m, r, ws, j + 1)
    }
}

/// The first read from the `i`-th on that cancels, with the class it becomes.
pub open spec fn cancel_pair(
    m: Graph,
    rs: Seq<(int, Seq<char>)>,
    ws: Seq<(int, Seq<char>, Option<int>)>,
    i: int,
) -> Option<(int, int)>
    decreases rs.len() - i,
{
    if i >= rs.len() {
        None
    } else {
        match cancel_with(m, rs[i], ws, 0) {
            Some(s) => Some((rs[i].0, s)),
            None => cancel_pair(m, rs, ws, i + 1),
        }
    }
}

/// The graph with the third rule applied until it no longer does.
pub open spec fn read_back_closed(m: Graph, procs: Seq<Proc>) -> Graph
    decreases live(m).len(),
{
    let p = cancel_pair(m, all_reads(m, procs, 0), all_writes(m, procs, 0), 0);
    match p {
        Some((a, b)) if graph_ok(m) && apart(m, p) => {
            let next = counted(merged(m, a, b), "write_read_cancel"@);
            proof {
                lemma_merged(m, a, b);
                assert(live(next) =~= live(merged(m, a, b)));
            }
            read_back_closed(next, procs)
        },
        _ => m,
    }
}

/// One application of the three rules, in order.
pub open spec fn one_round(m: Graph, procs: Seq<Proc>) -> Graph {
    read_back_closed(same_merge_closed(same_nodes_closed(m)), procs)
}

/// Up to `n` rounds, until one changes nothing.
pub open spec fn saturated(m: Graph, procs: Seq<Proc>, n: int) -> Graph
    decreases n,
{
    if n <= 0 {
        m
    } else if live(one_round(m, procs)).len() == live(m).len() {
        one_round(m, procs)
    } else {
        saturated(one_round(m, procs), procs, n - 1)
    }
}

// ── Projecting a pipeline ──

/// Each proc in a class of its own.
pub open spec fn apart_classes(procs: Seq<Proc>) -> Seq<GClass> {
    Seq::new(
        procs.len(),
        |i: int|
            GClass { procs: seq![procs[i].name@], nodes: Seq::empty(), origins: Seq::empty() },
    )
}

/// The class of each name among the first `n` procs; of a repeated name, the last.
pub open spec fn name_index(procs: Seq<Proc>, n: int) -> Map<Seq<char>, int>
    decreases n,
{
    if n <= 0 {
        Map::empty()
    } else {
        name_index(procs, n - 1).insert(procs[n - 1].name@, n - 1)
    }
}

/// The graph before any node is added.
pub open spec fn bare_graph(procs: Seq<Proc>) -> Graph {
    Graph {
        classes: apart_classes(procs),
        roots: Seq::new(procs.len(), |i: int| i),
        ranks: Seq::new(procs.len(), |i: int| 0int),
        index: name_index(procs, procs.len() as int),
        memo: Map::empty(),
        hits: Map::empty(),
    }
}

/// The names of `refs`, then those of the first `k` of `more` that are new.
pub open spec fn refs_with(refs: Seq<Seq<char>>, more: Seq<Seq<char>>, k: int) -> Seq<Seq<char>>
    decreases k,
{
    if k <= 0 {
        refs
    } else {
        let before = refs_with(refs, more, k - 1);
        if before.contains(more[k - 1]) {
            before
        } else {
            before.push(more[k - 1])
        }
    }
}

/// What an implementation refers to: its declared references, then those that
/// only its text holds.
pub open spec fn impl_refs(i: Impl) -> Seq<Seq<char>> {
    let more = body::body_refs_spec(i.body_text@);
    refs_with(text::views(i.refs@), more, more.len() as int)
}

/// The classes of those of the first `k` names that are procs.
pub open spec fn ref_classes(index: Map<Seq<char>, int>, refs: Seq<Seq<char>>, k: int) -> Seq<int>
    decreases k,
{
    if k <= 0 {
        Seq::empty()
    } else {
        let before = ref_classes(index, refs, k - 1);
        if index.dom().contains(refs[k - 1]) {
            before.push(index[refs[k - 1]])
        } else {
            before
        }
    }
}

/// The node of an implementation.
pub open spec fn impl_node(index: Map<Seq<char>, int>, i: Impl) -> GNode {
    let refs = impl_refs(i);
    GNode {
        op: body::body_op_spec(i.body_text@),
        children: ref_classes(index, refs, refs.len() as int),
        guard: i.when is Some,
    }
}

/// The graph with a node added to the class of `c`.
pub open spec fn node_added(m: Graph, c: int, node: GNode, origin: (Seq<char>, int)) -> Graph {
    let k = m.roots[c];
    Graph {
        classes: m.classes.update(k, with_node(m.classes[k], node, origin)),
        memo: m.memo.insert(node, k),
        ..m
    }
}

/// The graph with the first `i` implementations of proc `p` added.
pub open spec fn impls_added(m: Graph, procs: Seq<Proc>, p: int, i: int) -> Graph
    decreases i,
{
    if i <= 0 {
        m
    } else {
        let before = impls_added(m, procs, p, i - 1);
        node_added(
            before,
            m.index[procs[p].name@],
            impl_node(m.index, procs[p].plan@[i - 1]),
            (procs[p].name@, i - 1),
        )
    }
}

/// The graph with all implementations of the first `p` procs added.
pub open spec fn procs_added(m: Graph, procs: Seq<Proc>, p: int) -> Graph
    decreases p,
{
    if p <= 0 {
        m
    } else {
        impls_added(
            procs_added(m, procs, p - 1),
            procs,
            p - 1,
            procs[p - 1].plan@.len() as int,
        )
    }
}

/// The e-graph of a pipeline.
pub open spec fn egraph_of(procs: Seq<Proc>) -> Graph {
    saturated(procs_added(bare_graph(procs), procs, procs.len() as int), procs, 64)
}

/// The edges with one from each of the first `k` names that is another proc,
/// no edge twice.
pub open spec fn edges_from_refs(
    edges: Seq<(Seq<char>, Seq<char>)>,
    names: Seq<Seq<char>>,
    to: Seq<char>,
    refs: Seq<Seq<char>>,
    k: int,
) -> Seq<(Seq<char>, Seq<char>)>
    decreases k,
{
    if k <= 0 {
        edges
    } else {
        let before = edges_from_refs(edges, names, to, refs, k - 1);
        let e = (refs[k - 1], to);
        if names.contains(refs[k - 1]) && refs[k - 1] != to && !before.contains(e) {
            before.push(e)
        } else {
            before
        }
    }
}

/// The edges with those of the first `i` implementations of proc `p`.
pub open spec fn edges_of_impls(
    edges: Seq<(Seq<char>, Seq<char>)>,
    procs: Seq<Proc>,
    p: int,
    i: int,
) -> Seq<(Seq<char>, Seq<char>)>
    decreases i,
{
    if i <= 0 {
        edges
    } else {
        let refs = impl_refs(procs[p].plan@[i - 1]);
        edges_from_refs(
            edges_of_impls(edges, procs, p, i - 1),
            crate::ast::proc_names(procs),
            procs[p].name@,
            refs,
            refs.len() as int,
        )
    }
}

/// The edges of the first `p` procs: who must be done before whom.
pub open spec fn edges_of(procs: Seq<Proc>, p: int) -> Seq<(Seq<char>, Seq<char>)>
    decreases p,
{
    if p <= 0 {
        Seq::empty()
    } else {
        edges_of_impls(edges_of(procs, p - 1), procs, p - 1, procs[p - 1].plan@.len() as int)
    }
}

// ── The executable graph ──

/// The projection of an implementation: the function that it calls and the
/// classes that it refers to.
#[derive(Debug)]
pub struct ENode {
    pub op: String,
    pub children: Vec<usize>,
    pub when_guard: bool,
}

/// Procs that compute the same thing, with all the ways to compute it.
/// `origins[i]` is the proc and the place of the implementation behind `nodes[i]`.
#[derive(Debug)]
pub struct EClass {
    pub procs: Vec<String>,
    pub nodes: Vec<ENode>,
    pub origins: Vec<(String, usize)>,
}

/// The e-graph of a pipeline.
#[derive(Debug)]
pub struct EGraph {
    /// The names of the procs.
    pub nodes: TextSet,
    /// Who must be done before whom.
    pub edges: Vec<(String, String)>,
    pub classes: Vec<EClass>,
    pub uf: UnionFind,
    /// The class in which each proc started.
    pub proc_class: TextMap<usize>,
    /// The class of each node; the latest entry of a node counts.
    pub memo: Vec<(ENode, usize)>,
    /// How often each rule was applied.
    pub fusion_hits: TextMap<usize>,
}

/// Machine indices as mathematical ones.
pub open spec fn ints(s: Seq<usize>) -> Seq<int> {
    s.map_values(|c: usize| c as int)
}

impl ENode {
    pub open spec fn view(&self) -> GNode {
        GNode { op: self.op@, children: ints(self.children@), guard: self.when_guard }
    }
}

/// Where nodes came from.
pub open spec fn origin_views(s: Seq<(String, usize)>) -> Seq<(Seq<char>, int)> {
    s.map_values(|o: (String, usize)| (o.0@, o.1 as int))
}

impl EClass {
    pub open spec fn view(&self) -> GClass {
        GClass {
            procs: text::views(self.procs@),
            nodes: self.nodes@.map_values(|n: ENode| n@),
            origins: origin_views(self.origins@),
        }
    }
}

/// The edges as pairs of names.
pub open spec fn edge_views(s: Seq<(String, String)>) -> Seq<(Seq<char>, Seq<char>)> {
    s.map_values(|e: (String, String)| (e.0@, e.1@))
}

/// The class of each node in the first `k` entries.
pub open spec fn memo_map(s: Seq<(ENode, usize)>) -> Map<GNode, int>
    decreases s.len(),
{
    if s.len() == 0 {
        Map::empty()
    } else {
        memo_map(s.drop_last()).insert(s.last().0@, s.last().1 as int)
    }
}

/// Every child of every node is a class, and every node has its origin.
pub open spec fn classes_ok(cs: Seq<EClass>) -> bool {
    forall|c: int|
        0 <= c < cs.len() ==> {
            &&& (#[trigger] cs[c]).nodes@.len() == cs[c].origins@.len()
            &&& forall|i: int| 0 <= i < cs[c].nodes@.len() ==> children_ok(#[trigger] cs[c].nodes@[i], cs.len())
        }
}

/// Every child is one of `n` classes.
pub open spec fn children_ok(n: ENode, len: nat) -> bool {
    forall|k: int| 0 <= k < n.children@.len() ==> (#[trigger] n.children@[k]) < len
}

impl EGraph {
    /// The graph without the scheduling view.
    pub open spec fn model(self) -> Graph {
        Graph {
            classes: self.classes@.map_values(|c: EClass| c@),
            roots: self.uf.roots(),
            ranks: self.uf.ranks(),
            index: self.proc_class@.map_values(|v: usize| v as int),
            memo: memo_map(self.memo@),
            hits: self.fusion_hits@.map_values(|v: usize| v as nat),
        }
    }

    /// The classes, their roots and the index of procs fit together, and no rule
    /// has been applied more often than classes have been lost.
    pub open spec fn wf(self) -> bool {
        &&& self.uf.wf()
        &&& self.uf.roots().len() == self.classes@.len()
        &&& classes_ok(self.classes@)
        &&& self.proc_class.wf()
        &&& forall|i: int|
            0 <= i < self.proc_class.values().len() ==> (#[trigger] self.proc_class.values()[i])
                < self.classes@.len()
        &&& self.nodes.wf()
        &&& self.fusion_hits.wf()
        &&& self.hits_fit()
    }

    /// No rule has been applied more often than classes have been lost.
    pub open spec fn hits_fit(self) -> bool {
        forall|k: Seq<char>|
            self.fusion_hits@.dom().contains(k) ==> (#[trigger] self.fusion_hits@[k]) + live(
                self.model(),
            ).len() <= self.classes@.len()
    }

    /// A well-formed graph has a well-formed model.
    pub proof fn lemma_model(self)
        requires
            self.wf(),
        ensures
            graph_ok(self.model()),
    {
        self.uf.lemma_roots();
    }

    /// The root of a class.
    pub fn canon(&mut self, id: usize) -> (r: usize)
        requires
            old(self).wf(),
            id < old(self).classes@.len(),
        ensures
            final(self).wf(),
            final(self).model() == old(self).model(),
            r == old(self).model().roots[id as int],
    {
        let r = self.uf.find(id);
        assert(live(self.model()) =~= live(old(self).model()));
        r
    }

    /// The root of a class.
    pub fn canon_imm(&self, id: usize) -> (r: usize)
        requires
            self.wf(),
            id < self.classes@.len(),
        ensures
            r == self.model().roots[id as int],
    {
        self.uf.find_imm(id)
    }

    /// How many classes there are, those put together counted once.
    pub fn class_count(&self) -> (r: usize)
        requires
            self.wf(),
        ensures
            r == live(self.model()).len(),
    {
        let n: usize = self.classes.len();
        let mut count: usize = 0;
        let mut i: usize = 0;
        let ghost m = self.model();
        let ghost seen = Set::<int>::empty();
        while i < n
            invariant
                self.wf(),
                m == self.model(),
                n == self.classes@.len(),
                i <= n,
                seen.finite(),
                seen.len() == count,
                count <= i,
                forall|x: int| seen.contains(x) <==> live(m).contains(x) && x < i,
            decreases n - i,
        {
            if self.uf.find_imm(i) == i {
                proof {
                    seen = seen.insert(i as int);
                }
                count += 1;
            }
            i += 1;
        }
        assert(seen =~= live(m));
        count
    }
}

} // verus!
