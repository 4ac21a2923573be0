//! What holds of every e-graph: no conditional implementation is ever fused, no
//! proc is lost, and the rules have been applied as far as they go.

use crate::ast::Proc;
use crate::egraph;
use crate::egraph::{GClass, GNode, Graph};
use crate::unionfind;
use vstd::prelude::*;

verus! {

/// The class holds a conditional implementation.
pub open spec fn holds_guard(c: GClass) -> bool {
    exists|i: int| 0 <= i < c.nodes.len() && (#[trigger] c.nodes[i]).guard
}

/// `c` has been put together with no other class.
pub open spec fn alone(m: Graph, c: int) -> bool {
    m.roots[c] == c && forall|x: int| 0 <= x < m.roots.len() && #[trigger] m.roots[x] == c ==> x == c
}

/// A class holds no node twice, and for each the implementation it came from.
pub open spec fn tidy(c: GClass) -> bool {
    c.nodes.no_duplicates() && c.nodes.len() == c.origins.len()
}

/// What fusing keeps of the graph `m0` that it started from.
pub open spec fn kept(m0: Graph, m: Graph) -> bool {
    &&& egraph::graph_ok(m)
    &&& m.classes.len() == m0.classes.len()
    &&& m.index == m0.index
    &&& forall|c: int|
        0 <= c < m0.classes.len() && holds_guard(#[trigger] m0.classes[c]) ==> alone(m, c)
            && m.classes[c] == m0.classes[c]
    &&& forall|x: int|
        0 <= x < m.classes.len() && m.roots[x] != x ==> #[trigger] m.classes[x] == egraph::hollow()
    &&& forall|x: int, n: Seq<char>|
        0 <= x < m0.classes.len() && #[trigger] m0.classes[x].procs.contains(n)
            ==> m.classes[m.roots[x]].procs.contains(n)
    &&& forall|r: int, n: Seq<char>|
        0 <= r < m.classes.len() && #[trigger] m.classes[r].procs.contains(n) ==> from_member(
            m0,
            m,
            r,
            n,
        )
    &&& forall|c: int| 0 <= c < m.classes.len() ==> tidy(#[trigger] m.classes[c])
    &&& forall|x: int, n: GNode|
        0 <= x < m0.classes.len() && #[trigger] m0.classes[x].nodes.contains(n)
            ==> m.classes[m.roots[x]].nodes.contains(n)
    &&& forall|r: int, n: GNode|
        0 <= r < m.classes.len() && #[trigger] m.classes[r].nodes.contains(n) ==> node_from_member(
            m0,
            m,
            r,
            n,
        )
}

/// The node comes from a class that is now together with `r`.
pub open spec fn node_from_member(m0: Graph, m: Graph, r: int, n: GNode) -> bool {
    exists|x: int|
        0 <= x < m0.classes.len() && m.roots[x] == r && #[trigger] m0.classes[x].nodes.contains(n)
}

/// The name comes from a class that is now together with `r`.
pub open spec fn from_member(m0: Graph, m: Graph, r: int, n: Seq<char>) -> bool {
    exists|x: int|
        0 <= x < m0.classes.len() && m.roots[x] == r && #[trigger] m0.classes[x].procs.contains(n)
}

proof fn lemma_with_nodes_procs(c: GClass, d: GClass, n: int)
    ensures
        egraph::with_nodes(c, d, n).procs == c.procs,
    decreases n,
{
    if n > 0 {
        lemma_with_nodes_procs(c, d, n - 1);
    }
}

/// A node that is added is there afterwards, with what was there before, and the
/// class stays tidy.
proof fn lemma_with_node(c: GClass, node: GNode, origin: (Seq<char>, int), n: GNode)
    requires
        tidy(c),
    ensures
        tidy(egraph::with_node(c, node, origin)),
        egraph::with_node(c, node, origin).nodes.contains(n) <==> c.nodes.contains(n) || n == node,
{
    let now = egraph::with_node(c, node, origin);
    if !c.nodes.contains(node) {
        assert forall|i: int, j: int| 0 <= i < now.nodes.len() && 0 <= j < now.nodes.len() && i
            != j implies now.nodes[i] != now.nodes[j] by {
            if i == c.nodes.len() {
                assert(c.nodes.contains(c.nodes[j]));
            }
            if j == c.nodes.len() {
                assert(c.nodes.contains(c.nodes[i]));
            }
        }
        if c.nodes.contains(n) {
            let i = choose|i: int| 0 <= i < c.nodes.len() && c.nodes[i] == n;
            assert(now.nodes[i] == n);
        }
        assert(now.nodes[c.nodes.len() as int] == node);
        if now.nodes.contains(n) {
            let i = choose|i: int| 0 <= i < now.nodes.len() && now.nodes[i] == n;
            if i < c.nodes.len() {
                assert(c.nodes[i] == n);
            }
        }
    }
}

/// Nodes of another class that are added are there afterwards, with what was
/// there before, and the class stays tidy.
proof fn lemma_with_nodes(c: GClass, d: GClass, k: int, n: GNode)
    requires
        tidy(c),
        0 <= k <= d.nodes.len(),
    ensures
        tidy(egraph::with_nodes(c, d, k)),
        egraph::with_nodes(c, d, k).nodes.contains(n) <==> c.nodes.contains(n) || d.nodes.take(
            k,
        ).contains(n),
    decreases k,
{
    let t = d.nodes.take(k);
    if k > 0 {
        lemma_with_nodes(c, d, k - 1, n);
        lemma_with_node(egraph::with_nodes(c, d, k - 1), d.nodes[k - 1], d.origins[k - 1], n);
        let u = d.nodes.take(k - 1);
        if t.contains(n) {
            let i = choose|i: int| 0 <= i < t.len() && t[i] == n;
            if i < k - 1 {
                assert(u[i] == n);
            }
        }
        if u.contains(n) {
            let i = choose|i: int| 0 <= i < u.len() && u[i] == n;
            assert(t[i] == n);
        }
        assert(t[k - 1] == d.nodes[k - 1]);
    }
}

/// Two classes put together have the nodes and the procs of both.
proof fn lemma_joined(c: GClass, d: GClass, n: GNode)
    requires
        tidy(c),
    ensures
        tidy(egraph::joined(c, d)),
        egraph::joined(c, d).nodes.contains(n) <==> c.nodes.contains(n) || d.nodes.contains(n),
        egraph::joined(c, d).procs == c.procs + d.procs,
{
    let base = GClass { procs: c.procs + d.procs, nodes: c.nodes, origins: c.origins };
    lemma_with_nodes(base, d, d.nodes.len() as int, n);
    lemma_with_nodes_procs(base, d, d.nodes.len() as int);
    assert(d.nodes.take(d.nodes.len() as int) =~= d.nodes);
}

/// Putting two classes together loses nothing and adds nothing. Both have the same
/// root afterwards, which was the root of one of them. Its class has the procs of
/// both, and the nodes of both, each once and with the implementation it came
/// from. The other is empty, and every other class is as it was.
pub proof fn law_merging_loses_nothing(
    m: Graph,
    a: int,
    b: int,
    x: int,
    node: GNode,
    name: Seq<char>,
)
    requires
        egraph::graph_ok(m),
        0 <= a < m.classes.len(),
        0 <= b < m.classes.len(),
        0 <= x < m.classes.len(),
        tidy(m.classes[m.roots[a]]),
        tidy(m.classes[m.roots[b]]),
    ensures
        ({
            let ra = m.roots[a];
            let rb = m.roots[b];
            let m2 = egraph::merged(m, a, b);
            let k = m2.roots[a];
            &&& m2.roots[b] == k
            &&& m2.roots[k] == k
            &&& k == ra || k == rb
            &&& m2.classes[k].nodes.contains(node) <==> m.classes[ra].nodes.contains(node)
                || m.classes[rb].nodes.contains(node)
            &&& m2.classes[k].procs.contains(name) <==> m.classes[ra].procs.contains(name)
                || m.classes[rb].procs.contains(name)
            &&& ra != rb ==> m2.classes[k].procs == m.classes[ra].procs + m.classes[rb].procs
            &&& tidy(m2.classes[k])
            &&& (x == ra || x == rb) && x != k ==> m2.classes[x] == egraph::hollow()
            &&& x != ra && x != rb ==> m2.classes[x] == m.classes[x]
            &&& m.roots[x] != ra && m.roots[x] != rb ==> m2.roots[x] == m.roots[x]
        }),
{
    let ra = m.roots[a];
    let rb = m.roots[b];
    egraph::lemma_merged(m, a, b);
    if ra != rb {
        lemma_joined(m.classes[ra], m.classes[rb], node);
        lemma_add_contains(m.classes[ra].procs, m.classes[rb].procs, name);
    }
}

/// A class has the nodes and the procs of two classes and nothing else, each node
/// once and with the implementation it came from.
pub open spec fn holds_both(k: GClass, c: GClass, d: GClass) -> bool {
    &&& tidy(k)
    &&& forall|n: GNode| #[trigger]
        k.nodes.contains(n) <==> c.nodes.contains(n) || d.nodes.contains(n)
    &&& forall|x: Seq<char>| #[trigger]
        k.procs.contains(x) <==> c.procs.contains(x) || d.procs.contains(x)
}

/// The common class of two classes holds what both held.
pub proof fn lemma_merged_holds_both(m: Graph, a: int, b: int)
    requires
        egraph::graph_ok(m),
        0 <= a < m.classes.len(),
        0 <= b < m.classes.len(),
        tidy(m.classes[m.roots[a]]),
        tidy(m.classes[m.roots[b]]),
    ensures
        ({
            let m2 = egraph::merged(m, a, b);
            &&& m2.roots[a] == m2.roots[b]
            &&& holds_both(
                m2.classes[m2.roots[a]],
                m.classes[m.roots[a]],
                m.classes[m.roots[b]],
            )
        }),
{
    let m2 = egraph::merged(m, a, b);
    let k = m2.classes[m2.roots[a]];
    let c = m.classes[m.roots[a]];
    let d = m.classes[m.roots[b]];
    law_merging_loses_nothing(m, a, b, a, arbitrary(), arbitrary());
    assert forall|n: GNode| #[trigger]
        k.nodes.contains(n) <==> c.nodes.contains(n) || d.nodes.contains(n) by {
        law_merging_loses_nothing(m, a, b, a, n, arbitrary());
    }
    assert forall|x: Seq<char>| #[trigger]
        k.procs.contains(x) <==> c.procs.contains(x) || d.procs.contains(x) by {
        law_merging_loses_nothing(m, a, b, a, arbitrary(), x);
    }
}

proof fn lemma_add_contains(a: Seq<Seq<char>>, b: Seq<Seq<char>>, n: Seq<char>)
    ensures
        (a + b).contains(n) <==> a.contains(n) || b.contains(n),
{
    if (a + b).contains(n) {
        let i = choose|i: int| 0 <= i < (a + b).len() && (a + b)[i] == n;
        if i < a.len() {
            assert(a[i] == n);
        } else {
            assert(b[i - a.len()] == n);
        }
    }
    if a.contains(n) {
        let i = choose|i: int| 0 <= i < a.len() && a[i] == n;
        assert((a + b)[i] == n);
    }
    if b.contains(n) {
        let i = choose|i: int| 0 <= i < b.len() && b[i] == n;
        assert((a + b)[i + a.len()] == n);
    }
}

/// Putting two unguarded classes together keeps what is to be kept.
proof fn lemma_merge_keeps(m0: Graph, m: Graph, a: int, b: int, rule: Seq<char>)
    requires
        kept(m0, m),
        0 <= a < m.classes.len(),
        0 <= b < m.classes.len(),
        m.roots[a] != m.roots[b],
        !egraph::guarded(m, a),
        !egraph::guarded(m, b),
    ensures
        kept(m0, egraph::counted(egraph::merged(m, a, b), rule)),
        egraph::live(egraph::counted(egraph::merged(m, a, b), rule)).len() < egraph::live(m).len(),
{
    let m2 = egraph::counted(egraph::merged(m, a, b), rule);
    let ra = m.roots[a];
    let rb = m.roots[b];
    let k = unionfind::union_root(m.ranks, ra, rb);
    let lost = if k == ra {
        rb
    } else {
        ra
    };
    egraph::lemma_merged(m, a, b);
    assert(egraph::live(m2) =~= egraph::live(egraph::merged(m, a, b)));
    let base = GClass {
        procs: m.classes[ra].procs + m.classes[rb].procs,
        nodes: m.classes[ra].nodes,
        origins: m.classes[ra].origins,
    };
    lemma_with_nodes_procs(base, m.classes[rb], m.classes[rb].nodes.len() as int);
    assert(m2.classes[k].procs == m.classes[ra].procs + m.classes[rb].procs);
    assert(m2.classes[lost] == egraph::hollow());
    assert forall|c: int| 0 <= c < m2.classes.len() implies tidy(#[trigger] m2.classes[c]) by {
        if c == k {
            lemma_joined(m.classes[ra], m.classes[rb], arbitrary());
        } else if c != lost {
            assert(m2.classes[c] == m.classes[c]);
        }
    }
    assert forall|x: int, n: GNode|
        0 <= x < m0.classes.len() && #[trigger] m0.classes[x].nodes.contains(n) implies m2.classes[m2.roots[x]].nodes.contains(
    n) by {
        assert(m.classes[m.roots[x]].nodes.contains(n));
        lemma_joined(m.classes[ra], m.classes[rb], n);
        if m.roots[x] != ra && m.roots[x] != rb {
            assert(m2.classes[m.roots[x]] == m.classes[m.roots[x]]);
        }
    }
    assert forall|r: int, n: GNode|
        0 <= r < m2.classes.len() && #[trigger] m2.classes[r].nodes.contains(n) implies node_from_member(
        m0,
        m2,
        r,
        n,
    ) by {
        if r == k {
            lemma_joined(m.classes[ra], m.classes[rb], n);
            let s = if m.classes[ra].nodes.contains(n) {
                ra
            } else {
                rb
            };
            assert(node_from_member(m0, m, s, n));
            let x = choose|x: int|
                0 <= x < m0.classes.len() && m.roots[x] == s
                    && #[trigger] m0.classes[x].nodes.contains(n);
            assert(m2.roots[x] == k && m0.classes[x].nodes.contains(n));
        } else if r == lost {
            assert(egraph::hollow().nodes.len() == 0);
        } else {
            assert(m.classes[r].nodes.contains(n));
            assert(node_from_member(m0, m, r, n));
            let x = choose|x: int|
                0 <= x < m0.classes.len() && m.roots[x] == r
                    && #[trigger] m0.classes[x].nodes.contains(n);
            assert(m2.roots[x] == r && m0.classes[x].nodes.contains(n));
        }
    }
    assert forall|c: int|
        0 <= c < m0.classes.len() && holds_guard(#[trigger] m0.classes[c]) implies alone(m2, c)
        && m2.classes[c] == m0.classes[c] by {
        assert(alone(m, c));
        let i = choose|i: int|
            0 <= i < m0.classes[c].nodes.len() && (#[trigger] m0.classes[c].nodes[i]).guard;
        assert(m.classes[c].nodes[i].guard);
        assert(ra != c) by {
            if ra == c {
                assert(m.classes[m.roots[a]].nodes[i].guard);
            }
        }
        assert(rb != c) by {
            if rb == c {
                assert(m.classes[m.roots[b]].nodes[i].guard);
            }
        }
        assert forall|x: int| 0 <= x < m2.roots.len() && #[trigger] m2.roots[x] == c implies x == c by {
            assert(m.roots[x] == c);
        }
    }
    assert forall|x: int| 0 <= x < m2.classes.len() && m2.roots[x] != x implies #[trigger] m2.classes[x]
        == egraph::hollow() by {
        assert(m.roots[m.roots[x]] == m.roots[x]);
        if x != lost && x != k {
            assert(m2.classes[x] == m.classes[x]);
        }
        if x == k {
            assert(m.roots[k] == k);
        }
    }
    assert forall|x: int, n: Seq<char>|
        0 <= x < m0.classes.len() && #[trigger] m0.classes[x].procs.contains(n) implies m2.classes[m2.roots[x]].procs.contains(
    n) by {
        assert(m.classes[m.roots[x]].procs.contains(n));
        lemma_add_contains(m.classes[ra].procs, m.classes[rb].procs, n);
        if m.roots[x] != ra && m.roots[x] != rb {
            assert(m2.classes[m.roots[x]] == m.classes[m.roots[x]]);
        }
    }
    assert forall|r: int, n: Seq<char>|
        0 <= r < m2.classes.len() && #[trigger] m2.classes[r].procs.contains(n) implies from_member(
        m0,
        m2,
        r,
        n,
    ) by {
        if r == k {
            lemma_add_contains(m.classes[ra].procs, m.classes[rb].procs, n);
            let s = if m.classes[ra].procs.contains(n) {
                ra
            } else {
                rb
            };
            assert(from_member(m0, m, s, n));
            let x = choose|x: int|
                0 <= x < m0.classes.len() && m.roots[x] == s
                    && #[trigger] m0.classes[x].procs.contains(n);
            assert(m2.roots[x] == k && m0.classes[x].procs.contains(n));
        } else if r == lost {
            assert(egraph::hollow().procs.len() == 0);
        } else {
            assert(m.classes[r].procs.contains(n));
            assert(from_member(m0, m, r, n));
            let x = choose|x: int|
                0 <= x < m0.classes.len() && m.roots[x] == r
                    && #[trigger] m0.classes[x].procs.contains(n);
            assert(m2.roots[x] == r && m0.classes[x].procs.contains(n));
        }
    }
}

proof fn lemma_same_nodes_unguarded(m: Graph, id: int)
    requires
        0 <= id,
    ensures
        egraph::same_nodes_pair(m, id) matches Some((a, b)) ==> !egraph::guarded(m, a)
            && !egraph::guarded(m, b),
    decreases m.classes.len() - id,
{
    if id < m.classes.len() {
        lemma_same_nodes_unguarded(m, id + 1);
    }
}

proof fn lemma_same_nodes_keeps(m0: Graph, m: Graph)
    requires
        kept(m0, m),
    ensures
        kept(m0, egraph::same_nodes_closed(m)),
        egraph::live(egraph::same_nodes_closed(m)).len() <= egraph::live(m).len(),
        egraph::live(egraph::same_nodes_closed(m)).len() == egraph::live(m).len()
            ==> egraph::same_nodes_closed(m) == m && egraph::same_nodes_pair(m, 0) is None,
    decreases egraph::live(m).len(),
{
    egraph::lemma_same_nodes_pair(m, 0);
    lemma_same_nodes_unguarded(m, 0);
    match egraph::same_nodes_pair(m, 0) {
        Some((a, b)) => {
            lemma_merge_keeps(m0, m, a, b, "isomorphic_union"@);
            lemma_same_nodes_keeps(
                m0,
                egraph::counted(egraph::merged(m, a, b), "isomorphic_union"@),
            );
        },
        None => {},
    }
}

proof fn lemma_merge_pair_unguarded(m: Graph, l: Seq<(Set<int>, int)>, i: int)
    requires
        0 <= i,
    ensures
        egraph::merge_pair(m, l, i) matches Some((a, b)) ==> !egraph::guarded(m, a)
            && !egraph::guarded(m, b),
    decreases l.len() - i,
{
    if i < l.len() {
        lemma_merge_pair_unguarded(m, l, i + 1);
    }
}

proof fn lemma_same_merge_keeps(m0: Graph, m: Graph)
    requires
        kept(m0, m),
    ensures
        kept(m0, egraph::same_merge_closed(m)),
        egraph::live(egraph::same_merge_closed(m)).len() <= egraph::live(m).len(),
        egraph::live(egraph::same_merge_closed(m)).len() == egraph::live(m).len()
            ==> egraph::same_merge_closed(m) == m && !(egraph::merge_pair(
            m,
            egraph::all_merges(m, 0),
            0,
        ) is Some && egraph::apart(m, egraph::merge_pair(m, egraph::all_merges(m, 0), 0))),
    decreases egraph::live(m).len(),
{
    let p = egraph::merge_pair(m, egraph::all_merges(m, 0), 0);
    lemma_merge_pair_unguarded(m, egraph::all_merges(m, 0), 0);
    match p {
        Some((a, b)) if egraph::apart(m, p) => {
            lemma_merge_keeps(m0, m, a, b, "merge_flatten"@);
            lemma_same_merge_keeps(m0, egraph::counted(egraph::merged(m, a, b), "merge_flatten"@));
        },
        _ => {},
    }
}

proof fn lemma_cancel_with_unguarded(
    m: Graph,
    r: (int, Seq<char>),
    ws: Seq<(int, Seq<char>, Option<int>)>,
    j: int,
)
    requires
        0 <= j,
    ensures
        egraph::cancel_with(m, r, ws, j) matches Some(s) ==> !egraph::guarded(m, r.0)
            && !egraph::guarded(m, s),
    decreases ws.len() - j,
{
    if j < ws.len() && !egraph::cancels(m, r, ws[j]) {
        lemma_cancel_with_unguarded(m, r, ws, j + 1);
    }
}

proof fn lemma_cancel_pair_unguarded(
    m: Graph,
    rs: Seq<(int, Seq<char>)>,
    ws: Seq<(int, Seq<char>, Option<int>)>,
    i: int,
)
    requires
        0 <= i,
    ensures
        egraph::cancel_pair(m, rs, ws, i) matches Some((a, b)) ==> !egraph::guarded(m, a)
            && !egraph::guarded(m, b),
    decreases rs.len() - i,
{
    if i < rs.len() {
        lemma_cancel_with_unguarded(m, rs[i], ws, 0);
        lemma_cancel_pair_unguarded(m, rs, ws, i + 1);
    }
}

proof fn lemma_read_back_keeps(m0: Graph, m: Graph, procs: Seq<Proc>)
    requires
        kept(m0, m),
    ensures
        kept(m0, egraph::read_back_closed(m, procs)),
        egraph::live(egraph::read_back_closed(m, procs)).len() <= egraph::live(m).len(),
        egraph::live(egraph::read_back_closed(m, procs)).len() == egraph::live(m).len()
            ==> egraph::read_back_closed(m, procs) == m && !(egraph::cancel_pair(
            m,
            egraph::all_reads(m, procs, 0),
            egraph::all_writes(m, procs, 0),
            0,
        ) is Some && egraph::apart(
            m,
            egraph::cancel_pair(
                m,
                egraph::all_reads(m, procs, 0),
                egraph::all_writes(m, procs, 0),
                0,
            ),
        )),
    decreases egraph::live(m).len(),
{
    let rs = egraph::all_reads(m, procs, 0);
    let ws = egraph::all_writes(m, procs, 0);
    let p = egraph::cancel_pair(m, rs, ws, 0);
    lemma_cancel_pair_unguarded(m, rs, ws, 0);
    match p {
        Some((a, b)) if egraph::apart(m, p) => {
            lemma_merge_keeps(m0, m, a, b, "write_read_cancel"@);
            lemma_read_back_keeps(
                m0,
                egraph::counted(egraph::merged(m, a, b), "write_read_cancel"@),
                procs,
            );
        },
        _ => {},
    }
}

/// None of the three rules applies.
pub open spec fn at_rest(m: Graph, procs: Seq<Proc>) -> bool {
    let p2 = egraph::merge_pair(m, egraph::all_merges(m, 0), 0);
    let p3 = egraph::cancel_pair(
        m,
        egraph::all_reads(m, procs, 0),
        egraph::all_writes(m, procs, 0),
        0,
    );
    &&& egraph::same_nodes_pair(m, 0) is None
    &&& !(p2 is Some && egraph::apart(m, p2))
    &&& !(p3 is Some && egraph::apart(m, p3))
}

proof fn lemma_saturated(m0: Graph, m: Graph, procs: Seq<Proc>, n: int)
    requires
        kept(m0, m),
        0 <= n,
    ensures
        kept(m0, egraph::saturated(m, procs, n)),
        egraph::live(egraph::saturated(m, procs, n)).len() <= egraph::live(m).len(),
        at_rest(egraph::saturated(m, procs, n), procs) || egraph::live(
            egraph::saturated(m, procs, n),
        ).len() + n <= egraph::live(m).len(),
    decreases n,
{
    if n > 0 {
        let m1 = egraph::same_nodes_closed(m);
        let m2 = egraph::same_merge_closed(m1);
        let m3 = egraph::read_back_closed(m2, procs);
        lemma_same_nodes_keeps(m0, m);
        lemma_same_merge_keeps(m0, m1);
        lemma_read_back_keeps(m0, m2, procs);
        if egraph::live(m3).len() != egraph::live(m).len() {
            lemma_saturated(m0, m3, procs, n - 1);
        }
    }
}

// ── The projected graph ──

/// Each class still stands alone and lists its own proc.
spec fn untouched(m: Graph, procs: Seq<Proc>) -> bool {
    &&& m.classes.len() == procs.len()
    &&& m.roots == Seq::new(procs.len(), |i: int| i)
    &&& m.ranks.len() == procs.len()
    &&& forall|i: int| 0 <= i < procs.len() ==> (#[trigger] m.classes[i]).procs == seq![procs[i].name@]
    &&& forall|i: int| 0 <= i < procs.len() ==> tidy(#[trigger] m.classes[i])
    &&& m.index == egraph::name_index(procs, procs.len() as int)
}

proof fn lemma_index_range(procs: Seq<Proc>, n: int, k: Seq<char>)
    requires
        0 <= n <= procs.len(),
        egraph::name_index(procs, n).dom().contains(k),
    ensures
        0 <= egraph::name_index(procs, n)[k] < n,
        procs[egraph::name_index(procs, n)[k]].name@ == k,
    decreases n,
{
    if n > 0 && k != procs[n - 1].name@ {
        lemma_index_range(procs, n - 1, k);
    }
}

proof fn lemma_index_has(procs: Seq<Proc>, n: int, p: int)
    requires
        0 <= p < n <= procs.len(),
    ensures
        egraph::name_index(procs, n).dom().contains(procs[p].name@),
    decreases n,
{
    if p < n - 1 {
        lemma_index_has(procs, n - 1, p);
    }
}

proof fn lemma_impls_untouched(m: Graph, procs: Seq<Proc>, p: int, i: int)
    requires
        untouched(m, procs),
        0 <= p < procs.len(),
        0 <= i <= procs[p].plan@.len(),
    ensures
        untouched(egraph::impls_added(m, procs, p, i), procs),
    decreases i,
{
    if i > 0 {
        lemma_impls_untouched(m, procs, p, i - 1);
        lemma_index_has(procs, procs.len() as int, p);
        lemma_index_range(procs, procs.len() as int, procs[p].name@);
        let before = egraph::impls_added(m, procs, p, i - 1);
        let node = egraph::impl_node(m.index, procs[p].plan@[i - 1]);
        lemma_with_node(
            before.classes[m.index[procs[p].name@]],
            node,
            (procs[p].name@, i - 1),
            node,
        );
    }
}

proof fn lemma_procs_untouched(procs: Seq<Proc>, p: int)
    requires
        0 <= p <= procs.len(),
    ensures
        untouched(egraph::procs_added(egraph::bare_graph(procs), procs, p), procs),
    decreases p,
{
    if p > 0 {
        lemma_procs_untouched(procs, p - 1);
        lemma_impls_untouched(
            egraph::procs_added(egraph::bare_graph(procs), procs, p - 1),
            procs,
            p - 1,
            procs[p - 1].plan@.len() as int,
        );
    }
}

/// The graph of a pipeline before any class is put together with another.
pub open spec fn unfused(procs: Seq<Proc>) -> Graph {
    egraph::procs_added(egraph::bare_graph(procs), procs, procs.len() as int)
}

proof fn lemma_unfused(procs: Seq<Proc>)
    ensures
        kept(unfused(procs), unfused(procs)),
        unfused(procs).classes.len() == procs.len(),
        forall|i: int|
            0 <= i < procs.len() ==> (#[trigger] unfused(procs).classes[i]).procs
                == seq![procs[i].name@],
{
    let m = unfused(procs);
    lemma_procs_untouched(procs, procs.len() as int);
    assert forall|r: int, n: Seq<char>|
        0 <= r < m.classes.len() && #[trigger] m.classes[r].procs.contains(n) implies from_member(
        m,
        m,
        r,
        n,
    ) by {
        assert(m.roots[r] == r && m.classes[r].procs.contains(n));
    }
    assert forall|r: int, n: GNode|
        0 <= r < m.classes.len() && #[trigger] m.classes[r].nodes.contains(n) implies node_from_member(
        m,
        m,
        r,
        n,
    ) by {
        assert(m.roots[r] == r && m.classes[r].nodes.contains(n));
    }
}

proof fn lemma_egraph(procs: Seq<Proc>)
    ensures
        kept(unfused(procs), egraph::egraph_of(procs)),
        at_rest(egraph::egraph_of(procs), procs) || egraph::live(egraph::egraph_of(procs)).len()
            + 64 <= procs.len(),
{
    lemma_unfused(procs);
    lemma_saturated(unfused(procs), unfused(procs), procs, 64);
    egraph::lemma_live_finite(unfused(procs));
}

/// There are as many classes as procs.
pub proof fn lemma_class_count(procs: Seq<Proc>)
    ensures
        egraph::egraph_of(procs).classes.len() == procs.len(),
{
    lemma_egraph(procs);
    lemma_unfused(procs);
}

// ── The laws ──

/// A proc with a conditional implementation is fused with no other proc, and its
/// class is as it was before any rule was applied.
pub proof fn law_conditional_never_fused(procs: Seq<Proc>, c: int)
    requires
        0 <= c < procs.len(),
        holds_guard(unfused(procs).classes[c]),
    ensures
        alone(egraph::egraph_of(procs), c),
        egraph::egraph_of(procs).classes[c] == unfused(procs).classes[c],
{
    lemma_egraph(procs);
    lemma_unfused(procs);
}

/// Every proc is listed in the class of its root, and a class that is not a root
/// is empty.
pub proof fn law_every_proc_in_its_class(procs: Seq<Proc>, c: int)
    requires
        0 <= c < procs.len(),
    ensures
        ({
            let m = egraph::egraph_of(procs);
            &&& 0 <= m.roots[c] < procs.len()
            &&& m.roots[m.roots[c]] == m.roots[c]
            &&& m.classes[m.roots[c]].procs.contains(procs[c].name@)
            &&& m.roots[c] != c ==> m.classes[c] == egraph::hollow()
        }),
{
    lemma_egraph(procs);
    lemma_unfused(procs);
    let m0 = unfused(procs);
    assert(m0.classes[c].procs[0] == procs[c].name@);
    assert(m0.classes[c].procs.contains(procs[c].name@));
}

/// No implementation is lost: the class of a root has the nodes of just the
/// classes that were put together in it, each once and with the implementation it
/// came from.
pub proof fn law_every_node_in_its_class(procs: Seq<Proc>, c: int, node: GNode)
    requires
        0 <= c < procs.len(),
    ensures
        ({
            let m0 = unfused(procs);
            let m = egraph::egraph_of(procs);
            &&& tidy(m.classes[c])
            &&& m0.classes[c].nodes.contains(node) ==> m.classes[m.roots[c]].nodes.contains(node)
            &&& m.classes[c].nodes.contains(node) ==> node_from_member(m0, m, c, node)
        }),
{
    lemma_egraph(procs);
    lemma_unfused(procs);
}

/// A class lists only procs that were put together in it.
pub proof fn law_class_lists_only_members(procs: Seq<Proc>, r: int, n: Seq<char>)
    requires
        0 <= r < procs.len(),
        egraph::egraph_of(procs).classes[r].procs.contains(n),
    ensures
        exists|x: int|
            0 <= x < procs.len() && egraph::egraph_of(procs).roots[x] == r && (
            #[trigger] procs[x]).name@ == n,
{
    lemma_egraph(procs);
    lemma_unfused(procs);
    let m0 = unfused(procs);
    let m = egraph::egraph_of(procs);
    assert(from_member(m0, m, r, n));
    let x = choose|x: int|
        0 <= x < m0.classes.len() && m.roots[x] == r && #[trigger] m0.classes[x].procs.contains(n);
    assert(m0.classes[x].procs[0] == n);
    assert(procs[x].name@ == n);
}

/// In the finished graph no rule applies any more, unless sixty-four rounds were
/// used up, each of which left at least one class fewer.
pub proof fn law_rules_exhausted(procs: Seq<Proc>)
    ensures
        at_rest(egraph::egraph_of(procs), procs) || egraph::live(egraph::egraph_of(procs)).len()
            + 64 <= procs.len(),
{
    lemma_egraph(procs);
}

} // verus!
