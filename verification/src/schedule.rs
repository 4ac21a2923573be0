//! The order of a pipeline's procs: layers that can run side by side, and the
//! longest chain of procs that have to wait for one another.

use crate::egraph;
use crate::egraph::EGraph;
use crate::order;
use crate::order::TextSet;
use crate::text;
use vstd::prelude::*;

verus! {

// ── Layers ──

/// Nothing that `n` waits for is among `left`.
pub open spec fn free(n: Seq<char>, left: Seq<Seq<char>>, edges: Seq<(Seq<char>, Seq<char>)>) -> bool {
    forall|k: int| 0 <= k < edges.len() && (#[trigger] edges[k]).1 == n ==> !left.contains(edges[k].0)
}

/// The names of `left` that wait for none of `left`.
pub open spec fn layer(left: Seq<Seq<char>>, edges: Seq<(Seq<char>, Seq<char>)>) -> Seq<Seq<char>> {
    left.filter(|n: Seq<char>| free(n, left, edges))
}

/// The names of `left` that wait for one of `left`.
pub open spec fn waiting(left: Seq<Seq<char>>, edges: Seq<(Seq<char>, Seq<char>)>) -> Seq<Seq<char>> {
    left.filter(|n: Seq<char>| !free(n, left, edges))
}

/// The layers of `left`: those that wait for none of them, then the layers of
/// the others. Where each waits for another, they are one layer.
pub open spec fn layers(left: Seq<Seq<char>>, edges: Seq<(Seq<char>, Seq<char>)>) -> Seq<
    Seq<Seq<char>>,
>
    decreases left.len(),
{
    if left.len() == 0 {
        Seq::empty()
    } else if layer(left, edges).len() == 0 {
        seq![left]
    } else {
        proof {
            lemma_parts(left, edges);
        }
        seq![layer(left, edges)] + layers(waiting(left, edges), edges)
    }
}

/// Nowhere in the layering does each of the names left wait for another.
pub open spec fn orderable(left: Seq<Seq<char>>, edges: Seq<(Seq<char>, Seq<char>)>) -> bool
    decreases left.len(),
{
    if left.len() == 0 {
        true
    } else if layer(left, edges).len() == 0 {
        false
    } else {
        proof {
            lemma_parts(left, edges);
        }
        orderable(waiting(left, edges), edges)
    }
}

/// A sequence is split in two by a predicate.
pub proof fn lemma_filter_parts<A>(s: Seq<A>, p: spec_fn(A) -> bool, q: spec_fn(A) -> bool)
    requires
        forall|x: A| #[trigger] q(x) == !p(x),
    ensures
        s.filter(p).len() + s.filter(q).len() == s.len(),
        forall|x: A| s.filter(p).contains(x) <==> s.contains(x) && p(x),
        forall|x: A| s.filter(q).contains(x) <==> s.contains(x) && q(x),
    decreases s.len(),
{
    reveal(Seq::filter);
    if s.len() > 0 {
        let t = s.drop_last();
        let e = s.last();
        lemma_filter_parts(t, p, q);
        assert(s =~= t.push(e));
        t.lemma_filter_push(e, p);
        t.lemma_filter_push(e, q);
        let fp = t.filter(p);
        let fq = t.filter(q);
        assert forall|x: A| s.contains(x) <==> t.contains(x) || x == e by {
            if s.contains(x) {
                let i = choose|i: int| 0 <= i < s.len() && s[i] == x;
                if i < t.len() {
                    assert(t[i] == x);
                }
            }
            if t.contains(x) {
                let i = choose|i: int| 0 <= i < t.len() && t[i] == x;
                assert(s[i] == x);
            }
            assert(s[s.len() - 1] == e);
        }
        assert forall|x: A| fp.push(e).contains(x) <==> fp.contains(x) || x == e by {
            lemma_push_contains(fp, e, x);
        }
        assert forall|x: A| fq.push(e).contains(x) <==> fq.contains(x) || x == e by {
            lemma_push_contains(fq, e, x);
        }
    }
}

proof fn lemma_push_contains<A>(s: Seq<A>, e: A, x: A)
    ensures
        s.push(e).contains(x) <==> s.contains(x) || x == e,
{
    let t = s.push(e);
    if t.contains(x) {
        let i = choose|i: int| 0 <= i < t.len() && t[i] == x;
        if i < s.len() {
            assert(s[i] == x);
        }
    }
    if s.contains(x) {
        let i = choose|i: int| 0 <= i < s.len() && s[i] == x;
        assert(t[i] == x);
    }
    assert(t[s.len() as int] == e);
}

/// The free and the waiting names together are the names left.
pub proof fn lemma_parts(left: Seq<Seq<char>>, edges: Seq<(Seq<char>, Seq<char>)>)
    ensures
        layer(left, edges).len() + waiting(left, edges).len() == left.len(),
        forall|x: Seq<char>|
            layer(left, edges).contains(x) <==> left.contains(x) && free(x, left, edges),
        forall|x: Seq<char>|
            waiting(left, edges).contains(x) <==> left.contains(x) && !free(x, left, edges),
{
    let p = |n: Seq<char>| free(n, left, edges);
    let q = |n: Seq<char>| !free(n, left, edges);
    lemma_filter_parts(left, p, q);
    assert forall|x: Seq<char>|
        layer(left, edges).contains(x) <==> left.contains(x) && free(x, left, edges) by {
        assert(left.filter(p).contains(x) <==> left.contains(x) && p(x));
    }
    assert forall|x: Seq<char>|
        waiting(left, edges).contains(x) <==> left.contains(x) && !free(x, left, edges) by {
        assert(left.filter(q).contains(x) <==> left.contains(x) && q(x));
    }
}

/// The layers hold exactly the names they are made of.
pub proof fn law_layers_cover(left: Seq<Seq<char>>, edges: Seq<(Seq<char>, Seq<char>)>, n: Seq<char>)
    ensures
        left.contains(n) <==> exists|i: int|
            0 <= i < layers(left, edges).len() && (#[trigger] layers(left, edges)[i]).contains(n),
    decreases left.len(),
{
    let ls = layers(left, edges);
    if left.len() == 0 {
    } else if layer(left, edges).len() == 0 {
        assert(ls[0] == left);
    } else {
        lemma_parts(left, edges);
        let rest = layers(waiting(left, edges), edges);
        law_layers_cover(waiting(left, edges), edges, n);
        if left.contains(n) {
            if free(n, left, edges) {
                assert(ls[0].contains(n));
            } else {
                let i = choose|i: int| 0 <= i < rest.len() && (#[trigger] rest[i]).contains(n);
                assert(ls[i + 1] == rest[i]);
            }
        }
        if exists|i: int| 0 <= i < ls.len() && (#[trigger] ls[i]).contains(n) {
            let i = choose|i: int| 0 <= i < ls.len() && (#[trigger] ls[i]).contains(n);
            if i > 0 {
                assert(rest[i - 1] == ls[i]);
            }
        }
    }
}

/// No name stands in two layers.
pub proof fn law_layers_disjoint(
    left: Seq<Seq<char>>,
    edges: Seq<(Seq<char>, Seq<char>)>,
    n: Seq<char>,
    i: int,
    j: int,
)
    requires
        0 <= i < layers(left, edges).len(),
        0 <= j < layers(left, edges).len(),
        layers(left, edges)[i].contains(n),
        layers(left, edges)[j].contains(n),
    ensures
        i == j,
    decreases left.len(),
{
    if left.len() > 0 && layer(left, edges).len() > 0 {
        let ls = layers(left, edges);
        let w = waiting(left, edges);
        let rest = layers(w, edges);
        lemma_parts(left, edges);
        law_layers_cover(w, edges, n);
        if i > 0 {
            assert(rest[i - 1] == ls[i]);
        }
        if j > 0 {
            assert(rest[j - 1] == ls[j]);
        }
        if i > 0 && j > 0 {
            law_layers_disjoint(w, edges, n, i - 1, j - 1);
        } else if i > 0 {
            assert(rest[i - 1].contains(n));
            assert(w.contains(n));
        } else if j > 0 {
            assert(rest[j - 1].contains(n));
            assert(w.contains(n));
        }
    }
}

/// What a name waits for stands in an earlier layer; only in the last layer,
/// and only where the names wait for one another in a ring, may it not.
pub proof fn law_layers_respect_edges(
    left: Seq<Seq<char>>,
    edges: Seq<(Seq<char>, Seq<char>)>,
    k: int,
    i: int,
    j: int,
)
    requires
        0 <= k < edges.len(),
        0 <= i < layers(left, edges).len(),
        0 <= j < layers(left, edges).len(),
        layers(left, edges)[i].contains(edges[k].0),
        layers(left, edges)[j].contains(edges[k].1),
    ensures
        i < j || (!orderable(left, edges) && j == layers(left, edges).len() - 1),
    decreases left.len(),
{
    if left.len() > 0 && layer(left, edges).len() > 0 {
        let ls = layers(left, edges);
        let w = waiting(left, edges);
        let rest = layers(w, edges);
        lemma_parts(left, edges);
        law_layers_cover(left, edges, edges[k].0);
        assert(left.contains(edges[k].0));
        if j == 0 {
            assert(free(edges[k].1, left, edges));
            assert(false);
        } else {
            assert(rest[j - 1] == ls[j]);
            if i > 0 {
                assert(rest[i - 1] == ls[i]);
                law_layers_respect_edges(w, edges, k, i - 1, j - 1);
            }
        }
    }
}

/// Whether nothing that `n` waits for is among `left`.
fn is_free(n: &str, left: &Vec<String>, edges: &Vec<(String, String)>) -> (r: bool)
    ensures
        r == free(n@, text::views(left@), egraph::edge_views(edges@)),
{
    let ghost lv = text::views(left@);
    let ghost ev = egraph::edge_views(edges@);
    let mut k: usize = 0;
    while k < edges.len()
        invariant
            k <= edges@.len(),
            lv == text::views(left@),
            ev == egraph::edge_views(edges@),
            forall|j: int| 0 <= j < k && (#[trigger] ev[j]).1 == n@ ==> !lv.contains(ev[j].0),
        decreases edges@.len() - k,
    {
        assert(ev[k as int] == (edges@[k as int].0@, edges@[k as int].1@));
        if text::same(edges[k].1.as_str(), n) && text::is_one_of(edges[k].0.as_str(), left) {
            return false;
        }
        k += 1;
    }
    true
}

/// The free names of `left`, and the others.
fn split_layer(left: &Vec<String>, edges: &Vec<(String, String)>) -> (r: (
    Vec<String>,
    Vec<String>,
))
    ensures
        text::views(r.0@) == layer(text::views(left@), egraph::edge_views(edges@)),
        text::views(r.1@) == waiting(text::views(left@), egraph::edge_views(edges@)),
{
    let ghost lv = text::views(left@);
    let ghost ev = egraph::edge_views(edges@);
    let ghost p = |n: Seq<char>| free(n, lv, ev);
    let ghost q = |n: Seq<char>| !free(n, lv, ev);
    let mut a: Vec<String> = Vec::new();
    let mut b: Vec<String> = Vec::new();
    let mut i: usize = 0;
    proof {
        reveal(Seq::filter);
        assert(lv.take(0).filter(p) =~= text::views(a@));
        assert(lv.take(0).filter(q) =~= text::views(b@));
    }
    while i < left.len()
        invariant
            i <= left@.len(),
            lv == text::views(left@),
            ev == egraph::edge_views(edges@),
            p == (|n: Seq<char>| free(n, lv, ev)),
            q == (|n: Seq<char>| !free(n, lv, ev)),
            text::views(a@) == lv.take(i as int).filter(p),
            text::views(b@) == lv.take(i as int).filter(q),
        decreases left@.len() - i,
    {
        let ghost x = lv[i as int];
        let ghost a0 = a@;
        let ghost b0 = b@;
        proof {
            assert(lv.take(i + 1) =~= lv.take(i as int).push(x));
            lv.take(i as int).lemma_filter_push(x, p);
            lv.take(i as int).lemma_filter_push(x, q);
            assert(p(x) == free(x, lv, ev));
            assert(q(x) == !free(x, lv, ev));
        }
        if is_free(left[i].as_str(), left, edges) {
            a.push(left[i].clone());
            assert(text::views(a@) =~= text::views(a0).push(x));
        } else {
            b.push(left[i].clone());
            assert(text::views(b@) =~= text::views(b0).push(x));
        }
        i += 1;
    }
    assert(lv.take(i as int) =~= lv);
    (a, b)
}

/// The texts that sequences of strings hold.
pub open spec fn views2(v: Seq<Vec<String>>) -> Seq<Seq<Seq<char>>> {
    v.map_values(|x: Vec<String>| text::views(x@))
}

/// The layers of procs that can run side by side, in the order in which they
/// have to run.
pub fn parallel_groups(eg: &EGraph) -> (r: Vec<Vec<String>>)
    ensures
        views2(r@) == layers(eg.nodes.seq(), egraph::edge_views(eg.edges@)),
{
    let ghost ev = egraph::edge_views(eg.edges@);
    let ghost all = eg.nodes.seq();
    let mut left = eg.nodes.to_vec();
    let mut out: Vec<Vec<String>> = Vec::new();
    assert(views2(out@) + layers(all, ev) =~= layers(all, ev));
    while left.len() > 0
        invariant
            ev == egraph::edge_views(eg.edges@),
            all == eg.nodes.seq(),
            views2(out@) + layers(text::views(left@), ev) == layers(all, ev),
        decreases left@.len(),
    {
        let ghost lv = text::views(left@);
        let ghost out0 = out@;
        let (now, later) = split_layer(&left, &eg.edges);
        proof {
            lemma_parts(lv, ev);
            assert(text::views(now@).len() == now@.len());
            assert(text::views(later@).len() == later@.len());
        }
        if now.len() == 0 {
            out.push(left);
            assert(views2(out@) =~= views2(out0) + seq![lv]);
            return out;
        }
        let ghost nv = text::views(now@);
        out.push(now);
        left = later;
        proof {
            let rest = layers(text::views(left@), ev);
            assert(views2(out@) =~= views2(out0).push(nv));
            assert(views2(out@) + rest =~= views2(out0) + (seq![nv] + rest));
        }
    }
    assert(views2(out@) + layers(text::views(left@), ev) =~= views2(out@));
    out
}

// ── The longest chain ──

/// A chain of `k` edges ends in `n`.
pub open spec fn chain(edges: Seq<(Seq<char>, Seq<char>)>, n: Seq<char>, k: int) -> bool
    decreases k,
{
    k <= 0 || exists|e: int|
        0 <= e < edges.len() && (#[trigger] edges[e]).1 == n && chain(edges, edges[e].0, k - 1)
}

/// The longest chain that ends in `n` has `d` edges.
pub open spec fn depth_is(edges: Seq<(Seq<char>, Seq<char>)>, n: Seq<char>, d: int) -> bool {
    chain(edges, n, d) && !chain(edges, n, d + 1)
}

/// Where there is a chain there is a shorter one.
proof fn lemma_chain_shorter(edges: Seq<(Seq<char>, Seq<char>)>, n: Seq<char>, k: int, j: int)
    requires
        chain(edges, n, k),
        j <= k,
    ensures
        chain(edges, n, j),
    decreases j,
{
    if j > 0 {
        let e = choose|e: int|
            0 <= e < edges.len() && (#[trigger] edges[e]).1 == n && chain(
                edges,
                edges[e].0,
                k - 1,
            );
        lemma_chain_shorter(edges, edges[e].0, k - 1, j - 1);
        assert(edges[e].1 == n && chain(edges, edges[e].0, j - 1));
    }
}

/// Every name that occurs: the procs, and the ends of the edges.
pub open spec fn covers(all: Seq<Seq<char>>, eg: EGraph) -> bool {
    &&& order::ascending(all)
    &&& forall|n: Seq<char>|
        #[trigger] all.contains(n) <==> eg.nodes@.contains(n) || exists|k: int|
            0 <= k < eg.edges@.len() && (egraph::edge_views(eg.edges@)[k].0 == n || (
            #[trigger] egraph::edge_views(eg.edges@)[k]).1 == n)
}

/// The names can be put in an order in which each comes after all it waits for.
pub open spec fn acyclic(eg: EGraph) -> bool {
    forall|all: Seq<Seq<char>>|
        #[trigger] covers(all, eg) ==> orderable(all, egraph::edge_views(eg.edges@))
}

/// In an orderable set of names a chain is shorter than there are names.
proof fn lemma_chain_bound(
    left: Seq<Seq<char>>,
    edges: Seq<(Seq<char>, Seq<char>)>,
    n: Seq<char>,
    k: int,
    i: int,
)
    requires
        orderable(left, edges),
        forall|e: int| 0 <= e < edges.len() ==> left.contains((#[trigger] edges[e]).0),
        0 <= i < layers(left, edges).len(),
        layers(left, edges)[i].contains(n),
        chain(edges, n, k),
    ensures
        k <= i,
    decreases k,
{
    if k > 0 {
        let e = choose|e: int|
            0 <= e < edges.len() && (#[trigger] edges[e]).1 == n && chain(
                edges,
                edges[e].0,
                k - 1,
            );
        law_layers_cover(left, edges, edges[e].0);
        let ls = layers(left, edges);
        let j = choose|j: int| 0 <= j < ls.len() && (#[trigger] ls[j]).contains(edges[e].0);
        law_layers_respect_edges(left, edges, e, j, i);
        lemma_chain_bound(left, edges, edges[e].0, k - 1, j);
    }
}

/// There are no more layers than names.
proof fn lemma_layer_count(left: Seq<Seq<char>>, edges: Seq<(Seq<char>, Seq<char>)>)
    ensures
        layers(left, edges).len() <= left.len(),
    decreases left.len(),
{
    if left.len() > 0 && layer(left, edges).len() > 0 {
        lemma_parts(left, edges);
        lemma_layer_count(waiting(left, edges), edges);
    }
}

/// The sum of the first `k` depths.
spec fn total(d: Seq<usize>, k: int) -> int
    decreases k,
{
    if k <= 0 {
        0
    } else {
        total(d, k - 1) + d[k - 1]
    }
}

proof fn lemma_total_bound(d: Seq<usize>, k: int, m: int)
    requires
        0 <= k <= d.len(),
        0 <= m,
        forall|i: int| 0 <= i < d.len() ==> (#[trigger] d[i]) <= m,
    ensures
        0 <= total(d, k) <= k * m,
    decreases k,
{
    if k > 0 {
        lemma_total_bound(d, k - 1, m);
        assert(k * m == (k - 1) * m + m) by (nonlinear_arith);
    } else {
        assert(k * m == 0) by (nonlinear_arith)
            requires
                k == 0,
        ;
    }
}

proof fn lemma_total_update(d: Seq<usize>, i: int, v: usize, k: int)
    requires
        0 <= i < d.len(),
        0 <= k <= d.len(),
    ensures
        total(d.update(i, v), k) == total(d, k) + (if i < k {
            v - d[i]
        } else {
            0
        }),
    decreases k,
{
    if k > 0 {
        lemma_total_update(d, i, v, k - 1);
    }
}

/// The place of a name among others that hold it.
fn place(v: &Vec<String>, x: &str) -> (r: usize)
    requires
        text::views(v@).contains(x@),
    ensures
        r < v@.len(),
        v@[r as int]@ == x@,
{
    let ghost s = text::views(v@);
    let mut i: usize = 0;
    while i < v.len()
        invariant
            i <= v@.len(),
            s == text::views(v@),
            s.contains(x@),
            forall|k: int| 0 <= k < i ==> s[k] != x@,
        decreases v@.len() - i,
    {
        if text::same(v[i].as_str(), x) {
            return i;
        }
        assert(s[i as int] == v@[i as int]@);
        i += 1;
    }
    proof {
        let k = choose|k: int| 0 <= k < s.len() && s[k] == x@;
        assert(s[k] == x@);
        assert(false);
    }
    0
}

/// Every name that occurs.
fn all_names(eg: &EGraph) -> (r: Vec<String>)
    requires
        eg.nodes.wf(),
    ensures
        covers(text::views(r@), *eg),
{
    let ghost ev = egraph::edge_views(eg.edges@);
    let mut s = eg.nodes.duplicate();
    let mut k: usize = 0;
    while k < eg.edges.len()
        invariant
            k <= eg.edges@.len(),
            ev == egraph::edge_views(eg.edges@),
            s.wf(),
            forall|n: Seq<char>|
                #[trigger] s@.contains(n) <==> eg.nodes@.contains(n) || exists|j: int|
                    0 <= j < k && (ev[j].0 == n || (#[trigger] ev[j]).1 == n),
        decreases eg.edges@.len() - k,
    {
        let ghost s0 = s@;
        assert(ev[k as int] == (eg.edges@[k as int].0@, eg.edges@[k as int].1@));
        s.insert(eg.edges[k].0.clone());
        s.insert(eg.edges[k].1.clone());
        proof {
            assert forall|n: Seq<char>|
                #[trigger] s@.contains(n) <==> eg.nodes@.contains(n) || exists|j: int|
                    0 <= j < k + 1 && (ev[j].0 == n || (#[trigger] ev[j]).1 == n) by {
                if s0.contains(n) {
                    if !eg.nodes@.contains(n) {
                        let j = choose|j: int|
                            0 <= j < k && (ev[j].0 == n || (#[trigger] ev[j]).1 == n);
                        assert(0 <= j < k + 1 && (ev[j].0 == n || ev[j].1 == n));
                    }
                }
                if n == ev[k as int].0 || n == ev[k as int].1 {
                    assert(0 <= k < k + 1 && (ev[k as int].0 == n || ev[k as int].1 == n));
                }
                if !eg.nodes@.contains(n) && exists|j: int|
                    0 <= j < k + 1 && (ev[j].0 == n || (#[trigger] ev[j]).1 == n) {
                    let j = choose|j: int|
                        0 <= j < k + 1 && (ev[j].0 == n || (#[trigger] ev[j]).1 == n);
                    if j < k {
                        assert(s0.contains(n));
                    }
                }
            }
        }
        k += 1;
    }
    let r = s.to_vec();
    proof {
        assert forall|n: Seq<char>| #[trigger] text::views(r@).contains(n) <==> s@.contains(n) by {
            assert(s@ == s.seq().to_set());
        }
        assert forall|n: Seq<char>|
            #[trigger] text::views(r@).contains(n) <==> eg.nodes@.contains(n) || exists|k: int|
                0 <= k < eg.edges@.len() && (ev[k].0 == n || (#[trigger] ev[k]).1 == n) by {
            assert(text::views(r@).contains(n) <==> s@.contains(n));
        }
    }
    r
}

/// Whether the names can be put in an order in which each comes after all it
/// waits for.
pub fn is_acyclic(eg: &EGraph) -> (r: bool)
    requires
        eg.nodes.wf(),
    ensures
        r == acyclic(*eg),
{
    let mut left = all_names(eg);
    let ghost all = text::views(left@);
    let ghost ev = egraph::edge_views(eg.edges@);
    proof {
        assert forall|other: Seq<Seq<char>>| #[trigger] covers(other, *eg) implies other == all by {
            assert forall|x: Seq<char>| other.to_set().contains(x) <==> all.to_set().contains(x) by {
                assert(other.contains(x) <==> all.contains(x));
            }
            order::lemma_ascending_unique(other, all);
        }
        assert(covers(all, *eg));
    }
    while left.len() > 0
        invariant
            ev == egraph::edge_views(eg.edges@),
            acyclic(*eg) == orderable(text::views(left@), ev),
        decreases left@.len(),
    {
        let ghost lv = text::views(left@);
        let (now, later) = split_layer(&left, &eg.edges);
        proof {
            lemma_parts(lv, ev);
            assert(text::views(now@).len() == now@.len());
            assert(text::views(later@).len() == later@.len());
        }
        if now.len() == 0 {
            return false;
        }
        left = later;
    }
    true
}

/// In an orderable set of names every depth is below their number.
proof fn lemma_depth_fits(
    nv: Seq<Seq<char>>,
    ev: Seq<(Seq<char>, Seq<char>)>,
    n: Seq<char>,
    k: int,
)
    requires
        orderable(nv, ev),
        forall|e: int| 0 <= e < ev.len() ==> nv.contains((#[trigger] ev[e]).0),
        nv.contains(n),
        chain(ev, n, k),
    ensures
        k < nv.len(),
{
    law_layers_cover(nv, ev, n);
    let ls = layers(nv, ev);
    let i = choose|i: int| 0 <= i < ls.len() && (#[trigger] ls[i]).contains(n);
    lemma_chain_bound(nv, ev, n, k, i);
    lemma_layer_count(nv, ev);
}

/// Depths that grow along every edge are at least as large as every chain.
proof fn lemma_chain_depth(
    ev: Seq<(Seq<char>, Seq<char>)>,
    names: Seq<String>,
    d: Seq<usize>,
    i: int,
    k: int,
)
    requires
        d.len() == names.len(),
        0 <= i < names.len(),
        chain(ev, names[i]@, k),
        forall|e: int| 0 <= e < ev.len() ==> text::views(names).contains((#[trigger] ev[e]).0),
        forall|e: int, a: int, b: int|
            0 <= e < ev.len() && 0 <= a < names.len() && 0 <= b < names.len() && (
            #[trigger] ev[e]).0 == (#[trigger] names[a])@ && ev[e].1 == (#[trigger] names[b])@
                ==> d[b] > d[a],
    ensures
        d[i] >= k,
    decreases k,
{
    if k > 0 {
        let e = choose|e: int|
            0 <= e < ev.len() && (#[trigger] ev[e]).1 == names[i]@ && chain(ev, ev[e].0, k - 1);
        let nv = text::views(names);
        let a = choose|a: int| 0 <= a < nv.len() && nv[a] == ev[e].0;
        assert(names[a]@ == ev[e].0);
        lemma_chain_depth(ev, names, d, a, k - 1);
    }
}

/// The depth of each name: the length of the longest chain that ends in it.
fn depths(names: &Vec<String>, edges: &Vec<(String, String)>) -> (d: Vec<usize>)
    requires
        order::ascending(text::views(names@)),
        orderable(text::views(names@), egraph::edge_views(edges@)),
        forall|e: int|
            0 <= e < edges@.len() ==> text::views(names@).contains(
                (#[trigger] egraph::edge_views(edges@)[e]).0,
            ) && text::views(names@).contains(egraph::edge_views(edges@)[e].1),
    ensures
        d@.len() == names@.len(),
        forall|i: int|
            0 <= i < d@.len() ==> depth_is(
                egraph::edge_views(edges@),
                (#[trigger] names@[i])@,
                d@[i] as int,
            ),
{
    let ghost nv = text::views(names@);
    let ghost ev = egraph::edge_views(edges@);
    let n: usize = names.len();
    let mut d: Vec<usize> = Vec::new();
    let mut i: usize = 0;
    while i < n
        invariant
            i <= n,
            d@.len() == i,
            forall|k: int| 0 <= k < i ==> #[trigger] d@[k] == 0,
        decreases n - i,
    {
        d.push(0);
        i += 1;
    }
    proof {
        order::lemma_ascending_distinct(nv);
    }
    let mut changed = true;
    while changed
        invariant
            n == names@.len(),
            d@.len() == n,
            nv == text::views(names@),
            ev == egraph::edge_views(edges@),
            nv.no_duplicates(),
            orderable(nv, ev),
            forall|e: int|
                0 <= e < ev.len() ==> nv.contains((#[trigger] ev[e]).0) && nv.contains(ev[e].1),
            forall|k: int| 0 <= k < n ==> chain(ev, (#[trigger] names@[k])@, d@[k] as int),
            !changed ==> forall|e: int, a: int, b: int|
                0 <= e < ev.len() && 0 <= a < n && 0 <= b < n && (#[trigger] ev[e]).0 == (
                #[trigger] names@[a])@ && ev[e].1 == (#[trigger] names@[b])@ ==> d@[b] > d@[a],
        decreases n * n - total(d@, n as int) + (if changed {
            1int
        } else {
            0int
        }),
    {
        proof {
            assert forall|k: int| 0 <= k < d@.len() implies (#[trigger] d@[k]) <= n by {
                assert(nv[k] == names@[k]@);
                assert(nv.contains(nv[k]));
                lemma_depth_fits(nv, ev, names@[k]@, d@[k] as int);
            }
            lemma_total_bound(d@, n as int, n as int);
        }
        changed = false;
        let ghost before = d@;
        let mut e: usize = 0;
        while e < edges.len()
            invariant
                e <= edges@.len(),
                n == names@.len(),
                d@.len() == n,
                before.len() == n,
                nv == text::views(names@),
                ev == egraph::edge_views(edges@),
                nv.no_duplicates(),
                orderable(nv, ev),
                forall|j: int|
                    0 <= j < ev.len() ==> nv.contains((#[trigger] ev[j]).0) && nv.contains(ev[j].1),
                forall|k: int| 0 <= k < n ==> chain(ev, (#[trigger] names@[k])@, d@[k] as int),
                changed ==> total(d@, n as int) > total(before, n as int),
                !changed ==> d@ == before,
                !changed ==> forall|j: int, a: int, b: int|
                    0 <= j < e && 0 <= a < n && 0 <= b < n && (#[trigger] ev[j]).0 == (
                    #[trigger] names@[a])@ && ev[j].1 == (#[trigger] names@[b])@ ==> d@[b] > d@[a],
            decreases edges@.len() - e,
        {
            assert(ev[e as int] == (edges@[e as int].0@, edges@[e as int].1@));
            let a = place(names, edges[e].0.as_str());
            let b = place(names, edges[e].1.as_str());
            proof {
                lemma_depth_fits(nv, ev, names@[a as int]@, d@[a as int] as int);
            }
            let next: usize = d[a] + 1;
            if next > d[b] {
                proof {
                    assert(chain(ev, names@[b as int]@, next as int)) by {
                        assert(ev[e as int].1 == names@[b as int]@ && chain(
                            ev,
                            ev[e as int].0,
                            next - 1,
                        ));
                    }
                    lemma_total_update(d@, b as int, next, n as int);
                }
                let ghost d0 = d@;
                d[b] = next;
                changed = true;
                assert(d@ =~= d0.update(b as int, next));
            } else {
                proof {
                    if !changed {
                        assert forall|j: int, x: int, y: int|
                            0 <= j < e + 1 && 0 <= x < n && 0 <= y < n && (#[trigger] ev[j]).0 == (
                            #[trigger] names@[x])@ && ev[j].1 == (#[trigger] names@[y])@ implies d@[y]
                            > d@[x] by {
                            if j == e {
                                assert(nv[x] == nv[a as int]);
                                assert(nv[y] == nv[b as int]);
                            }
                        }
                    }
                }
            }
            e += 1;
        }
        proof {
            assert forall|k: int| 0 <= k < d@.len() implies (#[trigger] d@[k]) <= n by {
                assert(nv[k] == names@[k]@);
                assert(nv.contains(nv[k]));
                lemma_depth_fits(nv, ev, names@[k]@, d@[k] as int);
            }
            lemma_total_bound(d@, n as int, n as int);
        }
    }
    proof {
        assert forall|i: int| 0 <= i < d@.len() implies depth_is(
            ev,
            (#[trigger] names@[i])@,
            d@[i] as int,
        ) by {
            if chain(ev, names@[i]@, d@[i] + 1) {
                lemma_chain_depth(ev, names@, d@, i, d@[i] + 1);
            }
        }
    }
    d
}

/// `p` is a longest chain that ends in a proc, the one that the rules of choice
/// pick: of the deepest procs it ends in the last by name, and it reaches each
/// name by the last edge that comes from a deepest one.
pub open spec fn is_critical_path(
    p: Seq<Seq<char>>,
    nodes: Seq<Seq<char>>,
    edges: Seq<(Seq<char>, Seq<char>)>,
) -> bool {
    &&& p.len() > 0
    &&& nodes.contains(p.last())
    &&& forall|i: int| 0 <= i < p.len() ==> depth_is(edges, #[trigger] p[i], i)
    &&& forall|n: Seq<char>| #[trigger] nodes.contains(n) ==> !chain(edges, n, p.len() as int)
    &&& forall|n: Seq<char>|
        #[trigger] nodes.contains(n) && chain(edges, n, p.len() - 1) ==> n == p.last()
            || order::text_lt(n, p.last())
    &&& forall|i: int| 0 <= i < p.len() - 1 ==> #[trigger] reached_last(p, edges, i)
}

/// The step from `p[i]` to `p[i + 1]` is the last edge into `p[i + 1]` from a
/// name that deep.
pub open spec fn reached_last(p: Seq<Seq<char>>, edges: Seq<(Seq<char>, Seq<char>)>, i: int) -> bool {
    exists|k: int|
        0 <= k < edges.len() && #[trigger] edges[k] == (p[i], p[i + 1]) && forall|j: int|
            k < j < edges.len() && (#[trigger] edges[j]).1 == p[i + 1] ==> !chain(
                edges,
                edges[j].0,
                i,
            )
}

/// The longest chain of procs that have to wait for one another.
pub fn critical_path(eg: &EGraph) -> (r: Vec<String>)
    requires
        eg.nodes.wf(),
        acyclic(*eg),
    ensures
        eg.nodes.seq().len() == 0 ==> r@.len() == 0,
        eg.nodes.seq().len() > 0 ==> is_critical_path(
            text::views(r@),
            eg.nodes.seq(),
            egraph::edge_views(eg.edges@),
        ),
{
    let ghost ev = egraph::edge_views(eg.edges@);
    let ghost nodes = eg.nodes.seq();
    let count: usize = eg.nodes.len();
    if count == 0 {
        return Vec::new();
    }
    let names = all_names(eg);
    let ghost nv = text::views(names@);
    assert(covers(nv, *eg));
    assert forall|e: int| 0 <= e < ev.len() implies nv.contains((#[trigger] ev[e]).0)
        && nv.contains(ev[e].1) by {
        assert(ev[e].0 == ev[e].0 && 0 <= e < eg.edges@.len());
    }
    let d = depths(&names, &eg.edges);
    assert forall|n: Seq<char>| #[trigger] nodes.contains(n) implies nv.contains(n) by {
        assert(eg.nodes@.contains(n));
    }
    // The last of the deepest procs.
    let mut best: usize = 0;
    proof {
        assert(nodes.contains(nodes[0]));
    }
    let mut best_d: usize = d[place(&names, eg.nodes.at(0).as_str())];
    let mut i: usize = 1;
    while i < count
        invariant
            1 <= i <= count,
            count == nodes.len(),
            nodes == eg.nodes.seq(),
            nv == text::views(names@),
            ev == egraph::edge_views(eg.edges@),
            d@.len() == names@.len(),
            forall|k: int|
                0 <= k < d@.len() ==> depth_is(ev, (#[trigger] names@[k])@, d@[k] as int),
            forall|n: Seq<char>| #[trigger] nodes.contains(n) ==> nv.contains(n),
            best < i,
            depth_is(ev, nodes[best as int], best_d as int),
            forall|k: int| 0 <= k < i ==> !chain(ev, #[trigger] nodes[k], best_d + 1),
            forall|k: int| best < k < i ==> !chain(ev, #[trigger] nodes[k], best_d as int),
        decreases count - i,
    {
        proof {
            assert(nodes.contains(nodes[i as int]));
        }
        let di = d[place(&names, eg.nodes.at(i).as_str())];
        if di >= best_d {
            proof {
                assert forall|k: int| 0 <= k < i + 1 implies !chain(ev, #[trigger] nodes[k], di + 1) by {
                    if k < i && chain(ev, nodes[k], di + 1) {
                        lemma_chain_shorter(ev, nodes[k], di + 1, best_d + 1);
                    }
                }
            }
            best = i;
            best_d = di;
        } else {
            proof {
                if chain(ev, nodes[i as int], best_d as int) {
                    lemma_chain_shorter(ev, nodes[i as int], best_d as int, di + 1);
                }
                if chain(ev, nodes[i as int], best_d + 1) {
                    lemma_chain_shorter(ev, nodes[i as int], best_d + 1, di + 1);
                }
            }
        }
        i += 1;
    }
    // Back along the last edge from a deepest name.
    let mut rev: Vec<String> = Vec::new();
    rev.push(eg.nodes.at(best).clone());
    let mut cur_d: usize = best_d;
    let ghost top = best_d as int;
    proof {
        assert(text::views(rev@)[0] == nodes[best as int]);
    }
    while cur_d > 0
        invariant
            nv == text::views(names@),
            ev == egraph::edge_views(eg.edges@),
            d@.len() == names@.len(),
            forall|k: int|
                0 <= k < d@.len() ==> depth_is(ev, (#[trigger] names@[k])@, d@[k] as int),
            forall|e: int|
                0 <= e < ev.len() ==> nv.contains((#[trigger] ev[e]).0) && nv.contains(ev[e].1),
            cur_d <= top,
            rev@.len() == top - cur_d + 1,
            rev@[0]@ == nodes[best as int],
            forall|k: int|
                0 <= k < rev@.len() ==> depth_is(ev, (#[trigger] rev@[k])@, top - k),
            forall|k: int|
                0 <= k < rev@.len() - 1 ==> #[trigger] reached_back(rev@, ev, k, top),
        decreases cur_d,
    {
        let cur = rev[rev.len() - 1].clone();
        let ghost rev0 = rev@;
        let mut found: usize = 0;
        let mut hit = false;
        let mut e: usize = 0;
        while e < eg.edges.len()
            invariant
                e <= eg.edges@.len(),
                nv == text::views(names@),
                ev == egraph::edge_views(eg.edges@),
                d@.len() == names@.len(),
                forall|k: int|
                    0 <= k < d@.len() ==> depth_is(ev, (#[trigger] names@[k])@, d@[k] as int),
                forall|j: int|
                    0 <= j < ev.len() ==> nv.contains((#[trigger] ev[j]).0) && nv.contains(ev[j].1),
                cur_d > 0,
                hit ==> found < e && ev[found as int].1 == cur@ && chain(
                    ev,
                    ev[found as int].0,
                    cur_d - 1,
                ) && forall|j: int|
                    found < j < e && (#[trigger] ev[j]).1 == cur@ ==> !chain(
                        ev,
                        ev[j].0,
                        cur_d - 1,
                    ),
                !hit ==> forall|j: int|
                    0 <= j < e && (#[trigger] ev[j]).1 == cur@ ==> !chain(ev, ev[j].0, cur_d - 1),
            decreases eg.edges@.len() - e,
        {
            assert(ev[e as int] == (eg.edges@[e as int].0@, eg.edges@[e as int].1@));
            if text::same(eg.edges[e].1.as_str(), cur.as_str()) {
                let de = d[place(&names, eg.edges[e].0.as_str())];
                if de >= cur_d - 1 {
                    proof {
                        lemma_chain_shorter(ev, ev[e as int].0, de as int, cur_d - 1);
                    }
                    found = e;
                    hit = true;
                } else {
                    proof {
                        if chain(ev, ev[e as int].0, cur_d - 1) {
                            lemma_chain_shorter(ev, ev[e as int].0, cur_d - 1, de + 1);
                        }
                    }
                }
            }
            e += 1;
        }
        proof {
            assert(depth_is(ev, cur@, cur_d as int)) by {
                assert(rev0[rev0.len() - 1]@ == cur@);
            }
            let w = choose|w: int|
                0 <= w < ev.len() && (#[trigger] ev[w]).1 == cur@ && chain(ev, ev[w].0, cur_d - 1);
            assert(ev[w].1 == cur@);
            assert(hit);
            if chain(ev, ev[found as int].0, cur_d as int) {
                assert(ev[found as int].1 == cur@ && chain(
                    ev,
                    ev[found as int].0,
                    (cur_d + 1) - 1,
                ));
                assert(chain(ev, cur@, cur_d + 1));
            }
            assert(ev[found as int] == (eg.edges@[found as int].0@, eg.edges@[found as int].1@));
        }
        rev.push(eg.edges[found].0.clone());
        cur_d -= 1;
        proof {
            let last = rev@.len() - 2;
            assert(rev@[last] == rev0[last]);
            assert(reached_back(rev@, ev, last, top)) by {
                assert(ev[found as int] == (rev@[last + 1]@, rev@[last]@));
            }
            assert forall|k: int| 0 <= k < rev@.len() - 1 implies #[trigger] reached_back(
                rev@,
                ev,
                k,
                top,
            ) by {
                if k < last {
                    assert(reached_back(rev0, ev, k, top));
                    assert(rev@[k] == rev0[k]);
                    assert(rev@[k + 1] == rev0[k + 1]);
                }
            }
        }
    }
    // Front to back.
    let n: usize = rev.len();
    let mut path: Vec<String> = Vec::new();
    let mut k: usize = 0;
    while k < n
        invariant
            k <= n,
            n == rev@.len(),
            path@.len() == k,
            forall|j: int| 0 <= j < k ==> (#[trigger] path@[j])@ == rev@[n - 1 - j]@,
        decreases n - k,
    {
        path.push(rev[n - 1 - k].clone());
        k += 1;
    }
    proof {
        let p = text::views(path@);
        assert(p.len() == n);
        assert forall|j: int| 0 <= j < p.len() implies depth_is(ev, #[trigger] p[j], j) by {
            assert(p[j] == rev@[n - 1 - j]@);
        }
        assert(p.last() == nodes[best as int]);
        assert(nodes.contains(nodes[best as int]));
        assert forall|x: Seq<char>| #[trigger] nodes.contains(x) implies !chain(
            ev,
            x,
            p.len() as int,
        ) && (chain(ev, x, p.len() - 1) ==> x == p.last() || order::text_lt(x, p.last())) by {
            let q = choose|q: int| 0 <= q < nodes.len() && nodes[q] == x;
            assert(nodes[q] == x);
            if q < best {
                assert(order::text_lt(nodes[q], nodes[best as int]));
            }
        }
        assert forall|j: int| 0 <= j < p.len() - 1 implies #[trigger] reached_last(p, ev, j) by {
            let b = n - 2 - j;
            assert(reached_back(rev@, ev, b, top));
            assert(p[j] == rev@[b + 1]@);
            assert(p[j + 1] == rev@[b]@);
            let e = choose|e: int|
                0 <= e < ev.len() && #[trigger] ev[e] == (rev@[b + 1]@, rev@[b]@) && forall|x: int|
                    e < x < ev.len() && (#[trigger] ev[x]).1 == rev@[b]@ ==> !chain(
                        ev,
                        ev[x].0,
                        top - b - 1,
                    );
            assert(ev[e] == (p[j], p[j + 1]));
        }
    }
    path
}

/// `reached_last`, on a chain that is listed from its end.
spec fn reached_back(
    rev: Seq<String>,
    edges: Seq<(Seq<char>, Seq<char>)>,
    k: int,
    top: int,
) -> bool {
    exists|e: int|
        0 <= e < edges.len() && #[trigger] edges[e] == (rev[k + 1]@, rev[k]@) && forall|j: int|
            e < j < edges.len() && (#[trigger] edges[j]).1 == rev[k]@ ==> !chain(
                edges,
                edges[j].0,
                top - k - 1,
            )
}

} // verus!
