//! Building the e-graph of a pipeline and applying its rules.

use crate::ast::{Impl, Pipeline, Proc};
use crate::body;
use crate::egraph;
use crate::egraph::{EClass, EGraph, ENode};
use crate::egraph_laws;
use crate::order::{TextMap, TextSet};
use crate::text;
use crate::unionfind;
use crate::unionfind::UnionFind;
use vstd::prelude::*;

verus! {

impl ENode {
    /// An equal node of its own.
    pub fn duplicate(&self) -> (r: ENode)
        ensures
            r@ == self@,
            r.children@ == self.children@,
    {
        let mut children: Vec<usize> = Vec::new();
        let mut i: usize = 0;
        while i < self.children.len()
            invariant
                i <= self.children@.len(),
                children@ == self.children@.take(i as int),
            decreases self.children@.len() - i,
        {
            children.push(self.children[i]);
            i += 1;
            assert(self.children@.take(i as int) =~= self.children@.take(i - 1).push(
                self.children@[i - 1],
            ));
        }
        assert(self.children@.take(i as int) =~= self.children@);
        ENode { op: self.op.clone(), children, when_guard: self.when_guard }
    }

    /// Whether the two nodes are equal.
    pub fn same_node(&self, other: &ENode) -> (r: bool)
        ensures
            r == (self@ == other@),
    {
        if !text::same(self.op.as_str(), other.op.as_str()) || self.when_guard != other.when_guard
            || self.children.len() != other.children.len() {
            proof {
                assert(self@.children.len() == self.children@.len());
                assert(other@.children.len() == other.children@.len());
            }
            return false;
        }
        let mut i: usize = 0;
        while i < self.children.len()
            invariant
                i <= self.children@.len(),
                self.children@.len() == other.children@.len(),
                forall|k: int| 0 <= k < i ==> self.children@[k] == other.children@[k],
            decreases self.children@.len() - i,
        {
            if self.children[i] != other.children[i] {
                proof {
                    assert(self@.children[i as int] == self.children@[i as int]);
                    assert(other@.children[i as int] == other.children@[i as int]);
                }
                return false;
            }
            i += 1;
        }
        assert(self@.children =~= other@.children);
        true
    }
}

/// A pushed entry is the latest of its node.
proof fn lemma_memo_push(s: Seq<(ENode, usize)>, e: (ENode, usize))
    ensures
        egraph::memo_map(s.push(e)) == egraph::memo_map(s).insert(e.0@, e.1 as int),
{
    assert(s.push(e).drop_last() =~= s);
}

impl EClass {
    /// A class without anything.
    pub fn empty() -> (r: EClass)
        ensures
            r@ == egraph::hollow(),
            r.nodes@.len() == 0,
            r.origins@.len() == 0,
    {
        let r = EClass { procs: Vec::new(), nodes: Vec::new(), origins: Vec::new() };
        assert(r@.procs =~= Seq::<Seq<char>>::empty());
        assert(r@.nodes =~= Seq::<egraph::GNode>::empty());
        assert(r@.origins =~= Seq::<(Seq<char>, int)>::empty());
        r
    }

    /// Whether the class has the node.
    fn has_node(&self, node: &ENode) -> (r: bool)
        ensures
            r == self@.nodes.contains(node@),
    {
        let mut i: usize = 0;
        while i < self.nodes.len()
            invariant
                i <= self.nodes@.len(),
                forall|k: int| 0 <= k < i ==> (#[trigger] self.nodes@[k])@ != node@,
            decreases self.nodes@.len() - i,
        {
            if self.nodes[i].same_node(node) {
                assert(self@.nodes[i as int] == node@);
                return true;
            }
            i += 1;
        }
        assert forall|k: int| 0 <= k < self@.nodes.len() implies self@.nodes[k] != node@ by {
            assert(self@.nodes[k] == self.nodes@[k]@);
        }
        false
    }

    /// Adds a node, unless the class has it already.
    fn add_node(&mut self, node: ENode, origin: (String, usize))
        requires
            old(self).nodes@.len() == old(self).origins@.len(),
        ensures
            final(self)@ == egraph::with_node(old(self)@, node@, (origin.0@, origin.1 as int)),
            final(self).nodes@.len() == final(self).origins@.len(),
            forall|len: nat|
                egraph::children_ok(node, len) && (forall|i: int|
                    0 <= i < old(self).nodes@.len() ==> egraph::children_ok(
                        #[trigger] old(self).nodes@[i],
                        len,
                    )) ==> forall|i: int|
                    0 <= i < final(self).nodes@.len() ==> egraph::children_ok(
                        #[trigger] final(self).nodes@[i],
                        len,
                    ),
    {
        if !self.has_node(&node) {
            let ghost before = *self;
            let ghost nv = node@;
            let ghost ov = (origin.0@, origin.1 as int);
            self.nodes.push(node);
            self.origins.push(origin);
            proof {
                assert(self@.nodes =~= before@.nodes.push(nv));
                assert(self@.origins =~= before@.origins.push(ov));
                assert(self@.procs =~= before@.procs);
            }
        }
    }

    /// An equal class of its own.
    pub fn duplicate(&self) -> (r: EClass)
        ensures
            r@ == self@,
            r.nodes@.len() == self.nodes@.len(),
            r.origins@.len() == self.origins@.len(),
            forall|i: int|
                0 <= i < r.nodes@.len() ==> (#[trigger] r.nodes@[i]).children@
                    == self.nodes@[i].children@,
    {
        let mut procs: Vec<String> = Vec::new();
        let mut i: usize = 0;
        while i < self.procs.len()
            invariant
                i <= self.procs@.len(),
                procs@ == self.procs@.take(i as int),
            decreases self.procs@.len() - i,
        {
            procs.push(self.procs[i].clone());
            i += 1;
            assert(self.procs@.take(i as int) =~= self.procs@.take(i - 1).push(self.procs@[i - 1]));
        }
        let mut nodes: Vec<ENode> = Vec::new();
        let mut j: usize = 0;
        while j < self.nodes.len()
            invariant
                j <= self.nodes@.len(),
                nodes@.len() == j,
                forall|k: int| 0 <= k < j ==> (#[trigger] nodes@[k])@ == self.nodes@[k]@,
                forall|k: int|
                    0 <= k < j ==> (#[trigger] nodes@[k]).children@ == self.nodes@[k].children@,
            decreases self.nodes@.len() - j,
        {
            nodes.push(self.nodes[j].duplicate());
            j += 1;
        }
        let mut origins: Vec<(String, usize)> = Vec::new();
        let mut q: usize = 0;
        while q < self.origins.len()
            invariant
                q <= self.origins@.len(),
                origins@.len() == q,
                forall|k: int|
                    0 <= k < q ==> (#[trigger] origins@[k]).0@ == self.origins@[k].0@
                        && origins@[k].1 == self.origins@[k].1,
            decreases self.origins@.len() - q,
        {
            origins.push((self.origins[q].0.clone(), self.origins[q].1));
            q += 1;
        }
        let r = EClass { procs, nodes, origins };
        assert(self.procs@.take(self.procs@.len() as int) =~= self.procs@);
        assert(r@.procs =~= self@.procs);
        assert(r@.nodes =~= self@.nodes);
        assert(r@.origins =~= self@.origins);
        r
    }
}

impl EGraph {
    /// Adds a node to the class of `class_id`, unless it has it already.
    fn add_node_raw(&mut self, class_id: usize, node: ENode, origin: (String, usize))
        requires
            old(self).wf(),
            class_id < old(self).classes@.len(),
            egraph::children_ok(node, old(self).classes@.len()),
        ensures
            final(self).wf(),
            final(self).model() == egraph::node_added(
                old(self).model(),
                class_id as int,
                node@,
                (origin.0@, origin.1 as int),
            ),
            final(self).classes@.len() == old(self).classes@.len(),
            final(self).nodes == old(self).nodes,
            final(self).edges == old(self).edges,
            final(self).proc_class == old(self).proc_class,
    {
        let canon = self.uf.find(class_id);
        proof {
            old(self).uf.lemma_roots();
        }
        let ghost before = *self;
        let ghost nv = node@;
        let ghost ov = (origin.0@, origin.1 as int);
        let mut c = self.classes[canon].duplicate();
        self.memo.push((node.duplicate(), canon));
        proof {
            lemma_memo_push(before.memo@, self.memo@.last());
        }
        let ghost plain = c;
        c.add_node(node, origin);
        let ghost added = c;
        self.classes[canon] = c;
        proof {
            assert(self.classes@ =~= before.classes@.update(canon as int, added));
            assert(self.model().classes =~= before.model().classes.update(canon as int, added@));
            assert(self.model().roots == old(self).model().roots);
            assert(egraph::live(self.model()) =~= egraph::live(old(self).model()));
            assert forall|i: int| 0 <= i < plain.nodes@.len() implies egraph::children_ok(
                #[trigger] plain.nodes@[i],
                before.classes@.len(),
            ) by {
                assert(egraph::children_ok(
                    before.classes@[canon as int].nodes@[i],
                    before.classes@.len(),
                ));
            }
            assert(egraph::classes_ok(self.classes@));
        }
    }

    /// Puts the classes of `a` and `b` together and returns the common root, whose
    /// class holds the nodes and the procs of both.
    pub fn merge_classes(&mut self, a: usize, b: usize) -> (r: usize)
        requires
            old(self).wf(),
            a < old(self).classes@.len(),
            b < old(self).classes@.len(),
        ensures
            final(self).wf(),
            final(self).model() == egraph::merged(old(self).model(), a as int, b as int),
            final(self).classes@.len() == old(self).classes@.len(),
            final(self).nodes == old(self).nodes,
            final(self).edges == old(self).edges,
            final(self).proc_class == old(self).proc_class,
            final(self).fusion_hits == old(self).fusion_hits,
            r == final(self).model().roots[a as int],
            r == final(self).model().roots[b as int],
            ({
                let m = old(self).model();
                let c = m.classes[m.roots[a as int]];
                let d = m.classes[m.roots[b as int]];
                egraph_laws::tidy(c) && egraph_laws::tidy(d) ==> egraph_laws::holds_both(
                    final(self).model().classes[r as int],
                    c,
                    d,
                )
            }),
    {
        proof {
            let m = old(self).model();
            old(self).lemma_model();
            egraph::lemma_merged(m, a as int, b as int);
            if egraph_laws::tidy(m.classes[m.roots[a as int]]) && egraph_laws::tidy(
                m.classes[m.roots[b as int]],
            ) {
                egraph_laws::lemma_merged_holds_both(m, a as int, b as int);
            }
        }
        let ra = self.uf.find(a);
        let rb = self.uf.find(b);
        proof {
            old(self).uf.lemma_roots();
            old(self).lemma_model();
            egraph::lemma_merged(old(self).model(), a as int, b as int);
            assert(egraph::live(self.model()) =~= egraph::live(old(self).model()));
        }
        if ra == rb {
            return ra;
        }
        let ghost before = *self;
        let ghost m = before.model();
        let mut c = self.classes[ra].duplicate();
        let moved = self.classes[rb].duplicate();
        let ghost cv = c@;
        let ghost dv = moved@;
        let k = self.uf.union(ra, rb);
        let mut p: usize = 0;
        while p < moved.procs.len()
            invariant
                p <= moved.procs@.len(),
                dv == moved@,
                c.nodes@.len() == c.origins@.len(),
                c@ == (egraph::GClass {
                    procs: cv.procs + dv.procs.take(p as int),
                    nodes: cv.nodes,
                    origins: cv.origins,
                }),
                forall|i: int|
                    0 <= i < c.nodes@.len() ==> egraph::children_ok(
                        #[trigger] c.nodes@[i],
                        before.classes@.len(),
                    ),
            decreases moved.procs@.len() - p,
        {
            let ghost c0 = c;
            c.procs.push(moved.procs[p].clone());
            proof {
                assert(dv.procs.take(p + 1) =~= dv.procs.take(p as int).push(dv.procs[p as int]));
                assert(c@.procs =~= c0@.procs.push(dv.procs[p as int]));
                assert(cv.procs + dv.procs.take(p + 1) =~= (cv.procs + dv.procs.take(
                    p as int,
                )).push(dv.procs[p as int]));
            }
            p += 1;
        }
        proof {
            assert(dv.procs.take(p as int) =~= dv.procs);
        }
        let ghost base = c@;
        let ghost memo0 = egraph::memo_map(self.memo@);
        let mut i: usize = 0;
        while i < moved.nodes.len()
            invariant
                i <= moved.nodes@.len(),
                dv == moved@,
                moved.nodes@.len() == moved.origins@.len(),
                c.nodes@.len() == c.origins@.len(),
                c@ == egraph::with_nodes(base, dv, i as int),
                egraph::memo_map(self.memo@) == egraph::repointed(memo0, dv, i as int, k as int),
                self.classes == before.classes,
                self.nodes == before.nodes,
                self.edges == before.edges,
                self.proc_class == before.proc_class,
                self.fusion_hits == before.fusion_hits,
                self.uf.wf(),
                self.uf.roots() == unionfind::union_roots(
                    before.uf.roots(),
                    before.uf.ranks(),
                    ra as int,
                    rb as int,
                ),
                self.uf.ranks() == unionfind::union_ranks(before.uf.ranks(), ra as int, rb as int),
                forall|j: int|
                    0 <= j < c.nodes@.len() ==> egraph::children_ok(
                        #[trigger] c.nodes@[j],
                        before.classes@.len(),
                    ),
                forall|j: int|
                    0 <= j < moved.nodes@.len() ==> egraph::children_ok(
                        #[trigger] moved.nodes@[j],
                        before.classes@.len(),
                    ),
            decreases moved.nodes@.len() - i,
        {
            let node = moved.nodes[i].duplicate();
            let origin = (moved.origins[i].0.clone(), moved.origins[i].1);
            let ghost memo1 = self.memo@;
            self.memo.push((node.duplicate(), k));
            proof {
                lemma_memo_push(memo1, self.memo@.last());
                assert(dv.nodes[i as int] == moved.nodes@[i as int]@);
                assert(dv.origins[i as int] == (origin.0@, origin.1 as int));
                assert(egraph::children_ok(moved.nodes@[i as int], before.classes@.len()));
                assert(egraph::children_ok(node, before.classes@.len()));
            }
            c.add_node(node, origin);
            i += 1;
        }
        let lost = if k == ra {
            rb
        } else {
            ra
        };
        let ghost full = c;
        self.classes[k] = c;
        let hollow = EClass::empty();
        let ghost hollow_g = hollow;
        self.classes[lost] = hollow;
        proof {
            assert(self.classes@ =~= before.classes@.update(k as int, full).update(
                lost as int,
                hollow_g,
            ));
            assert(self.model().classes =~= m.classes.update(k as int, full@).update(
                lost as int,
                egraph::hollow(),
            ));
            assert(dv == m.classes[rb as int]);
            assert(cv == m.classes[ra as int]);
            assert(self.model().memo =~= egraph::merged(m, a as int, b as int).memo);
            assert(self.model() == egraph::merged(m, a as int, b as int));
            assert(egraph::classes_ok(self.classes@));
        }
        k
    }
}

// ── Counting applications ──

impl EGraph {
    /// The graph apart from the count of applied rules.
    spec fn same_but_hits(self, other: EGraph) -> bool {
        &&& self.nodes == other.nodes
        &&& self.edges == other.edges
        &&& self.classes == other.classes
        &&& self.uf == other.uf
        &&& self.proc_class == other.proc_class
        &&& self.memo == other.memo
    }

    /// Counts one application of `rule`, for which a class has just been lost.
    fn count_hit(&mut self, rule: &str)
        requires
            old(self).wf(),
            egraph::live(old(self).model()).len() + 1 <= old(self).classes@.len(),
            forall|k: Seq<char>|
                old(self).fusion_hits@.dom().contains(k) ==> (#[trigger] old(self).fusion_hits@[k])
                    + egraph::live(old(self).model()).len() + 1 <= old(self).classes@.len(),
        ensures
            final(self).wf(),
            final(self).same_but_hits(*old(self)),
            final(self).model() == egraph::counted(old(self).model(), rule@),
    {
        let n: usize = self.classes.len();
        let before = match self.fusion_hits.get(rule) {
            Some(k) => *k,
            None => 0usize,
        };
        let ghost old_hits = self.fusion_hits@;
        self.fusion_hits.insert(rule.to_owned(), before + 1);
        proof {
            let m0 = old(self).model();
            let m1 = self.model();
            assert(m1.hits =~= egraph::counted(m0, rule@).hits);
            assert(egraph::live(m1) =~= egraph::live(m0));
            assert(self.hits_fit()) by {
                assert forall|k: Seq<char>| self.fusion_hits@.dom().contains(k) implies (
                #[trigger] self.fusion_hits@[k]) + egraph::live(m1).len() <= self.classes@.len() by {
                    if k != rule@ {
                        assert(old_hits.dom().contains(k));
                        assert(old_hits[k] == self.fusion_hits@[k]);
                    }
                }
            }
        }
    }

    /// Puts two different classes together and counts the rule.
    fn fuse(&mut self, a: usize, b: usize, rule: &str)
        requires
            old(self).wf(),
            a < old(self).classes@.len(),
            b < old(self).classes@.len(),
            old(self).model().roots[a as int] != old(self).model().roots[b as int],
        ensures
            final(self).wf(),
            final(self).model() == egraph::counted(
                egraph::merged(old(self).model(), a as int, b as int),
                rule@,
            ),
            final(self).classes@.len() == old(self).classes@.len(),
            final(self).nodes == old(self).nodes,
            final(self).edges == old(self).edges,
            final(self).proc_class == old(self).proc_class,
            egraph::live(final(self).model()).len() < egraph::live(old(self).model()).len(),
    {
        proof {
            old(self).lemma_model();
            egraph::lemma_merged(old(self).model(), a as int, b as int);
            egraph::lemma_live_finite(old(self).model());
        }
        let ghost before = *self;
        self.merge_classes(a, b);
        proof {
            assert forall|k: Seq<char>| self.fusion_hits@.dom().contains(k) implies (
            #[trigger] self.fusion_hits@[k]) + egraph::live(self.model()).len() + 1
                <= self.classes@.len() by {
                assert(before.fusion_hits@[k] == self.fusion_hits@[k]);
            }
        }
        let ghost mid = self.model();
        self.count_hit(rule);
        assert(egraph::live(self.model()) =~= egraph::live(mid));
    }

    /// Whether the class of `cid` holds a conditional implementation.
    fn class_has_when_guard(&self, cid: usize) -> (r: bool)
        requires
            self.wf(),
            cid < self.classes@.len(),
        ensures
            r == egraph::guarded(self.model(), cid as int),
    {
        proof {
            self.uf.lemma_roots();
        }
        let canon = self.uf.find_imm(cid);
        let ghost m = self.model();
        let mut i: usize = 0;
        while i < self.classes[canon].nodes.len()
            invariant
                m == self.model(),
                canon == m.roots[cid as int],
                canon < self.classes@.len(),
                i <= self.classes@[canon as int].nodes@.len(),
                forall|k: int|
                    0 <= k < i ==> !(#[trigger] self.classes@[canon as int].nodes@[k]).when_guard,
            decreases self.classes@[canon as int].nodes@.len() - i,
        {
            if self.classes[canon].nodes[i].when_guard {
                assert(m.classes[canon as int].nodes[i as int].guard);
                return true;
            }
            i += 1;
        }
        assert forall|k: int| 0 <= k < m.classes[canon as int].nodes.len() implies !(
        #[trigger] m.classes[canon as int].nodes[k]).guard by {
            assert(!self.classes@[canon as int].nodes@[k].when_guard);
        }
        false
    }

    // ── Rule one ──

    /// The node with each child replaced by its root.
    fn canon_node_imm(&self, node: &ENode) -> (r: ENode)
        requires
            self.wf(),
            egraph::children_ok(*node, self.classes@.len()),
        ensures
            r@ == egraph::canon_node(self.model(), node@),
    {
        let mut children: Vec<usize> = Vec::new();
        let mut i: usize = 0;
        while i < node.children.len()
            invariant
                self.wf(),
                egraph::children_ok(*node, self.classes@.len()),
                i <= node.children@.len(),
                children@.len() == i,
                forall|k: int|
                    0 <= k < i ==> (#[trigger] children@[k]) as int
                        == self.model().roots[node.children@[k] as int],
            decreases node.children@.len() - i,
        {
            children.push(self.uf.find_imm(node.children[i]));
            i += 1;
        }
        let r = ENode { op: node.op.clone(), children, when_guard: node.when_guard };
        assert(r@.children =~= egraph::canon_node(self.model(), node@).children);
        r
    }

    /// Whether every node of `a` is, up to roots, a node of `b`.
    fn nodes_within(&self, a: usize, b: usize) -> (r: bool)
        requires
            self.wf(),
            a < self.classes@.len(),
            b < self.classes@.len(),
        ensures
            r == egraph::signature(self.model(), a as int).subset_of(
                egraph::signature(self.model(), b as int),
            ),
    {
        let ghost m = self.model();
        let ghost sa = egraph::signature(m, a as int);
        let ghost sb = egraph::signature(m, b as int);
        let mut i: usize = 0;
        while i < self.classes[a].nodes.len()
            invariant
                self.wf(),
                m == self.model(),
                sa == egraph::signature(m, a as int),
                sb == egraph::signature(m, b as int),
                a < self.classes@.len(),
                b < self.classes@.len(),
                i <= self.classes@[a as int].nodes@.len(),
                forall|k: int|
                    0 <= k < i ==> sb.contains(
                        egraph::canon_node(m, #[trigger] m.classes[a as int].nodes[k]),
                    ),
            decreases self.classes@[a as int].nodes@.len() - i,
        {
            assert(egraph::children_ok(
                self.classes@[a as int].nodes@[i as int],
                self.classes@.len(),
            ));
            let x = self.canon_node_imm(&self.classes[a].nodes[i]);
            let mut found = false;
            let mut j: usize = 0;
            while j < self.classes[b].nodes.len() && !found
                invariant
                    self.wf(),
                    m == self.model(),
                    sb == egraph::signature(m, b as int),
                    b < self.classes@.len(),
                    j <= self.classes@[b as int].nodes@.len(),
                    found ==> sb.contains(x@),
                    !found ==> forall|k: int|
                        0 <= k < j ==> egraph::canon_node(
                            m,
                            #[trigger] m.classes[b as int].nodes[k],
                        ) != x@,
                decreases self.classes@[b as int].nodes@.len() - j,
            {
                assert(egraph::children_ok(
                    self.classes@[b as int].nodes@[j as int],
                    self.classes@.len(),
                ));
                let y = self.canon_node_imm(&self.classes[b].nodes[j]);
                assert(y@ == egraph::canon_node(m, m.classes[b as int].nodes[j as int]));
                if x.same_node(&y) {
                    found = true;
                }
                j += 1;
            }
            assert(x@ == egraph::canon_node(m, m.classes[a as int].nodes[i as int]));
            if !found {
                assert(sa.contains(x@));
                assert(!sb.contains(x@));
                return false;
            }
            i += 1;
        }
        assert forall|n: egraph::GNode| sa.contains(n) implies sb.contains(n) by {
            let k = choose|k: int|
                0 <= k < m.classes[a as int].nodes.len() && n == egraph::canon_node(
                    m,
                    #[trigger] m.classes[a as int].nodes[k],
                );
            assert(sb.contains(egraph::canon_node(m, m.classes[a as int].nodes[k])));
        }
        true
    }

    /// Whether the two classes have the same nodes, up to roots.
    fn same_signature(&self, a: usize, b: usize) -> (r: bool)
        requires
            self.wf(),
            a < self.classes@.len(),
            b < self.classes@.len(),
        ensures
            r == (egraph::signature(self.model(), a as int) == egraph::signature(
                self.model(),
                b as int,
            )),
    {
        let r = self.nodes_within(a, b) && self.nodes_within(b, a);
        proof {
            if r {
                assert(egraph::signature(self.model(), a as int) =~= egraph::signature(
                    self.model(),
                    b as int,
                ));
            }
        }
        r
    }

    /// Whether the class is a root with nodes.
    fn is_active(&self, c: usize) -> (r: bool)
        requires
            self.wf(),
            c < self.classes@.len(),
        ensures
            r == egraph::active(self.model(), c as int),
    {
        self.uf.find_imm(c) == c && self.classes[c].nodes.len() > 0
    }

    /// The first two classes with the same nodes.
    fn find_same_nodes(&self) -> (r: Option<(usize, usize)>)
        requires
            self.wf(),
        ensures
            match r {
                Some((a, b)) => egraph::same_nodes_pair(self.model(), 0) == Some(
                    (a as int, b as int),
                ),
                None => egraph::same_nodes_pair(self.model(), 0) is None,
            },
    {
        let ghost m = self.model();
        let n: usize = self.classes.len();
        let mut id: usize = 0;
        while id < n
            invariant
                self.wf(),
                m == self.model(),
                n == self.classes@.len(),
                id <= n,
                egraph::same_nodes_pair(m, 0) == egraph::same_nodes_pair(m, id as int),
            decreases n - id,
        {
            if self.is_active(id) && !self.class_has_when_guard(id) {
                let mut j: usize = 0;
                let mut hit: Option<usize> = None;
                while j < id && hit.is_none()
                    invariant
                        self.wf(),
                        m == self.model(),
                        n == self.classes@.len(),
                        j <= id < n,
                        match hit {
                            None => egraph::twin(m, id as int, 0) == egraph::twin(
                                m,
                                id as int,
                                j as int,
                            ),
                            Some(k) => k < id && egraph::twin(m, id as int, 0) == Some(k as int),
                        },
                    decreases id - j + (if hit is None {
                        1int
                    } else {
                        0int
                    }),
                {
                    if self.is_active(j) && self.same_signature(j, id) {
                        hit = Some(j);
                    } else {
                        j += 1;
                    }
                }
                match hit {
                    Some(k) => {
                        if !self.class_has_when_guard(k) {
                            return Some((k, id));
                        }
                    },
                    None => {},
                }
            }
            id += 1;
        }
        None
    }

    /// Puts classes with the same nodes together until there are none; whether
    /// there were any.
    fn union_isomorphic_classes(&mut self) -> (changed: bool)
        requires
            old(self).wf(),
        ensures
            final(self).wf(),
            final(self).model() == egraph::same_nodes_closed(old(self).model()),
            changed == (egraph::live(final(self).model()).len() != egraph::live(
                old(self).model(),
            ).len()),
            egraph::live(final(self).model()).len() <= egraph::live(old(self).model()).len(),
            final(self).classes@.len() == old(self).classes@.len(),
            final(self).nodes == old(self).nodes,
            final(self).edges == old(self).edges,
            final(self).proc_class == old(self).proc_class,
    {
        let mut changed = false;
        loop
            invariant
                self.wf(),
                egraph::same_nodes_closed(self.model()) == egraph::same_nodes_closed(
                    old(self).model(),
                ),
                egraph::live(self.model()).len() <= egraph::live(old(self).model()).len(),
                changed == (egraph::live(self.model()).len() != egraph::live(
                    old(self).model(),
                ).len()),
                self.classes@.len() == old(self).classes@.len(),
                self.nodes == old(self).nodes,
                self.edges == old(self).edges,
                self.proc_class == old(self).proc_class,
            decreases egraph::live(self.model()).len(),
        {
            proof {
                self.lemma_model();
                egraph::lemma_same_nodes_pair(self.model(), 0);
            }
            match self.find_same_nodes() {
                Some((a, b)) => {
                    self.fuse(a, b, "isomorphic_union");
                    changed = true;
                },
                None => {
                    return changed;
                },
            }
        }
    }
}

// ── Rule two ──

/// The positions that are set.
pub open spec fn bits(v: Seq<bool>) -> Set<int> {
    Set::new(|i: int| 0 <= i < v.len() && v[i])
}

/// What has been worked out: the flattened set of each class that has one.
pub open spec fn memo_sets(v: Seq<Option<Vec<bool>>>) -> Map<int, Set<int>> {
    Map::new(|c: int| 0 <= c < v.len() && v[c] is Some, |c: int| bits(v[c]->0@))
}

/// There is room for each class, and each set ranges over the classes.
pub open spec fn memo_ok(v: Seq<Option<Vec<bool>>>, n: nat) -> bool {
    v.len() == n && forall|c: int| 0 <= c < n ==> ((#[trigger] v[c]) matches Some(s) ==> s@.len() == n)
}

/// The set of `c` alone.
fn one_bit(n: usize, c: usize) -> (r: Vec<bool>)
    requires
        c < n,
    ensures
        r@.len() == n,
        bits(r@) == set![c as int],
{
    let mut r: Vec<bool> = Vec::new();
    let mut i: usize = 0;
    while i < n
        invariant
            i <= n,
            r@.len() == i,
            forall|k: int| 0 <= k < i ==> #[trigger] r@[k] == (k == c),
        decreases n - i,
    {
        r.push(i == c);
        i += 1;
    }
    assert(bits(r@) =~= set![c as int]);
    r
}

/// The empty set.
fn no_bits(n: usize) -> (r: Vec<bool>)
    ensures
        r@.len() == n,
        bits(r@) == Set::<int>::empty(),
{
    let mut r: Vec<bool> = Vec::new();
    let mut i: usize = 0;
    while i < n
        invariant
            i <= n,
            r@.len() == i,
            forall|k: int| 0 <= k < i ==> !#[trigger] r@[k],
        decreases n - i,
    {
        r.push(false);
        i += 1;
    }
    assert(bits(r@) =~= Set::<int>::empty());
    r
}

/// A set of its own with the same members.
fn copy_bits(a: &Vec<bool>) -> (r: Vec<bool>)
    ensures
        r@ == a@,
{
    let mut r: Vec<bool> = Vec::new();
    let mut i: usize = 0;
    while i < a.len()
        invariant
            i <= a@.len(),
            r@ == a@.take(i as int),
        decreases a@.len() - i,
    {
        r.push(a[i]);
        i += 1;
        assert(a@.take(i as int) =~= a@.take(i - 1).push(a@[i - 1]));
    }
    assert(a@.take(i as int) =~= a@);
    r
}

/// The members of both sets.
fn join_bits(a: &Vec<bool>, b: &Vec<bool>) -> (r: Vec<bool>)
    requires
        a@.len() == b@.len(),
    ensures
        r@.len() == a@.len(),
        bits(r@) == bits(a@).union(bits(b@)),
{
    let mut r: Vec<bool> = Vec::new();
    let mut i: usize = 0;
    while i < a.len()
        invariant
            i <= a@.len(),
            a@.len() == b@.len(),
            r@.len() == i,
            forall|k: int| 0 <= k < i ==> #[trigger] r@[k] == (a@[k] || b@[k]),
        decreases a@.len() - i,
    {
        r.push(a[i] || b[i]);
        i += 1;
    }
    assert(bits(r@) =~= bits(a@).union(bits(b@)));
    r
}

/// Whether the two sets are equal.
fn same_bits(a: &Vec<bool>, b: &Vec<bool>) -> (r: bool)
    requires
        a@.len() == b@.len(),
    ensures
        r == (bits(a@) == bits(b@)),
{
    let mut i: usize = 0;
    while i < a.len()
        invariant
            i <= a@.len(),
            a@.len() == b@.len(),
            forall|k: int| 0 <= k < i ==> a@[k] == b@[k],
        decreases a@.len() - i,
    {
        if a[i] != b[i] {
            assert(bits(a@).contains(i as int) != bits(b@).contains(i as int));
            return false;
        }
        i += 1;
    }
    assert(bits(a@) =~= bits(b@));
    true
}

/// The only member, where there is exactly one.
fn sole_bit(a: &Vec<bool>) -> (r: Option<usize>)
    ensures
        match r {
            Some(x) => x < a@.len() && bits(a@) == set![x as int] && egraph::single(bits(a@))
                && egraph::sole(bits(a@)) == x,
            None => !egraph::single(bits(a@)),
        },
{
    let mut found: Option<usize> = None;
    let mut i: usize = 0;
    while i < a.len()
        invariant
            i <= a@.len(),
            match found {
                None => forall|k: int| 0 <= k < i ==> !#[trigger] a@[k],
                Some(x) => x < i && forall|k: int| 0 <= k < i ==> #[trigger] a@[k] == (k == x),
            },
        decreases a@.len() - i,
    {
        if a[i] {
            match found {
                Some(x) => {
                    proof {
                        let s = bits(a@);
                        assert(s.contains(i as int));
                        assert(s.contains(x as int));
                        assert forall|y: int| s != set![y] by {
                            if s == set![y] {
                                assert(set![y].contains(i as int));
                                assert(set![y].contains(x as int));
                            }
                        }
                    }
                    return None;
                },
                None => {
                    found = Some(i);
                },
            }
        }
        i += 1;
    }
    proof {
        let s = bits(a@);
        match found {
            Some(x) => {
                assert(s =~= set![x as int]);
                let y = egraph::sole(s);
                assert(s == set![y]);
                assert(set![y].contains(x as int));
            },
            None => {
                assert(s =~= Set::<int>::empty());
                assert forall|y: int| s != set![y] by {
                    assert(set![y].contains(y));
                    assert(!s.contains(y));
                }
            },
        }
    }
    found
}

impl EGraph {
    /// Whether every node of the class is a merge, and there is one.
    fn is_pure_merge(&self, c: usize) -> (r: bool)
        requires
            c < self.classes@.len(),
        ensures
            r == egraph::pure_merge(self.model(), c as int),
    {
        let ghost m = self.model();
        if self.classes[c].nodes.len() == 0 {
            return false;
        }
        let mut i: usize = 0;
        while i < self.classes[c].nodes.len()
            invariant
                m == self.model(),
                c < self.classes@.len(),
                i <= self.classes@[c as int].nodes@.len(),
                forall|k: int|
                    0 <= k < i ==> (#[trigger] m.classes[c as int].nodes[k]).op == "merge"@,
            decreases self.classes@[c as int].nodes@.len() - i,
        {
            if !text::same(self.classes[c].nodes[i].op.as_str(), "merge") {
                assert(m.classes[c as int].nodes[i as int].op != "merge"@);
                return false;
            }
            assert(m.classes[c as int].nodes[i as int].op == "merge"@);
            i += 1;
        }
        true
    }

    /// The classes that the class of `cid` flattens to.
    fn class_flat_or_self(
        &self,
        cid: usize,
        memo: &mut Vec<Option<Vec<bool>>>,
        path: &mut Vec<usize>,
    ) -> (r: Vec<bool>)
        requires
            self.wf(),
            cid < self.classes@.len(),
            memo_ok(old(memo)@, self.classes@.len()),
            old(path)@.len() <= self.classes@.len(),
        ensures
            r@.len() == self.classes@.len(),
            memo_ok(final(memo)@, self.classes@.len()),
            final(path)@ == old(path)@,
            (bits(r@), memo_sets(final(memo)@)) == egraph::flat(
                self.model(),
                cid as int,
                memo_sets(old(memo)@),
                egraph::ints(old(path)@),
            ),
        decreases self.classes@.len() - old(path)@.len(), 0int,
    {
        let n: usize = self.classes.len();
        let ghost m = self.model();
        let ghost path0 = egraph::ints(path@);
        let ghost memo0 = memo_sets(memo@);
        proof {
            self.uf.lemma_roots();
        }
        let c = self.uf.find_imm(cid);
        match &memo[c] {
            Some(s) => {
                return copy_bits(s);
            },
            None => {},
        }
        let mut on_path = path.len() >= n;
        let mut i: usize = 0;
        while i < path.len() && !on_path
            invariant
                i <= path@.len(),
                n == self.classes@.len(),
                path0 == egraph::ints(path@),
                path@ == old(path)@,
                !on_path ==> path@.len() < n,
                on_path ==> path0.contains(c as int) || path@.len() >= n,
                !on_path ==> forall|k: int| 0 <= k < i ==> path@[k] != c,
            decreases path@.len() - i,
        {
            if path[i] == c {
                assert(path0[i as int] == c);
                on_path = true;
            }
            i += 1;
        }
        proof {
            if !on_path && path0.contains(c as int) {
                let k = choose|k: int| 0 <= k < path0.len() && path0[k] == c;
                assert(path@[k] == c);
            }
        }
        if on_path {
            return one_bit(n, c);
        }
        if !self.is_pure_merge(c) {
            let r = one_bit(n, c);
            memo[c] = Some(copy_bits(&r));
            assert(memo_sets(memo@) =~= memo0.insert(c as int, bits(r@)));
            return r;
        }
        path.push(c);
        let ghost path1 = egraph::ints(path@);
        assert(path1 =~= path0.push(c as int));
        let mut agreed: Option<Vec<bool>> = None;
        let mut consistent = true;
        let mut j: usize = 0;
        while j < self.classes[c].nodes.len() && consistent
            invariant
                self.wf(),
                m == self.model(),
                n == self.classes@.len(),
                c < n,
                path@ == old(path)@.push(c),
                path@.len() <= n,
                path1 == egraph::ints(path@),
                memo_ok(memo@, self.classes@.len()),
                j <= self.classes@[c as int].nodes@.len(),
                agreed matches Some(a) ==> a@.len() == n,
                consistent ==> egraph::flat_nodes(m, c as int, 0, None, memo0, path1)
                    == egraph::flat_nodes(
                    m,
                    c as int,
                    j as int,
                    match agreed {
                        Some(a) => Some(bits(a@)),
                        None => None,
                    },
                    memo_sets(memo@),
                    path1,
                ),
                !consistent ==> egraph::flat_nodes(m, c as int, 0, None, memo0, path1) == (
                    None::<Set<int>>,
                    memo_sets(memo@),
                ),
            decreases self.classes@[c as int].nodes@.len() - j,
        {
            assert(m.classes[c as int].nodes[j as int].children == egraph::ints(
                self.classes@[c as int].nodes@[j as int].children@,
            ));
            assert(egraph::children_ok(
                self.classes@[c as int].nodes@[j as int],
                self.classes@.len(),
            ));
            let out = self.children_flat_set(&self.classes[c].nodes[j], memo, path);
            let differs = match &agreed {
                Some(a) => !same_bits(a, &out),
                None => false,
            };
            if differs {
                consistent = false;
            } else {
                agreed = Some(out);
            }
            j += 1;
        }
        path.pop();
        assert(path@ =~= old(path)@);
        let r = if consistent {
            match agreed {
                Some(a) => a,
                None => one_bit(n, c),
            }
        } else {
            one_bit(n, c)
        };
        let ghost memo2 = memo_sets(memo@);
        memo[c] = Some(copy_bits(&r));
        assert(memo_sets(memo@) =~= memo2.insert(c as int, bits(r@)));
        r
    }

    /// The classes that the children of a node flatten to.
    fn children_flat_set(
        &self,
        node: &ENode,
        memo: &mut Vec<Option<Vec<bool>>>,
        path: &mut Vec<usize>,
    ) -> (r: Vec<bool>)
        requires
            self.wf(),
            egraph::children_ok(*node, self.classes@.len()),
            memo_ok(old(memo)@, self.classes@.len()),
            old(path)@.len() <= self.classes@.len(),
        ensures
            r@.len() == self.classes@.len(),
            memo_ok(final(memo)@, self.classes@.len()),
            final(path)@ == old(path)@,
            (bits(r@), memo_sets(final(memo)@)) == egraph::flat_children(
                self.model(),
                node@.children,
                0,
                Set::empty(),
                memo_sets(old(memo)@),
                egraph::ints(old(path)@),
            ),
        decreases self.classes@.len() - old(path)@.len(), 1int,
    {
        let n: usize = self.classes.len();
        let ghost m = self.model();
        let ghost path0 = egraph::ints(path@);
        let ghost memo0 = memo_sets(memo@);
        let mut acc = no_bits(n);
        let mut k: usize = 0;
        while k < node.children.len()
            invariant
                self.wf(),
                m == self.model(),
                n == self.classes@.len(),
                egraph::children_ok(*node, self.classes@.len()),
                memo_ok(memo@, self.classes@.len()),
                path@ == old(path)@,
                path@.len() <= n,
                path0 == egraph::ints(path@),
                k <= node.children@.len(),
                acc@.len() == n,
                egraph::flat_children(m, node@.children, 0, Set::empty(), memo0, path0)
                    == egraph::flat_children(
                    m,
                    node@.children,
                    k as int,
                    bits(acc@),
                    memo_sets(memo@),
                    path0,
                ),
            decreases node.children@.len() - k,
        {
            let s = self.class_flat_or_self(node.children[k], memo, path);
            acc = join_bits(&acc, &s);
            k += 1;
        }
        acc
    }

    /// The classes that a merge node flattens to.
    fn merge_node_flat_set(&self, node: &ENode) -> (r: Vec<bool>)
        requires
            self.wf(),
            egraph::children_ok(*node, self.classes@.len()),
        ensures
            r@.len() == self.classes@.len(),
            bits(r@) == egraph::flat_set(self.model(), node@),
    {
        let n: usize = self.classes.len();
        let mut memo: Vec<Option<Vec<bool>>> = Vec::new();
        let mut i: usize = 0;
        while i < n
            invariant
                i <= n,
                memo@.len() == i,
                forall|k: int| 0 <= k < i ==> (#[trigger] memo@[k]) is None,
            decreases n - i,
        {
            memo.push(None);
            i += 1;
        }
        let mut path: Vec<usize> = Vec::new();
        assert(memo_sets(memo@) =~= Map::<int, Set<int>>::empty());
        assert(egraph::ints(path@) =~= Seq::<int>::empty());
        self.children_flat_set(node, &mut memo, &mut path)
    }
}

/// A list of flattened sets with their classes.
pub open spec fn merge_views(l: Seq<(Vec<bool>, usize)>) -> Seq<(Set<int>, int)> {
    l.map_values(|e: (Vec<bool>, usize)| (bits(e.0@), e.1 as int))
}

/// Every entry ranges over the `n` classes and belongs to one.
pub open spec fn merges_ok(l: Seq<(Vec<bool>, usize)>, n: nat) -> bool {
    forall|i: int| 0 <= i < l.len() ==> (#[trigger] l[i]).0@.len() == n && l[i].1 < n
}

impl EGraph {
    /// The merge nodes of all roots: what each flattens to, and its class.
    fn collect_merges(&self) -> (l: Vec<(Vec<bool>, usize)>)
        requires
            self.wf(),
        ensures
            merges_ok(l@, self.classes@.len()),
            merge_views(l@) == egraph::all_merges(self.model(), 0),
    {
        let n: usize = self.classes.len();
        let ghost m = self.model();
        let mut l: Vec<(Vec<bool>, usize)> = Vec::new();
        let mut c: usize = 0;
        assert(merge_views(l@) + egraph::all_merges(m, 0) =~= egraph::all_merges(m, 0));
        while c < n
            invariant
                self.wf(),
                m == self.model(),
                n == self.classes@.len(),
                c <= n,
                merges_ok(l@, n as nat),
                merge_views(l@) + egraph::all_merges(m, c as int) == egraph::all_merges(m, 0),
            decreases n - c,
        {
            if self.uf.find_imm(c) == c {
                let ghost start = merge_views(l@);
                let mut i: usize = 0;
                assert(merge_views(l@) + egraph::class_merges(m, c as int, 0) =~= start
                    + egraph::class_merges(m, c as int, 0));
                while i < self.classes[c].nodes.len()
                    invariant
                        self.wf(),
                        m == self.model(),
                        n == self.classes@.len(),
                        c < n,
                        i <= self.classes@[c as int].nodes@.len(),
                        merges_ok(l@, n as nat),
                        merge_views(l@) + egraph::class_merges(m, c as int, i as int) == start
                            + egraph::class_merges(m, c as int, 0),
                    decreases self.classes@[c as int].nodes@.len() - i,
                {
                    let node = &self.classes[c].nodes[i];
                    assert(m.classes[c as int].nodes[i as int] == node@);
                    if text::same(node.op.as_str(), "merge") {
                        assert(egraph::children_ok(
                            self.classes@[c as int].nodes@[i as int],
                            self.classes@.len(),
                        ));
                        let s = self.merge_node_flat_set(node);
                        let ghost before = l@;
                        l.push((s, c));
                        proof {
                            let e = (egraph::flat_set(m, node@), c as int);
                            assert(merge_views(l@) =~= merge_views(before).push(e));
                            assert(merge_views(l@) + egraph::class_merges(m, c as int, i + 1)
                                =~= merge_views(before) + (seq![e] + egraph::class_merges(
                                m,
                                c as int,
                                i + 1,
                            )));
                        }
                    }
                    i += 1;
                }
                proof {
                    let rest = egraph::all_merges(m, c + 1);
                    assert(merge_views(l@) + egraph::class_merges(m, c as int, i as int)
                        =~= merge_views(l@));
                    assert(merge_views(l@) + rest =~= start + (egraph::class_merges(
                        m,
                        c as int,
                        0,
                    ) + rest));
                }
            }
            c += 1;
        }
        assert(merge_views(l@) + egraph::all_merges(m, c as int) =~= merge_views(l@));
        l
    }

    /// The first merge node with a partner: the two classes.
    fn find_same_merge(&self) -> (r: Option<(usize, usize)>)
        requires
            self.wf(),
        ensures
            match r {
                Some((a, b)) => {
                    &&& egraph::merge_pair(
                        self.model(),
                        egraph::all_merges(self.model(), 0),
                        0,
                    ) == Some((a as int, b as int))
                    &&& a < self.classes@.len()
                    &&& b < self.classes@.len()
                    &&& self.model().roots[a as int] != self.model().roots[b as int]
                },
                None => egraph::merge_pair(self.model(), egraph::all_merges(self.model(), 0), 0) is None,
            },
    {
        let n: usize = self.classes.len();
        let ghost m = self.model();
        let l = self.collect_merges();
        let ghost lv = merge_views(l@);
        let mut i: usize = 0;
        while i < l.len()
            invariant
                self.wf(),
                m == self.model(),
                n == self.classes@.len(),
                lv == merge_views(l@),
                lv == egraph::all_merges(m, 0),
                merges_ok(l@, n as nat),
                i <= l@.len(),
                egraph::merge_pair(m, lv, 0) == egraph::merge_pair(m, lv, i as int),
            decreases l@.len() - i,
        {
            let cid = l[i].1;
            assert(lv[i as int] == (bits(l@[i as int].0@), cid as int));
            let alone = sole_bit(&l[i].0);
            let mut partner: Option<usize> = alone;
            if alone.is_none() {
                let mut j: usize = 0;
                while j < i && !same_bits(&l[j].0, &l[i].0)
                    invariant
                        lv == merge_views(l@),
                        merges_ok(l@, n as nat),
                        j <= i < l@.len(),
                        egraph::first_alike(lv, i as int, 0) == egraph::first_alike(
                            lv,
                            i as int,
                            j as int,
                        ),
                    decreases i - j,
                {
                    assert(lv[j as int].0 == bits(l@[j as int].0@));
                    assert(lv[i as int].0 == bits(l@[i as int].0@));
                    j += 1;
                }
                assert(lv[j as int].0 == bits(l@[j as int].0@));
                if j < i {
                    partner = Some(l[j].1);
                    assert(lv[j as int].1 == l@[j as int].1);
                }
            }
            match partner {
                Some(o) => {
                    if self.uf.find_imm(cid) != self.uf.find_imm(o) && !self.class_has_when_guard(
                        cid,
                    ) && !self.class_has_when_guard(o) {
                        return if alone.is_some() {
                            Some((cid, o))
                        } else {
                            Some((o, cid))
                        };
                    }
                },
                None => {},
            }
            i += 1;
        }
        None
    }

    /// Puts the classes of equal merges together until there are none; whether
    /// there were any.
    fn flatten_merge_nodes(&mut self) -> (changed: bool)
        requires
            old(self).wf(),
        ensures
            final(self).wf(),
            final(self).model() == egraph::same_merge_closed(old(self).model()),
            changed == (egraph::live(final(self).model()).len() != egraph::live(
                old(self).model(),
            ).len()),
            egraph::live(final(self).model()).len() <= egraph::live(old(self).model()).len(),
            final(self).classes@.len() == old(self).classes@.len(),
            final(self).nodes == old(self).nodes,
            final(self).edges == old(self).edges,
            final(self).proc_class == old(self).proc_class,
    {
        let mut changed = false;
        loop
            invariant
                self.wf(),
                egraph::same_merge_closed(self.model()) == egraph::same_merge_closed(
                    old(self).model(),
                ),
                egraph::live(self.model()).len() <= egraph::live(old(self).model()).len(),
                changed == (egraph::live(self.model()).len() != egraph::live(
                    old(self).model(),
                ).len()),
                self.classes@.len() == old(self).classes@.len(),
                self.nodes == old(self).nodes,
                self.edges == old(self).edges,
                self.proc_class == old(self).proc_class,
            decreases egraph::live(self.model()).len(),
        {
            proof {
                self.lemma_model();
            }
            match self.find_same_merge() {
                Some((a, b)) => {
                    self.fuse(a, b, "merge_flatten");
                    changed = true;
                },
                None => {
                    return changed;
                },
            }
        }
    }
}

// ── Rule three ──

/// The first proc with this name.
pub fn find_proc(procs: &Vec<Proc>, name: &str) -> (r: Option<usize>)
    ensures
        text::opt_int(r) == egraph::proc_at(procs@, name@, 0),
        r matches Some(i) ==> i < procs@.len(),
{
    let mut i: usize = 0;
    while i < procs.len()
        invariant
            i <= procs@.len(),
            egraph::proc_at(procs@, name@, 0) == egraph::proc_at(procs@, name@, i as int),
        decreases procs@.len() - i,
    {
        if text::same(procs[i].name.as_str(), name) {
            return Some(i);
        }
        i += 1;
    }
    None
}

/// Reads with their classes.
pub open spec fn read_views(l: Seq<(usize, String)>) -> Seq<(int, Seq<char>)> {
    l.map_values(|e: (usize, String)| (e.0 as int, e.1@))
}

/// Writes with their classes and the classes of what they write.
pub open spec fn write_views(l: Seq<(usize, String, Option<usize>)>) -> Seq<
    (int, Seq<char>, Option<int>),
> {
    l.map_values(|e: (usize, String, Option<usize>)| (e.0 as int, e.1@, text::opt_int(e.2)))
}

impl EGraph {
    /// The class of the first name that is a proc.
    fn first_ref_class(&self, refs: &Vec<String>) -> (r: Option<usize>)
        requires
            self.wf(),
        ensures
            text::opt_int(r) == egraph::first_class(
                self.model().index,
                text::views(refs@),
                0,
            ),
            r matches Some(c) ==> c < self.classes@.len(),
    {
        let ghost index = self.model().index;
        let ghost names = text::views(refs@);
        let mut i: usize = 0;
        while i < refs.len()
            invariant
                self.wf(),
                index == self.model().index,
                names == text::views(refs@),
                i <= refs@.len(),
                egraph::first_class(index, names, 0) == egraph::first_class(index, names, i as int),
            decreases refs@.len() - i,
        {
            match self.proc_class.get(refs[i].as_str()) {
                Some(c) => {
                    proof {
                        self.lemma_index_value(names[i as int]);
                    }
                    return Some(*c);
                },
                None => {},
            }
            i += 1;
        }
        None
    }

    /// The class in which a proc started is a class.
    proof fn lemma_index_value(self, k: Seq<char>)
        requires
            self.wf(),
            self.proc_class@.dom().contains(k),
        ensures
            self.proc_class@[k] < self.classes@.len(),
    {
        let ks = self.proc_class.keys();
        let i = ks.index_of(k);
        assert(ks.contains(k));
        assert(0 <= i < ks.len());
        assert(self.proc_class.values()[i] < self.classes@.len());
    }

    /// The text of the implementation that a node came from.
    fn body_of<'a>(&self, procs: &'a Vec<Proc>, c: usize, i: usize) -> (r: Option<&'a String>)
        requires
            self.wf(),
            c < self.classes@.len(),
            i < self.classes@[c as int].nodes@.len(),
        ensures
            match r {
                Some(b) => egraph::origin_body(
                    procs@,
                    self.model().classes[c as int].origins[i as int],
                ) == Some(b@),
                None => egraph::origin_body(
                    procs@,
                    self.model().classes[c as int].origins[i as int],
                ) is None,
            },
    {
        let idx = self.classes[c].origins[i].1;
        match find_proc(procs, self.classes[c].origins[i].0.as_str()) {
            Some(p) => {
                if idx < procs[p].plan.len() {
                    Some(&procs[p].plan[idx].body_text)
                } else {
                    None
                }
            },
            None => None,
        }
    }

    /// The reads and the writes of all roots.
    fn collect_reads_writes(&self, procs: &Vec<Proc>) -> (r: (
        Vec<(usize, String)>,
        Vec<(usize, String, Option<usize>)>,
    ))
        requires
            self.wf(),
        ensures
            read_views(r.0@) == egraph::all_reads(self.model(), procs@, 0),
            write_views(r.1@) == egraph::all_writes(self.model(), procs@, 0),
            forall|i: int| 0 <= i < r.0@.len() ==> (#[trigger] r.0@[i]).0 < self.classes@.len(),
            forall|i: int|
                0 <= i < r.1@.len() ==> (#[trigger] r.1@[i]).0 < self.classes@.len() && (
                r.1@[i].2 matches Some(s) ==> s < self.classes@.len()),
    {
        let n: usize = self.classes.len();
        let ghost m = self.model();
        let mut rs: Vec<(usize, String)> = Vec::new();
        let mut ws: Vec<(usize, String, Option<usize>)> = Vec::new();
        let mut c: usize = 0;
        assert(read_views(rs@) + egraph::all_reads(m, procs@, 0) =~= egraph::all_reads(
            m,
            procs@,
            0,
        ));
        assert(write_views(ws@) + egraph::all_writes(m, procs@, 0) =~= egraph::all_writes(
            m,
            procs@,
            0,
        ));
        while c < n
            invariant
                self.wf(),
                m == self.model(),
                n == self.classes@.len(),
                c <= n,
                read_views(rs@) + egraph::all_reads(m, procs@, c as int) == egraph::all_reads(
                    m,
                    procs@,
                    0,
                ),
                write_views(ws@) + egraph::all_writes(m, procs@, c as int) == egraph::all_writes(
                    m,
                    procs@,
                    0,
                ),
                forall|i: int| 0 <= i < rs@.len() ==> (#[trigger] rs@[i]).0 < n,
                forall|i: int|
                    0 <= i < ws@.len() ==> (#[trigger] ws@[i]).0 < n && (ws@[i].2 matches Some(s)
                        ==> s < n),
            decreases n - c,
        {
            if self.uf.find_imm(c) == c {
                let ghost r0 = read_views(rs@);
                let ghost w0 = write_views(ws@);
                let mut i: usize = 0;
                while i < self.classes[c].nodes.len()
                    invariant
                        self.wf(),
                        m == self.model(),
                        n == self.classes@.len(),
                        c < n,
                        i <= self.classes@[c as int].nodes@.len(),
                        read_views(rs@) + egraph::class_reads(m, procs@, c as int, i as int) == r0
                            + egraph::class_reads(m, procs@, c as int, 0),
                        write_views(ws@) + egraph::class_writes(m, procs@, c as int, i as int)
                            == w0 + egraph::class_writes(m, procs@, c as int, 0),
                        forall|k: int| 0 <= k < rs@.len() ==> (#[trigger] rs@[k]).0 < n,
                        forall|k: int|
                            0 <= k < ws@.len() ==> (#[trigger] ws@[k]).0 < n && (
                            ws@[k].2 matches Some(s) ==> s < n),
                    decreases self.classes@[c as int].nodes@.len() - i,
                {
                    let node = &self.classes[c].nodes[i];
                    assert(m.classes[c as int].nodes[i as int] == node@);
                    proof {
                        reveal_strlit("from");
                        reveal_strlit("to");
                        reveal_strlit("read");
                        reveal_strlit("read_file");
                        reveal_strlit("write");
                        assert("write"@[0] == 'w');
                        assert("read"@[0] == 'r');
                        assert("read_file"@[0] == 'r');
                    }
                    let ghost rs0 = rs@;
                    let ghost ws0 = ws@;
                    match self.body_of(procs, c, i) {
                        Some(b) => {
                            if text::same(node.op.as_str(), "read") || text::same(
                                node.op.as_str(),
                                "read_file",
                            ) {
                                match body::extract_quoted_arg(b.as_str(), "from") {
                                    Some(p) => {
                                        let ghost e = (c as int, p@);
                                        rs.push((c, p));
                                        assert(read_views(rs@) =~= read_views(rs0).push(e));
                                        assert(read_views(rs@) + egraph::class_reads(
                                            m,
                                            procs@,
                                            c as int,
                                            i + 1,
                                        ) =~= read_views(rs0) + (seq![e] + egraph::class_reads(
                                            m,
                                            procs@,
                                            c as int,
                                            i + 1,
                                        )));
                                    },
                                    None => {},
                                }
                            } else if text::same(node.op.as_str(), "write") {
                                match body::extract_quoted_arg(b.as_str(), "to") {
                                    Some(p) => {
                                        let refs = body::body_refs(b.as_str());
                                        let src = self.first_ref_class(&refs);
                                        let ghost e = (c as int, p@, text::opt_int(src));
                                        ws.push((c, p, src));
                                        assert(write_views(ws@) =~= write_views(ws0).push(e));
                                        assert(write_views(ws@) + egraph::class_writes(
                                            m,
                                            procs@,
                                            c as int,
                                            i + 1,
                                        ) =~= write_views(ws0) + (seq![e] + egraph::class_writes(
                                            m,
                                            procs@,
                                            c as int,
                                            i + 1,
                                        )));
                                    },
                                    None => {},
                                }
                            }
                        },
                        None => {},
                    }
                    i += 1;
                }
                proof {
                    let rr = egraph::all_reads(m, procs@, c + 1);
                    let wr = egraph::all_writes(m, procs@, c + 1);
                    assert(read_views(rs@) + egraph::class_reads(m, procs@, c as int, i as int)
                        =~= read_views(rs@));
                    assert(read_views(rs@) + rr =~= r0 + (egraph::class_reads(
                        m,
                        procs@,
                        c as int,
                        0,
                    ) + rr));
                    assert(write_views(ws@) + egraph::class_writes(m, procs@, c as int, i as int)
                        =~= write_views(ws@));
                    assert(write_views(ws@) + wr =~= w0 + (egraph::class_writes(
                        m,
                        procs@,
                        c as int,
                        0,
                    ) + wr));
                }
            }
            c += 1;
        }
        assert(read_views(rs@) + egraph::all_reads(m, procs@, c as int) =~= read_views(rs@));
        assert(write_views(ws@) + egraph::all_writes(m, procs@, c as int) =~= write_views(ws@));
        (rs, ws)
    }

    /// The first read that cancels, with the class that it becomes.
    fn find_read_back(&self, procs: &Vec<Proc>) -> (r: Option<(usize, usize)>)
        requires
            self.wf(),
        ensures
            match r {
                Some((a, b)) => {
                    &&& egraph::cancel_pair(
                        self.model(),
                        egraph::all_reads(self.model(), procs@, 0),
                        egraph::all_writes(self.model(), procs@, 0),
                        0,
                    ) == Some((a as int, b as int))
                    &&& a < self.classes@.len()
                    &&& b < self.classes@.len()
                    &&& self.model().roots[a as int] != self.model().roots[b as int]
                },
                None => egraph::cancel_pair(
                    self.model(),
                    egraph::all_reads(self.model(), procs@, 0),
                    egraph::all_writes(self.model(), procs@, 0),
                    0,
                ) is None,
            },
    {
        let ghost m = self.model();
        let n: usize = self.classes.len();
        let (rs, ws) = self.collect_reads_writes(procs);
        let ghost rv = read_views(rs@);
        let ghost wv = write_views(ws@);
        let mut i: usize = 0;
        while i < rs.len()
            invariant
                self.wf(),
                m == self.model(),
                n == self.classes@.len(),
                rv == read_views(rs@),
                wv == write_views(ws@),
                i <= rs@.len(),
                egraph::cancel_pair(m, rv, wv, 0) == egraph::cancel_pair(m, rv, wv, i as int),
                forall|k: int| 0 <= k < rs@.len() ==> (#[trigger] rs@[k]).0 < n,
                forall|k: int|
                    0 <= k < ws@.len() ==> (#[trigger] ws@[k]).0 < n && (ws@[k].2 matches Some(s)
                        ==> s < n),
                rv == egraph::all_reads(m, procs@, 0),
                wv == egraph::all_writes(m, procs@, 0),
            decreases rs@.len() - i,
        {
            let rc = rs[i].0;
            assert(rv[i as int] == (rc as int, rs@[i as int].1@));
            let mut j: usize = 0;
            while j < ws.len()
                invariant
                    self.wf(),
                    m == self.model(),
                    n == self.classes@.len(),
                    rv == read_views(rs@),
                    wv == write_views(ws@),
                    i < rs@.len(),
                    rc == rs@[i as int].0,
                    rc < n,
                    rv[i as int] == (rc as int, rs@[i as int].1@),
                    j <= ws@.len(),
                    egraph::cancel_pair(m, rv, wv, 0) == egraph::cancel_pair(m, rv, wv, i as int),
                    egraph::cancel_with(m, rv[i as int], wv, 0) == egraph::cancel_with(
                        m,
                        rv[i as int],
                        wv,
                        j as int,
                    ),
                    forall|k: int|
                        0 <= k < ws@.len() ==> (#[trigger] ws@[k]).0 < n && (
                        ws@[k].2 matches Some(s) ==> s < n),
                    rv == egraph::all_reads(m, procs@, 0),
                    wv == egraph::all_writes(m, procs@, 0),
                decreases ws@.len() - j,
            {
                let wc = ws[j].0;
                assert(wv[j as int] == (wc as int, ws@[j as int].1@, text::opt_int(
                    ws@[j as int].2,
                )));
                match ws[j].2 {
                    Some(sc) => {
                        if text::same(rs[i].1.as_str(), ws[j].1.as_str()) && self.uf.find_imm(rc)
                            != self.uf.find_imm(wc) && self.uf.find_imm(rc) != self.uf.find_imm(sc)
                            && !self.class_has_when_guard(rc) && !self.class_has_when_guard(wc)
                            && !self.class_has_when_guard(sc) {
                            assert(egraph::cancels(m, rv[i as int], wv[j as int]));
                            return Some((rc, sc));
                        }
                        assert(!egraph::cancels(m, rv[i as int], wv[j as int]));
                    },
                    None => {
                        assert(!egraph::cancels(m, rv[i as int], wv[j as int]));
                    },
                }
                j += 1;
            }
            i += 1;
        }
        None
    }

    /// Puts each read into the class of what was written to its path until there
    /// is none left; whether there was any.
    fn cancel_write_read(&mut self, procs: &Vec<Proc>) -> (changed: bool)
        requires
            old(self).wf(),
        ensures
            final(self).wf(),
            final(self).model() == egraph::read_back_closed(old(self).model(), procs@),
            changed == (egraph::live(final(self).model()).len() != egraph::live(
                old(self).model(),
            ).len()),
            egraph::live(final(self).model()).len() <= egraph::live(old(self).model()).len(),
            final(self).classes@.len() == old(self).classes@.len(),
            final(self).nodes == old(self).nodes,
            final(self).edges == old(self).edges,
            final(self).proc_class == old(self).proc_class,
    {
        let mut changed = false;
        loop
            invariant
                self.wf(),
                egraph::read_back_closed(self.model(), procs@) == egraph::read_back_closed(
                    old(self).model(),
                    procs@,
                ),
                egraph::live(self.model()).len() <= egraph::live(old(self).model()).len(),
                changed == (egraph::live(self.model()).len() != egraph::live(
                    old(self).model(),
                ).len()),
                self.classes@.len() == old(self).classes@.len(),
                self.nodes == old(self).nodes,
                self.edges == old(self).edges,
                self.proc_class == old(self).proc_class,
            decreases egraph::live(self.model()).len(),
        {
            proof {
                self.lemma_model();
            }
            match self.find_read_back(procs) {
                Some((a, b)) => {
                    self.fuse(a, b, "write_read_cancel");
                    changed = true;
                },
                None => {
                    return changed;
                },
            }
        }
    }

    /// Applies the three rules, in order, until a round changes nothing, at most
    /// sixty-four times.
    fn saturate(&mut self, procs: &Vec<Proc>)
        requires
            old(self).wf(),
        ensures
            final(self).wf(),
            final(self).model() == egraph::saturated(old(self).model(), procs@, 64),
            final(self).classes@.len() == old(self).classes@.len(),
            final(self).nodes == old(self).nodes,
            final(self).edges == old(self).edges,
            final(self).proc_class == old(self).proc_class,
    {
        let mut left: usize = 64;
        while left > 0
            invariant
                left <= 64,
                self.wf(),
                egraph::saturated(self.model(), procs@, left as int) == egraph::saturated(
                    old(self).model(),
                    procs@,
                    64,
                ),
                self.classes@.len() == old(self).classes@.len(),
                self.nodes == old(self).nodes,
                self.edges == old(self).edges,
                self.proc_class == old(self).proc_class,
            decreases left,
        {
            let ghost m = self.model();
            let c1 = self.union_isomorphic_classes();
            let c2 = self.flatten_merge_nodes();
            let c3 = self.cancel_write_read(procs);
            assert(self.model() == egraph::one_round(m, procs@));
            if !c1 && !c2 && !c3 {
                return ;
            }
            left -= 1;
        }
    }
}

// ── Building ──

/// What an implementation refers to: its declared references, then those that
/// only its text holds.
fn collect_refs(i: &Impl) -> (r: Vec<String>)
    ensures
        text::views(r@) == egraph::impl_refs(*i),
{
    let more = body::body_refs(i.body_text.as_str());
    let ghost mv = text::views(more@);
    let ghost declared = text::views(i.refs@);
    let mut out: Vec<String> = Vec::new();
    let mut j: usize = 0;
    while j < i.refs.len()
        invariant
            j <= i.refs@.len(),
            text::views(out@) == declared.take(j as int),
            declared == text::views(i.refs@),
        decreases i.refs@.len() - j,
    {
        let ghost before = out@;
        out.push(i.refs[j].clone());
        assert(text::views(out@) =~= text::views(before).push(declared[j as int]));
        j += 1;
        assert(declared.take(j as int) =~= declared.take(j - 1).push(declared[j - 1]));
    }
    assert(declared.take(j as int) =~= declared);
    let mut k: usize = 0;
    while k < more.len()
        invariant
            k <= more@.len(),
            mv == text::views(more@),
            text::views(out@) == egraph::refs_with(declared, mv, k as int),
        decreases more@.len() - k,
    {
        if !text::is_one_of(more[k].as_str(), &out) {
            let ghost before = out@;
            out.push(more[k].clone());
            assert(text::views(out@) =~= text::views(before).push(mv[k as int]));
        }
        k += 1;
    }
    out
}

/// Whether an edge is among others.
fn has_edge(v: &Vec<(String, String)>, from: &str, to: &str) -> (r: bool)
    ensures
        r == egraph::edge_views(v@).contains((from@, to@)),
{
    let ghost s = egraph::edge_views(v@);
    let mut i: usize = 0;
    while i < v.len()
        invariant
            i <= v@.len(),
            s == egraph::edge_views(v@),
            forall|k: int| 0 <= k < i ==> s[k] != (from@, to@),
        decreases v@.len() - i,
    {
        assert(s[i as int] == (v@[i as int].0@, v@[i as int].1@));
        if text::same(v[i].0.as_str(), from) && text::same(v[i].1.as_str(), to) {
            return true;
        }
        i += 1;
    }
    false
}

impl EGraph {
    /// The classes of those names that are procs.
    fn ref_children(&self, refs: &Vec<String>) -> (r: Vec<usize>)
        requires
            self.wf(),
        ensures
            egraph::ints(r@) == egraph::ref_classes(
                self.model().index,
                text::views(refs@),
                refs@.len() as int,
            ),
            forall|k: int| 0 <= k < r@.len() ==> (#[trigger] r@[k]) < self.classes@.len(),
    {
        let ghost index = self.model().index;
        let ghost names = text::views(refs@);
        let mut out: Vec<usize> = Vec::new();
        let mut i: usize = 0;
        assert(egraph::ints(out@) =~= Seq::<int>::empty());
        while i < refs.len()
            invariant
                self.wf(),
                index == self.model().index,
                names == text::views(refs@),
                i <= refs@.len(),
                egraph::ints(out@) == egraph::ref_classes(index, names, i as int),
                forall|k: int| 0 <= k < out@.len() ==> (#[trigger] out@[k]) < self.classes@.len(),
            decreases refs@.len() - i,
        {
            match self.proc_class.get(refs[i].as_str()) {
                Some(c) => {
                    proof {
                        self.lemma_index_value(names[i as int]);
                    }
                    let ghost before = out@;
                    out.push(*c);
                    assert(egraph::ints(out@) =~= egraph::ints(before).push(*c as int));
                },
                None => {},
            }
            i += 1;
        }
        out
    }

    /// Adds an edge from each name that is another proc, no edge twice.
    fn add_edges(&mut self, procs: &Vec<Proc>, to: &str, refs: &Vec<String>)
        requires
            old(self).wf(),
        ensures
            final(self).wf(),
            final(self).model() == old(self).model(),
            final(self).classes == old(self).classes,
            final(self).nodes == old(self).nodes,
            final(self).proc_class == old(self).proc_class,
            egraph::edge_views(final(self).edges@) == egraph::edges_from_refs(
                egraph::edge_views(old(self).edges@),
                crate::ast::proc_names(procs@),
                to@,
                text::views(refs@),
                refs@.len() as int,
            ),
    {
        let ghost e0 = egraph::edge_views(self.edges@);
        let ghost pn = crate::ast::proc_names(procs@);
        let ghost names = text::views(refs@);
        let mut k: usize = 0;
        while k < refs.len()
            invariant
                k <= refs@.len(),
                names == text::views(refs@),
                pn == crate::ast::proc_names(procs@),
                self.wf(),
                self.model() == old(self).model(),
                self.classes == old(self).classes,
                self.nodes == old(self).nodes,
                self.proc_class == old(self).proc_class,
                egraph::edge_views(self.edges@) == egraph::edges_from_refs(
                    e0,
                    pn,
                    to@,
                    names,
                    k as int,
                ),
            decreases refs@.len() - k,
        {
            proof {
                lemma_proc_at(procs@, names[k as int], 0);
            }
            if find_proc(procs, refs[k].as_str()).is_some() && !text::same(refs[k].as_str(), to)
                && !has_edge(&self.edges, refs[k].as_str(), to) {
                let ghost before = self.edges@;
                self.edges.push((refs[k].clone(), to.to_owned()));
                assert(egraph::edge_views(self.edges@) =~= egraph::edge_views(before).push(
                    (names[k as int], to@),
                ));
                assert(egraph::live(self.model()) =~= egraph::live(old(self).model()));
            }
            k += 1;
        }
    }
}

/// A name is found among the procs exactly when it is one of theirs.
pub proof fn lemma_proc_at(procs: Seq<Proc>, name: Seq<char>, i: int)
    requires
        0 <= i <= procs.len(),
    ensures
        match egraph::proc_at(procs, name, i) {
            Some(k) => i <= k < procs.len() && procs[k].name@ == name,
            None => forall|k: int| i <= k < procs.len() ==> (#[trigger] procs[k]).name@ != name,
        },
        i == 0 ==> (egraph::proc_at(procs, name, 0) is Some <==> crate::ast::proc_names(
            procs,
        ).contains(name)),
    decreases procs.len() - i,
{
    if i < procs.len() && procs[i].name@ != name {
        lemma_proc_at(procs, name, i + 1);
    }
    if i == 0 {
        let pn = crate::ast::proc_names(procs);
        if pn.contains(name) {
            let k = choose|k: int| 0 <= k < pn.len() && pn[k] == name;
            assert(procs[k].name@ == name);
        }
        match egraph::proc_at(procs, name, 0) {
            Some(k) => {
                assert(pn[k] == name);
            },
            None => {},
        }
    }
}

/// Every proc in a class of its own, without nodes.
fn bare(procs: &Vec<Proc>) -> (r: EGraph)
    ensures
        r.wf(),
        r.model() == egraph::bare_graph(procs@),
        r.classes@.len() == procs@.len(),
        r.nodes@ == crate::ast::proc_names(procs@).to_set(),
        r.edges@.len() == 0,
{
    let mut nodes = TextSet::new();
    let mut classes: Vec<EClass> = Vec::new();
    let mut uf = UnionFind::new();
    let mut proc_class: TextMap<usize> = TextMap::new();
    let ghost pn = crate::ast::proc_names(procs@);
    let mut i: usize = 0;
    assert(pn.take(0).to_set() =~= Set::<Seq<char>>::empty());
    while i < procs.len()
        invariant
            i <= procs@.len(),
            pn == crate::ast::proc_names(procs@),
            nodes.wf(),
            nodes@ == pn.take(i as int).to_set(),
            classes@.len() == i,
            forall|c: int|
                0 <= c < i ==> (#[trigger] classes@[c])@ == egraph::apart_classes(procs@)[c],
            forall|c: int|
                0 <= c < i ==> (#[trigger] classes@[c]).nodes@.len() == 0
                    && classes@[c].origins@.len() == 0,
            uf.wf(),
            uf.roots().len() == i,
            uf.ranks().len() == i,
            forall|c: int| 0 <= c < i ==> #[trigger] uf.roots()[c] == c,
            forall|c: int| 0 <= c < i ==> #[trigger] uf.ranks()[c] == 0,
            proc_class.wf(),
            proc_class@.map_values(|v: usize| v as int) == egraph::name_index(procs@, i as int),
            forall|k: Seq<char>| proc_class@.dom().contains(k) ==> (#[trigger] proc_class@[k]) < i,
        decreases procs@.len() - i,
    {
        let name = procs[i].name.clone();
        let id = uf.make_set();
        let mut own: Vec<String> = Vec::new();
        own.push(name.clone());
        let c = EClass { procs: own, nodes: Vec::new(), origins: Vec::new() };
        proof {
            let want = egraph::apart_classes(procs@)[i as int];
            assert(c@.procs =~= want.procs);
            assert(c@.nodes =~= want.nodes);
            assert(c@.origins =~= want.origins);
        }
        classes.push(c);
        let ghost before = proc_class@;
        proc_class.insert(name.clone(), id);
        nodes.insert(name);
        proof {
            assert(proc_class@.map_values(|v: usize| v as int) =~= before.map_values(
                |v: usize| v as int,
            ).insert(pn[i as int], i as int));
            let a = pn.take(i as int);
            let b = pn.take(i + 1);
            assert(b =~= a.push(pn[i as int]));
            assert forall|x: Seq<char>| b.to_set().contains(x) <==> a.to_set().insert(
                pn[i as int],
            ).contains(x) by {
                if b.contains(x) {
                    let j = choose|j: int| 0 <= j < b.len() && b[j] == x;
                    if j < i {
                        assert(a[j] == x);
                    }
                }
                if a.contains(x) {
                    let j = choose|j: int| 0 <= j < a.len() && a[j] == x;
                    assert(b[j] == x);
                }
                assert(b[i as int] == pn[i as int]);
            }
            assert(nodes@ =~= b.to_set());
        }
        i += 1;
    }
    let ghost index = proc_class@;
    let r = EGraph {
        nodes,
        edges: Vec::new(),
        classes,
        uf,
        proc_class,
        memo: Vec::new(),
        fusion_hits: TextMap::new(),
    };
    proof {
        let m = r.model();
        let want = egraph::bare_graph(procs@);
        assert(pn.take(i as int) =~= pn);
        assert(m.classes =~= want.classes);
        assert(m.roots =~= want.roots);
        assert(m.ranks =~= want.ranks);
        assert(m.hits =~= want.hits);
        assert forall|j: int| 0 <= j < r.proc_class.values().len() implies (
        #[trigger] r.proc_class.values()[j]) < r.classes@.len() by {
            r.proc_class.lemma_entry(j);
        }
    }
    r
}

/// The e-graph of a pipeline.
pub fn build_egraph(pl: &Pipeline) -> (r: EGraph)
    ensures
        r.wf(),
        r.model() == egraph::egraph_of(pl.procs@),
        r.classes@.len() == pl.procs@.len(),
        r.nodes@ == crate::ast::proc_names(pl.procs@).to_set(),
        egraph::edge_views(r.edges@) == egraph::edges_of(pl.procs@, pl.procs@.len() as int),
{
    let ghost procs = pl.procs@;
    let mut eg = bare(&pl.procs);
    let ghost m0 = egraph::bare_graph(procs);
    let mut p: usize = 0;
    assert(egraph::edge_views(eg.edges@) =~= Seq::<(Seq<char>, Seq<char>)>::empty());
    while p < pl.procs.len()
        invariant
            p <= procs.len(),
            procs == pl.procs@,
            m0 == egraph::bare_graph(procs),
            eg.wf(),
            eg.classes@.len() == procs.len(),
            eg.model() == egraph::procs_added(m0, procs, p as int),
            eg.model().index == m0.index,
            eg.model().roots == m0.roots,
            eg.nodes@ == crate::ast::proc_names(procs).to_set(),
            egraph::edge_views(eg.edges@) == egraph::edges_of(procs, p as int),
        decreases procs.len() - p,
    {
        let ghost m1 = eg.model();
        let ghost e1 = egraph::edge_views(eg.edges@);
        let name = &pl.procs[p].name;
        proof {
            lemma_name_index(procs, procs.len() as int, p as int);
        }
        let class_id = match eg.proc_class.get(name.as_str()) {
            Some(c) => *c,
            None => {
                assert(false);
                0usize
            },
        };
        proof {
            eg.lemma_index_value(name@);
        }
        let mut i: usize = 0;
        while i < pl.procs[p].plan.len()
            invariant
                p < procs.len(),
                procs == pl.procs@,
                name@ == procs[p as int].name@,
                i <= procs[p as int].plan@.len(),
                eg.wf(),
                eg.classes@.len() == procs.len(),
                class_id < procs.len(),
                m1.index.dom().contains(name@),
                class_id == m1.index[name@],
                eg.model() == egraph::impls_added(m1, procs, p as int, i as int),
                eg.model().index == m1.index,
                eg.model().roots == m1.roots,
                eg.nodes@ == crate::ast::proc_names(procs).to_set(),
                egraph::edge_views(eg.edges@) == egraph::edges_of_impls(
                    e1,
                    procs,
                    p as int,
                    i as int,
                ),
            decreases procs[p as int].plan@.len() - i,
        {
            let imp = &pl.procs[p].plan[i];
            let refs = collect_refs(imp);
            eg.add_edges(&pl.procs, name.as_str(), &refs);
            let children = eg.ref_children(&refs);
            let node = ENode {
                op: body::body_op(imp.body_text.as_str()),
                children,
                when_guard: imp.when.is_some(),
            };
            assert(node@ == egraph::impl_node(m1.index, procs[p as int].plan@[i as int]));
            eg.add_node_raw(class_id, node, (name.clone(), i));
            i += 1;
        }
        p += 1;
    }
    eg.saturate(&pl.procs);
    eg
}

/// The index has every name among the first `n` procs.
proof fn lemma_name_index(procs: Seq<Proc>, n: int, p: int)
    requires
        0 <= p < n <= procs.len(),
    ensures
        egraph::name_index(procs, n).dom().contains(procs[p].name@),
    decreases n,
{
    if p < n - 1 {
        lemma_name_index(procs, n - 1, p);
    }
}

} // verus!
