//! Disjoint sets of small integers, with union by rank and path compression.

use vstd::prelude::*;

verus! {

/// The parents stay inside, ranks rise along them, and no rank is above 64.
pub open spec fn forest(p: Seq<usize>, rk: Seq<int>) -> bool {
    &&& p.len() == rk.len()
    &&& forall|x: int| 0 <= x < p.len() ==> 0 <= #[trigger] rk[x] <= 64
    &&& forall|x: int| 0 <= x < p.len() ==> 0 <= (#[trigger] p[x]) < p.len()
    &&& forall|x: int| 0 <= x < p.len() && p[x] != x ==> rk[#[trigger] p[x] as int] > rk[x]
}

/// The root above `x`.
pub open spec fn root_of(p: Seq<usize>, rk: Seq<int>, x: int) -> int
    decreases 65 - rk[x],
{
    if !forest(p, rk) || x < 0 || x >= p.len() || p[x] == x {
        x
    } else {
        root_of(p, rk, p[x] as int)
    }
}

/// The members whose root is `r`.
pub open spec fn members(p: Seq<usize>, rk: Seq<int>, r: int) -> Set<int> {
    Set::new(|y: int| 0 <= y < p.len() && root_of(p, rk, y) == r)
}

/// A root of rank `k` has at least two to the power of `k` members.
pub open spec fn grown(p: Seq<usize>, rk: Seq<int>) -> bool {
    forall|r: int|
        0 <= r < p.len() && p[r] == r ==> #[trigger] members(p, rk, r).len() >= vstd::arithmetic::power2::pow2(rk[r] as nat)
}

/// The root of a member is a root, inside, and of no smaller rank.
pub proof fn lemma_root(p: Seq<usize>, rk: Seq<int>, x: int)
    requires
        forest(p, rk),
        0 <= x < p.len(),
    ensures
        0 <= root_of(p, rk, x) < p.len(),
        p[root_of(p, rk, x)] == root_of(p, rk, x),
        root_of(p, rk, root_of(p, rk, x)) == root_of(p, rk, x),
        rk[root_of(p, rk, x)] >= rk[x],
        root_of(p, rk, x) != x ==> rk[root_of(p, rk, x)] > rk[x],
    decreases 65 - rk[x],
{
    if p[x] != x {
        lemma_root(p, rk, p[x] as int);
    }
}

/// Pointing a member straight at its root changes no root.
proof fn lemma_compress(p: Seq<usize>, rk: Seq<int>, x: int, r: usize)
    requires
        forest(p, rk),
        0 <= x < p.len(),
        r == root_of(p, rk, x),
    ensures
        forest(p.update(x, r), rk),
        forall|y: int|
            0 <= y < p.len() ==> #[trigger] root_of(p.update(x, r), rk, y) == root_of(p, rk, y),
        forall|y: int| 0 <= y < p.len() ==> ((#[trigger] p[y]) == y <==> p.update(x, r)[y] == y),
{
    let q = p.update(x, r);
    lemma_root(p, rk, x);
    assert(forest(q, rk)) by {
        assert forall|y: int| 0 <= y < q.len() && q[y] != y implies rk[#[trigger] q[y] as int]
            > rk[y] by {
            if y != x {
                assert(q[y] == p[y]);
            }
        }
    }
    assert forall|y: int| 0 <= y < p.len() implies #[trigger] root_of(q, rk, y) == root_of(p, rk, y)
        && (p[y] == y <==> q[y] == y) by {
        lemma_compress_at(p, rk, x, r, y);
    }
}

proof fn lemma_compress_at(p: Seq<usize>, rk: Seq<int>, x: int, r: usize, y: int)
    requires
        forest(p, rk),
        forest(p.update(x, r), rk),
        0 <= x < p.len(),
        0 <= y < p.len(),
        r == root_of(p, rk, x),
    ensures
        root_of(p.update(x, r), rk, y) == root_of(p, rk, y),
        p[y] == y <==> p.update(x, r)[y] == y,
    decreases 65 - rk[y],
{
    let q = p.update(x, r);
    lemma_root(p, rk, x);
    if y == x {
        if q[y] != y {
            assert(p[r as int] == r);
            assert(q[r as int] == r);
            assert(root_of(q, rk, r as int) == r);
        }
    } else if p[y] != y {
        lemma_compress_at(p, rk, x, r, p[y] as int);
    }
}

/// Linking the root `c` under the root `r` sends the members of `c` to `r`.
proof fn lemma_link_at(p: Seq<usize>, rk: Seq<int>, rk2: Seq<int>, c: int, r: usize, y: int)
    requires
        forest(p, rk),
        forest(p.update(c, r), rk2),
        0 <= c < p.len(),
        0 <= r < p.len(),
        c != r,
        p[c] == c,
        p[r as int] == r,
        0 <= y < p.len(),
    ensures
        root_of(p.update(c, r), rk2, y) == (if root_of(p, rk, y) == c {
            r as int
        } else {
            root_of(p, rk, y)
        }),
    decreases 65 - rk[y],
{
    let q = p.update(c, r);
    if y == c {
        assert(q[r as int] == r);
        assert(root_of(q, rk2, r as int) == r);
    } else if p[y] != y {
        lemma_link_at(p, rk, rk2, c, r, p[y] as int);
    }
}

/// What linking `c` under `r` does to the forest.
proof fn lemma_link(p: Seq<usize>, rk: Seq<int>, rk2: Seq<int>, c: int, r: usize)
    requires
        forest(p, rk),
        grown(p, rk),
        0 <= c < p.len(),
        0 <= r < p.len(),
        c != r,
        p[c] == c,
        p[r as int] == r,
        p.len() <= usize::MAX,
        (rk[c] < rk[r as int] && rk2 == rk) || (rk[c] == rk[r as int] && rk2 == rk.update(
            r as int,
            rk[r as int] + 1,
        )),
    ensures
        rk[r as int] < 64,
        forest(p.update(c, r), rk2),
        grown(p.update(c, r), rk2),
        forall|y: int|
            0 <= y < p.len() ==> #[trigger] root_of(p.update(c, r), rk2, y) == (if root_of(p, rk, y)
                == c {
                r as int
            } else {
                root_of(p, rk, y)
            }),
{
    let q = p.update(c, r);
    lemma_rank_bound(p, rk, r as int);
    assert(forest(q, rk2)) by {
        assert forall|x: int| 0 <= x < q.len() && q[x] != x implies rk2[#[trigger] q[x] as int]
            > rk2[x] by {
            if x != c {
                assert(q[x] == p[x]);
                assert(x != r);
            }
        }
    }
    assert forall|y: int| 0 <= y < p.len() implies #[trigger] root_of(q, rk2, y) == (if root_of(
        p,
        rk,
        y,
    ) == c {
        r as int
    } else {
        root_of(p, rk, y)
    }) by {
        lemma_link_at(p, rk, rk2, c, r, y);
    }
    assert forall|t: int| 0 <= t < q.len() && q[t] == t implies #[trigger] members(q, rk2, t).len()
        >= vstd::arithmetic::power2::pow2(rk2[t] as nat) by {
        assert(p[t] == t);
        assert(t != c);
        if t == r {
            let a = members(p, rk, c);
            let b = members(p, rk, r as int);
            lemma_members_finite(p, rk, c);
            lemma_members_finite(p, rk, r as int);
            assert(members(q, rk2, t) =~= a.union(b));
            assert(a.disjoint(b));
            vstd::set_lib::lemma_set_disjoint_lens(a, b);
            if rk[c] == rk[r as int] {
                vstd::arithmetic::power2::lemma_pow2_unfold(rk2[t] as nat);
                assert(members(p, rk, c).len() >= vstd::arithmetic::power2::pow2(rk[c] as nat));
                assert(members(p, rk, r as int).len() >= vstd::arithmetic::power2::pow2(rk[r as int] as nat));
            }
        } else {
            assert(members(q, rk2, t) =~= members(p, rk, t));
        }
    }
}

proof fn lemma_members_finite(p: Seq<usize>, rk: Seq<int>, r: int)
    ensures
        members(p, rk, r).finite(),
        members(p, rk, r).len() <= p.len(),
{
    vstd::set_lib::lemma_int_range(0, p.len() as int);
    assert(members(p, rk, r).subset_of(vstd::set_lib::set_int_range(0, p.len() as int)));
    vstd::set_lib::lemma_len_subset(members(p, rk, r), vstd::set_lib::set_int_range(0, p.len() as int));
}

/// A forest that fits the machine has no root of rank 64.
proof fn lemma_rank_bound(p: Seq<usize>, rk: Seq<int>, r: int)
    requires
        forest(p, rk),
        grown(p, rk),
        0 <= r < p.len(),
        p[r] == r,
        p.len() <= usize::MAX,
    ensures
        rk[r] < 64,
{
    lemma_members_finite(p, rk, r);
    assert(members(p, rk, r).len() >= vstd::arithmetic::power2::pow2(rk[r] as nat));
    if rk[r] >= 64 {
        vstd::arithmetic::power2::lemma2_to64();
        assert(vstd::arithmetic::power2::pow2(64) == 0x1_0000_0000_0000_0000);
    }
}

/// The root that a union of the sets of `ra` and `rb` gets.
pub open spec fn union_root(ranks: Seq<int>, ra: int, rb: int) -> int {
    if ra != rb && ranks[ra] < ranks[rb] {
        rb
    } else {
        ra
    }
}

/// The roots after a union of the sets of `ra` and `rb`.
pub open spec fn union_roots(roots: Seq<int>, ranks: Seq<int>, ra: int, rb: int) -> Seq<int> {
    Seq::new(
        roots.len(),
        |y: int|
            if roots[y] == ra || roots[y] == rb {
                union_root(ranks, ra, rb)
            } else {
                roots[y]
            },
    )
}

/// The ranks after a union of the sets of `ra` and `rb`.
pub open spec fn union_ranks(ranks: Seq<int>, ra: int, rb: int) -> Seq<int> {
    if ra != rb && ranks[ra] == ranks[rb] {
        ranks.update(ra, ranks[ra] + 1)
    } else {
        ranks
    }
}

/// Disjoint sets over `0..len`.
#[derive(Debug)]
pub struct UnionFind {
    parent: Vec<usize>,
    rank: Vec<u8>,
}

impl UnionFind {
    /// The rank of each member.
    pub closed spec fn ranks(self) -> Seq<int> {
        Seq::new(self.rank@.len(), |i: int| self.rank@[i] as int)
    }

    /// The root of each member: two members are in one set exactly when their
    /// roots are equal.
    pub closed spec fn roots(self) -> Seq<int> {
        Seq::new(self.parent@.len(), |x: int| root_of(self.parent@, self.ranks(), x))
    }

    /// The sets form a forest, and ranks are witnessed by members.
    pub closed spec fn wf(self) -> bool {
        &&& forest(self.parent@, self.ranks())
        &&& grown(self.parent@, self.ranks())
    }

    /// Roots are members and their own roots; every member has a rank.
    pub proof fn lemma_roots(self)
        requires
            self.wf(),
        ensures
            self.ranks().len() == self.roots().len(),
            forall|x: int| 0 <= x < self.roots().len() ==> 0 <= #[trigger] self.roots()[x] < self.roots().len(),
            forall|x: int|
                0 <= x < self.roots().len() ==> self.roots()[#[trigger] self.roots()[x]]
                    == self.roots()[x],
    {
        assert forall|x: int| 0 <= x < self.roots().len() implies 0 <= #[trigger] self.roots()[x]
            < self.roots().len() && self.roots()[self.roots()[x]] == self.roots()[x] by {
            lemma_root(self.parent@, self.ranks(), x);
        }
    }

    /// No member.
    pub fn new() -> (r: UnionFind)
        ensures
            r.wf(),
            r.roots() == Seq::<int>::empty(),
            r.ranks() == Seq::<int>::empty(),
    {
        let r = UnionFind { parent: Vec::new(), rank: Vec::new() };
        assert(r.roots() =~= Seq::<int>::empty());
        assert(r.ranks() =~= Seq::<int>::empty());
        r
    }

    /// Adds a member in a set of its own and returns it.
    pub fn make_set(&mut self) -> (id: usize)
        requires
            old(self).wf(),
        ensures
            final(self).wf(),
            id == old(self).roots().len(),
            final(self).roots() == old(self).roots().push(id as int),
            final(self).ranks() == old(self).ranks().push(0),
    {
        let ghost p = self.parent@;
        let ghost rk = self.ranks();
        let id = self.parent.len();
        self.parent.push(id);
        self.rank.push(0);
        proof {
            let q = self.parent@;
            let rq = self.ranks();
            assert(rq =~= rk.push(0));
            assert(forest(q, rq)) by {
                assert forall|x: int| 0 <= x < q.len() implies 0 <= #[trigger] rq[x] <= 64 by {
                    if x < p.len() {
                        assert(rk[x] == rq[x]);
                    }
                }
                assert forall|x: int| 0 <= x < q.len() implies 0 <= (#[trigger] q[x]) < q.len() by {
                    if x < p.len() {
                        assert(p[x] == q[x]);
                    }
                }
                assert forall|x: int| 0 <= x < q.len() && q[x] != x implies rq[#[trigger] q[x] as int]
                    > rq[x] by {
                    assert(p[x] == q[x]);
                }
            }
            assert forall|y: int| 0 <= y < p.len() implies #[trigger] root_of(q, rq, y) == root_of(
                p,
                rk,
                y,
            ) by {
                lemma_push_at(p, rk, q, rq, y);
            }
            assert(root_of(q, rq, id as int) == id);
            assert(self.roots() =~= old(self).roots().push(id as int));
            assert forall|t: int| 0 <= t < q.len() && q[t] == t implies #[trigger] members(
                q,
                rq,
                t,
            ).len() >= vstd::arithmetic::power2::pow2(rq[t] as nat) by {
                if t == id {
                    assert forall|y: int| members(q, rq, t).contains(y) <==> y == t by {
                        if 0 <= y < p.len() {
                            lemma_root(p, rk, y);
                        }
                    }
                    assert(members(q, rq, t) =~= set![t]);
                    vstd::arithmetic::power2::lemma2_to64();
                } else {
                    assert(p[t] == t);
                    assert(members(q, rq, t) =~= members(p, rk, t));
                }
            }
        }
        id
    }

    /// The root of `x`; the path to it is shortened.
    pub fn find(&mut self, x: usize) -> (r: usize)
        requires
            old(self).wf(),
            x < old(self).roots().len(),
        ensures
            final(self).wf(),
            final(self).roots() == old(self).roots(),
            final(self).ranks() == old(self).ranks(),
            r == old(self).roots()[x as int],
        decreases 65 - old(self).ranks()[x as int],
    {
        let ghost p = self.parent@;
        let ghost rk = self.ranks();
        let above: usize = self.parent[x];
        if above != x {
            let root = self.find(above);
            proof {
                assert(root == root_of(p, rk, x as int));
                assert(root_of(self.parent@, self.ranks(), x as int) == self.roots()[x as int]);
                lemma_compress(self.parent@, self.ranks(), x as int, root);
            }
            let ghost mid = self.parent@;
            self.parent[x] = root;
            proof {
                assert(self.parent@ =~= mid.update(x as int, root));
                assert(self.ranks() =~= rk);
                assert(self.roots() =~= old(self).roots());
                assert forall|t: int| 0 <= t < mid.len() && self.parent@[t] == t implies #[trigger] members(
                    self.parent@,
                    rk,
                    t,
                ).len() >= vstd::arithmetic::power2::pow2(rk[t] as nat) by {
                    assert(mid[t] == t);
                    assert(members(self.parent@, rk, t) =~= members(mid, rk, t));
                }
            }
            root
        } else {
            x
        }
    }

    /// The root of `x`.
    pub fn find_imm(&self, x: usize) -> (r: usize)
        requires
            self.wf(),
            x < self.roots().len(),
        ensures
            r == self.roots()[x as int],
    {
        let mut y: usize = x;
        while self.parent[y] != y
            invariant
                self.wf(),
                y < self.roots().len(),
                self.roots()[y as int] == self.roots()[x as int],
            decreases 65 - self.ranks()[y as int],
        {
            y = self.parent[y];
        }
        y
    }

    /// Puts the sets of `a` and `b` together and returns the common root.
    pub fn union(&mut self, a: usize, b: usize) -> (r: usize)
        requires
            old(self).wf(),
            a < old(self).roots().len(),
            b < old(self).roots().len(),
        ensures
            final(self).wf(),
            r == union_root(
                old(self).ranks(),
                old(self).roots()[a as int],
                old(self).roots()[b as int],
            ),
            final(self).roots() == union_roots(
                old(self).roots(),
                old(self).ranks(),
                old(self).roots()[a as int],
                old(self).roots()[b as int],
            ),
            final(self).ranks() == union_ranks(
                old(self).ranks(),
                old(self).roots()[a as int],
                old(self).roots()[b as int],
            ),
    {
        let ra = self.find(a);
        let rb = self.find(b);
        let ghost p = self.parent@;
        let ghost rk = self.ranks();
        let n: usize = self.parent.len();
        proof {
            lemma_root(p, rk, a as int);
            lemma_root(p, rk, b as int);
            assert(self.roots()[a as int] == root_of(p, rk, a as int));
            assert(self.roots()[b as int] == root_of(p, rk, b as int));
        }
        if ra == rb {
            proof {
                assert(self.roots() =~= union_roots(self.roots(), rk, ra as int, rb as int));
            }
            return ra;
        }
        if self.rank[ra] < self.rank[rb] {
            self.parent[ra] = rb;
            proof {
                lemma_link(p, rk, rk, ra as int, rb);
                assert(self.ranks() =~= rk);
                assert(self.roots() =~= union_roots(old(self).roots(), rk, ra as int, rb as int));
            }
            rb
        } else if self.rank[ra] > self.rank[rb] {
            self.parent[rb] = ra;
            proof {
                lemma_link(p, rk, rk, rb as int, ra);
                assert(self.ranks() =~= rk);
                assert(self.roots() =~= union_roots(old(self).roots(), rk, ra as int, rb as int));
            }
            ra
        } else {
            self.parent[rb] = ra;
            proof {
                lemma_link(p, rk, rk.update(ra as int, rk[ra as int] + 1), rb as int, ra);
            }
            self.rank[ra] = self.rank[ra] + 1;
            proof {
                assert(self.ranks() =~= rk.update(ra as int, rk[ra as int] + 1));
                assert(self.roots() =~= union_roots(old(self).roots(), rk, ra as int, rb as int));
            }
            ra
        }
    }

    /// Whether `a` and `b` are in one set.
    pub fn is_unified(&mut self, a: usize, b: usize) -> (r: bool)
        requires
            old(self).wf(),
            a < old(self).roots().len(),
            b < old(self).roots().len(),
        ensures
            final(self).wf(),
            final(self).roots() == old(self).roots(),
            final(self).ranks() == old(self).ranks(),
            r == (old(self).roots()[a as int] == old(self).roots()[b as int]),
    {
        let ra = self.find(a);
        let rb = self.find(b);
        ra == rb
    }

    /// How many members there are.
    pub fn len(&self) -> (r: usize)
        ensures
            r == self.roots().len(),
    {
        self.parent.len()
    }

    /// Whether there is no member.
    pub fn is_empty(&self) -> (r: bool)
        ensures
            r == (self.roots().len() == 0),
    {
        self.parent.len() == 0
    }
}

proof fn lemma_push_at(p: Seq<usize>, rk: Seq<int>, q: Seq<usize>, rq: Seq<int>, y: int)
    requires
        forest(p, rk),
        forest(q, rq),
        q.len() == p.len() + 1,
        forall|x: int| 0 <= x < p.len() ==> #[trigger] q[x] == p[x],
        0 <= y < p.len(),
    ensures
        root_of(q, rq, y) == root_of(p, rk, y),
    decreases 65 - rk[y],
{
    if p[y] != y {
        lemma_push_at(p, rk, q, rq, p[y] as int);
    }
}

impl Default for UnionFind {
    fn default() -> (r: UnionFind)
        ensures
            r.wf(),
            r.roots() == Seq::<int>::empty(),
    {
        UnionFind::new()
    }
}

/// A union joins exactly the sets of its two arguments: two members are in one
/// set afterwards where they were before, or where one was with `a` and the
/// other with `b`.
pub proof fn law_union_joins_two_sets(
    roots: Seq<int>,
    ranks: Seq<int>,
    a: int,
    b: int,
    x: int,
    y: int,
)
    requires
        ranks.len() == roots.len(),
        0 <= a < roots.len(),
        0 <= b < roots.len(),
        0 <= x < roots.len(),
        0 <= y < roots.len(),
    ensures
        ({
            let after = union_roots(roots, ranks, roots[a], roots[b]);
            after[x] == after[y] <==> {
                ||| roots[x] == roots[y]
                ||| roots[x] == roots[a] && roots[y] == roots[b]
                ||| roots[x] == roots[b] && roots[y] == roots[a]
            }
        }),
{
}

} // verus!
