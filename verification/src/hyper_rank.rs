//! The order in which hits are shown, and how far two sets of tags overlap.

use crate::order;
use crate::order::TextSet;
use crate::text;
use vstd::prelude::*;

verus! {

// ── Order of hits ──

/// What decides on the place of a hit.
#[derive(Debug)]
pub struct Rank {
    /// Whether the shapes are the same.
    pub top: bool,
    /// Where the overlap of the tags stands in ascending order.
    pub key: u64,
    pub path: String,
    pub node: String,
}

/// What decides on the place of a hit, as values.
pub struct GRank {
    pub top: bool,
    pub key: u64,
    pub path: Seq<char>,
    pub node: Seq<char>,
}

impl Rank {
    pub open spec fn view(&self) -> GRank {
        GRank { top: self.top, key: self.key, path: self.path@, node: self.node@ }
    }
}

/// The ranks as values.
pub open spec fn rank_views(v: Seq<Rank>) -> Seq<GRank> {
    v.map_values(|r: Rank| r@)
}

/// Whether `a` comes before `b`: same shapes first, then the larger overlap,
/// then by path and node.
pub open spec fn ahead(a: GRank, b: GRank) -> bool {
    if a.top != b.top {
        a.top
    } else if a.key != b.key {
        a.key > b.key
    } else if a.path != b.path {
        order::text_lt(a.path, b.path)
    } else {
        order::text_lt(a.node, b.node)
    }
}

/// The first place from the `k`-th on whose hit `x` comes before.
pub open spec fn slot(rs: Seq<GRank>, placed: Seq<usize>, x: GRank, k: int) -> int
    decreases placed.len() - k,
{
    if k >= placed.len() {
        placed.len() as int
    } else if ahead(x, rs[placed[k] as int]) {
        k
    } else {
        slot(rs, placed, x, k + 1)
    }
}

/// The first `n` hits in order; of two hits that neither comes before the other
/// the earlier one stays first.
pub open spec fn ranking(rs: Seq<GRank>, n: int) -> Seq<usize>
    decreases n,
{
    if n <= 0 {
        Seq::empty()
    } else {
        let placed = ranking(rs, n - 1);
        placed.insert(slot(rs, placed, rs[n - 1], 0), (n - 1) as usize)
    }
}

/// A slot is a place of the sequence or its end.
proof fn lemma_slot(rs: Seq<GRank>, placed: Seq<usize>, x: GRank, k: int)
    requires
        0 <= k <= placed.len(),
    ensures
        k <= slot(rs, placed, x, k) <= placed.len(),
        forall|j: int|
            k <= j < slot(rs, placed, x, k) ==> !ahead(x, rs[#[trigger] placed[j] as int]),
        slot(rs, placed, x, k) < placed.len() ==> ahead(
            x,
            rs[placed[slot(rs, placed, x, k)] as int],
        ),
    decreases placed.len() - k,
{
    if k < placed.len() && !ahead(x, rs[placed[k] as int]) {
        lemma_slot(rs, placed, x, k + 1);
    }
}

/// Whether `a` comes before `b`.
fn rank_ahead(a: &Rank, b: &Rank) -> (r: bool)
    ensures
        r == ahead(a@, b@),
{
    if a.top != b.top {
        a.top
    } else if a.key != b.key {
        a.key > b.key
    } else if !text::same(a.path.as_str(), b.path.as_str()) {
        order::text_less(a.path.as_str(), b.path.as_str())
    } else {
        order::text_less(a.node.as_str(), b.node.as_str())
    }
}

/// The hits in order, by their places.
pub fn rank(rs: &Vec<Rank>) -> (r: Vec<usize>)
    ensures
        r@ == ranking(rank_views(rs@), rs@.len() as int),
        forall|i: int| 0 <= i < r@.len() ==> #[trigger] r@[i] < rs@.len(),
{
    let ghost rv = rank_views(rs@);
    let mut out: Vec<usize> = Vec::new();
    let mut i: usize = 0;
    while i < rs.len()
        invariant
            i <= rs@.len(),
            rv == rank_views(rs@),
            out@ == ranking(rv, i as int),
            forall|q: int| 0 <= q < out@.len() ==> #[trigger] out@[q] < i,
        decreases rs@.len() - i,
    {
        let mut k: usize = 0;
        assert(rv[i as int] == rs@[i as int]@);
        while k < out.len() && !rank_ahead(&rs[i], &rs[out[k]])
            invariant
                k <= out@.len(),
                i < rs@.len(),
                rv == rank_views(rs@),
                rv[i as int] == rs@[i as int]@,
                forall|q: int| 0 <= q < out@.len() ==> #[trigger] out@[q] < i,
                slot(rv, out@, rv[i as int], 0) == slot(rv, out@, rv[i as int], k as int),
            decreases out@.len() - k,
        {
            assert(rv[out@[k as int] as int] == rs@[out@[k as int] as int]@);
            k += 1;
        }
        proof {
            if k < out@.len() {
                assert(rv[out@[k as int] as int] == rs@[out@[k as int] as int]@);
            }
        }
        let ghost before = out@;
        out.insert(k, i);
        proof {
            assert forall|q: int| 0 <= q < out@.len() implies #[trigger] out@[q] < i + 1 by {
                if q < k {
                    assert(out@[q] == before[q]);
                } else if q > k {
                    assert(out@[q] == before[q - 1]);
                }
            }
        }
        i += 1;
    }
    out
}

/// If one hit comes before another and that one before a third, so does the
/// first.
proof fn lemma_ahead_transitive(a: GRank, b: GRank, c: GRank)
    requires
        ahead(a, b),
        !ahead(c, b),
    ensures
        ahead(a, c),
{
    if a.top == b.top && b.top == c.top && a.key == b.key && b.key == c.key {
        order::lemma_lt_irreflexive(a.path);
        if a.path != b.path {
            if c.path == b.path {
            } else {
                order::lemma_lt_total(b.path, c.path);
                order::lemma_lt_transitive(a.path, b.path, c.path);
                if a.path == c.path {
                }
            }
        } else if c.path == b.path {
            order::lemma_lt_total(b.node, c.node);
            if b.node != c.node {
                order::lemma_lt_transitive(a.node, b.node, c.node);
            }
        } else {
            order::lemma_lt_total(b.path, c.path);
        }
    }
}

/// Every hit is shown once, and none is shown behind one that it comes before.
pub proof fn law_ranking(rs: Seq<GRank>, n: int)
    requires
        0 <= n <= rs.len(),
        rs.len() <= usize::MAX,
    ensures
        ranking(rs, n).len() == n,
        forall|x: int|
            0 <= x < n ==> ranking(rs, n).contains(#[trigger] (x as usize)),
        forall|i: int| 0 <= i < n ==> #[trigger] ranking(rs, n)[i] < n,
        forall|i: int, j: int|
            0 <= i < j < n ==> !ahead(
                rs[#[trigger] ranking(rs, n)[j] as int],
                rs[#[trigger] ranking(rs, n)[i] as int],
            ),
    decreases n,
{
    if n > 0 {
        law_ranking(rs, n - 1);
        let placed = ranking(rs, n - 1);
        let x = rs[n - 1];
        let k = slot(rs, placed, x, 0);
        lemma_slot(rs, placed, x, 0);
        let all = placed.insert(k, (n - 1) as usize);
        assert(all == ranking(rs, n));
        assert forall|i: int| 0 <= i < n implies #[trigger] all[i] < n by {
            if i < k {
                assert(all[i] == placed[i]);
            } else if i > k {
                assert(all[i] == placed[i - 1]);
            }
        }
        assert forall|y: int| 0 <= y < n implies all.contains(#[trigger] (y as usize)) by {
            if y == n - 1 {
                assert(all[k] == y as usize);
            } else {
                assert(placed.contains(y as usize));
                let q = choose|q: int| 0 <= q < placed.len() && placed[q] == y as usize;
                if q < k {
                    assert(all[q] == y as usize);
                } else {
                    assert(all[q + 1] == y as usize);
                }
            }
        }
        assert forall|i: int, j: int| 0 <= i < j < n implies !ahead(
            rs[#[trigger] all[j] as int],
            rs[#[trigger] all[i] as int],
        ) by {
            if i == k {
                assert(all[j] == placed[j - 1]);
                let c = rs[placed[j - 1] as int];
                // `x` comes before the hit at `k`, and nothing behind it does.
                let b = rs[placed[k] as int];
                if j - 1 > k {
                    assert(!ahead(c, b));
                } else {
                    lemma_not_ahead_self(c);
                }
                lemma_ahead_transitive(x, b, c);
                lemma_ahead_asymmetric(x, c);
            } else if j == k {
                assert(all[i] == placed[i]);
            } else {
                let p = if i < k {
                    i
                } else {
                    i - 1
                };
                let q = if j < k {
                    j
                } else {
                    j - 1
                };
                assert(all[i] == placed[p]);
                assert(all[j] == placed[q]);
            }
        }
    }
}

/// No hit comes before itself.
proof fn lemma_not_ahead_self(a: GRank)
    ensures
        !ahead(a, a),
{
    order::lemma_lt_irreflexive(a.node);
}

/// Of two hits at most one comes before the other.
proof fn lemma_ahead_asymmetric(a: GRank, b: GRank)
    requires
        ahead(a, b),
    ensures
        !ahead(b, a),
{
    if a.top == b.top && a.key == b.key {
        if a.path != b.path {
            order::lemma_lt_asymmetric(a.path, b.path);
        } else {
            order::lemma_lt_asymmetric(a.node, b.node);
        }
    }
}

// ── Overlap of tags ──

/// How many tags two sets share, and how many they hold together.
pub open spec fn overlap_of(a: Set<Seq<char>>, b: Set<Seq<char>>) -> (nat, nat) {
    (a.intersect(b).len(), a.union(b).len())
}

/// How many tags two sets share, and how many they hold together.
pub fn overlap(a: &TextSet, b: &TextSet) -> (r: (u128, u128))
    requires
        a.wf(),
        b.wf(),
    ensures
        r.0 == overlap_of(a@, b@).0,
        r.1 == overlap_of(a@, b@).1,
{
    let ghost s = a.seq();
    let mut both: usize = 0;
    let mut i: usize = 0;
    assert(s.take(0).to_set().intersect(b@) =~= Set::<Seq<char>>::empty());
    proof {
        order::lemma_ascending_distinct(s);
    }
    while i < a.len()
        invariant
            i <= s.len(),
            both <= i,
            s == a.seq(),
            s.no_duplicates(),
            b.wf(),
            s.take(i as int).to_set().intersect(b@).finite(),
            both == s.take(i as int).to_set().intersect(b@).len(),
        decreases s.len() - i,
    {
        let x = a.at(i);
        proof {
            let p = s.take(i as int);
            let q = s.take(i + 1);
            assert(q =~= p.push(x@));
            assert forall|y: Seq<char>| q.to_set().contains(y) <==> p.to_set().insert(
                x@,
            ).contains(y) by {
                if p.contains(y) {
                    let j = choose|j: int| 0 <= j < p.len() && p[j] == y;
                    assert(q[j] == y);
                }
                assert(q[i as int] == x@);
            }
            assert(q.to_set() =~= p.to_set().insert(x@));
            assert(!p.contains(x@)) by {
                if p.contains(x@) {
                    let j = choose|j: int| 0 <= j < p.len() && p[j] == x@;
                    assert(s[j] == s[i as int]);
                }
            }
            if b@.contains(x@) {
                assert(q.to_set().intersect(b@) =~= p.to_set().intersect(b@).insert(x@));
            } else {
                assert(q.to_set().intersect(b@) =~= p.to_set().intersect(b@));
            }
        }
        if b.contains(x.as_str()) {
            both += 1;
        }
        i += 1;
    }
    proof {
        assert(s.take(i as int) =~= s);
        s.unique_seq_to_set();
        order::lemma_ascending_distinct(b.seq());
        b.seq().unique_seq_to_set();
        vstd::seq_lib::seq_to_set_is_finite(s);
        vstd::seq_lib::seq_to_set_is_finite(b.seq());
        vstd::set_lib::lemma_set_intersect_union_lens(a@, b@);
    }
    (both as u128, a.len() as u128 + b.len() as u128 - both as u128)
}

/// All members of the first `n` sets.
pub open spec fn pooled(ts: Seq<Set<Seq<char>>>, n: int) -> Set<Seq<char>>
    decreases n,
{
    if n <= 0 {
        Set::empty()
    } else {
        pooled(ts, n - 1).union(ts[n - 1])
    }
}

/// The overlaps whose mean counts: place by place where there are as many sets
/// on both sides, else of all tags together.
pub open spec fn overlaps_of(a: Seq<Set<Seq<char>>>, b: Seq<Set<Seq<char>>>) -> Seq<(nat, nat)> {
    if a.len() == b.len() {
        Seq::new(a.len(), |i: int| overlap_of(a[i], b[i]))
    } else {
        seq![overlap_of(pooled(a, a.len() as int), pooled(b, b.len() as int))]
    }
}

/// The pairs of numbers as values.
pub open spec fn count_views(v: Seq<(u128, u128)>) -> Seq<(nat, nat)> {
    v.map_values(|p: (u128, u128)| (p.0 as nat, p.1 as nat))
}

/// All members of the sets.
fn pool(ts: &Vec<TextSet>) -> (r: TextSet)
    ensures
        r.wf(),
        r@ == pooled(crate::hyper_sig::set_views(ts@), ts@.len() as int),
{
    let ghost tv = crate::hyper_sig::set_views(ts@);
    let mut out = TextSet::new();
    let mut i: usize = 0;
    while i < ts.len()
        invariant
            i <= ts@.len(),
            tv == crate::hyper_sig::set_views(ts@),
            out.wf(),
            out@ == pooled(tv, i as int),
        decreases ts@.len() - i,
    {
        crate::ast::add_all(&mut out, &ts[i]);
        i += 1;
    }
    out
}

/// The overlaps whose mean counts; two sides without any set overlap fully.
pub fn tag_overlaps(a: &Vec<TextSet>, b: &Vec<TextSet>) -> (r: Vec<(u128, u128)>)
    requires
        crate::hyper_sig::sets_wf(a@),
        crate::hyper_sig::sets_wf(b@),
    ensures
        count_views(r@) == overlaps_of(
            crate::hyper_sig::set_views(a@),
            crate::hyper_sig::set_views(b@),
        ),
{
    let ghost av = crate::hyper_sig::set_views(a@);
    let ghost bv = crate::hyper_sig::set_views(b@);
    let mut out: Vec<(u128, u128)> = Vec::new();
    if a.len() == b.len() {
        let mut i: usize = 0;
        let ghost all = overlaps_of(av, bv);
        assert(count_views(out@) =~= all.take(0));
        while i < a.len()
            invariant
                i <= a@.len(),
                a@.len() == b@.len(),
                av == crate::hyper_sig::set_views(a@),
                bv == crate::hyper_sig::set_views(b@),
                crate::hyper_sig::sets_wf(a@),
                crate::hyper_sig::sets_wf(b@),
                all == overlaps_of(av, bv),
                count_views(out@) == all.take(i as int),
            decreases a@.len() - i,
        {
            assert(a@[i as int].wf() && b@[i as int].wf());
            let o = overlap(&a[i], &b[i]);
            let ghost before = out@;
            out.push(o);
            assert(count_views(out@) =~= count_views(before).push(all[i as int]));
            assert(all.take(i + 1) =~= all.take(i as int).push(all[i as int]));
            i += 1;
        }
        assert(all.take(i as int) =~= all);
    } else {
        let pa = pool(a);
        let pb = pool(b);
        let o = overlap(&pa, &pb);
        out.push(o);
        assert(count_views(out@) =~= overlaps_of(av, bv));
    }
    out
}

} // verus!
