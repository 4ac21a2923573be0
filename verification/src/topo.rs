//! Topological order of places: what an edge leads to comes after what it leads
//! from. Among places that could come next, the lowest comes first; places in a
//! ring or behind one come last, in their own order.

use vstd::prelude::*;

verus! {

// ── The order ──

/// A numbering under which every edge goes up.
pub open spec fn ranked(edges: Seq<(usize, usize)>, rank: spec_fn(usize) -> nat) -> bool {
    forall|k: int| 0 <= k < edges.len() ==> rank((#[trigger] edges[k]).0) < rank(edges[k].1)
}

/// The edges close no ring.
pub open spec fn acyclic(edges: Seq<(usize, usize)>) -> bool {
    exists|rank: spec_fn(usize) -> nat| #[trigger] ranked(edges, rank)
}

/// The edges run between the first `n` places.
pub open spec fn edges_within(edges: Seq<(usize, usize)>, n: int) -> bool {
    forall|k: int| 0 <= k < edges.len() ==> (#[trigger] edges[k]).0 < n && edges[k].1 < n
}

/// Whether a place can come next: it is not done, and all before it are.
pub open spec fn ready(edges: Seq<(usize, usize)>, done: Seq<usize>, c: usize) -> bool {
    &&& !done.contains(c)
    &&& forall|k: int|
        0 <= k < edges.len() && (#[trigger] edges[k]).1 == c ==> done.contains(edges[k].0)
}

/// The first place from `c` on that can come next.
pub open spec fn next_ready(
    n: int,
    edges: Seq<(usize, usize)>,
    done: Seq<usize>,
    c: int,
) -> Option<usize>
    decreases n - c,
{
    if c >= n {
        None
    } else if ready(edges, done, c as usize) {
        Some(c as usize)
    } else {
        next_ready(n, edges, done, c + 1)
    }
}

/// At most `left` places more, each time the first that can come next.
pub open spec fn sorted_from(
    n: int,
    edges: Seq<(usize, usize)>,
    done: Seq<usize>,
    left: int,
) -> Seq<usize>
    decreases left,
{
    match next_ready(n, edges, done, 0) {
        Some(c) if left > 0 => sorted_from(n, edges, done.push(c), left - 1),
        _ => done,
    }
}

/// The places with those of the places from `c` on that are not among them.
pub open spec fn with_rest(n: int, done: Seq<usize>, c: int) -> Seq<usize>
    decreases n - c,
{
    if c >= n {
        done
    } else if done.contains(c as usize) {
        with_rest(n, done, c + 1)
    } else {
        with_rest(n, done.push(c as usize), c + 1)
    }
}

/// The places that can be put in order.
pub open spec fn sortable(n: int, edges: Seq<(usize, usize)>) -> Seq<usize> {
    sorted_from(n, edges, Seq::empty(), n)
}

/// The first `n` places in topological order.
pub open spec fn order_of(n: int, edges: Seq<(usize, usize)>) -> Seq<usize> {
    with_rest(n, sortable(n, edges), 0)
}

/// Places that are there, none of them twice.
pub open spec fn proper(n: int, s: Seq<usize>) -> bool {
    &&& s.no_duplicates()
    &&& forall|i: int| 0 <= i < s.len() ==> #[trigger] s[i] < n
}

/// Each place comes after all that it waits for.
pub open spec fn settled(edges: Seq<(usize, usize)>, s: Seq<usize>) -> bool {
    forall|i: int, k: int|
        #![trigger s[i], edges[k]]
        0 <= i < s.len() && 0 <= k < edges.len() && edges[k].1 == s[i] ==> s.take(i).contains(
            edges[k].0,
        )
}

// ── What holds of it ──

/// The first place that is ready is ready, and where there is none, none is.
proof fn lemma_next_ready(n: int, edges: Seq<(usize, usize)>, done: Seq<usize>, c: int)
    requires
        0 <= c,
        n <= usize::MAX,
    ensures
        match next_ready(n, edges, done, c) {
            Some(k) => c <= k < n && ready(edges, done, k),
            None => forall|k: usize| c <= k < n ==> !#[trigger] ready(edges, done, k),
        },
    decreases n - c,
{
    if c < n && !ready(edges, done, c as usize) {
        lemma_next_ready(n, edges, done, c + 1);
        assert forall|k: usize| c <= k < n && next_ready(n, edges, done, c) is None implies
            !#[trigger] ready(edges, done, k) by {
            if k == c {
                assert(k == c as usize);
            }
        }
    }
}

/// Different places are no more than there are.
proof fn lemma_count(n: int, s: Seq<usize>)
    requires
        proper(n, s),
        0 <= n,
    ensures
        s.len() <= n,
        s.len() == n ==> forall|c: usize| c < n ==> s.contains(c),
{
    let t = s.map_values(|x: usize| x as int);
    assert(t.no_duplicates());
    t.unique_seq_to_set();
    let all = vstd::set_lib::set_int_range(0, n);
    vstd::set_lib::lemma_int_range(0, n);
    assert(t.to_set().subset_of(all)) by {
        assert forall|x: int| t.to_set().contains(x) implies all.contains(x) by {
            let i = choose|i: int| 0 <= i < t.len() && t[i] == x;
            assert(s[i] < n);
        }
    }
    vstd::set_lib::lemma_len_subset(t.to_set(), all);
    if s.len() == n {
        vstd::set_lib::lemma_subset_equality(t.to_set(), all);
        assert forall|c: usize| c < n implies s.contains(c) by {
            assert(all.contains(c as int));
            assert(t.contains(c as int));
            let i = choose|i: int| 0 <= i < t.len() && t[i] == c as int;
            assert(s[i] == c);
        }
    }
}

/// A new place behind the others keeps them different.
proof fn lemma_push_proper(n: int, done: Seq<usize>, c: usize)
    requires
        proper(n, done),
        c < n,
        !done.contains(c),
    ensures
        proper(n, done.push(c)),
{
    let s = done.push(c);
    assert forall|i: int, j: int| 0 <= i < s.len() && 0 <= j < s.len() && i != j implies s[i]
        != s[j] by {
        if i == done.len() {
            assert(done.contains(done[j]));
        }
        if j == done.len() {
            assert(done.contains(done[i]));
        }
    }
}

/// The sorting goes on until no place is ready.
proof fn lemma_sorted(n: int, edges: Seq<(usize, usize)>, done: Seq<usize>, left: int)
    requires
        proper(n, done),
        settled(edges, done),
        0 <= left,
        0 <= n <= usize::MAX,
        done.len() + left == n,
    ensures
        proper(n, sorted_from(n, edges, done, left)),
        settled(edges, sorted_from(n, edges, done, left)),
        forall|k: usize|
            k < n ==> !#[trigger] ready(edges, sorted_from(n, edges, done, left), k),
    decreases left,
{
    lemma_next_ready(n, edges, done, 0);
    match next_ready(n, edges, done, 0) {
        Some(c) => {
            if left > 0 {
                lemma_push_proper(n, done, c);
                let s = done.push(c);
                assert forall|i: int, k: int|
                    #![trigger s[i], edges[k]]
                    0 <= i < s.len() && 0 <= k < edges.len() && edges[k].1
                        == s[i] implies s.take(i).contains(edges[k].0) by {
                    assert(s.take(i) =~= done.take(i));
                    if i < done.len() {
                        assert(edges[k].1 == done[i]);
                    } else {
                        assert(done.take(i) =~= done);
                    }
                }
                lemma_sorted(n, edges, s, left - 1);
            } else {
                lemma_count(n, done);
            }
        },
        None => {},
    }
}

/// The rest is added behind, each place once.
proof fn lemma_with_rest(n: int, done: Seq<usize>, c: int)
    requires
        proper(n, done),
        0 <= c,
        n <= usize::MAX,
    ensures
        proper(n, with_rest(n, done, c)),
        done.is_prefix_of(with_rest(n, done, c)),
        forall|k: usize| c <= k < n ==> #[trigger] with_rest(n, done, c).contains(k),
    decreases n - c,
{
    if c < n {
        let x = c as usize;
        let next = if done.contains(x) {
            done
        } else {
            done.push(x)
        };
        if !done.contains(x) {
            lemma_push_proper(n, done, x);
        }
        lemma_with_rest(n, next, c + 1);
        let all = with_rest(n, done, c);
        assert(done =~= all.take(done.len() as int)) by {
            assert(next =~= all.take(next.len() as int));
            assert forall|i: int| 0 <= i < done.len() implies done[i] == all[i] by {
                assert(next[i] == all[i]);
            }
        }
        assert forall|k: usize| c <= k < n implies #[trigger] all.contains(k) by {
            if k == c {
                assert(next.contains(x)) by {
                    if !done.contains(x) {
                        assert(next[done.len() as int] == x);
                    }
                }
                let j = choose|j: int| 0 <= j < next.len() && next[j] == x;
                assert(all[j] == x);
            }
        }
    }
}

/// The order holds every place, and none twice.
pub proof fn law_every_place_once(n: int, edges: Seq<(usize, usize)>)
    requires
        0 <= n <= usize::MAX,
    ensures
        proper(n, order_of(n, edges)),
        order_of(n, edges).len() == n,
        forall|c: usize| c < n ==> #[trigger] order_of(n, edges).contains(c),
{
    lemma_sorted(n, edges, Seq::empty(), n);
    lemma_with_rest(n, sortable(n, edges), 0);
    let s = order_of(n, edges);
    lemma_count(n, s);
    if s.len() < n {
        let t = s.map_values(|x: usize| x as int);
        assert(t.no_duplicates());
        t.unique_seq_to_set();
        let all = vstd::set_lib::set_int_range(0, n);
        vstd::set_lib::lemma_int_range(0, n);
        assert(all.subset_of(t.to_set())) by {
            assert forall|x: int| all.contains(x) implies t.to_set().contains(x) by {
                assert(s.contains(x as usize));
                let i = choose|i: int| 0 <= i < s.len() && s[i] == x as usize;
                assert(t[i] == x);
            }
        }
        vstd::set_lib::lemma_len_subset(all, t.to_set());
    }
}

/// Where the edges go up by rank, every place can be put in order.
proof fn lemma_ranked_done(
    n: int,
    edges: Seq<(usize, usize)>,
    rank: spec_fn(usize) -> nat,
    c: usize,
)
    requires
        0 <= n <= usize::MAX,
        edges_within(edges, n),
        ranked(edges, rank),
        c < n,
    ensures
        sortable(n, edges).contains(c),
    decreases rank(c),
{
    let head = sortable(n, edges);
    lemma_sorted(n, edges, Seq::empty(), n);
    if !head.contains(c) {
        assert(!ready(edges, head, c));
        let k = choose|k: int|
            0 <= k < edges.len() && (#[trigger] edges[k]).1 == c && !head.contains(edges[k].0);
        lemma_ranked_done(n, edges, rank, edges[k].0);
    }
}

/// The edges close no ring just where every place can be put in order.
pub proof fn law_acyclic_is_sortable(n: int, edges: Seq<(usize, usize)>)
    requires
        0 <= n <= usize::MAX,
        edges_within(edges, n),
    ensures
        acyclic(edges) <==> sortable(n, edges).len() == n,
{
    let head = sortable(n, edges);
    lemma_sorted(n, edges, Seq::empty(), n);
    lemma_count(n, head);
    if acyclic(edges) {
        let rank = choose|rank: spec_fn(usize) -> nat| #[trigger] ranked(edges, rank);
        assert forall|c: usize| c < n implies #[trigger] head.contains(c) by {
            lemma_ranked_done(n, edges, rank, c);
        }
        lemma_with_rest(n, head, 0);
        lemma_full(n, head, 0);
        law_every_place_once(n, edges);
    }
    if head.len() == n {
        let rank = |c: usize| head.index_of(c) as nat;
        assert forall|k: int| 0 <= k < edges.len() implies rank((#[trigger] edges[k]).0) < rank(
            edges[k].1,
        ) by {
            lemma_edge_up(edges, head, k);
        }
        assert(ranked(edges, rank));
    }
}

/// With every place there already, nothing is added.
proof fn lemma_full(n: int, done: Seq<usize>, c: int)
    requires
        forall|k: usize| k < n ==> #[trigger] done.contains(k),
        0 <= c,
        n <= usize::MAX,
    ensures
        with_rest(n, done, c) == done,
    decreases n - c,
{
    if c < n {
        assert(done.contains(c as usize));
        lemma_full(n, done, c + 1);
    }
}

/// In an order in which each place comes after what it waits for, an edge leads
/// to a later place.
proof fn lemma_edge_up(edges: Seq<(usize, usize)>, s: Seq<usize>, k: int)
    requires
        s.no_duplicates(),
        settled(edges, s),
        0 <= k < edges.len(),
        s.contains(edges[k].1),
    ensures
        0 <= s.index_of(edges[k].0) < s.index_of(edges[k].1) < s.len(),
{
    let i = s.index_of(edges[k].1);
    assert(s[i] == edges[k].1);
    assert(s.take(i).contains(edges[k].0));
    let j = choose|j: int| 0 <= j < i && s.take(i)[j] == edges[k].0;
    assert(s[j] == edges[k].0);
    let q = s.index_of(edges[k].0);
    assert(s[q] == edges[k].0);
    assert(q == j);
}

/// Where the edges close no ring, each leads to a later place of the order.
pub proof fn law_edges_go_up(n: int, edges: Seq<(usize, usize)>, k: int)
    requires
        0 <= n <= usize::MAX,
        edges_within(edges, n),
        acyclic(edges),
        0 <= k < edges.len(),
    ensures
        0 <= order_of(n, edges).index_of(edges[k].0) < order_of(n, edges).index_of(edges[k].1) < n,
{
    let head = sortable(n, edges);
    law_acyclic_is_sortable(n, edges);
    lemma_sorted(n, edges, Seq::empty(), n);
    lemma_count(n, head);
    lemma_full(n, head, 0);
    assert(edges[k].1 < n);
    lemma_edge_up(edges, head, k);
}

/// Where every edge leads to a later place, the places are in order already.
pub proof fn law_sorted_stays(n: int, edges: Seq<(usize, usize)>)
    requires
        0 <= n <= usize::MAX,
        edges_within(edges, n),
        forall|k: int| 0 <= k < edges.len() ==> (#[trigger] edges[k]).0 < edges[k].1,
    ensures
        order_of(n, edges) == Seq::new(n as nat, |i: int| i as usize),
{
    let all = Seq::new(n as nat, |i: int| i as usize);
    assert(all.take(0) =~= Seq::<usize>::empty());
    lemma_stays(n, edges, 0);
    assert(all.take(n) =~= all);
    assert forall|k: usize| k < n implies #[trigger] all.contains(k) by {
        assert(all[k as int] == k);
    }
    lemma_full(n, all, 0);
}

/// The next place of an order that stands is the next one.
proof fn lemma_stays(n: int, edges: Seq<(usize, usize)>, i: int)
    requires
        0 <= i <= n <= usize::MAX,
        edges_within(edges, n),
        forall|k: int| 0 <= k < edges.len() ==> (#[trigger] edges[k]).0 < edges[k].1,
    ensures
        ({
            let all = Seq::new(n as nat, |j: int| j as usize);
            sorted_from(n, edges, all.take(i), n - i) == all.take(n)
        }),
    decreases n - i,
{
    let all = Seq::new(n as nat, |j: int| j as usize);
    let done = all.take(i);
    if i < n {
        assert(!done.contains(i as usize));
        assert forall|k: int| 0 <= k < edges.len() && (#[trigger] edges[k]).1
            == i as usize implies done.contains(edges[k].0) by {
            assert(done[edges[k].0 as int] == edges[k].0);
        }
        assert(ready(edges, done, i as usize));
        lemma_skip(n, edges, done, 0, i);
        assert(done.push(i as usize) =~= all.take(i + 1));
        lemma_stays(n, edges, i + 1);
    } else {
        lemma_next_ready(n, edges, done, 0);
    }
}

/// Places that are done are passed over.
proof fn lemma_skip(n: int, edges: Seq<(usize, usize)>, done: Seq<usize>, c: int, i: int)
    requires
        0 <= c <= i < n <= usize::MAX,
        done == Seq::new(n as nat, |j: int| j as usize).take(i),
        ready(edges, done, i as usize),
    ensures
        next_ready(n, edges, done, c) == Some(i as usize),
    decreases i - c,
{
    if c < i {
        assert(done[c] == c as usize);
        assert(done.contains(c as usize));
        lemma_skip(n, edges, done, c + 1, i);
    }
}

// ── Sorting ──

/// Whether a place is among the places.
fn has_place(v: &Vec<usize>, x: usize) -> (r: bool)
    ensures
        r == v@.contains(x),
{
    let mut i: usize = 0;
    while i < v.len()
        invariant
            i <= v@.len(),
            forall|k: int| 0 <= k < i ==> v@[k] != x,
        decreases v@.len() - i,
    {
        if v[i] == x {
            return true;
        }
        i += 1;
    }
    false
}

/// Whether a place can come next.
fn is_ready(edges: &Vec<(usize, usize)>, done: &Vec<usize>, c: usize) -> (r: bool)
    ensures
        r == ready(edges@, done@, c),
{
    if has_place(done, c) {
        return false;
    }
    let mut k: usize = 0;
    while k < edges.len()
        invariant
            k <= edges@.len(),
            forall|j: int|
                0 <= j < k && (#[trigger] edges@[j]).1 == c ==> done@.contains(edges@[j].0),
        decreases edges@.len() - k,
    {
        if edges[k].1 == c && !has_place(done, edges[k].0) {
            assert(edges@[k as int].1 == c);
            return false;
        }
        k += 1;
    }
    true
}

/// The first place that can come next.
fn find_ready(n: usize, edges: &Vec<(usize, usize)>, done: &Vec<usize>) -> (r: Option<usize>)
    ensures
        r == next_ready(n as int, edges@, done@, 0),
        r matches Some(c) ==> c < n && !done@.contains(c),
{
    let mut c: usize = 0;
    while c < n
        invariant
            c <= n,
            next_ready(n as int, edges@, done@, 0) == next_ready(n as int, edges@, done@, c as int),
        decreases n - c,
    {
        if is_ready(edges, done, c) {
            return Some(c);
        }
        c += 1;
    }
    None
}

/// The first `n` places in topological order, and whether the edges close no
/// ring.
pub fn order_places(n: usize, edges: &Vec<(usize, usize)>) -> (r: (Vec<usize>, bool))
    requires
        edges_within(edges@, n as int),
    ensures
        r.0@ == order_of(n as int, edges@),
        r.1 == acyclic(edges@),
{
    let mut done: Vec<usize> = Vec::new();
    let mut left: usize = n;
    let mut next = find_ready(n, edges, &done);
    while next.is_some() && left > 0
        invariant
            left <= n,
            next == next_ready(n as int, edges@, done@, 0),
            next matches Some(c) ==> c < n && !done@.contains(c),
            sortable(n as int, edges@) == sorted_from(n as int, edges@, done@, left as int),
        decreases left,
    {
        if let Some(c) = next {
            done.push(c);
        }
        left -= 1;
        next = find_ready(n, edges, &done);
    }
    let ghost head = done@;
    assert(head == sortable(n as int, edges@));
    let free: bool = done.len() == n;
    proof {
        law_acyclic_is_sortable(n as int, edges@);
    }
    let mut c: usize = 0;
    while c < n
        invariant
            c <= n,
            with_rest(n as int, head, 0) == with_rest(n as int, done@, c as int),
        decreases n - c,
    {
        if !has_place(&done, c) {
            done.push(c);
        }
        c += 1;
    }
    (done, free)
}

// ── Pairs by the order ──

/// The place that a pair belongs to: its first, or its last.
pub open spec fn end(p: (usize, usize), last: bool) -> usize {
    if last {
        p.1
    } else {
        p.0
    }
}

/// A pair by the positions of its places.
pub open spec fn moved(p: (usize, usize), order: Seq<usize>) -> (usize, usize) {
    (order.index_of(p.0) as usize, order.index_of(p.1) as usize)
}

/// Those of the first `n` pairs that belong to a place, by positions.
pub open spec fn pairs_at(
    ps: Seq<(usize, usize)>,
    last: bool,
    order: Seq<usize>,
    c: usize,
    n: int,
) -> Seq<(usize, usize)>
    decreases n,
{
    if n <= 0 {
        Seq::empty()
    } else {
        let before = pairs_at(ps, last, order, c, n - 1);
        if end(ps[n - 1], last) == c {
            before.push(moved(ps[n - 1], order))
        } else {
            before
        }
    }
}

/// The pairs of the first `k` places of the order, by positions.
pub open spec fn pairs_by(
    ps: Seq<(usize, usize)>,
    last: bool,
    order: Seq<usize>,
    k: int,
) -> Seq<(usize, usize)>
    decreases k,
{
    if k <= 0 {
        Seq::empty()
    } else {
        pairs_by(ps, last, order, k - 1) + pairs_at(
            ps,
            last,
            order,
            order[k - 1],
            ps.len() as int,
        )
    }
}

/// A pair is listed by positions just where it is among the pairs.
pub proof fn lemma_pairs_at(
    ps: Seq<(usize, usize)>,
    last: bool,
    order: Seq<usize>,
    c: usize,
    n: int,
    q: (usize, usize),
)
    requires
        0 <= n <= ps.len(),
    ensures
        pairs_at(ps, last, order, c, n).contains(q) <==> exists|k: int|
            0 <= k < n && end(#[trigger] ps[k], last) == c && moved(ps[k], order) == q,
    decreases n,
{
    let now = pairs_at(ps, last, order, c, n);
    if n > 0 {
        let before = pairs_at(ps, last, order, c, n - 1);
        lemma_pairs_at(ps, last, order, c, n - 1, q);
        if now.contains(q) {
            let j = choose|j: int| 0 <= j < now.len() && now[j] == q;
            if j < before.len() {
                assert(before[j] == q);
            } else {
                assert(end(ps[n - 1], last) == c);
            }
        }
        if before.contains(q) {
            let j = choose|j: int| 0 <= j < before.len() && before[j] == q;
            assert(now[j] == q);
        }
        if end(ps[n - 1], last) == c && moved(ps[n - 1], order) == q {
            assert(now[before.len() as int] == q);
        }
    }
}

/// A pair is listed by positions just where it is among the pairs of the places.
proof fn lemma_pairs_upto(
    ps: Seq<(usize, usize)>,
    last: bool,
    order: Seq<usize>,
    k: int,
    q: (usize, usize),
)
    requires
        0 <= k <= order.len(),
    ensures
        pairs_by(ps, last, order, k).contains(q) <==> exists|j: int|
            0 <= j < ps.len() && order.take(k).contains(end(#[trigger] ps[j], last)) && moved(
                ps[j],
                order,
            ) == q,
    decreases k,
{
    let now = pairs_by(ps, last, order, k);
    if k > 0 {
        let before = pairs_by(ps, last, order, k - 1);
        let more = pairs_at(ps, last, order, order[k - 1], ps.len() as int);
        lemma_pairs_upto(ps, last, order, k - 1, q);
        lemma_pairs_at(ps, last, order, order[k - 1], ps.len() as int, q);
        let t = order.take(k);
        let u = order.take(k - 1);
        assert(t =~= u.push(order[k - 1]));
        assert forall|x: usize| t.contains(x) <==> u.contains(x) || x == order[k - 1] by {
            if u.contains(x) {
                let i = choose|i: int| 0 <= i < u.len() && u[i] == x;
                assert(t[i] == x);
            }
            assert(t[k - 1] == order[k - 1]);
        }
        if now.contains(q) {
            let i = choose|i: int| 0 <= i < now.len() && now[i] == q;
            if i < before.len() {
                assert(before[i] == q);
            } else {
                assert(more[i - before.len()] == q);
            }
        }
        if before.contains(q) {
            let i = choose|i: int| 0 <= i < before.len() && before[i] == q;
            assert(now[i] == q);
        }
        if more.contains(q) {
            let i = choose|i: int| 0 <= i < more.len() && more[i] == q;
            assert(now[before.len() + i] == q);
        }
    }
}

/// By an order that holds every place, the pairs are the pairs, by positions.
pub proof fn law_pairs_stay(
    ps: Seq<(usize, usize)>,
    last: bool,
    order: Seq<usize>,
    q: (usize, usize),
)
    requires
        forall|j: int|
            0 <= j < ps.len() ==> order.contains((#[trigger] ps[j]).0) && order.contains(ps[j].1),
    ensures
        pairs_by(ps, last, order, order.len() as int).contains(q) <==> exists|j: int|
            0 <= j < ps.len() && moved(#[trigger] ps[j], order) == q,
{
    lemma_pairs_upto(ps, last, order, order.len() as int, q);
    assert(order.take(order.len() as int) =~= order);
}

/// The position of a place.
fn position(order: &Vec<usize>, x: usize) -> (r: usize)
    requires
        order@.no_duplicates(),
        order@.contains(x),
    ensures
        r == order@.index_of(x),
        r < order@.len(),
{
    let mut i: usize = 0;
    while i < order.len()
        invariant
            i <= order@.len(),
            order@.no_duplicates(),
            order@.contains(x),
            forall|k: int| 0 <= k < i ==> order@[k] != x,
        decreases order@.len() - i,
    {
        if order[i] == x {
            assert(order@[order@.index_of(x)] == x);
            return i;
        }
        i += 1;
    }
    assert(false);
    0
}

/// Adds the pairs of a place, by positions.
pub fn add_pairs(
    ps: &Vec<(usize, usize)>,
    last: bool,
    order: &Vec<usize>,
    c: usize,
    out: &mut Vec<(usize, usize)>,
)
    requires
        order@.no_duplicates(),
        forall|j: int|
            0 <= j < ps@.len() ==> order@.contains((#[trigger] ps@[j]).0) && order@.contains(
                ps@[j].1,
            ),
    ensures
        final(out)@ == old(out)@ + pairs_at(ps@, last, order@, c, ps@.len() as int),
{
    let ghost start = out@;
    let mut i: usize = 0;
    assert(out@ =~= start + pairs_at(ps@, last, order@, c, 0));
    while i < ps.len()
        invariant
            i <= ps@.len(),
            order@.no_duplicates(),
            forall|j: int|
                0 <= j < ps@.len() ==> order@.contains((#[trigger] ps@[j]).0) && order@.contains(
                    ps@[j].1,
                ),
            out@ == start + pairs_at(ps@, last, order@, c, i as int),
        decreases ps@.len() - i,
    {
        let p = ps[i];
        assert(ps@[i as int] == p);
        let own: usize = if last {
            p.1
        } else {
            p.0
        };
        if own == c {
            let a: usize = position(order, p.0);
            let b: usize = position(order, p.1);
            out.push((a, b));
            assert(out@ =~= start + pairs_at(ps@, last, order@, c, i as int).push((a, b)));
        }
        i += 1;
    }
}

/// The pairs by the order, by positions.
pub fn arrange_pairs(ps: &Vec<(usize, usize)>, last: bool, order: &Vec<usize>) -> (r: Vec<
    (usize, usize),
>)
    requires
        order@.no_duplicates(),
        forall|j: int|
            0 <= j < ps@.len() ==> order@.contains((#[trigger] ps@[j]).0) && order@.contains(
                ps@[j].1,
            ),
    ensures
        r@ == pairs_by(ps@, last, order@, order@.len() as int),
{
    let mut out: Vec<(usize, usize)> = Vec::new();
    let mut k: usize = 0;
    while k < order.len()
        invariant
            k <= order@.len(),
            order@.no_duplicates(),
            forall|j: int|
                0 <= j < ps@.len() ==> order@.contains((#[trigger] ps@[j]).0) && order@.contains(
                    ps@[j].1,
                ),
            out@ == pairs_by(ps@, last, order@, k as int),
        decreases order@.len() - k,
    {
        add_pairs(ps, last, order, order[k], &mut out);
        k += 1;
    }
    out
}

} // verus!
