//! Which implementation goes first, and which of several plans wins.

use crate::ast::RecentRuns;
use crate::order::TextMap;
use crate::text;
use vstd::prelude::*;

verus! {

// ── Penalties ──

/// What the latest runs of an implementation cost it.
#[derive(Debug, Clone, Copy, PartialEq, Eq, Structural)]
pub enum Penalty {
    /// Nothing.
    Nothing,
    /// So many of so many runs failed, which is more than one in ten.
    Rate(usize, usize),
    /// It failed again and again and goes last.
    Endless,
}

/// What the latest runs of an implementation cost it: three failures in a row
/// put it last, and fewer than three runs say nothing.
pub open spec fn penalty_of(r: RecentRuns) -> Penalty {
    if r.window == 0 {
        Penalty::Nothing
    } else if r.consec_fail >= 3 {
        Penalty::Endless
    } else if r.window < 3 || r.fails * 10 <= r.window {
        Penalty::Nothing
    } else {
        Penalty::Rate(r.fails, r.window)
    }
}

/// What the latest runs of an implementation cost it; one without runs pays
/// nothing.
pub fn impl_penalty(recent: &TextMap<RecentRuns>, name: &str) -> (r: Penalty)
    requires
        recent.wf(),
    ensures
        r == (if recent@.dom().contains(name@) {
            penalty_of(recent@[name@])
        } else {
            Penalty::Nothing
        }),
{
    match recent.get(name) {
        None => Penalty::Nothing,
        Some(rr) => {
            if rr.window == 0 {
                Penalty::Nothing
            } else if rr.consec_fail >= 3 {
                Penalty::Endless
            } else if rr.window < 3 || (rr.fails as u128) * 10 <= rr.window as u128 {
                Penalty::Nothing
            } else {
                Penalty::Rate(rr.fails, rr.window)
            }
        },
    }
}

// ── Order ──

/// Whether one place goes before another: its key is smaller, or the keys are
/// equal and it came first.
pub open spec fn goes_first(keys: Seq<i64>, a: int, b: int) -> bool {
    keys[a] < keys[b] || (keys[a] == keys[b] && a < b)
}

/// Whether these are all places, each once, the smallest keys first and equal
/// ones as they came.
pub open spec fn ranking(keys: Seq<i64>, r: Seq<usize>) -> bool {
    &&& r.len() == keys.len()
    &&& forall|i: int| 0 <= i < r.len() ==> (#[trigger] r[i]) < keys.len()
    &&& forall|i: int, j: int|
        0 <= i < j < r.len() ==> goes_first(keys, #[trigger] r[i] as int, #[trigger] r[j] as int)
}

/// The places in the order of their keys: the cheapest first, and equal ones as
/// they came.
pub fn rank_impls(keys: &Vec<i64>) -> (r: Vec<usize>)
    ensures
        ranking(keys@, r@),
{
    let mut out: Vec<usize> = Vec::new();
    let mut n: usize = 0;
    while n < keys.len()
        invariant
            n <= keys@.len(),
            out@.len() == n,
            forall|i: int| 0 <= i < out@.len() ==> (#[trigger] out@[i]) < n,
            forall|i: int, j: int|
                0 <= i < j < out@.len() ==> goes_first(
                    keys@,
                    #[trigger] out@[i] as int,
                    #[trigger] out@[j] as int,
                ),
        decreases keys@.len() - n,
    {
        let ghost before = out@;
        let mut p: usize = 0;
        while p < out.len() && keys[out[p]] <= keys[n]
            invariant
                p <= out@.len(),
                n < keys@.len(),
                out@ == before,
                forall|i: int| 0 <= i < before.len() ==> (#[trigger] before[i]) < n,
                forall|i: int| 0 <= i < p ==> keys@[#[trigger] before[i] as int] <= keys@[n as int],
            decreases out@.len() - p,
        {
            p += 1;
        }
        out.insert(p, n);
        proof {
            let after = out@;
            assert(after =~= before.insert(p as int, n));
            assert forall|i: int| 0 <= i < after.len() implies (#[trigger] after[i]) < n + 1 by {
                if i < p {
                    assert(after[i] == before[i]);
                } else if i > p {
                    assert(after[i] == before[i - 1]);
                }
            }
            assert forall|a: int, b: int| 0 <= a < b < after.len() implies goes_first(
                keys@,
                #[trigger] after[a] as int,
                #[trigger] after[b] as int,
            ) by {
                let x = if a < p {
                    a
                } else {
                    a - 1
                };
                let y = if b < p {
                    b
                } else {
                    b - 1
                };
                if a == p {
                    assert(after[b] == before[y]);
                    if y > p {
                        assert(goes_first(keys@, before[p as int] as int, before[y] as int));
                    }
                } else if b == p {
                    assert(after[a] == before[x]);
                } else {
                    assert(after[a] == before[x] && after[b] == before[y]);
                    assert(goes_first(keys@, before[x] as int, before[y] as int));
                }
            }
        }
        n += 1;
    }
    out
}

/// There is only one ranking of given keys.
pub proof fn law_ranking_is_unique(keys: Seq<i64>, a: Seq<usize>, b: Seq<usize>)
    requires
        ranking(keys, a),
        ranking(keys, b),
    ensures
        a == b,
{
    lemma_all_placed(keys, a);
    lemma_all_placed(keys, b);
    assert forall|i: int| 0 <= i < a.len() implies a[i] == b[i] by {
        lemma_same_place(keys, a, b, i);
    }
    assert(a =~= b);
}

/// A place is in a ranking.
spec fn placed(r: Seq<usize>, p: int) -> bool {
    exists|i: int| 0 <= i < r.len() && #[trigger] r[i] == p
}

/// Every place is in a ranking.
proof fn lemma_all_placed(keys: Seq<i64>, r: Seq<usize>)
    requires
        ranking(keys, r),
    ensures
        forall|p: int| 0 <= p < keys.len() ==> #[trigger] placed(r, p),
{
    let ints = Seq::new(r.len(), |i: int| r[i] as int);
    assert(ints.no_duplicates()) by {
        assert forall|i: int, j: int|
            0 <= i < ints.len() && 0 <= j < ints.len() && i != j implies ints[i] != ints[j] by {
            if i < j {
                assert(goes_first(keys, r[i] as int, r[j] as int));
            } else {
                assert(goes_first(keys, r[j] as int, r[i] as int));
            }
        }
    }
    ints.unique_seq_to_set();
    let all = vstd::set_lib::set_int_range(0, keys.len() as int);
    vstd::set_lib::lemma_int_range(0, keys.len() as int);
    assert(ints.to_set().subset_of(all)) by {
        assert forall|p: int| ints.to_set().contains(p) implies all.contains(p) by {
            let i = choose|i: int| 0 <= i < ints.len() && ints[i] == p;
            assert(r[i] < keys.len());
        }
    }
    vstd::set_lib::lemma_subset_equality(ints.to_set(), all);
    assert forall|p: int| 0 <= p < keys.len() implies #[trigger] placed(r, p) by {
        assert(ints.to_set().contains(p));
        let i = choose|i: int| 0 <= i < ints.len() && ints[i] == p;
        assert(r[i] == p);
    }
}

proof fn lemma_same_place(keys: Seq<i64>, a: Seq<usize>, b: Seq<usize>, i: int)
    requires
        ranking(keys, a),
        ranking(keys, b),
        0 <= i < a.len(),
        forall|p: int| 0 <= p < keys.len() ==> #[trigger] placed(a, p),
        forall|p: int| 0 <= p < keys.len() ==> #[trigger] placed(b, p),
    ensures
        a[i] == b[i],
    decreases i,
{
    if i > 0 {
        assert forall|k: int| 0 <= k < i implies a[k] == b[k] by {
            lemma_same_place(keys, a, b, k);
        }
    }
    if a[i] != b[i] {
        assert(placed(b, a[i] as int) && placed(a, b[i] as int));
        let x = choose|k: int| 0 <= k < b.len() && b[k] == a[i] as int;
        let y = choose|k: int| 0 <= k < a.len() && a[k] == b[i] as int;
        if x < i {
            assert(a[x] == b[x]);
            assert(goes_first(keys, a[x] as int, a[i] as int));
        }
        if y < i {
            assert(a[y] == b[y]);
            assert(goes_first(keys, b[y] as int, b[i] as int));
        }
        assert(x > i && y > i);
        assert(goes_first(keys, b[i] as int, b[x] as int));
        assert(goes_first(keys, a[i] as int, a[y] as int));
    }
}

// ── Replays ──

/// A replay: where the score of each node stands among the scores, zero for a
/// score of zero, and how many nodes each round opened.
#[derive(Debug)]
pub struct ReplayTrace {
    pub node_scores: Vec<i64>,
    pub batch_sizes: Vec<usize>,
}

/// The best of the first `n` scores, and never less than zero.
pub open spec fn best_of(scores: Seq<i64>, n: int) -> i64
    decreases n,
{
    if n <= 0 {
        0
    } else if scores[n - 1] > best_of(scores, n - 1) {
        scores[n - 1]
    } else {
        best_of(scores, n - 1)
    }
}

impl ReplayTrace {
    /// A replay that opens one node in each round.
    pub fn serial(node_scores: Vec<i64>) -> (r: ReplayTrace)
        ensures
            r.node_scores@ == node_scores@,
            r.batch_sizes@ == Seq::new(node_scores@.len(), |i: int| 1usize),
    {
        let n: usize = node_scores.len();
        let mut batch_sizes: Vec<usize> = Vec::new();
        let mut i: usize = 0;
        while i < n
            invariant
                i <= n,
                batch_sizes@ == Seq::new(i as nat, |i: int| 1usize),
            decreases n - i,
        {
            batch_sizes.push(1);
            assert(batch_sizes@ =~= Seq::new((i + 1) as nat, |i: int| 1usize));
            i += 1;
        }
        ReplayTrace { node_scores, batch_sizes }
    }

    /// How many nodes were opened.
    pub fn n_probes(&self) -> (r: usize)
        ensures
            r == self.node_scores@.len(),
    {
        self.node_scores.len()
    }

    /// How many rounds there were.
    pub fn k_rounds(&self) -> (r: usize)
        ensures
            r == self.batch_sizes@.len(),
    {
        self.batch_sizes.len()
    }

    /// The best score, and never less than zero.
    pub fn best(&self) -> (r: i64)
        ensures
            r == best_of(self.node_scores@, self.node_scores@.len() as int),
    {
        let mut b: i64 = 0;
        let mut i: usize = 0;
        while i < self.node_scores.len()
            invariant
                i <= self.node_scores@.len(),
                b == best_of(self.node_scores@, i as int),
            decreases self.node_scores@.len() - i,
        {
            if self.node_scores[i] > b {
                b = self.node_scores[i];
            }
            i += 1;
        }
        b
    }
}

/// The replays that stop after each number of nodes, from none to all.
pub fn prefix_family(node_scores: &Vec<i64>) -> (r: Vec<(usize, ReplayTrace)>)
    requires
        node_scores@.len() < usize::MAX,
    ensures
        r@.len() == node_scores@.len() + 1,
        forall|d: int|
            0 <= d < r@.len() ==> (#[trigger] r@[d]).0 == d && r@[d].1.node_scores@
                == node_scores@.take(d) && r@[d].1.batch_sizes@ == Seq::new(
                d as nat,
                |i: int| 1usize,
            ),
{
    let n: usize = node_scores.len();
    let mut out: Vec<(usize, ReplayTrace)> = Vec::new();
    let mut d: usize = 0;
    while d <= n
        invariant
            n == node_scores@.len(),
            n < usize::MAX,
            d <= n + 1,
            out@.len() == d,
            forall|k: int|
                0 <= k < d ==> (#[trigger] out@[k]).0 == k && out@[k].1.node_scores@
                    == node_scores@.take(k) && out@[k].1.batch_sizes@ == Seq::new(
                    k as nat,
                    |i: int| 1usize,
                ),
        decreases n + 1 - d,
    {
        let mut part: Vec<i64> = Vec::new();
        let mut i: usize = 0;
        while i < d
            invariant
                i <= d,
                d <= n,
                n == node_scores@.len(),
                part@ == node_scores@.take(i as int),
            decreases d - i,
        {
            part.push(node_scores[i]);
            assert(node_scores@.take(i + 1) =~= node_scores@.take(i as int).push(
                node_scores@[i as int],
            ));
            i += 1;
        }
        let t = ReplayTrace::serial(part);
        out.push((d, t));
        d += 1;
    }
    out
}

/// The place of the first of the best of the first `n` scores.
pub open spec fn winner(scores: Seq<i64>, n: int) -> int
    decreases n,
{
    if n <= 1 {
        0
    } else if scores[n - 1] > scores[winner(scores, n - 1)] {
        n - 1
    } else {
        winner(scores, n - 1)
    }
}

/// The place of the best score, and whether it is the first: the first of equal
/// ones wins.
pub fn select_never_worse(scores: &Vec<i64>) -> (r: (usize, bool))
    requires
        scores@.len() > 0,
    ensures
        r.0 == winner(scores@, scores@.len() as int),
        r.1 == (r.0 == 0),
{
    let mut best: usize = 0;
    let mut i: usize = 1;
    while i < scores.len()
        invariant
            1 <= i <= scores@.len(),
            best < i,
            best == winner(scores@, i as int),
        decreases scores@.len() - i,
    {
        if scores[i] > scores[best] {
            best = i;
        }
        i += 1;
    }
    (best, best == 0)
}

/// No score is better than the winner's: in particular the winner is never worse
/// than the first. Before it, every score is worse.
pub proof fn law_never_worse(scores: Seq<i64>, n: int)
    requires
        1 <= n <= scores.len(),
    ensures
        0 <= winner(scores, n) < n,
        forall|k: int| 0 <= k < n ==> (#[trigger] scores[k]) <= scores[winner(scores, n)],
        forall|k: int|
            0 <= k < winner(scores, n) ==> (#[trigger] scores[k]) < scores[winner(scores, n)],
    decreases n,
{
    if n > 1 {
        law_never_worse(scores, n - 1);
    }
}

/// An implementation without runs, or with fewer than three and fewer than three
/// failures in a row, pays nothing; one with three failures in a row goes last.
/// Any other pays nothing exactly where at most one run in ten failed, and pays
/// by its failures and its runs above that.
pub proof fn law_penalties_follow_the_failures(r: RecentRuns)
    ensures
        penalty_of(r) is Endless <==> r.window >= 1 && r.consec_fail >= 3,
        r.window <= 2 && r.consec_fail <= 2 ==> penalty_of(r) is Nothing,
        r.window >= 3 && r.consec_fail <= 2 ==> (penalty_of(r) is Nothing <==> 10 * r.fails
            <= r.window),
        penalty_of(r) is Rate ==> penalty_of(r) == Penalty::Rate(r.fails, r.window),
{
}

/// How heavy a penalty is beside another of as many runs.
pub open spec fn no_lighter(a: Penalty, b: Penalty) -> bool {
    match (a, b) {
        (_, Penalty::Nothing) => true,
        (Penalty::Endless, _) => true,
        (Penalty::Rate(x, m), Penalty::Rate(y, n)) => x * n >= y * m,
        _ => false,
    }
}

/// Of two implementations with as many runs, the one that failed more, in all and
/// in a row, never pays less.
pub proof fn law_more_failures_never_cost_less(a: RecentRuns, b: RecentRuns)
    requires
        a.window == b.window,
        a.fails >= b.fails,
        a.consec_fail >= b.consec_fail,
    ensures
        no_lighter(penalty_of(a), penalty_of(b)),
{
    assert(a.fails * b.window >= b.fails * a.window) by (nonlinear_arith)
        requires
            a.window == b.window,
            a.fails >= b.fails,
            a.window >= 0,
    ;
}

/// The best of some scores is as good as each of them and as zero, and is one of
/// them or zero.
pub proof fn law_the_best_is_the_largest(scores: Seq<i64>, n: int)
    requires
        0 <= n <= scores.len(),
    ensures
        best_of(scores, n) >= 0,
        forall|i: int| 0 <= i < n ==> best_of(scores, n) >= #[trigger] scores[i],
        best_of(scores, n) == 0 || scores.take(n).contains(best_of(scores, n)),
    decreases n,
{
    if n > 0 {
        law_the_best_is_the_largest(scores, n - 1);
        let t = scores.take(n);
        assert(t[n - 1] == scores[n - 1]);
        let b = best_of(scores, n - 1);
        if scores.take(n - 1).contains(b) {
            let t0 = scores.take(n - 1);
            let i = choose|i: int| 0 <= i < t0.len() && t0[i] == b;
            assert(t[i] == b);
        }
    }
}

} // verus!
