//! Edges for a hypergraph that was written as stages: what stands behind a
//! gate becomes a gate, and the remaining steps are merged into chains.

use crate::hyper;
use crate::hyper::{GHedge, GStage, HedgeKind, HyperStage, Hyperedge};
use crate::hyper_args;
use crate::order;
use crate::order::TextSet;
use crate::text;
use vstd::prelude::*;

verus! {

// ── Chains out of pairs ──

/// Pairs of names as values.
pub open spec fn pair_views(v: Seq<(String, String)>) -> Seq<(Seq<char>, Seq<char>)> {
    v.map_values(|p: (String, String)| (p.0@, p.1@))
}

/// Whether the `i`-th pair alone leaves its source and alone enters its target.
pub open spec fn lone(ps: Seq<(Seq<char>, Seq<char>)>, i: int) -> bool {
    0 <= i < ps.len() && forall|j: int|
        0 <= j < ps.len() && j != i ==> (#[trigger] ps[j]).0 != ps[i].0 && ps[j].1 != ps[i].1
}

/// The only step from `a`, where it is also the only one into its target.
pub open spec fn next_of(ps: Seq<(Seq<char>, Seq<char>)>, a: Seq<char>) -> Option<Seq<char>> {
    if exists|i: int| #[trigger] lone(ps, i) && ps[i].0 == a {
        Some(ps[choose|i: int| #[trigger] lone(ps, i) && ps[i].0 == a].1)
    } else {
        None
    }
}

/// The sources of the lone pairs among the first `n`.
pub open spec fn lone_sources(ps: Seq<(Seq<char>, Seq<char>)>, n: int) -> Set<Seq<char>> {
    Set::new(|a: Seq<char>| exists|i: int| 0 <= i < n && #[trigger] lone(ps, i) && ps[i].0 == a)
}

/// The targets of the lone pairs among the first `n`.
pub open spec fn lone_targets(ps: Seq<(Seq<char>, Seq<char>)>, n: int) -> Set<Seq<char>> {
    Set::new(|a: Seq<char>| exists|i: int| 0 <= i < n && #[trigger] lone(ps, i) && ps[i].1 == a)
}

/// The sources of lone pairs that no lone pair enters: where the paths start.
pub open spec fn heads(ps: Seq<(Seq<char>, Seq<char>)>) -> Set<Seq<char>> {
    lone_sources(ps, ps.len() as int).difference(lone_targets(ps, ps.len() as int))
}

/// All sources.
pub open spec fn firsts(ps: Seq<(Seq<char>, Seq<char>)>) -> Set<Seq<char>> {
    ps.map_values(|p: (Seq<char>, Seq<char>)| p.0).to_set()
}

/// The path from `cur` along lone pairs, up to a name that was used; only the
/// sources in `left` are still walked from.
pub open spec fn walk(
    ps: Seq<(Seq<char>, Seq<char>)>,
    left: Set<Seq<char>>,
    cur: Seq<char>,
    used: Set<Seq<char>>,
) -> Seq<Seq<char>>
    decreases left.len(),
{
    if left.finite() && left.contains(cur) {
        match next_of(ps, cur) {
            Some(n) if !used.contains(n) => seq![cur] + walk(
                ps,
                left.remove(cur),
                n,
                used.insert(n),
            ),
            _ => seq![cur],
        }
    } else {
        seq![cur]
    }
}

/// The paths from the starts from the `i`-th on, and the names used afterwards.
pub open spec fn paths(
    ps: Seq<(Seq<char>, Seq<char>)>,
    starts: Seq<Seq<char>>,
    i: int,
    used: Set<Seq<char>>,
) -> (Seq<Seq<Seq<char>>>, Set<Seq<char>>)
    decreases starts.len() - i,
{
    if i >= starts.len() {
        (Seq::empty(), used)
    } else if used.contains(starts[i]) {
        paths(ps, starts, i + 1, used)
    } else {
        let p = walk(ps, firsts(ps), starts[i], used.insert(starts[i]));
        let rest = paths(ps, starts, i + 1, used.union(p.to_set()));
        (if p.len() >= 2 {
            seq![p] + rest.0
        } else {
            rest.0
        }, rest.1)
    }
}

/// Of the lone pairs on no path (they stand on cycles), those from the `i`-th
/// source on that share no name with an earlier one.
pub open spec fn fragments(
    ps: Seq<(Seq<char>, Seq<char>)>,
    sources: Seq<Seq<char>>,
    i: int,
    used: Set<Seq<char>>,
) -> Seq<Seq<Seq<char>>>
    decreases sources.len() - i,
{
    if i >= sources.len() {
        Seq::empty()
    } else {
        let a = sources[i];
        match next_of(ps, a) {
            Some(b) if !used.contains(a) && !used.contains(b) => seq![seq![a, b]] + fragments(
                ps,
                sources,
                i + 1,
                used.insert(a).insert(b),
            ),
            _ => fragments(ps, sources, i + 1, used),
        }
    }
}

/// The sources of the pairs among the first `n` that are not alone.
pub open spec fn branch_sources(ps: Seq<(Seq<char>, Seq<char>)>, n: int) -> Set<Seq<char>> {
    Set::new(
        |a: Seq<char>|
            exists|i: int|
                0 <= i < n && !(#[trigger] lone(ps, i)) && ps[i].0 == a,
    )
}

/// The targets from `a` of the pairs among the first `n` that are not alone.
pub open spec fn branch_targets(
    ps: Seq<(Seq<char>, Seq<char>)>,
    a: Seq<char>,
    n: int,
) -> Set<Seq<char>> {
    Set::new(
        |b: Seq<char>|
            exists|i: int|
                0 <= i < n && !(#[trigger] lone(ps, i)) && ps[i].0 == a && ps[i].1 == b,
    )
}

/// The steps from `a` to each target.
pub open spec fn steps(a: Seq<char>, targets: Seq<Seq<char>>) -> Seq<Seq<Seq<char>>> {
    Seq::new(targets.len(), |j: int| seq![a, targets[j]])
}

/// The steps of the pairs that are not alone, from the `i`-th source on.
pub open spec fn branches(
    ps: Seq<(Seq<char>, Seq<char>)>,
    sources: Seq<Seq<char>>,
    i: int,
) -> Seq<Seq<Seq<char>>>
    decreases sources.len() - i,
{
    if i >= sources.len() {
        Seq::empty()
    } else {
        steps(
            sources[i],
            order::in_order(branch_targets(ps, sources[i], ps.len() as int)),
        ) + branches(ps, sources, i + 1)
    }
}

/// The chains that the pairs are merged into: the longest paths of lone pairs,
/// fragments of cycles, and the branching pairs one by one.
pub open spec fn merged(ps: Seq<(Seq<char>, Seq<char>)>) -> Seq<Seq<Seq<char>>> {
    let n = ps.len() as int;
    let walked = paths(ps, order::in_order(heads(ps)), 0, Set::empty());
    walked.0 + fragments(ps, order::in_order(lone_sources(ps, n)), 0, walked.1) + branches(
        ps,
        order::in_order(branch_sources(ps, n)),
        0,
    )
}

/// The only lone pair from a source gives its next name.
proof fn lemma_next(ps: Seq<(Seq<char>, Seq<char>)>, i: int)
    requires
        lone(ps, i),
    ensures
        next_of(ps, ps[i].0) == Some(ps[i].1),
{
    let k = choose|k: int| #[trigger] lone(ps, k) && ps[k].0 == ps[i].0;
    assert(lone(ps, k) && ps[k].0 == ps[i].0);
    assert(k == i);
}

/// Whether the `i`-th pair alone leaves its source and alone enters its target.
fn lone_at(pairs: &Vec<(String, String)>, i: usize) -> (r: bool)
    requires
        i < pairs@.len(),
    ensures
        r == lone(pair_views(pairs@), i as int),
{
    let ghost ps = pair_views(pairs@);
    let mut j: usize = 0;
    while j < pairs.len()
        invariant
            j <= pairs@.len(),
            i < pairs@.len(),
            ps == pair_views(pairs@),
            forall|k: int|
                0 <= k < j && k != i ==> (#[trigger] ps[k]).0 != ps[i as int].0 && ps[k].1
                    != ps[i as int].1,
        decreases pairs@.len() - j,
    {
        assert(ps[j as int].0 == pairs@[j as int].0@);
        assert(ps[j as int].1 == pairs@[j as int].1@);
        assert(ps[i as int].0 == pairs@[i as int].0@);
        assert(ps[i as int].1 == pairs@[i as int].1@);
        if j != i && (text::same(pairs[j].0.as_str(), pairs[i].0.as_str()) || text::same(
            pairs[j].1.as_str(),
            pairs[i].1.as_str(),
        )) {
            return false;
        }
        j += 1;
    }
    true
}

/// The place of the lone pair from `a`.
fn next_at(pairs: &Vec<(String, String)>, a: &str) -> (r: Option<usize>)
    ensures
        match r {
            Some(i) => i < pairs@.len() && pairs@[i as int].0@ == a@ && next_of(
                pair_views(pairs@),
                a@,
            ) == Some(pairs@[i as int].1@),
            None => next_of(pair_views(pairs@), a@) is None,
        },
{
    let ghost ps = pair_views(pairs@);
    let mut i: usize = 0;
    while i < pairs.len()
        invariant
            i <= pairs@.len(),
            ps == pair_views(pairs@),
            forall|k: int| 0 <= k < i && #[trigger] lone(ps, k) ==> ps[k].0 != a@,
        decreases pairs@.len() - i,
    {
        assert(ps[i as int] == (pairs@[i as int].0@, pairs@[i as int].1@));
        if text::same(pairs[i].0.as_str(), a) && lone_at(pairs, i) {
            proof {
                lemma_next(ps, i as int);
            }
            return Some(i);
        }
        i += 1;
    }
    None
}

/// The names that `items` stands for, as chains.
pub open spec fn chain_views(v: Seq<Vec<String>>) -> Seq<Seq<Seq<char>>> {
    v.map_values(|c: Vec<String>| text::views(c@))
}

/// The path from `start`, with its names added to `used`.
fn walk_from(pairs: &Vec<(String, String)>, start: &String, used: &mut TextSet) -> (r: Vec<String>)
    requires
        old(used).wf(),
        !old(used)@.contains(start@),
    ensures
        final(used).wf(),
        text::views(r@) == walk(
            pair_views(pairs@),
            firsts(pair_views(pairs@)),
            start@,
            old(used)@.insert(start@),
        ),
        final(used)@ == old(used)@.union(text::views(r@).to_set()),
{
    let ghost ps = pair_views(pairs@);
    let ghost used0 = used@;
    let ghost total = walk(ps, firsts(ps), start@, used@.insert(start@));
    let ghost mut left = firsts(ps);
    let mut path: Vec<String> = Vec::new();
    let mut cur: String = start.clone();
    used.insert(start.clone());
    proof {
        vstd::seq_lib::seq_to_set_is_finite(ps.map_values(|p: (Seq<char>, Seq<char>)| p.0));
        assert(text::views(path@) + walk(ps, left, cur@, used@) =~= total);
        assert(used@ =~= used0.union(text::views(path@).push(cur@).to_set())) by {
            assert(text::views(path@).push(cur@) =~= seq![cur@]);
            assert(seq![cur@].to_set() =~= set![cur@]) by {
                assert(seq![cur@][0] == cur@);
            }
        }
    }
    let mut go = true;
    while go
        invariant
            ps == pair_views(pairs@),
            used.wf(),
            left.finite(),
            used@.contains(cur@),
            firsts(ps).contains(cur@) && go ==> left.contains(cur@),
            forall|k: Seq<char>|
                #![trigger left.contains(k)]
                firsts(ps).contains(k) && !used@.contains(k) ==> left.contains(k),
            go ==> text::views(path@) + walk(ps, left, cur@, used@) == total,
            !go ==> text::views(path@).push(cur@) == total,
            used@ == used0.union(text::views(path@).push(cur@).to_set()),
        decreases left.len() + (if go {
            1nat
        } else {
            0nat
        }),
    {
        match next_at(pairs, cur.as_str()) {
            Some(i) => {
                let nxt: &String = &pairs[i].1;
                proof {
                    let fs = ps.map_values(|p: (Seq<char>, Seq<char>)| p.0);
                    assert(fs[i as int] == pairs@[i as int].0@);
                    assert(firsts(ps).contains(cur@));
                    assert(left.contains(cur@));
                }
                if used.contains(nxt.as_str()) {
                    go = false;
                    assert(text::views(path@) + seq![cur@] =~= text::views(path@).push(cur@));
                } else {
                    let ghost before = path@;
                    let ghost old_used = used@;
                    let ghost old_cur = cur@;
                    let ghost old_left = left;
                    used.insert(nxt.clone());
                    path.push(cur);
                    cur = nxt.clone();
                    proof {
                        left = left.remove(old_cur);
                        assert(text::views(path@) =~= text::views(before).push(old_cur));
                        assert(text::views(before) + (seq![old_cur] + walk(ps, left, cur@, used@))
                            =~= text::views(path@) + walk(ps, left, cur@, used@));
                        let a = text::views(path@);
                        assert(a.push(cur@).to_set() =~= a.to_set().insert(cur@)) by {
                            assert forall|x: Seq<char>|
                                a.push(cur@).to_set().contains(x) <==> a.to_set().insert(
                                    cur@,
                                ).contains(x) by {
                                if a.contains(x) {
                                    let j = choose|j: int| 0 <= j < a.len() && a[j] == x;
                                    assert(a.push(cur@)[j] == x);
                                }
                                assert(a.push(cur@)[a.len() as int] == cur@);
                            }
                        }
                        assert(used@ =~= used0.union(a.push(cur@).to_set()));
                    }
                }
            },
            None => {
                go = false;
                assert(text::views(path@) + seq![cur@] =~= text::views(path@).push(cur@));
            },
        }
    }
    let ghost before = path@;
    let ghost last = cur@;
    path.push(cur);
    assert(text::views(path@) =~= text::views(before).push(last));
    path
}

/// The sources and the targets of the lone pairs, and the sources of the others.
fn ends(pairs: &Vec<(String, String)>) -> (r: (TextSet, TextSet, TextSet))
    ensures
        r.0.wf(),
        r.0@ == lone_sources(pair_views(pairs@), pairs@.len() as int),
        r.1.wf(),
        r.1@ == lone_targets(pair_views(pairs@), pairs@.len() as int),
        r.2.wf(),
        r.2@ == branch_sources(pair_views(pairs@), pairs@.len() as int),
{
    let ghost ps = pair_views(pairs@);
    let mut sources = TextSet::new();
    let mut targets = TextSet::new();
    let mut others = TextSet::new();
    let mut i: usize = 0;
    assert(sources@ =~= lone_sources(ps, 0));
    assert(targets@ =~= lone_targets(ps, 0));
    assert(others@ =~= branch_sources(ps, 0));
    while i < pairs.len()
        invariant
            i <= pairs@.len(),
            ps == pair_views(pairs@),
            sources.wf(),
            targets.wf(),
            others.wf(),
            sources@ == lone_sources(ps, i as int),
            targets@ == lone_targets(ps, i as int),
            others@ == branch_sources(ps, i as int),
        decreases pairs@.len() - i,
    {
        let ghost a = pairs@[i as int].0@;
        let ghost b = pairs@[i as int].1@;
        assert(ps[i as int] == (a, b));
        if lone_at(pairs, i) {
            sources.insert(pairs[i].0.clone());
            targets.insert(pairs[i].1.clone());
            proof {
                assert(lone_sources(ps, i as int).insert(a) =~= lone_sources(ps, i + 1));
                assert(lone_targets(ps, i as int).insert(b) =~= lone_targets(ps, i + 1));
                assert(branch_sources(ps, i as int) =~= branch_sources(ps, i + 1));
            }
        } else {
            others.insert(pairs[i].0.clone());
            proof {
                assert(lone_sources(ps, i as int) =~= lone_sources(ps, i + 1));
                assert(lone_targets(ps, i as int) =~= lone_targets(ps, i + 1));
                assert(branch_sources(ps, i as int).insert(a) =~= branch_sources(ps, i + 1));
            }
        }
        i += 1;
    }
    (sources, targets, others)
}

/// The targets from `a` of the pairs that are not alone.
fn targets_from(pairs: &Vec<(String, String)>, a: &str) -> (r: TextSet)
    ensures
        r.wf(),
        r@ == branch_targets(pair_views(pairs@), a@, pairs@.len() as int),
{
    let ghost ps = pair_views(pairs@);
    let mut out = TextSet::new();
    let mut i: usize = 0;
    assert(out@ =~= branch_targets(ps, a@, 0));
    while i < pairs.len()
        invariant
            i <= pairs@.len(),
            ps == pair_views(pairs@),
            out.wf(),
            out@ == branch_targets(ps, a@, i as int),
        decreases pairs@.len() - i,
    {
        let ghost b = pairs@[i as int].1@;
        assert(ps[i as int] == (pairs@[i as int].0@, b));
        if text::same(pairs[i].0.as_str(), a) && !lone_at(pairs, i) {
            out.insert(pairs[i].1.clone());
            assert(branch_targets(ps, a@, i as int).insert(b) =~= branch_targets(ps, a@, i + 1));
        } else {
            assert(branch_targets(ps, a@, i as int) =~= branch_targets(ps, a@, i + 1));
        }
        i += 1;
    }
    out
}

/// The members of `a` that `b` does not hold.
fn minus(a: &TextSet, b: &TextSet) -> (r: TextSet)
    requires
        a.wf(),
        b.wf(),
    ensures
        r.wf(),
        r@ == a@.difference(b@),
{
    let mut out = TextSet::new();
    let mut i: usize = 0;
    assert(out@ =~= a.seq().take(0).to_set().difference(b@));
    while i < a.len()
        invariant
            i <= a.seq().len(),
            b.wf(),
            out.wf(),
            out@ == a.seq().take(i as int).to_set().difference(b@),
        decreases a.seq().len() - i,
    {
        let x = a.at(i);
        proof {
            let s = a.seq().take(i as int);
            let t = a.seq().take(i + 1);
            assert(t =~= s.push(x@));
            assert forall|y: Seq<char>| t.to_set().contains(y) <==> s.to_set().insert(
                x@,
            ).contains(y) by {
                if s.contains(y) {
                    let j = choose|j: int| 0 <= j < s.len() && s[j] == y;
                    assert(t[j] == y);
                }
                assert(t[i as int] == x@);
            }
            assert(t.to_set() =~= s.to_set().insert(x@));
        }
        if b.contains(x.as_str()) {
            assert(out@ =~= a.seq().take(i + 1).to_set().difference(b@));
        } else {
            out.insert(x.clone());
            assert(out@ =~= a.seq().take(i + 1).to_set().difference(b@));
        }
        i += 1;
    }
    assert(a.seq().take(i as int) =~= a.seq());
    out
}

/// Two names as a list.
fn two(a: &String, b: &String) -> (r: Vec<String>)
    ensures
        text::views(r@) == seq![a@, b@],
{
    let mut v: Vec<String> = Vec::new();
    v.push(a.clone());
    v.push(b.clone());
    assert(text::views(v@) =~= seq![a@, b@]);
    v
}

/// The chains that the pairs are merged into: the longest paths along pairs
/// that alone leave their source and enter their target, fragments of cycles of
/// such pairs, and the branching pairs one by one.
pub fn merge_chain_pairs(pairs: &Vec<(String, String)>) -> (r: Vec<Vec<String>>)
    ensures
        chain_views(r@) == merged(pair_views(pairs@)),
{
    let ghost ps = pair_views(pairs@);
    let (sources, targets, others) = ends(pairs);
    let starts = minus(&sources, &targets);
    let mut used = TextSet::new();
    let mut out: Vec<Vec<String>> = Vec::new();
    let mut i: usize = 0;
    let ghost sv = starts.seq();
    proof {
        order::lemma_in_order(starts.seq());
        order::lemma_in_order(sources.seq());
        order::lemma_in_order(others.seq());
        assert(chain_views(out@) =~= Seq::<Seq<Seq<char>>>::empty());
        assert(chain_views(out@) + paths(ps, sv, 0, used@).0 =~= paths(ps, sv, 0, used@).0);
    }
    let ghost walked = paths(ps, sv, 0, Set::empty());
    while i < starts.len()
        invariant
            i <= sv.len(),
            sv == starts.seq(),
            ps == pair_views(pairs@),
            used.wf(),
            walked.0 == chain_views(out@) + paths(ps, sv, i as int, used@).0,
            walked.1 == paths(ps, sv, i as int, used@).1,
        decreases sv.len() - i,
    {
        let s = starts.at(i);
        if !used.contains(s.as_str()) {
            let ghost used_before = used@;
            let p = walk_from(pairs, s, &mut used);
            let ghost pv = text::views(p@);
            let ghost rest = paths(ps, sv, i + 1, used@).0;
            if p.len() >= 2 {
                let ghost before = out@;
                out.push(p);
                assert(chain_views(out@) =~= chain_views(before).push(pv));
                assert(chain_views(out@) + rest =~= chain_views(before) + (seq![pv] + rest));
            }
        }
        i += 1;
    }
    assert(chain_views(out@) =~= walked.0);
    let ghost n = ps.len() as int;
    let ghost srcs = sources.seq();
    let ghost frag = fragments(ps, srcs, 0, used@);
    assert(chain_views(out@) + frag == walked.0 + frag);
    let mut j: usize = 0;
    while j < sources.len()
        invariant
            j <= srcs.len(),
            srcs == sources.seq(),
            ps == pair_views(pairs@),
            used.wf(),
            walked.0 + frag == chain_views(out@) + fragments(ps, srcs, j as int, used@),
        decreases srcs.len() - j,
    {
        let a = sources.at(j);
        match next_at(pairs, a.as_str()) {
            Some(k) => {
                let b: &String = &pairs[k].1;
                if !used.contains(a.as_str()) && !used.contains(b.as_str()) {
                    let ghost before = out@;
                    let c = two(a, b);
                    let ghost cv = text::views(c@);
                    out.push(c);
                    used.insert(a.clone());
                    used.insert(b.clone());
                    let ghost rest = fragments(ps, srcs, j + 1, used@);
                    assert(chain_views(out@) =~= chain_views(before).push(cv));
                    assert(chain_views(out@) + rest =~= chain_views(before) + (seq![cv] + rest));
                }
            },
            None => {},
        }
        j += 1;
    }
    assert(chain_views(out@) =~= walked.0 + frag);
    let ghost bs = others.seq();
    let ghost all = walked.0 + frag + branches(ps, bs, 0);
    let mut k: usize = 0;
    while k < others.len()
        invariant
            k <= bs.len(),
            bs == others.seq(),
            ps == pair_views(pairs@),
            all == chain_views(out@) + branches(ps, bs, k as int),
        decreases bs.len() - k,
    {
        let a = others.at(k);
        let ts = targets_from(pairs, a.as_str());
        proof {
            order::lemma_in_order(ts.seq());
        }
        let ghost tv = ts.seq();
        let ghost rest = branches(ps, bs, k + 1);
        let ghost start = chain_views(out@);
        assert(start + steps(a@, tv).take(0) =~= start);
        let mut m: usize = 0;
        while m < ts.len()
            invariant
                m <= tv.len(),
                tv == ts.seq(),
                chain_views(out@) == start + steps(a@, tv).take(m as int),
            decreases tv.len() - m,
        {
            let ghost before = out@;
            let c = two(a, ts.at(m));
            let ghost cv = text::views(c@);
            out.push(c);
            assert(chain_views(out@) =~= chain_views(before).push(cv));
            assert(steps(a@, tv).take(m + 1) =~= steps(a@, tv).take(m as int).push(cv));
            assert(start + steps(a@, tv).take(m + 1) =~= (start + steps(a@, tv).take(
                m as int,
            )).push(cv));
            m += 1;
        }
        assert(steps(a@, tv).take(m as int) =~= steps(a@, tv));
        assert(start + (steps(a@, tv) + rest) =~= chain_views(out@) + rest);
        k += 1;
    }
    assert(chain_views(out@) =~= all);
    out
}

// ── Edges out of stages ──

/// The first `n` names but for those that are `g`.
pub open spec fn without(names: Seq<Seq<char>>, g: Seq<char>, n: int) -> Seq<Seq<char>>
    decreases n,
{
    if n <= 0 {
        Seq::empty()
    } else if names[n - 1] == g {
        without(names, g, n - 1)
    } else {
        without(names, g, n - 1).push(names[n - 1])
    }
}

/// The stage whose verdict opens a stage that stands behind `g`.
pub open spec fn gate_before(s: GStage, g: Seq<char>) -> GHedge {
    hyper_args::gate_of(
        "gate_"@ + s.name,
        g,
        without(s.after, g, s.after.len() as int),
        seq![s.name],
    )
}

/// The gates of the first `n` stages.
pub open spec fn stage_gates(ss: Seq<GStage>, n: int) -> Seq<GHedge>
    decreases n,
{
    if n <= 0 {
        Seq::empty()
    } else {
        match ss[n - 1].gated_by {
            Some(g) => stage_gates(ss, n - 1).push(gate_before(ss[n - 1], g)),
            None => stage_gates(ss, n - 1),
        }
    }
}

/// Whether some gate has the step from `a` to `b` as one from a producer to its
/// judge.
pub open spec fn gate_owns(ss: Seq<GStage>, a: Seq<char>, b: Seq<char>) -> bool {
    a != b && exists|i: int|
        0 <= i < ss.len() && (#[trigger] ss[i]).gated_by == Some(b) && ss[i].after.contains(a)
}

/// The steps into `s` from the first `m` of its inputs that no gate owns.
pub open spec fn stage_steps(ss: Seq<GStage>, s: GStage, m: int) -> Seq<(Seq<char>, Seq<char>)>
    decreases m,
{
    if m <= 0 {
        Seq::empty()
    } else if gate_owns(ss, s.after[m - 1], s.name) {
        stage_steps(ss, s, m - 1)
    } else {
        stage_steps(ss, s, m - 1).push((s.after[m - 1], s.name))
    }
}

/// The steps into the first `n` stages that no gate owns.
pub open spec fn all_steps(ss: Seq<GStage>, n: int) -> Seq<(Seq<char>, Seq<char>)>
    decreases n,
{
    if n <= 0 {
        Seq::empty()
    } else {
        all_steps(ss, n - 1) + stage_steps(ss, ss[n - 1], ss[n - 1].after.len() as int)
    }
}

/// The edges `hs` with the first `n` chains behind them, each with its number
/// in its name.
pub open spec fn with_chains(hs: Seq<GHedge>, cs: Seq<Seq<Seq<char>>>, n: int) -> Seq<GHedge>
    decreases n,
{
    if n <= 0 {
        hs
    } else {
        let before = with_chains(hs, cs, n - 1);
        if cs[n - 1].len() >= 2 {
            before.push(
                hyper_args::simple_of(
                    "chain_"@ + text::dec((before.len() + 1) as nat),
                    HedgeKind::Chain,
                    cs[n - 1],
                ),
            )
        } else {
            before
        }
    }
}

/// The names of the stages.
pub open spec fn stage_names(ss: Seq<GStage>) -> Seq<Seq<char>> {
    ss.map_values(|s: GStage| s.name)
}

/// The edges of a hypergraph that was written as stages.
pub open spec fn edges_of_stages(ss: Seq<GStage>) -> Seq<GHedge> {
    let gates = stage_gates(ss, ss.len() as int);
    let chains = merged(all_steps(ss, ss.len() as int));
    let hs = with_chains(gates, chains, chains.len() as int);
    if hs.len() == 0 && ss.len() >= 2 {
        seq![hyper_args::simple_of("main_chain"@, HedgeKind::Chain, stage_names(ss))]
    } else {
        hs
    }
}

/// The names but for those that are `g`.
fn all_but(names: &Vec<String>, g: &str) -> (r: Vec<String>)
    ensures
        text::views(r@) == without(text::views(names@), g@, names@.len() as int),
{
    let ghost nv = text::views(names@);
    let mut out: Vec<String> = Vec::new();
    let mut i: usize = 0;
    assert(text::views(out@) =~= Seq::<Seq<char>>::empty());
    while i < names.len()
        invariant
            i <= names@.len(),
            nv == text::views(names@),
            text::views(out@) == without(nv, g@, i as int),
        decreases names@.len() - i,
    {
        if !text::same(names[i].as_str(), g) {
            let ghost before = out@;
            out.push(names[i].clone());
            assert(text::views(out@) =~= text::views(before).push(nv[i as int]));
        }
        i += 1;
    }
    out
}

/// Whether some gate has the step from `a` to `b` as one from a producer to its
/// judge.
fn owned_by_gate(stages: &Vec<HyperStage>, a: &String, b: &String) -> (r: bool)
    ensures
        r == gate_owns(hyper::stage_views(stages@), a@, b@),
{
    let ghost ss = hyper::stage_views(stages@);
    if text::same(a.as_str(), b.as_str()) {
        return false;
    }
    let mut i: usize = 0;
    while i < stages.len()
        invariant
            i <= stages@.len(),
            a@ != b@,
            ss == hyper::stage_views(stages@),
            forall|k: int|
                0 <= k < i ==> !((#[trigger] ss[k]).gated_by == Some(b@) && ss[k].after.contains(
                    a@,
                )),
        decreases stages@.len() - i,
    {
        assert(ss[i as int] == stages@[i as int]@);
        match &stages[i].gated_by {
            Some(g) => {
                if text::same(g.as_str(), b.as_str()) && text::is_one_of(
                    a.as_str(),
                    &stages[i].after,
                ) {
                    assert(ss[i as int].gated_by == Some(b@) && ss[i as int].after.contains(a@));
                    return true;
                }
            },
            None => {},
        }
        i += 1;
    }
    false
}

/// The edges of a hypergraph that was written as stages: a gate for each stage
/// behind one, chains for the steps that no gate owns, and one chain through
/// all stages where there is neither.
pub fn synthesize_hedges_from_stages(stages: &Vec<HyperStage>) -> (r: Vec<Hyperedge>)
    ensures
        hyper::hedge_views(r@) == edges_of_stages(hyper::stage_views(stages@)),
{
    let ghost ss = hyper::stage_views(stages@);
    let mut hedges: Vec<Hyperedge> = Vec::new();
    let mut pairs: Vec<(String, String)> = Vec::new();
    let mut i: usize = 0;
    assert(hyper::hedge_views(hedges@) =~= Seq::<GHedge>::empty());
    assert(pair_views(pairs@) =~= Seq::<(Seq<char>, Seq<char>)>::empty());
    while i < stages.len()
        invariant
            i <= stages@.len(),
            ss == hyper::stage_views(stages@),
            hyper::hedge_views(hedges@) == stage_gates(ss, i as int),
            pair_views(pairs@) == all_steps(ss, i as int),
        decreases stages@.len() - i,
    {
        let s: &HyperStage = &stages[i];
        let ghost sv = s@;
        assert(ss[i as int] == sv);
        match &s.gated_by {
            Some(g) => {
                let producers = all_but(&s.after, g.as_str());
                let mut name = "gate_".to_owned();
                name.append(s.name.as_str());
                let mut consumers: Vec<String> = Vec::new();
                consumers.push(s.name.clone());
                assert(text::views(consumers@) =~= seq![s.name@]);
                let ghost before = hedges@;
                let h = hyper_args::hedge_gate(name, g.clone(), producers, consumers);
                let ghost hv = h@;
                hedges.push(h);
                assert(hyper::hedge_views(hedges@) =~= hyper::hedge_views(before).push(hv));
            },
            None => {},
        }
        let ghost start = pair_views(pairs@);
        let mut j: usize = 0;
        assert(start + stage_steps(ss, sv, 0) =~= start);
        while j < s.after.len()
            invariant
                j <= s.after@.len(),
                ss == hyper::stage_views(stages@),
                sv == s@,
                pair_views(pairs@) == start + stage_steps(ss, sv, j as int),
            decreases s.after@.len() - j,
        {
            assert(sv.after[j as int] == s.after@[j as int]@);
            if !owned_by_gate(stages, &s.after[j], &s.name) {
                let ghost before = pairs@;
                pairs.push((s.after[j].clone(), s.name.clone()));
                assert(pair_views(pairs@) =~= pair_views(before).push(
                    (sv.after[j as int], sv.name),
                ));
                assert(start + stage_steps(ss, sv, j + 1) =~= (start + stage_steps(
                    ss,
                    sv,
                    j as int,
                )).push((sv.after[j as int], sv.name)));
            }
            j += 1;
        }
        i += 1;
    }
    let chains = merge_chain_pairs(&pairs);
    let ghost gates = hyper::hedge_views(hedges@);
    let ghost cs = chain_views(chains@);
    let mut c: usize = 0;
    while c < chains.len()
        invariant
            c <= chains@.len(),
            cs == chain_views(chains@),
            hyper::hedge_views(hedges@) == with_chains(gates, cs, c as int),
        decreases chains@.len() - c,
    {
        assert(cs[c as int] == text::views(chains@[c as int]@));
        if chains[c].len() >= 2 {
            let mut name = "chain_".to_owned();
            let number: u128 = hedges.len() as u128 + 1;
            name.append(text::decimal(number).as_str());
            let ghost before = hedges@;
            let h = hyper_args::hedge_simple(
                name,
                HedgeKind::Chain,
                text::copy_all(&chains[c]),
            );
            let ghost hv = h@;
            hedges.push(h);
            assert(hyper::hedge_views(hedges@) =~= hyper::hedge_views(before).push(hv));
        }
        c += 1;
    }
    if hedges.len() == 0 && stages.len() >= 2 {
        let mut names: Vec<String> = Vec::new();
        let mut k: usize = 0;
        assert(text::views(names@) =~= stage_names(ss).take(0));
        while k < stages.len()
            invariant
                k <= stages@.len(),
                ss == hyper::stage_views(stages@),
                text::views(names@) == stage_names(ss).take(k as int),
            decreases stages@.len() - k,
        {
            let ghost before = names@;
            names.push(stages[k].name.clone());
            assert(stage_names(ss)[k as int] == stages@[k as int].name@);
            assert(text::views(names@) =~= text::views(before).push(stages@[k as int].name@));
            assert(stage_names(ss).take(k + 1) =~= stage_names(ss).take(k as int).push(
                stages@[k as int].name@,
            ));
            k += 1;
        }
        assert(stage_names(ss).take(k as int) =~= stage_names(ss));
        let h = hyper_args::hedge_simple("main_chain".to_owned(), HedgeKind::Chain, names);
        let ghost hv = h@;
        hedges.push(h);
        assert(hyper::hedge_views(hedges@) =~= seq![hv]);
    }
    hedges
}

} // verus!
