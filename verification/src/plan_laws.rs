//! What holds of every plan: its order and its choices.

use crate::ast::Proc;
use crate::egraph;
use crate::egraph_laws;
use crate::fuse;
use crate::order;
use crate::plan;
use crate::plan::Pick;
use vstd::prelude::*;

verus! {

// ── The order ──

/// Classes that are there, none of them twice.
pub open spec fn proper(m: egraph::Graph, s: Seq<int>) -> bool {
    &&& s.no_duplicates()
    &&& forall|i: int| 0 <= i < s.len() ==> 0 <= #[trigger] s[i] < m.classes.len() && egraph::active(m, s[i])
}

/// Each class comes after all that it depends on.
pub open spec fn settled(m: egraph::Graph, edges: Seq<(Seq<char>, Seq<char>)>, s: Seq<int>) -> bool {
    forall|i: int, f: int|
        0 <= i < s.len() && #[trigger] plan::depends(m, edges, s[i], f) ==> s.take(i).contains(f)
}

/// The classes that can be put in order: those outside of rings and not behind
/// one.
pub open spec fn orderly(m: egraph::Graph, edges: Seq<(Seq<char>, Seq<char>)>) -> Seq<int> {
    plan::kahn(m, edges, Seq::empty(), m.classes.len() as int)
}

/// The first class that is ready is ready, and where there is none, none is.
proof fn lemma_next_ready(m: egraph::Graph, edges: Seq<(Seq<char>, Seq<char>)>, done: Seq<int>, c: int)
    ensures
        match plan::next_ready(m, edges, done, c) {
            Some(k) => c <= k < m.classes.len() && plan::ready(m, edges, done, k),
            None => forall|k: int|
                c <= k < m.classes.len() ==> !#[trigger] plan::ready(m, edges, done, k),
        },
    decreases m.classes.len() - c,
{
    if c < m.classes.len() && !plan::ready(m, edges, done, c) {
        lemma_next_ready(m, edges, done, c + 1);
    }
}

/// As many different classes as there are are all of them.
proof fn lemma_all_of_them(m: egraph::Graph, s: Seq<int>, c: int)
    requires
        proper(m, s),
        s.len() == m.classes.len(),
        0 <= c < m.classes.len(),
    ensures
        s.contains(c),
{
    s.unique_seq_to_set();
    let all = vstd::set_lib::set_int_range(0, m.classes.len() as int);
    vstd::set_lib::lemma_int_range(0, m.classes.len() as int);
    assert(s.to_set().subset_of(all)) by {
        assert forall|x: int| s.to_set().contains(x) implies all.contains(x) by {
            let i = choose|i: int| 0 <= i < s.len() && s[i] == x;
            assert(0 <= s[i] < m.classes.len());
        }
    }
    vstd::set_lib::lemma_subset_equality(s.to_set(), all);
    assert(s.to_set().contains(c));
}

/// One more class that is ready keeps the order.
proof fn lemma_push(m: egraph::Graph, edges: Seq<(Seq<char>, Seq<char>)>, done: Seq<int>, c: int)
    requires
        proper(m, done),
        settled(m, edges, done),
        0 <= c < m.classes.len(),
        plan::ready(m, edges, done, c),
    ensures
        proper(m, done.push(c)),
        settled(m, edges, done.push(c)),
{
    let s = done.push(c);
    assert forall|i: int, f: int|
        0 <= i < s.len() && #[trigger] plan::depends(m, edges, s[i], f) implies s.take(i).contains(
        f,
    ) by {
        assert(s.take(i) =~= done.take(i));
        if i < done.len() {
            assert(plan::depends(m, edges, done[i], f));
        } else {
            assert(done.take(i) =~= done);
        }
    }
    assert(s.no_duplicates()) by {
        assert forall|i: int, j: int| 0 <= i < s.len() && 0 <= j < s.len() && i != j implies s[i] != s[j] by {
            if i == done.len() {
                assert(done.contains(done[j]));
            }
            if j == done.len() {
                assert(done.contains(done[i]));
            }
        }
    }
}

/// The order goes on until no class is ready.
proof fn lemma_kahn(m: egraph::Graph, edges: Seq<(Seq<char>, Seq<char>)>, done: Seq<int>, n: int)
    requires
        proper(m, done),
        settled(m, edges, done),
        0 <= n,
        done.len() + n == m.classes.len(),
    ensures
        proper(m, plan::kahn(m, edges, done, n)),
        settled(m, edges, plan::kahn(m, edges, done, n)),
        forall|k: int|
            0 <= k < m.classes.len() ==> !#[trigger] plan::ready(
                m,
                edges,
                plan::kahn(m, edges, done, n),
                k,
            ),
    decreases n,
{
    lemma_next_ready(m, edges, done, 0);
    match plan::next_ready(m, edges, done, 0) {
        Some(c) => {
            if n > 0 {
                lemma_push(m, edges, done, c);
                lemma_kahn(m, edges, done.push(c), n - 1);
            } else {
                lemma_all_of_them(m, done, c);
            }
        },
        None => {},
    }
}

/// The rest is added behind, each class once.
proof fn lemma_with_rest(m: egraph::Graph, done: Seq<int>, c: int)
    requires
        proper(m, done),
        0 <= c,
    ensures
        proper(m, plan::with_rest(m, done, c)),
        done.is_prefix_of(plan::with_rest(m, done, c)),
        forall|k: int|
            c <= k < m.classes.len() && #[trigger] egraph::active(m, k) ==> plan::with_rest(
                m,
                done,
                c,
            ).contains(k),
    decreases m.classes.len() - c,
{
    if c < m.classes.len() {
        let next = if egraph::active(m, c) && !done.contains(c) {
            done.push(c)
        } else {
            done
        };
        assert(next.no_duplicates()) by {
            assert forall|i: int, j: int| 0 <= i < next.len() && 0 <= j < next.len() && i
                != j implies next[i] != next[j] by {
                if i == done.len() {
                    assert(done.contains(done[j]));
                }
                if j == done.len() {
                    assert(done.contains(done[i]));
                }
            }
        }
        lemma_with_rest(m, next, c + 1);
        let all = plan::with_rest(m, done, c);
        assert(done.is_prefix_of(next));
        assert(done =~= all.take(done.len() as int)) by {
            assert(next =~= all.take(next.len() as int));
            assert forall|i: int| 0 <= i < done.len() implies done[i] == all[i] by {
                assert(next[i] == all[i]);
            }
        }
        assert forall|k: int| c <= k < m.classes.len() && #[trigger] egraph::active(m, k) implies all.contains(
        k) by {
            if k == c {
                if done.contains(c) {
                    assert(next.contains(c));
                } else {
                    assert(next[done.len() as int] == c);
                }
                let j = choose|j: int| 0 <= j < next.len() && next[j] == c;
                assert(all[j] == c);
            }
        }
    }
}

/// The order holds every class that is there, and none twice.
pub proof fn law_every_class_once(m: egraph::Graph, edges: Seq<(Seq<char>, Seq<char>)>, c: int)
    requires
        0 <= c < m.classes.len(),
    ensures
        plan::class_order(m, edges).no_duplicates(),
        plan::class_order(m, edges).contains(c) == egraph::active(m, c),
{
    lemma_kahn(m, edges, Seq::empty(), m.classes.len() as int);
    lemma_with_rest(m, orderly(m, edges), 0);
    let all = plan::class_order(m, edges);
    if all.contains(c) {
        let i = choose|i: int| 0 <= i < all.len() && all[i] == c;
        assert(egraph::active(m, all[i]));
    }
}

/// A class comes after all that it depends on; only a class in a ring or behind
/// one may not, and such classes come last: each of them waits for one that
/// could not be put in order.
pub proof fn law_order_follows_dependencies(
    m: egraph::Graph,
    edges: Seq<(Seq<char>, Seq<char>)>,
    i: int,
    f: int,
)
    requires
        0 <= i < plan::class_order(m, edges).len(),
    ensures
        i < orderly(m, edges).len() && plan::depends(m, edges, plan::class_order(m, edges)[i], f)
            ==> plan::class_order(m, edges).take(i).contains(f),
        i >= orderly(m, edges).len() ==> exists|g: int|
            #[trigger] plan::depends(m, edges, plan::class_order(m, edges)[i], g) && !orderly(
                m,
                edges,
            ).contains(g),
{
    let head = orderly(m, edges);
    let all = plan::class_order(m, edges);
    lemma_kahn(m, edges, Seq::empty(), m.classes.len() as int);
    lemma_with_rest(m, head, 0);
    assert(head =~= all.take(head.len() as int));
    if i < head.len() {
        assert(head[i] == all[i]);
        assert(head.take(i) =~= all.take(i));
        if plan::depends(m, edges, all[i], f) {
            assert(plan::depends(m, edges, head[i], f));
        }
    } else {
        let c = all[i];
        assert(0 <= c < m.classes.len() && egraph::active(m, c));
        assert(!plan::ready(m, edges, head, c));
        assert(!head.contains(c)) by {
            if head.contains(c) {
                let j = choose|j: int| 0 <= j < head.len() && head[j] == c;
                assert(all[j] == c);
            }
        }
    }
}

// ── The choice ──

/// A candidate counts, unless it only reads a file and another does not.
pub open spec fn counts(s: Seq<Pick>, i: int) -> bool {
    !(plan::has_maker(s) && s[i].reads)
}

/// Preference goes through.
proof fn lemma_better_transitive(a: Pick, b: Pick, c: Pick)
    requires
        plan::better(a, b),
        plan::better(b, c),
    ensures
        plan::better(a, c),
{
    if order::text_lt(a.proc, b.proc) && order::text_lt(b.proc, c.proc) {
        order::lemma_lt_transitive(a.proc, b.proc, c.proc);
    }
    if order::text_lt(a.imp, b.imp) && order::text_lt(b.imp, c.imp) {
        order::lemma_lt_transitive(a.imp, b.imp, c.imp);
    }
}

/// Nothing is to be preferred to itself.
proof fn lemma_better_irreflexive(a: Pick)
    ensures
        !plan::better(a, a),
{
    order::lemma_lt_irreflexive(a.proc);
    order::lemma_lt_irreflexive(a.imp);
}

/// The choice is one of the candidates that count, and none of those is to be
/// preferred to it; there is no choice only where there is no candidate.
pub proof fn law_the_best_is_chosen(s: Seq<Pick>, n: int)
    requires
        0 <= n <= s.len(),
    ensures
        match plan::best_of(s, n) {
            Some(b) => {
                &&& exists|i: int| 0 <= i < n && #[trigger] counts(s, i) && s[i] == b
                &&& forall|i: int|
                    0 <= i < n && #[trigger] counts(s, i) ==> !plan::better(s[i], b)
            },
            None => forall|i: int| 0 <= i < n ==> !#[trigger] counts(s, i),
        },
        n == s.len() && n > 0 ==> plan::best_of(s, n) is Some,
    decreases n,
{
    if n > 0 {
        law_the_best_is_chosen(s, n - 1);
        if counts(s, n - 1) {
            lemma_better_irreflexive(s[n - 1]);
            match plan::best_of(s, n - 1) {
                Some(b) => {
                    if plan::better(s[n - 1], b) {
                        assert forall|i: int| 0 <= i < n && #[trigger] counts(s, i) implies !plan::better(
                            s[i],
                            s[n - 1],
                        ) by {
                            if i < n - 1 && plan::better(s[i], s[n - 1]) {
                                lemma_better_transitive(s[i], s[n - 1], b);
                            }
                        }
                    }
                },
                None => {},
            }
        }
        if n == s.len() && plan::best_of(s, n) is None {
            assert(!counts(s, 0));
            let k = choose|k: int| 0 <= k < s.len() && !(#[trigger] s[k]).reads;
            assert(counts(s, k));
        }
    }
}

// ── The plan ──

/// No proc is listed in two of these classes.
pub open spec fn apart(m: egraph::Graph, topo: Seq<int>) -> bool {
    forall|i: int, j: int, n: Seq<char>|
        0 <= i < topo.len() && 0 <= j < topo.len() && #[trigger] m.classes[topo[i]].procs.contains(
            n,
        ) && #[trigger] m.classes[topo[j]].procs.contains(n) ==> i == j
}

/// The candidates of a proc are its own.
proof fn lemma_proc_pool(p: Proc, i: int, k: int)
    requires
        0 <= i,
        0 <= k < plan::proc_pool(p, i).len(),
    ensures
        plan::proc_pool(p, i)[k].proc == p.name@,
    decreases p.plan@.len() - i,
{
    if i < p.plan@.len() {
        if p.plan@[i].enabled {
            if k > 0 {
                lemma_proc_pool(p, i + 1, k - 1);
            }
        } else {
            lemma_proc_pool(p, i + 1, k);
        }
    }
}

/// The candidates for some names belong to procs of these names.
proof fn lemma_pool(procs: Seq<Proc>, names: Seq<Seq<char>>, i: int, k: int)
    requires
        0 <= i,
        0 <= k < plan::pool(procs, names, i).len(),
    ensures
        names.contains(plan::pool(procs, names, i)[k].proc),
    decreases names.len() - i,
{
    if i < names.len() {
        fuse::lemma_proc_at(procs, names[i], 0);
        match egraph::proc_at(procs, names[i], 0) {
            Some(p) => {
                if !procs[p].deliver {
                    let own = plan::proc_pool(procs[p], 0);
                    if k < own.len() {
                        lemma_proc_pool(procs[p], 0, k);
                        assert(names.contains(names[i]));
                    } else {
                        lemma_pool(procs, names, i + 1, k - own.len());
                    }
                } else {
                    lemma_pool(procs, names, i + 1, k);
                }
            },
            None => {
                lemma_pool(procs, names, i + 1, k);
            },
        }
    }
}

/// The choice for a class is one of its procs.
proof fn lemma_choice(m: egraph::Graph, procs: Seq<Proc>, c: int)
    ensures
        match plan::choice(m, procs, c) {
            Some(p) => m.classes[c].procs.contains(p.proc),
            None => true,
        },
{
    let names = m.classes[c].procs;
    let s = plan::pool(procs, names, 0);
    law_the_best_is_chosen(s, s.len() as int);
    match plan::best_of(s, s.len() as int) {
        Some(p) => {
            let i = choose|i: int| 0 <= i < s.len() && #[trigger] counts(s, i) && s[i] == p;
            lemma_pool(procs, names, 0, i);
        },
        None => {},
    }
}

/// The names other than the one that runs stand for it, and no other name does
/// more than before.
proof fn lemma_aliased(
    a: Map<Seq<char>, Seq<char>>,
    names: Seq<Seq<char>>,
    rep: Seq<char>,
    k: int,
    n: Seq<char>,
)
    requires
        0 <= k <= names.len(),
    ensures
        n != rep && names.take(k).contains(n) ==> {
            &&& plan::aliased(a, names, rep, k).dom().contains(n)
            &&& plan::aliased(a, names, rep, k)[n] == rep
        },
        n == rep || !names.take(k).contains(n) ==> {
            &&& plan::aliased(a, names, rep, k).dom().contains(n) == a.dom().contains(n)
            &&& a.dom().contains(n) ==> plan::aliased(a, names, rep, k)[n] == a[n]
        },
    decreases k,
{
    if k > 0 {
        lemma_aliased(a, names, rep, k - 1, n);
        assert(names.take(k) =~= names.take(k - 1).push(names[k - 1]));
        if names.take(k).contains(n) {
            let j = choose|j: int| 0 <= j < k && names.take(k)[j] == n;
            if j < k - 1 {
                assert(names.take(k - 1)[j] == n);
            }
        }
        if names.take(k - 1).contains(n) {
            let t = names.take(k - 1);
            let j = choose|j: int| 0 <= j < t.len() && t[j] == n;
            assert(names.take(k)[j] == n);
        }
        assert(names.take(k)[k - 1] == names[k - 1]);
    }
}

/// A plan speaks only of procs of its classes.
proof fn lemma_within(m: egraph::Graph, procs: Seq<Proc>, topo: Seq<int>, k: int, n: Seq<char>)
    requires
        0 <= k <= topo.len(),
        ({
            let p = plan::plan_of(m, procs, topo, k);
            p.order.contains(n) || p.picks.dom().contains(n) || p.aliases.dom().contains(n)
        }),
    ensures
        exists|i: int| 0 <= i < k && (#[trigger] m.classes[topo[i]]).procs.contains(n),
    decreases k,
{
    if k > 0 {
        let before = plan::plan_of(m, procs, topo, k - 1);
        let c = topo[k - 1];
        let names = m.classes[c].procs;
        lemma_choice(m, procs, c);
        match plan::choice(m, procs, c) {
            Some(p) => {
                lemma_aliased(before.aliases, names, p.proc, names.len() as int, n);
                assert(names.take(names.len() as int) =~= names);
                if m.classes[topo[k - 1]].procs.contains(n) {
                } else {
                    if before.order.push(p.proc).contains(n) {
                        let j = choose|j: int|
                            0 <= j < before.order.len() + 1 && before.order.push(p.proc)[j] == n;
                        if j < before.order.len() {
                            assert(before.order[j] == n);
                        }
                    }
                    lemma_within(m, procs, topo, k - 1, n);
                }
            },
            None => {
                lemma_within(m, procs, topo, k - 1, n);
            },
        }
    }
}

/// Work that is shared is done once: of every class that has a choice, the proc
/// chosen is run, with the implementation chosen; every other proc of the class
/// stands for it; and no proc is run twice.
pub proof fn law_shared_work_is_done_once(
    m: egraph::Graph,
    procs: Seq<Proc>,
    topo: Seq<int>,
    k: int,
    i: int,
    n: Seq<char>,
)
    requires
        apart(m, topo),
        0 <= i < k <= topo.len(),
        m.classes[topo[i]].procs.contains(n),
    ensures
        plan::plan_of(m, procs, topo, k).order.no_duplicates(),
        match plan::choice(m, procs, topo[i]) {
            Some(p) => {
                let made = plan::plan_of(m, procs, topo, k);
                &&& made.order.contains(p.proc)
                &&& made.picks.dom().contains(p.proc)
                &&& made.picks[p.proc] == (p.proc, p.imp)
                &&& n != p.proc ==> made.aliases.dom().contains(n) && made.aliases[n] == p.proc
                &&& !made.aliases.dom().contains(p.proc)
            },
            None => {
                let made = plan::plan_of(m, procs, topo, k);
                !made.order.contains(n) && !made.aliases.dom().contains(n)
            },
        },
    decreases k,
{
    let before = plan::plan_of(m, procs, topo, k - 1);
    let made = plan::plan_of(m, procs, topo, k);
    let c = topo[k - 1];
    let names = m.classes[c].procs;
    lemma_choice(m, procs, c);
    lemma_choice(m, procs, topo[i]);
    lemma_order_once(m, procs, topo, k);
    assert(names.take(names.len() as int) =~= names);
    if i < k - 1 {
        law_shared_work_is_done_once(m, procs, topo, k - 1, i, n);
        match plan::choice(m, procs, c) {
            Some(p) => {
                // The two classes have no name in common.
                assert(!names.contains(n)) by {
                    if m.classes[topo[k - 1]].procs.contains(n) {
                        assert(m.classes[topo[i]].procs.contains(n));
                    }
                }
                lemma_aliased(before.aliases, names, p.proc, names.len() as int, n);
                if made.order.contains(n) {
                    let j = choose|j: int| 0 <= j < made.order.len() && made.order[j] == n;
                    if j < before.order.len() {
                        assert(before.order[j] == n);
                    }
                }
                match plan::choice(m, procs, topo[i]) {
                    Some(q) => {
                        assert(!names.contains(q.proc)) by {
                            if m.classes[topo[k - 1]].procs.contains(q.proc) {
                                assert(m.classes[topo[i]].procs.contains(q.proc));
                            }
                        }
                        lemma_aliased(before.aliases, names, p.proc, names.len() as int, q.proc);
                        let j = choose|j: int| 0 <= j < before.order.len() && before.order[j] == q.proc;
                        assert(made.order[j] == q.proc);
                    },
                    None => {},
                }
            },
            None => {},
        }
    } else {
        // Nothing of this class is in the plan so far.
        assert forall|x: Seq<char>| names.contains(x) implies !before.order.contains(x)
            && !before.aliases.dom().contains(x) by {
            if before.order.contains(x) || before.aliases.dom().contains(x) {
                lemma_within(m, procs, topo, k - 1, x);
                let j = choose|j: int| 0 <= j < k - 1 && (#[trigger] m.classes[topo[j]]).procs.contains(x);
                assert(m.classes[topo[j]].procs.contains(x) && m.classes[topo[k - 1]].procs.contains(x));
            }
        }
        match plan::choice(m, procs, c) {
            Some(p) => {
                lemma_aliased(before.aliases, names, p.proc, names.len() as int, n);
                lemma_aliased(before.aliases, names, p.proc, names.len() as int, p.proc);
                assert(made.order[before.order.len() as int] == p.proc);
            },
            None => {},
        }
    }
}

/// No proc is run twice.
proof fn lemma_order_once(m: egraph::Graph, procs: Seq<Proc>, topo: Seq<int>, k: int)
    requires
        apart(m, topo),
        0 <= k <= topo.len(),
    ensures
        plan::plan_of(m, procs, topo, k).order.no_duplicates(),
    decreases k,
{
    if k > 0 {
        lemma_order_once(m, procs, topo, k - 1);
        let before = plan::plan_of(m, procs, topo, k - 1);
        let c = topo[k - 1];
        lemma_choice(m, procs, c);
        match plan::choice(m, procs, c) {
            Some(p) => {
                if before.order.contains(p.proc) {
                    lemma_within(m, procs, topo, k - 1, p.proc);
                    let j = choose|j: int|
                        0 <= j < k - 1 && (#[trigger] m.classes[topo[j]]).procs.contains(p.proc);
                    assert(m.classes[topo[j]].procs.contains(p.proc) && m.classes[topo[k
                        - 1]].procs.contains(p.proc));
                }
                let s = before.order.push(p.proc);
                assert forall|a: int, b: int| 0 <= a < s.len() && 0 <= b < s.len() && a
                    != b implies s[a] != s[b] by {
                    if a == before.order.len() {
                        assert(before.order.contains(before.order[b]));
                    }
                    if b == before.order.len() {
                        assert(before.order.contains(before.order[a]));
                    }
                }
            },
            None => {},
        }
    }
}

/// In the graph of a pipeline whose procs have names of their own, the classes
/// of the order list no proc twice.
pub proof fn law_classes_are_apart(procs: Seq<Proc>, edges: Seq<(Seq<char>, Seq<char>)>)
    requires
        forall|i: int, j: int|
            0 <= i < procs.len() && 0 <= j < procs.len() && (#[trigger] procs[i]).name@ == (
            #[trigger] procs[j]).name@ ==> i == j,
    ensures
        apart(egraph::egraph_of(procs), plan::class_order(egraph::egraph_of(procs), edges)),
{
    let m = egraph::egraph_of(procs);
    let topo = plan::class_order(m, edges);
    egraph_laws::lemma_class_count(procs);
    lemma_kahn(m, edges, Seq::empty(), m.classes.len() as int);
    lemma_with_rest(m, orderly(m, edges), 0);
    assert forall|i: int, j: int, n: Seq<char>|
        0 <= i < topo.len() && 0 <= j < topo.len() && #[trigger] m.classes[topo[i]].procs.contains(n)
            && #[trigger] m.classes[topo[j]].procs.contains(n) implies i == j by {
        egraph_laws::law_class_lists_only_members(procs, topo[i], n);
        egraph_laws::law_class_lists_only_members(procs, topo[j], n);
        let x = choose|x: int|
            0 <= x < procs.len() && m.roots[x] == topo[i] && (#[trigger] procs[x]).name@ == n;
        let y = choose|y: int|
            0 <= y < procs.len() && m.roots[y] == topo[j] && (#[trigger] procs[y]).name@ == n;
        assert(x == y);
        assert(topo[i] == topo[j]);
    }
}

} // verus!
