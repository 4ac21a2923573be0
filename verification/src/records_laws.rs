//! What holds of every list of groups of alike procs.

use crate::order;
use crate::records;
use crate::records::ProcRow;
use vstd::prelude::*;

verus! {

/// The groups of procs with the same tags in different pipelines.
pub open spec fn groups(rows: Seq<ProcRow>) -> Seq<Seq<usize>> {
    let keys = records::tag_keys(rows, rows.len() as int);
    records::groups_upto(rows, keys, keys.len() as int)
}

/// Whether two procs have the same tags, which are some, in different pipelines.
pub open spec fn alike(rows: Seq<ProcRow>, a: int, b: int) -> bool {
    &&& rows[a].tags@ == rows[b].tags@
    &&& rows[a].tags.seq().len() > 0
    &&& rows[a].pipeline@ != rows[b].pipeline@
}

// ── The order of lists ──

/// No list comes before itself.
proof fn lemma_list_irreflexive(a: Seq<Seq<char>>)
    ensures
        !records::list_lt(a, a),
    decreases a.len(),
{
    if a.len() > 0 {
        lemma_list_irreflexive(a.skip(1));
    }
}

/// The order of lists goes through.
proof fn lemma_list_transitive(a: Seq<Seq<char>>, b: Seq<Seq<char>>, c: Seq<Seq<char>>)
    requires
        records::list_lt(a, b),
        records::list_lt(b, c),
    ensures
        records::list_lt(a, c),
    decreases a.len(),
{
    if a.len() > 0 {
        if a[0] == b[0] && b[0] == c[0] {
            lemma_list_transitive(a.skip(1), b.skip(1), c.skip(1));
        } else if a[0] != b[0] && b[0] != c[0] {
            order::lemma_lt_transitive(a[0], b[0], c[0]);
            order::lemma_lt_asymmetric(a[0], c[0]);
        }
    }
}

/// Of two different lists one comes before the other.
proof fn lemma_list_total(a: Seq<Seq<char>>, b: Seq<Seq<char>>)
    ensures
        records::list_lt(a, b) || records::list_lt(b, a) || a == b,
    decreases a.len(),
{
    if a.len() == 0 || b.len() == 0 {
        if a.len() == 0 && b.len() == 0 {
            assert(a =~= b);
        }
    } else if a[0] == b[0] {
        lemma_list_total(a.skip(1), b.skip(1));
        if a.skip(1) == b.skip(1) {
            assert(a =~= seq![a[0]] + a.skip(1));
            assert(b =~= seq![b[0]] + b.skip(1));
        }
    } else {
        order::lemma_lt_total(a[0], b[0]);
    }
}

// ── The keys ──

/// Each list comes before all that follow it.
pub open spec fn lists_ascending(keys: Seq<Seq<Seq<char>>>) -> bool {
    forall|i: int, j: int|
        0 <= i < j < keys.len() ==> records::list_lt(#[trigger] keys[i], #[trigger] keys[j])
}

/// All keys before the slot come before the list, and the key at it does not.
proof fn lemma_key_slot(keys: Seq<Seq<Seq<char>>>, x: Seq<Seq<char>>, k: int)
    requires
        0 <= k <= keys.len(),
        forall|i: int| 0 <= i < k ==> records::list_lt(#[trigger] keys[i], x),
    ensures
        k <= records::key_slot(keys, x, k) <= keys.len(),
        forall|i: int|
            0 <= i < records::key_slot(keys, x, k) ==> records::list_lt(#[trigger] keys[i], x),
        records::key_slot(keys, x, k) < keys.len() ==> !records::list_lt(
            keys[records::key_slot(keys, x, k)],
            x,
        ),
    decreases keys.len() - k,
{
    if k < keys.len() && records::list_lt(keys[k], x) {
        lemma_key_slot(keys, x, k + 1);
    }
}

/// A list put at its slot keeps the keys in order, and is the only new one.
proof fn lemma_with_key(keys: Seq<Seq<Seq<char>>>, x: Seq<Seq<char>>)
    requires
        lists_ascending(keys),
    ensures
        lists_ascending(records::with_key(keys, x)),
        forall|y: Seq<Seq<char>>|
            #[trigger] records::with_key(keys, x).contains(y) <==> keys.contains(y) || y == x,
{
    let k = records::key_slot(keys, x, 0);
    lemma_key_slot(keys, x, 0);
    let now = records::with_key(keys, x);
    if k < keys.len() && keys[k] == x {
        assert(keys.contains(x));
    } else {
        assert forall|i: int| k <= i < keys.len() implies records::list_lt(x, #[trigger] keys[i]) by {
            lemma_list_total(x, keys[k]);
            if i > k {
                lemma_list_transitive(x, keys[k], keys[i]);
            }
        }
        assert forall|i: int, j: int| 0 <= i < j < now.len() implies records::list_lt(
            #[trigger] now[i],
            #[trigger] now[j],
        ) by {
            let a = if i < k {
                i
            } else {
                i - 1
            };
            let b = if j < k {
                j
            } else {
                j - 1
            };
            if i == k {
                assert(records::list_lt(x, keys[b]));
            } else if j == k {
                assert(records::list_lt(keys[a], x));
            } else {
                assert(records::list_lt(keys[a], keys[b]));
            }
        }
        assert forall|y: Seq<Seq<char>>| #[trigger]
            now.contains(y) <==> keys.contains(y) || y == x by {
            if now.contains(y) {
                let i = choose|i: int| 0 <= i < now.len() && now[i] == y;
                if i < k {
                    assert(keys[i] == y);
                } else if i > k {
                    assert(keys[i - 1] == y);
                }
            }
            if keys.contains(y) {
                let i = choose|i: int| 0 <= i < keys.len() && keys[i] == y;
                if i < k {
                    assert(now[i] == y);
                } else {
                    assert(now[i + 1] == y);
                }
            }
            assert(now[k] == x);
        }
    }
}

/// The keys are the tag lists that occur, in order.
proof fn lemma_tag_keys(rows: Seq<ProcRow>, n: int)
    requires
        0 <= n <= rows.len(),
    ensures
        lists_ascending(records::tag_keys(rows, n)),
        forall|y: Seq<Seq<char>>| #[trigger]
            records::tag_keys(rows, n).contains(y) <==> y.len() > 0 && exists|p: int|
                0 <= p < n && (#[trigger] rows[p]).tags.seq() == y,
    decreases n,
{
    if n > 0 {
        lemma_tag_keys(rows, n - 1);
        let before = records::tag_keys(rows, n - 1);
        let own = rows[n - 1].tags.seq();
        if own.len() > 0 {
            lemma_with_key(before, own);
        }
        assert forall|y: Seq<Seq<char>>| #[trigger]
            records::tag_keys(rows, n).contains(y) <==> y.len() > 0 && exists|p: int|
                0 <= p < n && (#[trigger] rows[p]).tags.seq() == y by {
            if before.contains(y) {
                let p = choose|p: int| 0 <= p < n - 1 && (#[trigger] rows[p]).tags.seq() == y;
                assert(rows[p].tags.seq() == y);
            }
            if y.len() > 0 && exists|p: int| 0 <= p < n && (#[trigger] rows[p]).tags.seq() == y {
                let p = choose|p: int| 0 <= p < n && (#[trigger] rows[p]).tags.seq() == y;
                if p < n - 1 {
                    assert(rows[p].tags.seq() == y);
                    assert(before.contains(y));
                }
            }
        }
    }
}

// ── The groups ──

/// The places of the rows with some tags are all of them, in order.
proof fn lemma_with_tags(rows: Seq<ProcRow>, key: Seq<Seq<char>>, n: int)
    requires
        0 <= n <= rows.len() <= usize::MAX,
    ensures
        forall|p: usize| #[trigger]
            records::with_tags(rows, key, n).contains(p) <==> p < n && rows[p as int].tags.seq()
                == key,
        forall|a: int, b: int|
            0 <= a < b < records::with_tags(rows, key, n).len() ==> #[trigger] records::with_tags(
                rows,
                key,
                n,
            )[a] < #[trigger] records::with_tags(rows, key, n)[b],
    decreases n,
{
    if n > 0 {
        lemma_with_tags(rows, key, n - 1);
        let before = records::with_tags(rows, key, n - 1);
        let now = records::with_tags(rows, key, n);
        assert forall|a: int, b: int| 0 <= a < b < now.len() implies #[trigger] now[a]
            < #[trigger] now[b] by {
            assert(before.contains(before[a]));
            if b < before.len() {
                assert(before[a] < before[b]);
            }
        }
        assert forall|p: usize| #[trigger]
            now.contains(p) <==> p < n && rows[p as int].tags.seq() == key by {
            if now.contains(p) {
                let i = choose|i: int| 0 <= i < now.len() && now[i] == p;
                if i < before.len() {
                    assert(before[i] == p);
                    assert(before.contains(p));
                }
            }
            if before.contains(p) {
                let i = choose|i: int| 0 <= i < before.len() && before[i] == p;
                assert(now[i] == p);
            }
            if rows[n - 1].tags.seq() == key {
                assert(now[before.len() as int] == (n - 1) as usize);
            }
        }
    }
}

/// The tag list of a group.
pub open spec fn group_key(rows: Seq<ProcRow>, g: Seq<usize>) -> Seq<Seq<char>> {
    rows[g[0] as int].tags.seq()
}

/// A list of rows that are all those with its key, from different pipelines.
spec fn is_group(rows: Seq<ProcRow>, g: Seq<usize>, key: Seq<Seq<char>>) -> bool {
    g == records::with_tags(rows, key, rows.len() as int) && records::across(rows, g)
}

/// The key of a group is that of its rows.
proof fn lemma_group_key(rows: Seq<ProcRow>, g: Seq<usize>, key: Seq<Seq<char>>)
    requires
        rows.len() <= usize::MAX,
        is_group(rows, g, key),
    ensures
        g.len() >= 2,
        group_key(rows, g) == key,
{
    lemma_with_tags(rows, key, rows.len() as int);
    assert(g.contains(g[0]));
}

/// The groups are those of the keys, in the order of the keys.
proof fn lemma_groups(rows: Seq<ProcRow>, keys: Seq<Seq<Seq<char>>>, n: int)
    requires
        rows.len() <= usize::MAX,
        0 <= n <= keys.len(),
        lists_ascending(keys),
    ensures
        forall|i: int|
            0 <= i < records::groups_upto(rows, keys, n).len() ==> exists|k: int|
                0 <= k < n && is_group(
                    rows,
                    #[trigger] records::groups_upto(rows, keys, n)[i],
                    #[trigger] keys[k],
                ),
        forall|k: int|
            0 <= k < n && records::across(
                rows,
                records::with_tags(rows, #[trigger] keys[k], rows.len() as int),
            ) ==> records::groups_upto(rows, keys, n).contains(
                records::with_tags(rows, keys[k], rows.len() as int),
            ),
        forall|i: int, j: int|
            0 <= i < j < records::groups_upto(rows, keys, n).len() ==> records::list_lt(
                group_key(rows, #[trigger] records::groups_upto(rows, keys, n)[i]),
                group_key(rows, #[trigger] records::groups_upto(rows, keys, n)[j]),
            ),
    decreases n,
{
    if n > 0 {
        lemma_groups(rows, keys, n - 1);
        let before = records::groups_upto(rows, keys, n - 1);
        let now = records::groups_upto(rows, keys, n);
        let ms = records::with_tags(rows, keys[n - 1], rows.len() as int);
        assert forall|i: int| 0 <= i < now.len() implies exists|k: int|
            0 <= k < n && is_group(rows, #[trigger] now[i], #[trigger] keys[k]) by {
            if i < before.len() {
                let k = choose|k: int|
                    0 <= k < n - 1 && is_group(rows, before[i], #[trigger] keys[k]);
                assert(is_group(rows, now[i], keys[k]));
            } else {
                assert(is_group(rows, now[i], keys[n - 1]));
            }
        }
        assert forall|k: int|
            0 <= k < n && records::across(
                rows,
                records::with_tags(rows, #[trigger] keys[k], rows.len() as int),
            ) implies now.contains(records::with_tags(rows, keys[k], rows.len() as int)) by {
            let g = records::with_tags(rows, keys[k], rows.len() as int);
            if k < n - 1 {
                let i = choose|i: int| 0 <= i < before.len() && before[i] == g;
                assert(now[i] == g);
            } else {
                assert(now[before.len() as int] == g);
            }
        }
        assert forall|i: int, j: int| 0 <= i < j < now.len() implies records::list_lt(
            group_key(rows, #[trigger] now[i]),
            group_key(rows, #[trigger] now[j]),
        ) by {
            let k = choose|k: int| 0 <= k < n - 1 && is_group(rows, before[i], #[trigger] keys[k]);
            lemma_group_key(rows, before[i], keys[k]);
            if j < before.len() {
                assert(records::list_lt(group_key(rows, before[i]), group_key(rows, before[j])));
            } else {
                lemma_group_key(rows, ms, keys[n - 1]);
            }
        }
    }
}

/// Rows have the same tag list just where they have the same tags.
proof fn lemma_same_tags(rows: Seq<ProcRow>, a: int, b: int)
    requires
        records::rows_wf(rows),
        0 <= a < rows.len(),
        0 <= b < rows.len(),
    ensures
        rows[a].tags@ == rows[b].tags@ <==> rows[a].tags.seq() == rows[b].tags.seq(),
{
    order::lemma_in_order(rows[a].tags.seq());
    order::lemma_in_order(rows[b].tags.seq());
}

/// A group is all the procs of one set of tags, which is not empty, from two
/// pipelines or more: it holds every such proc once, in the order of the rows,
/// and no other.
pub proof fn law_a_group_is_one_tag_set(rows: Seq<ProcRow>, i: int, p: usize)
    requires
        rows.len() <= usize::MAX,
        records::rows_wf(rows),
        0 <= i < groups(rows).len(),
    ensures
        ({
            let g = groups(rows)[i];
            &&& g.len() >= 2
            &&& g[0] < rows.len()
            &&& group_key(rows, g).len() > 0
            &&& g.contains(p) <==> p < rows.len() && rows[p as int].tags@ == rows[g[0] as int].tags@
            &&& forall|a: int, b: int| 0 <= a < b < g.len() ==> #[trigger] g[a] < #[trigger] g[b]
            &&& records::across(rows, g)
        }),
{
    let n = rows.len() as int;
    let keys = records::tag_keys(rows, n);
    let g = groups(rows)[i];
    lemma_tag_keys(rows, n);
    lemma_groups(rows, keys, keys.len() as int);
    let k = choose|k: int| 0 <= k < keys.len() && is_group(rows, g, #[trigger] keys[k]);
    lemma_group_key(rows, g, keys[k]);
    lemma_with_tags(rows, keys[k], n);
    assert(keys.contains(keys[k]));
    assert(g.contains(g[0]));
    if p < rows.len() {
        lemma_same_tags(rows, p as int, g[0] as int);
    }
}

/// No two groups have the same tags: they come in the order of their sorted tag
/// lists.
pub proof fn law_groups_come_in_order(rows: Seq<ProcRow>, i: int, j: int)
    requires
        rows.len() <= usize::MAX,
        records::rows_wf(rows),
        0 <= i < j < groups(rows).len(),
    ensures
        records::list_lt(group_key(rows, groups(rows)[i]), group_key(rows, groups(rows)[j])),
        rows[groups(rows)[i][0] as int].tags@ != rows[groups(rows)[j][0] as int].tags@,
{
    let n = rows.len() as int;
    let keys = records::tag_keys(rows, n);
    lemma_tag_keys(rows, n);
    lemma_groups(rows, keys, keys.len() as int);
    let a = groups(rows)[i];
    let b = groups(rows)[j];
    assert(records::list_lt(group_key(rows, a), group_key(rows, b)));
    law_a_group_is_one_tag_set(rows, i, a[0]);
    law_a_group_is_one_tag_set(rows, j, b[0]);
    lemma_same_tags(rows, a[0] as int, b[0] as int);
    lemma_list_irreflexive(group_key(rows, a));
}

/// No group is left out: two procs with the same tags in different pipelines are
/// together in a group.
pub proof fn law_alike_procs_are_grouped(rows: Seq<ProcRow>, a: usize, b: usize)
    requires
        rows.len() <= usize::MAX,
        records::rows_wf(rows),
        a < rows.len(),
        b < rows.len(),
        alike(rows, a as int, b as int),
    ensures
        exists|i: int|
            0 <= i < groups(rows).len() && (#[trigger] groups(rows)[i]).contains(a) && groups(
                rows,
            )[i].contains(b),
{
    let n = rows.len() as int;
    let keys = records::tag_keys(rows, n);
    let key = rows[a as int].tags.seq();
    lemma_same_tags(rows, a as int, b as int);
    lemma_tag_keys(rows, n);
    lemma_groups(rows, keys, keys.len() as int);
    assert(rows[a as int].tags.seq() == key);
    assert(keys.contains(key));
    let k = choose|k: int| 0 <= k < keys.len() && keys[k] == key;
    let g = records::with_tags(rows, key, n);
    lemma_with_tags(rows, key, n);
    assert(g.contains(a));
    assert(g.contains(b));
    let x = choose|x: int| 0 <= x < g.len() && g[x] == a;
    let y = choose|y: int| 0 <= y < g.len() && g[y] == b;
    assert(records::across(rows, g)) by {
        if x < y {
            assert(rows[g[x] as int].pipeline@ != rows[g[y] as int].pipeline@);
        } else {
            assert(rows[g[y] as int].pipeline@ != rows[g[x] as int].pipeline@);
        }
    }
    assert(records::across(rows, records::with_tags(rows, keys[k], rows.len() as int)));
    let i = choose|i: int| 0 <= i < groups(rows).len() && groups(rows)[i] == g;
    assert(groups(rows)[i].contains(a));
}

} // verus!
