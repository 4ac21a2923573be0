//! What merges come down to, and what the results of scripts hold.

use crate::dslresult;
use crate::egraph;
use crate::egraph::{GNode, Graph};
use crate::egraph_laws;
use crate::text;
use crate::text_laws;
use vstd::prelude::*;

verus! {

// ── Flattening ──

/// Whether the class of `c` is more than merges: it has no node, or one that is
/// none.
pub open spec fn plain(m: Graph, c: int) -> bool {
    let r = m.roots[c];
    m.classes[r].nodes.len() == 0 || exists|i: int|
        0 <= i < m.classes[r].nodes.len() && (#[trigger] m.classes[r].nodes[i]).op != "merge"@
}

/// Whether all that has been worked out stands for itself.
spec fn settled(memo: Map<int, Set<int>>) -> bool {
    forall|c: int| #[trigger] memo.dom().contains(c) ==> memo[c] == set![c]
}

proof fn lemma_children(
    m: Graph,
    children: Seq<int>,
    k: int,
    acc: Set<int>,
    memo: Map<int, Set<int>>,
    path: Seq<int>,
    x: int,
)
    requires
        0 <= k <= children.len(),
        settled(memo),
        path.len() < m.classes.len(),
        forall|j: int| 0 <= j < children.len() ==> plain(m, #[trigger] children[j]),
        forall|j: int| 0 <= j < path.len() ==> egraph::pure_merge(m, #[trigger] path[j]),
    ensures
        ({
            let r = egraph::flat_children(m, children, k, acc, memo, path);
            &&& settled(r.1)
            &&& r.0.contains(x) <==> acc.contains(x) || exists|j: int|
                k <= j < children.len() && m.roots[#[trigger] children[j]] == x
        }),
    decreases children.len() - k,
{
    if k < children.len() {
        let c = m.roots[children[k]];
        assert(plain(m, children[k]));
        assert(!egraph::pure_merge(m, c));
        assert(!path.contains(c));
        let (s, memo2) = egraph::flat(m, children[k], memo, path);
        assert(s == set![c]);
        assert(settled(memo2));
        lemma_children(m, children, k + 1, acc.union(s), memo2, path, x);
    }
}

/// A merge of classes that are more than merges comes down to just these.
pub proof fn law_merges_come_down_to_their_parts(m: Graph, n: GNode, x: int)
    requires
        m.classes.len() > 0,
        forall|j: int| 0 <= j < n.children.len() ==> plain(m, #[trigger] n.children[j]),
    ensures
        egraph::flat_set(m, n).contains(x) <==> exists|j: int|
            0 <= j < n.children.len() && m.roots[#[trigger] n.children[j]] == x,
{
    lemma_children(m, n.children, 0, Set::empty(), Map::empty(), Seq::empty(), x);
}

/// A merge of a class that is one merge comes down to the parts of that.
pub proof fn law_merges_of_merges_come_down_to_the_parts(m: Graph, n: GNode, x: int)
    requires
        n.children.len() == 1,
        ({
            let c = m.roots[n.children[0]];
            &&& m.classes[c].nodes.len() == 1
            &&& m.classes[c].nodes[0].op == "merge"@
            &&& m.classes.len() > 1
            &&& forall|j: int|
                0 <= j < m.classes[c].nodes[0].children.len() ==> plain(
                    m,
                    #[trigger] m.classes[c].nodes[0].children[j],
                )
        }),
    ensures
        ({
            let parts = m.classes[m.roots[n.children[0]]].nodes[0].children;
            egraph::flat_set(m, n).contains(x) <==> exists|j: int|
                0 <= j < parts.len() && m.roots[#[trigger] parts[j]] == x
        }),
{
    let c = m.roots[n.children[0]];
    let parts = m.classes[c].nodes[0].children;
    let path = Seq::<int>::empty().push(c);
    let none = Map::<int, Set<int>>::empty();
    assert(egraph::pure_merge(m, c));
    assert(!Seq::<int>::empty().contains(c));
    let (out, memo2) = egraph::flat_children(m, parts, 0, Set::empty(), none, path);
    lemma_children(m, parts, 0, Set::empty(), none, path, x);
    let first = egraph::flat_nodes(m, c, 0, None, none, path);
    assert(egraph::flat_nodes(m, c, 1, Some(out), memo2, path) == (Some(out), memo2));
    assert(first == (Some(out), memo2));
    let (s, memo3) = egraph::flat(m, n.children[0], none, Seq::empty());
    assert(s == out);
    assert(egraph::flat_children(
        m,
        n.children,
        1,
        Set::<int>::empty().union(s),
        memo3,
        Seq::empty(),
    ) == (Set::<int>::empty().union(s), memo3));
    assert(Set::<int>::empty().union(s) =~= s);
}

/// The merges of a graph are those of its roots.
pub proof fn law_all_merges_are_seen(m: Graph, c: int, x: (Set<int>, int))
    requires
        0 <= c <= m.classes.len(),
    ensures
        egraph::all_merges(m, c).contains(x) <==> c <= x.1 < m.classes.len() && m.roots[x.1] == x.1
            && exists|i: int|
            0 <= i < m.classes[x.1].nodes.len() && comes_to(
                m,
                #[trigger] m.classes[x.1].nodes[i],
                x.0,
            ),
    decreases m.classes.len() - c,
{
    if c < m.classes.len() {
        law_all_merges_are_seen(m, c + 1, x);
        lemma_class_merges(m, c, 0, x);
        if m.roots[c] == c {
            vstd::seq_lib::lemma_seq_concat_contains_all_elements(
                egraph::class_merges(m, c, 0),
                egraph::all_merges(m, c + 1),
                x,
            );
        }
    }
}

/// Whether a node is a merge that comes down to `s`.
pub open spec fn comes_to(m: Graph, n: GNode, s: Set<int>) -> bool {
    n.op == "merge"@ && egraph::flat_set(m, n) == s
}

proof fn lemma_class_merges(m: Graph, c: int, i: int, x: (Set<int>, int))
    requires
        0 <= i <= m.classes[c].nodes.len(),
    ensures
        egraph::class_merges(m, c, i).contains(x) <==> x.1 == c && exists|k: int|
            i <= k < m.classes[c].nodes.len() && comes_to(
                m,
                #[trigger] m.classes[c].nodes[k],
                x.0,
            ),
    decreases m.classes[c].nodes.len() - i,
{
    if i < m.classes[c].nodes.len() {
        lemma_class_merges(m, c, i + 1, x);
        let n = m.classes[c].nodes[i];
        if n.op == "merge"@ {
            let one = (egraph::flat_set(m, n), c);
            vstd::seq_lib::lemma_seq_concat_contains_all_elements(
                seq![one],
                egraph::class_merges(m, c, i + 1),
                x,
            );
            assert(seq![one][0] == one);
            assert(seq![one].contains(x) <==> x == one);
        }
    }
}

/// Whether a class and a merge can be put together.
pub open spec fn open_to(m: Graph, o: int, c: int) -> bool {
    &&& m.roots[o] != m.roots[c]
    &&& !egraph_laws::holds_guard(m.classes[m.roots[o]])
    &&& !egraph_laws::holds_guard(m.classes[m.roots[c]])
}

/// A merge of one class is put together with that class, any other with the first
/// merge in front of it that comes down to the same; never with what it is together
/// with already, nor where anything about it is conditional.
pub proof fn law_merges_have_partners(m: Graph, l: Seq<(Set<int>, int)>, i: int)
    requires
        0 <= i < l.len(),
    ensures
        match egraph::merge_partner(m, l, i) {
            Some(o) => open_to(m, o, l[i].1) && (l[i].0 == set![o] || exists|j: int|
                0 <= j < i && (#[trigger] l[j]).0 == l[i].0 && l[j].1 == o && forall|k: int|
                    0 <= k < j ==> (#[trigger] l[k]).0 != l[i].0),
            None => (forall|o: int| l[i].0 == #[trigger] set![o] ==> !open_to(m, o, l[i].1)),
        },
        forall|o: int| l[i].0 == #[trigger] set![o] && open_to(m, o, l[i].1)
            ==> egraph::merge_partner(m, l, i) == Some(o),
{
    lemma_first_alike(l, i, 0);
    if egraph::single(l[i].0) {
        let x = egraph::sole(l[i].0);
        assert(l[i].0 == set![x]);
        assert(l[i].0.contains(x));
    }
    assert forall|o: int| l[i].0 == #[trigger] set![o] implies egraph::single(l[i].0)
        && egraph::sole(l[i].0) == o by {
        assert(egraph::single(l[i].0));
        assert(l[i].0.contains(egraph::sole(l[i].0)));
    }
}

proof fn lemma_first_alike(l: Seq<(Set<int>, int)>, i: int, j: int)
    requires
        0 <= j <= i < l.len(),
    ensures
        ({
            let f = egraph::first_alike(l, i, j);
            &&& j <= f <= i
            &&& l[f].0 == l[i].0
            &&& forall|k: int| j <= k < f ==> (#[trigger] l[k]).0 != l[i].0
        }),
    decreases i - j,
{
    if j < i && l[j].0 != l[i].0 {
        lemma_first_alike(l, i, j + 1);
    }
}

/// The second rule takes the first merge that has a partner: a merge of one class
/// keeps its own class, any other that of its partner.
pub proof fn law_the_first_merge_with_a_partner_counts(
    m: Graph,
    l: Seq<(Set<int>, int)>,
    i: int,
    k: int,
)
    requires
        0 <= i <= k <= l.len(),
        forall|j: int| i <= j < k ==> #[trigger] egraph::merge_partner(m, l, j) is None,
        k < l.len() ==> egraph::merge_partner(m, l, k) is Some,
    ensures
        k == l.len() ==> egraph::merge_pair(m, l, i) is None,
        k < l.len() ==> ({
            let o = egraph::merge_partner(m, l, k)->0;
            &&& l[k].0 == set![o] ==> egraph::merge_pair(m, l, i) == Some((l[k].1, o))
            &&& !(exists|x: int| l[k].0 == #[trigger] set![x]) ==> egraph::merge_pair(m, l, i)
                == Some((o, l[k].1))
        }),
    decreases k - i,
{
    if i < k {
        assert(egraph::merge_partner(m, l, i) is None);
        law_the_first_merge_with_a_partner_counts(m, l, i + 1, k);
    }
}

// ── Results of scripts ──

/// A line gives the field whose name stands in front of its first equals sign, with
/// the value behind it, both without the space around them; where either is empty,
/// or there is no such sign, it gives none.
pub proof fn law_lines_give_fields(k: Seq<char>, v: Seq<char>, line: Seq<char>)
    requires
        forall|i: int| 0 <= i < k.len() ==> #[trigger] k[i] != '=',
        forall|i: int| 0 <= i < line.len() ==> #[trigger] line[i] != '=',
    ensures
        text::trimmed(k).len() > 0 && text::trimmed(v).len() > 0 ==> dslresult::line_field(
            k + seq!['='] + v,
        ) == Some((text::trimmed(k), text::trimmed(v))),
        text::trimmed(k).len() == 0 || text::trimmed(v).len() == 0 ==> dslresult::line_field(
            k + seq!['='] + v,
        ) is None,
        dslresult::line_field(line) is None,
{
    text_laws::law_cut_at_the_first(k, '=', v);
    text::lemma_find_char_none(line, '=', 0);
}

/// Lines outside a block give no field.
pub proof fn law_lines_outside_give_nothing(lines: Seq<Seq<char>>, i: int)
    requires
        0 <= i <= lines.len(),
        forall|j: int|
            i <= j < lines.len() ==> !"##DSL_RESULT"@.is_prefix_of(#[trigger] lines[j]),
    ensures
        dslresult::block_fields(lines, i, false).len() == 0,
    decreases lines.len() - i,
{
    if i < lines.len() {
        assert(!"##DSL_RESULT"@.is_prefix_of(lines[i]));
        law_lines_outside_give_nothing(lines, i + 1);
    }
}

/// A block goes from its mark to its end; the lines in it give their fields.
pub proof fn law_blocks_go_from_mark_to_end(lines: Seq<Seq<char>>, i: int, inside: bool)
    requires
        0 <= i < lines.len(),
    ensures
        ({
            let l = lines[i];
            let all = dslresult::block_fields(lines, i, inside);
            let starts = "##DSL_RESULT"@.is_prefix_of(l);
            let ends = "##DSL_END"@.is_prefix_of(l);
            let field = dslresult::line_field(l);
            &&& starts ==> all == dslresult::block_fields(lines, i + 1, true)
            &&& !starts && ends ==> all == dslresult::block_fields(lines, i + 1, false)
            &&& !starts && !ends && inside && field is Some ==> all.len() > 0 && all[0] == field->0
                && all.skip(1) == dslresult::block_fields(lines, i + 1, true)
            &&& !starts && !ends && (!inside || field is None) ==> all == dslresult::block_fields(
                lines,
                i + 1,
                inside,
            )
        }),
{
    let all = dslresult::block_fields(lines, i, inside);
    let rest = dslresult::block_fields(lines, i + 1, true);
    let field = dslresult::line_field(lines[i]);
    if inside && field is Some {
        assert((seq![field->0] + rest).skip(1) =~= rest);
    }
}

/// The first field of a name gives its value.
pub proof fn law_the_first_field_counts(
    kvs: Seq<(Seq<char>, Seq<char>)>,
    field: Seq<char>,
    i: int,
    k: int,
)
    requires
        0 <= i <= k <= kvs.len(),
        forall|j: int| i <= j < k ==> (#[trigger] kvs[j]).0 != field,
        k < kvs.len() ==> kvs[k].0 == field,
    ensures
        dslresult::lookup(kvs, field, i) == (if k < kvs.len() {
            Some(kvs[k].1)
        } else {
            None
        }),
    decreases k - i,
{
    if i < k {
        assert(kvs[i].0 != field);
        law_the_first_field_counts(kvs, field, i + 1, k);
    }
}

/// What is kept of the fields upstream is never more than there were; all of them
/// are where the output has each, and none where it has none.
pub proof fn law_coverage_counts_what_is_kept(upstream: Seq<Seq<char>>, out: Seq<char>)
    ensures
        ({
            let kvs = dslresult::output_fields(out);
            let c = dslresult::coverage(upstream, out);
            let n = c->0;
            let named = |x: Seq<char>|
                exists|i: int| 0 <= i < kvs.len() && (#[trigger] kvs[i]).0 == x;
            &&& c is None <==> upstream.len() == 0 || kvs.len() == 0
            &&& c is Some ==> n.0 <= n.1 && n.1 == upstream.to_set().len()
            &&& c is Some && (forall|k: int|
                0 <= k < upstream.len() ==> named(#[trigger] upstream[k])) ==> n.0 == n.1
            &&& c is Some && (forall|k: int|
                0 <= k < upstream.len() ==> !named(#[trigger] upstream[k])) ==> n.0 == 0
        }),
{
    let kvs = dslresult::output_fields(out);
    let up = upstream.to_set();
    let keys = dslresult::keys_of(kvs);
    let named = |x: Seq<char>| exists|i: int| 0 <= i < kvs.len() && (#[trigger] kvs[i]).0 == x;
    vstd::seq_lib::seq_to_set_is_finite(upstream);
    vstd::set_lib::lemma_len_subset(up.intersect(keys), up);
    if forall|k: int| 0 <= k < upstream.len() ==> named(#[trigger] upstream[k]) {
        assert(up.intersect(keys) =~= up) by {
            assert forall|x: Seq<char>| up.contains(x) implies keys.contains(x) by {
                let k = choose|k: int| 0 <= k < upstream.len() && upstream[k] == x;
                assert(named(upstream[k]));
            }
        }
    }
    if forall|k: int| 0 <= k < upstream.len() ==> !named(#[trigger] upstream[k]) {
        assert(up.intersect(keys) =~= Set::<Seq<char>>::empty()) by {
            assert forall|x: Seq<char>| up.contains(x) implies !keys.contains(x) by {
                let k = choose|k: int| 0 <= k < upstream.len() && upstream[k] == x;
                assert(!named(upstream[k]));
                assert(keys.contains(x) ==> named(x));
            }
        }
    }
}

} // verus!
