//! What is counted and what is put together when constructs are grown.

use crate::grow;
use crate::grow::Merge;
use crate::harvest::CmdCount;
use crate::text;
use vstd::prelude::*;

verus! {

// ── Junk ──

/// A construct is junk where a line of it is a bare end of an inline text, where it
/// starts as any inline program does, or where no line has twenty bytes; and
/// nowhere else.
pub proof fn law_junk_is_told_by_its_lines(s: Seq<char>)
    ensures
        ({
            let ls = text::lines_spec(s);
            let first = if ls.len() > 0 {
                text::trim_start_spec(ls[0])
            } else {
                Seq::empty()
            };
            let ends = exists|i: int|
                #![trigger ls[i]]
                0 <= i < ls.len() && (text::trimmed(ls[i]) == "PY"@ || text::trimmed(ls[i])
                    == "PYEOF"@ || text::trimmed(ls[i]) == "EOF"@ || text::trimmed(ls[i]) == "END"@
                    || text::trimmed(ls[i]) == "PYEOF'"@);
            let opens = "python3 - <<"@.is_prefix_of(first) || "python - <<"@.is_prefix_of(first)
                || "python3 -c '"@.is_prefix_of(first) || "python3 -c \""@.is_prefix_of(first)
                || first == "python3"@ || first == "python"@;
            let long = exists|i: int|
                #![trigger ls[i]]
                0 <= i < ls.len() && vstd::utf8::encode_utf8(text::trimmed(ls[i])).len() >= 20;
            grow::junk(s) <==> ends || opens || !long
        }),
{
    let ls = text::lines_spec(s);
    if exists|i: int| 0 <= i < ls.len() && grow::terminator(#[trigger] ls[i]) {
        let i = choose|i: int| 0 <= i < ls.len() && grow::terminator(#[trigger] ls[i]);
        assert(ls[i] == ls[i]);
    }
    if forall|i: int| 0 <= i < ls.len() ==> !grow::substantial(#[trigger] ls[i]) {
    } else {
        let i = choose|i: int| 0 <= i < ls.len() && grow::substantial(#[trigger] ls[i]);
        assert(ls[i] == ls[i]);
    }
}

// ── The corpus ──

/// The lines of a command are those between its line feeds with something on them,
/// in order.
pub proof fn law_lines_with_something_count(cmd: Seq<char>)
    ensures
        grow::lines_of(cmd) == text::split_char_spec(cmd, '\n').filter(
            |l: Seq<char>| !text::blank(l),
        ),
{
    let ls = text::split_char_spec(cmd, '\n');
    lemma_full(ls, ls.len() as int);
    assert(ls.take(ls.len() as int) =~= ls);
}

proof fn lemma_full(ls: Seq<Seq<char>>, n: int)
    requires
        0 <= n <= ls.len(),
    ensures
        grow::full_lines(ls, n) == ls.take(n).filter(|l: Seq<char>| !text::blank(l)),
    decreases n,
{
    let full = |l: Seq<char>| !text::blank(l);
    if n > 0 {
        lemma_full(ls, n - 1);
        assert(ls.take(n) =~= ls.take(n - 1).push(ls[n - 1]));
        ls.take(n - 1).lemma_filter_push(ls[n - 1], full);
    } else {
        reveal(Seq::filter);
        assert(ls.take(0) =~= Seq::empty());
    }
}

/// One more command adds its lines to the corpus as often as it came, and its calls
/// to their number; one without lines adds nothing to the corpus.
pub proof fn law_commands_count_as_often_as_they_came(
    cmds: Seq<Seq<char>>,
    counts: Seq<CmdCount>,
    n: int,
    k: int,
)
    requires
        0 <= n < cmds.len(),
        cmds.len() == counts.len(),
        0 <= k,
    ensures
        ({
            let before = grow::corpus_of(cmds, counts, n);
            let now = grow::corpus_of(cmds, counts, n + 1);
            &&& before.is_prefix_of(now)
            &&& grow::lines_of(cmds[n]).len() == 0 ==> now == before
            &&& grow::lines_of(cmds[n]).len() > 0 ==> now.len() == before.len() + counts[n].calls
            &&& before.len() <= k < now.len() ==> now[k] == grow::lines_of(cmds[n])
        }),
        grow::total_calls(counts, n + 1) == grow::total_calls(counts, n) + counts[n].calls,
        grow::total_calls(counts, 0) == 0,
{
    let before = grow::corpus_of(cmds, counts, n);
    let now = grow::corpus_of(cmds, counts, n + 1);
    assert(now.subrange(0, before.len() as int) =~= before);
}

// ── Counting ──

proof fn lemma_count_in(ids: Seq<usize>, id: usize, n: int)
    requires
        0 <= n <= ids.len(),
    ensures
        grow::count_in(ids, id, n) == ids.take(n).filter(|x: usize| x == id).len(),
    decreases n,
{
    let same = |x: usize| x == id;
    if n > 0 {
        lemma_count_in(ids, id, n - 1);
        assert(ids.take(n) =~= ids.take(n - 1).push(ids[n - 1]));
        ids.take(n - 1).lemma_filter_push(ids[n - 1], same);
    } else {
        reveal(Seq::filter);
        assert(ids.take(0) =~= Seq::empty());
    }
}

/// A number occurs as often as it stands in the sequences, over all of them.
pub proof fn law_numbers_are_counted(seqs: Seq<Vec<usize>>, v: Vec<usize>, id: usize)
    ensures
        grow::count_of(seqs.push(v), id, seqs.len() as int + 1) == grow::count_of(
            seqs,
            id,
            seqs.len() as int,
        ) + v@.filter(|x: usize| x == id).len(),
        grow::count_of(Seq::empty(), id, 0) == 0,
{
    lemma_count_prefix(seqs.push(v), seqs, id, seqs.len() as int);
    lemma_count_in(v@, id, v@.len() as int);
    assert(v@.take(v@.len() as int) =~= v@);
}

proof fn lemma_count_prefix(a: Seq<Vec<usize>>, b: Seq<Vec<usize>>, id: usize, n: int)
    requires
        0 <= n <= a.len(),
        n <= b.len(),
        forall|i: int| 0 <= i < n ==> #[trigger] a[i] == b[i],
    ensures
        grow::count_of(a, id, n) == grow::count_of(b, id, n),
    decreases n,
{
    if n > 0 {
        assert(a[n - 1] == b[n - 1]);
        lemma_count_prefix(a, b, id, n - 1);
    }
}

/// The pairs of a sequence without marks are all its neighbours, in order; a mark
/// stands in no pair.
pub proof fn law_pairs_are_neighbours(ids: Seq<usize>, mark: usize, n: int)
    requires
        0 <= n <= ids.len(),
    ensures
        (forall|i: int| 0 <= i < n ==> #[trigger] ids[i] != mark) ==> grow::pairs_in(ids, mark, n)
            == (if n <= 1 {
            Seq::empty()
        } else {
            Seq::new((n - 1) as nat, |k: int| (ids[k], ids[k + 1]))
        }),
        forall|k: int|
            0 <= k < grow::pairs_in(ids, mark, n).len() ==> (#[trigger] grow::pairs_in(
                ids,
                mark,
                n,
            )[k]).0 != mark && grow::pairs_in(ids, mark, n)[k].1 != mark,
        n >= 2 && ids[n - 2] != mark && ids[n - 1] != mark ==> grow::pairs_in(ids, mark, n)
            == grow::pairs_in(ids, mark, n - 1).push((ids[n - 2], ids[n - 1])),
        n >= 1 && ids[n - 1] == mark ==> grow::pairs_in(ids, mark, n) == grow::pairs_in(
            ids,
            mark,
            n - 1,
        ),
    decreases n,
{
    if n >= 1 {
        law_pairs_are_neighbours(ids, mark, n - 1);
        let before = grow::pairs_in(ids, mark, n - 1);
        let now = grow::pairs_in(ids, mark, n);
        if n >= 2 {
            assert forall|k: int| 0 <= k < now.len() implies (#[trigger] now[k]).0 != mark
                && now[k].1 != mark by {
                if k < before.len() {
                    assert(now[k] == before[k]);
                }
            }
            if forall|i: int| 0 <= i < n ==> #[trigger] ids[i] != mark {
                assert(ids[n - 2] != mark && ids[n - 1] != mark);
                assert(now =~= Seq::new((n - 1) as nat, |k: int| (ids[k], ids[k + 1])));
            }
        }
    }
}

/// A pair is counted as often as it occurs.
pub proof fn law_pairs_are_counted(pairs: Seq<(usize, usize)>, p: (usize, usize))
    ensures
        grow::pair_count(pairs, p, pairs.len() as int) == pairs.filter(
            |q: (usize, usize)| q == p,
        ).len(),
{
    lemma_pair_count(pairs, p, pairs.len() as int);
    assert(pairs.take(pairs.len() as int) =~= pairs);
}

proof fn lemma_pair_count(pairs: Seq<(usize, usize)>, p: (usize, usize), n: int)
    requires
        0 <= n <= pairs.len(),
    ensures
        grow::pair_count(pairs, p, n) == pairs.take(n).filter(|q: (usize, usize)| q == p).len(),
    decreases n,
{
    let same = |q: (usize, usize)| q == p;
    if n > 0 {
        lemma_pair_count(pairs, p, n - 1);
        assert(pairs.take(n) =~= pairs.take(n - 1).push(pairs[n - 1]));
        pairs.take(n - 1).lemma_filter_push(pairs[n - 1], same);
    } else {
        reveal(Seq::filter);
        assert(pairs.take(0) =~= Seq::empty());
    }
}

// ── Merging ──

proof fn lemma_replacement(rules: Seq<Merge>, p: (usize, usize), n: int)
    requires
        0 <= n <= rules.len(),
    ensures
        match grow::replacement(rules, p, n) {
            Some(id) => exists|k: int|
                0 <= k < n && (#[trigger] rules[k]).pair == p && rules[k].id == id && forall|j: int|
                    k < j < n ==> (#[trigger] rules[j]).pair != p,
            None => forall|k: int| 0 <= k < n ==> (#[trigger] rules[k]).pair != p,
        },
    decreases n,
{
    if n > 0 {
        if rules[n - 1].pair == p {
            assert(rules[n - 1].pair == p);
        } else {
            lemma_replacement(rules, p, n - 1);
        }
    }
}

proof fn lemma_merged_shift(ids: Seq<usize>, rules: Seq<Merge>, mark: usize, i: int, d: int)
    requires
        0 <= d <= i,
        d <= ids.len(),
    ensures
        grow::merged(ids, rules, mark, i) == grow::merged(ids.skip(d), rules, mark, i - d),
    decreases ids.len() - i,
{
    if i < ids.len() {
        let t = ids.skip(d);
        assert(t[i - d] == ids[i]);
        if i + 1 < ids.len() {
            assert(t[i - d + 1] == ids[i + 1]);
            lemma_merged_shift(ids, rules, mark, i + 2, d);
        }
        lemma_merged_shift(ids, rules, mark, i + 1, d);
    }
}

/// A pair that a rule speaks of is replaced by its number, by the last such rule,
/// and merging goes on behind it; any other number stays, and merging goes on with
/// the next.
pub proof fn law_pairs_are_replaced_from_the_left(
    a: usize,
    b: usize,
    rest: Seq<usize>,
    rules: Seq<Merge>,
    mark: usize,
    k: int,
)
    requires
        a != mark,
        b != mark,
    ensures
        0 <= k < rules.len() && rules[k].pair == (a, b) && (forall|j: int|
            k < j < rules.len() ==> (#[trigger] rules[j]).pair != (a, b)) ==> grow::merged(
            seq![a, b] + rest,
            rules,
            mark,
            0,
        ) == seq![rules[k].id] + grow::merged(rest, rules, mark, 0),
        (forall|j: int| 0 <= j < rules.len() ==> (#[trigger] rules[j]).pair != (a, b))
            ==> grow::merged(seq![a, b] + rest, rules, mark, 0) == seq![a] + grow::merged(
            seq![b] + rest,
            rules,
            mark,
            0,
        ),
        grow::merged(seq![mark] + rest, rules, mark, 0) == seq![mark] + grow::merged(
            rest,
            rules,
            mark,
            0,
        ),
        grow::merged(Seq::empty(), rules, mark, 0) == Seq::<usize>::empty(),
{
    let ids = seq![a, b] + rest;
    assert(ids[0] == a && ids[1] == b);
    lemma_replacement(rules, (a, b), rules.len() as int);
    lemma_merged_shift(ids, rules, mark, 2, 2);
    assert(ids.skip(2) =~= rest);
    lemma_merged_shift(ids, rules, mark, 1, 1);
    assert(ids.skip(1) =~= seq![b] + rest);
    let m = seq![mark] + rest;
    assert(m[0] == mark);
    lemma_merged_shift(m, rules, mark, 1, 1);
    assert(m.skip(1) =~= rest);
    match grow::replacement(rules, (a, b), rules.len() as int) {
        Some(id) => {
            let l = choose|l: int|
                0 <= l < rules.len() && (#[trigger] rules[l]).pair == (a, b) && rules[l].id == id
                    && forall|j: int| l < j < rules.len() ==> (#[trigger] rules[j]).pair != (a, b);
            if 0 <= k < rules.len() && rules[k].pair == (a, b) && (forall|j: int|
                k < j < rules.len() ==> (#[trigger] rules[j]).pair != (a, b)) {
                if l < k {
                    assert(rules[k].pair != (a, b));
                }
                if k < l {
                    assert(rules[l].pair != (a, b));
                }
            }
        },
        None => {},
    }
}

} // verus!
