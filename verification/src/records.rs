//! What is read from and written to the store: rows, the figures drawn from
//! them, and the patches that override a pipeline.

use crate::ast;
use crate::ast::{Impl, Proc, RecentRuns};
use crate::order;
use crate::order::{TextMap, TextSet};
use crate::text;
use vstd::prelude::*;

verus! {

// ── Tags in a column ──

/// The pieces between commas that are not empty, of the first `n`.
pub open spec fn full_pieces(ps: Seq<Seq<char>>, n: int) -> Set<Seq<char>>
    decreases n,
{
    if n <= 0 {
        Set::empty()
    } else if ps[n - 1].len() == 0 {
        full_pieces(ps, n - 1)
    } else {
        full_pieces(ps, n - 1).insert(ps[n - 1])
    }
}

/// The tags of a column.
pub open spec fn column_tags(s: Seq<char>) -> Set<Seq<char>> {
    let ps = text::split_char_spec(s, ',');
    full_pieces(ps, ps.len() as int)
}

/// The tags of a column.
pub fn tags_of_column(s: &str) -> (r: TextSet)
    ensures
        r.wf(),
        r@ == column_tags(s@),
{
    let ps = text::split_char(s, ',');
    let ghost pv = text::views(ps@);
    let mut out = TextSet::new();
    let mut i: usize = 0;
    while i < ps.len()
        invariant
            i <= ps@.len(),
            pv == text::views(ps@),
            out.wf(),
            out@ == full_pieces(pv, i as int),
        decreases ps@.len() - i,
    {
        if !ps[i].as_str().is_empty() {
            out.insert(ps[i].clone());
        }
        i += 1;
    }
    out
}

/// Tags as a column.
pub fn column_of_tags(tags: &TextSet) -> (r: String)
    requires
        tags.wf(),
    ensures
        r@ == text::join_spec(order::in_order(tags@), ","@),
{
    proof {
        order::lemma_in_order(tags.seq());
    }
    let v = tags.to_vec();
    text::join(v.as_slice(), ",")
}

/// A piece without commas is the first one in front of a comma.
proof fn lemma_split_comma(p: Seq<char>, rest: Seq<char>)
    requires
        text::find_char_spec(p, ',') is None,
    ensures
        text::split_char_spec(p + ","@ + rest, ',') == seq![p] + text::split_char_spec(rest, ','),
        text::split_char_spec(p, ',') == seq![p],
{
    reveal_strlit(",");
    let s = p + ","@ + rest;
    let n = p.len() as int;
    text::lemma_find_char_from(p, ',', 0);
    assert(s[n] == ',');
    assert forall|j: int| 0 <= j < n implies s[j] != ',' by {
        assert(s[j] == p[j]);
    }
    text::lemma_find_char_is(s, ',', 0, n);
    assert(s.take(n) =~= p);
    assert(s.skip(n + 1) =~= rest);
}

/// Joined pieces without commas are split again.
proof fn lemma_split_joined(ps: Seq<Seq<char>>)
    requires
        ps.len() > 0,
        forall|i: int| 0 <= i < ps.len() ==> text::find_char_spec(#[trigger] ps[i], ',') is None,
    ensures
        text::split_char_spec(text::join_spec(ps, ","@), ',') == ps,
    decreases ps.len(),
{
    if ps.len() == 1 {
        lemma_split_comma(ps[0], Seq::empty());
        assert(seq![ps[0]] =~= ps);
    } else {
        crate::dslresult::lemma_join_first(ps, ","@);
        let more = ps.skip(1);
        assert forall|i: int| 0 <= i < more.len() implies text::find_char_spec(
            #[trigger] more[i],
            ',',
        ) is None by {
            assert(more[i] == ps[i + 1]);
        }
        lemma_split_joined(more);
        lemma_split_comma(ps[0], text::join_spec(more, ","@));
        assert(seq![ps[0]] + more =~= ps);
    }
}

/// The full pieces are the pieces that are not empty.
proof fn lemma_full_pieces(ps: Seq<Seq<char>>, n: int)
    requires
        0 <= n <= ps.len(),
        forall|i: int| 0 <= i < ps.len() ==> (#[trigger] ps[i]).len() > 0,
    ensures
        full_pieces(ps, n) == ps.take(n).to_set(),
    decreases n,
{
    if n > 0 {
        lemma_full_pieces(ps, n - 1);
        let a = ps.take(n - 1);
        let b = ps.take(n);
        assert(b =~= a.push(ps[n - 1]));
        assert forall|x: Seq<char>| b.to_set().contains(x) <==> a.to_set().insert(
            ps[n - 1],
        ).contains(x) by {
            if a.contains(x) {
                let j = choose|j: int| 0 <= j < a.len() && a[j] == x;
                assert(b[j] == x);
            }
            assert(b[n - 1] == ps[n - 1]);
        }
        assert(b.to_set() =~= a.to_set().insert(ps[n - 1]));
    } else {
        assert(ps.take(0).to_set() =~= Set::<Seq<char>>::empty());
    }
}

/// Tags are read back from the column that they were written to; a tag is not
/// empty and holds no comma.
pub proof fn law_tags_read_back(tags: Set<Seq<char>>)
    requires
        tags.finite(),
        forall|t: Seq<char>| #[trigger]
            tags.contains(t) ==> t.len() > 0 && text::find_char_spec(t, ',') is None,
    ensures
        column_tags(text::join_spec(order::in_order(tags), ","@)) == tags,
{
    order::lemma_in_order_exists(tags);
    let ps = order::in_order(tags);
    assert forall|i: int| 0 <= i < ps.len() implies (#[trigger] ps[i]).len() > 0
        && text::find_char_spec(ps[i], ',') is None by {
        assert(ps.to_set().contains(ps[i])) by {
            assert(ps.contains(ps[i]));
        }
        assert(tags.contains(ps[i]));
    }
    if ps.len() == 0 {
        assert(ps.to_set() =~= Set::<Seq<char>>::empty());
        let e = Seq::<char>::empty();
        assert(text::find_char_spec(e, ',') is None);
        assert(text::split_char_spec(e, ',') == seq![e]);
        reveal_with_fuel(full_pieces, 2);
        assert(seq![e][0].len() == 0);
    } else {
        lemma_split_joined(ps);
        lemma_full_pieces(ps, ps.len() as int);
        assert(ps.take(ps.len() as int) =~= ps);
    }
}

// ── Searching ──

/// The pattern that finds `q` anywhere.
pub fn like_pattern(q: &str) -> (r: String)
    ensures
        r@ == "%"@ + q@ + "%"@,
{
    let mut s = "%".to_owned();
    s.append(q);
    s.append("%");
    s
}

/// A word as a quoted term, without quotes of its own.
pub open spec fn quoted_term(w: Seq<char>) -> Seq<char> {
    "\""@ + text::replace_spec(w, "\""@, ""@) + "\""@
}

/// The words of a question as quoted terms.
pub open spec fn search_terms(q: Seq<char>) -> Seq<Seq<char>> {
    text::words_spec(q).map_values(|w: Seq<char>| quoted_term(w))
}

/// A question for a full-text search, with each word as a quoted term, so that
/// none is read as an operator; nothing for a question without words.
pub fn fts_query(q: &str) -> (r: Option<String>)
    ensures
        text::opt_view(r) == (if search_terms(q@).len() == 0 {
            None
        } else {
            Some(text::join_spec(search_terms(q@), " "@))
        }),
{
    let words = text::split_whitespace(q);
    if words.len() == 0 {
        return None;
    }
    proof {
        reveal_strlit("\"");
    }
    let ghost all = search_terms(q@);
    let mut out: Vec<String> = Vec::new();
    let mut i: usize = 0;
    assert(text::views(out@) =~= all.take(0));
    while i < words.len()
        invariant
            i <= words@.len(),
            "\""@.len() > 0,
            text::views(words@) == text::words_spec(q@),
            all == search_terms(q@),
            text::views(out@) == all.take(i as int),
        decreases words@.len() - i,
    {
        let mut t = "\"".to_owned();
        t.append(text::replace(words[i].as_str(), "\"", "").as_str());
        t.append("\"");
        assert(text::words_spec(q@)[i as int] == words@[i as int]@);
        assert(t@ == all[i as int]);
        let ghost before = out@;
        out.push(t);
        assert(text::views(out@) =~= text::views(before).push(all[i as int]));
        assert(all.take(i + 1) =~= all.take(i as int).push(all[i as int]));
        i += 1;
    }
    assert(all.take(i as int) =~= all);
    Some(text::join(out.as_slice(), " "))
}

// ── Procs in the store ──

/// A proc in the store.
#[derive(Debug)]
pub struct ProcRow {
    pub id: i64,
    pub name: String,
    pub pipeline: String,
    pub description: String,
    pub tags: TextSet,
    pub impl_count: i64,
    pub is_deliver: bool,
}

/// Whether the tags of all rows are in order.
pub open spec fn rows_wf(rows: Seq<ProcRow>) -> bool {
    forall|i: int| 0 <= i < rows.len() ==> (#[trigger] rows[i]).tags.wf()
}

/// Whether the list `a` comes before `b`: by the first text in which they
/// differ, and a start of a list before the list.
pub open spec fn list_lt(a: Seq<Seq<char>>, b: Seq<Seq<char>>) -> bool
    decreases a.len(),
{
    if b.len() == 0 {
        false
    } else if a.len() == 0 {
        true
    } else if a[0] != b[0] {
        order::text_lt(a[0], b[0])
    } else {
        list_lt(a.skip(1), b.skip(1))
    }
}

/// The first key from the `k`-th on that does not come before `x`.
pub open spec fn key_slot(keys: Seq<Seq<Seq<char>>>, x: Seq<Seq<char>>, k: int) -> int
    decreases keys.len() - k,
{
    if k >= keys.len() {
        keys.len() as int
    } else if !list_lt(keys[k], x) {
        k
    } else {
        key_slot(keys, x, k + 1)
    }
}

/// The keys with `x` at its place, where it is not among them.
pub open spec fn with_key(keys: Seq<Seq<Seq<char>>>, x: Seq<Seq<char>>) -> Seq<Seq<Seq<char>>> {
    let k = key_slot(keys, x, 0);
    if k < keys.len() && keys[k] == x {
        keys
    } else {
        keys.insert(k, x)
    }
}

/// The tag lists of the first `n` procs, each once and in order; procs without
/// tags do not count.
pub open spec fn tag_keys(rows: Seq<ProcRow>, n: int) -> Seq<Seq<Seq<char>>>
    decreases n,
{
    if n <= 0 {
        Seq::empty()
    } else if rows[n - 1].tags.seq().len() == 0 {
        tag_keys(rows, n - 1)
    } else {
        with_key(tag_keys(rows, n - 1), rows[n - 1].tags.seq())
    }
}

/// The first `n` procs with these tags, by their places.
pub open spec fn with_tags(rows: Seq<ProcRow>, key: Seq<Seq<char>>, n: int) -> Seq<usize>
    decreases n,
{
    if n <= 0 {
        Seq::empty()
    } else if rows[n - 1].tags.seq() == key {
        with_tags(rows, key, n - 1).push((n - 1) as usize)
    } else {
        with_tags(rows, key, n - 1)
    }
}

/// Whether the procs at these places come from different pipelines.
pub open spec fn across(rows: Seq<ProcRow>, ms: Seq<usize>) -> bool {
    exists|a: int, b: int|
        0 <= a < b < ms.len() && rows[(#[trigger] ms[a]) as int].pipeline@ != rows[(
        #[trigger] ms[b]) as int].pipeline@
}

/// The groups for the first `n` keys.
pub open spec fn groups_upto(rows: Seq<ProcRow>, keys: Seq<Seq<Seq<char>>>, n: int) -> Seq<
    Seq<usize>,
>
    decreases n,
{
    if n <= 0 {
        Seq::empty()
    } else {
        let ms = with_tags(rows, keys[n - 1], rows.len() as int);
        if across(rows, ms) {
            groups_upto(rows, keys, n - 1).push(ms)
        } else {
            groups_upto(rows, keys, n - 1)
        }
    }
}

/// Whether the list `a` comes before `b`.
fn list_less(a: &Vec<String>, b: &Vec<String>) -> (r: bool)
    ensures
        r == list_lt(text::views(a@), text::views(b@)),
{
    let ghost av = text::views(a@);
    let ghost bv = text::views(b@);
    let mut i: usize = 0;
    assert(av.skip(0) =~= av);
    assert(bv.skip(0) =~= bv);
    while i < a.len() && i < b.len()
        invariant
            i <= a@.len(),
            i <= b@.len(),
            av == text::views(a@),
            bv == text::views(b@),
            list_lt(av, bv) == list_lt(av.skip(i as int), bv.skip(i as int)),
        decreases a@.len() - i,
    {
        assert(av.skip(i as int)[0] == a@[i as int]@);
        assert(bv.skip(i as int)[0] == b@[i as int]@);
        if !text::same(a[i].as_str(), b[i].as_str()) {
            return order::text_less(a[i].as_str(), b[i].as_str());
        }
        assert(av.skip(i as int).skip(1) =~= av.skip(i + 1));
        assert(bv.skip(i as int).skip(1) =~= bv.skip(i + 1));
        i += 1;
    }
    i < b.len()
}

/// Whether the lists are the same.
fn same_list(a: &Vec<String>, b: &Vec<String>) -> (r: bool)
    ensures
        r == (text::views(a@) == text::views(b@)),
{
    let ghost av = text::views(a@);
    let ghost bv = text::views(b@);
    if a.len() != b.len() {
        assert(av.len() != bv.len());
        return false;
    }
    let mut i: usize = 0;
    while i < a.len()
        invariant
            i <= a@.len(),
            a@.len() == b@.len(),
            av == text::views(a@),
            bv == text::views(b@),
            forall|k: int| 0 <= k < i ==> av[k] == bv[k],
        decreases a@.len() - i,
    {
        assert(av[i as int] == a@[i as int]@);
        assert(bv[i as int] == b@[i as int]@);
        if !text::same(a[i].as_str(), b[i].as_str()) {
            return false;
        }
        i += 1;
    }
    assert(av =~= bv);
    true
}

/// The keys as values.
pub open spec fn list_views(v: Seq<Vec<String>>) -> Seq<Seq<Seq<char>>> {
    v.map_values(|c: Vec<String>| text::views(c@))
}

/// Puts a key at its place, where it is not among them.
fn add_key(keys: &mut Vec<Vec<String>>, x: Vec<String>)
    ensures
        list_views(final(keys)@) == with_key(list_views(old(keys)@), text::views(x@)),
{
    let ghost kv = list_views(keys@);
    let ghost xv = text::views(x@);
    let mut k: usize = 0;
    while k < keys.len() && list_less(&keys[k], &x)
        invariant
            k <= keys@.len(),
            kv == list_views(keys@),
            xv == text::views(x@),
            key_slot(kv, xv, 0) == key_slot(kv, xv, k as int),
        decreases keys@.len() - k,
    {
        assert(kv[k as int] == text::views(keys@[k as int]@));
        k += 1;
    }
    proof {
        if k < keys@.len() {
            assert(kv[k as int] == text::views(keys@[k as int]@));
        }
    }
    if k < keys.len() && same_list(&keys[k], &x) {
    } else {
        let ghost before = keys@;
        keys.insert(k, x);
        assert(list_views(keys@) =~= list_views(before).insert(k as int, xv));
    }
}

/// A group of places, as values.
pub open spec fn group_views(v: Seq<Vec<usize>>) -> Seq<Seq<usize>> {
    v.map_values(|g: Vec<usize>| g@)
}

/// The places of the procs with these tags.
fn places_with(rows: &Vec<ProcRow>, key: &Vec<String>) -> (r: Vec<usize>)
    ensures
        r@ == with_tags(rows@, text::views(key@), rows@.len() as int),
        forall|k: int| 0 <= k < r@.len() ==> #[trigger] r@[k] < rows@.len(),
{
    let mut out: Vec<usize> = Vec::new();
    let mut i: usize = 0;
    while i < rows.len()
        invariant
            i <= rows@.len(),
            out@ == with_tags(rows@, text::views(key@), i as int),
            forall|k: int| 0 <= k < out@.len() ==> #[trigger] out@[k] < rows@.len(),
        decreases rows@.len() - i,
    {
        let tags = rows[i].tags.to_vec();
        if same_list(&tags, key) {
            out.push(i);
        }
        i += 1;
    }
    out
}

/// Whether the procs at these places come from different pipelines.
fn is_across(rows: &Vec<ProcRow>, ms: &Vec<usize>) -> (r: bool)
    requires
        forall|k: int| 0 <= k < ms@.len() ==> #[trigger] ms@[k] < rows@.len(),
    ensures
        r == across(rows@, ms@),
{
    if ms.len() == 0 {
        return false;
    }
    let mut i: usize = 1;
    while i < ms.len()
        invariant
            1 <= i <= ms@.len(),
            forall|k: int| 0 <= k < ms@.len() ==> #[trigger] ms@[k] < rows@.len(),
            forall|k: int|
                0 <= k < i ==> rows@[(#[trigger] ms@[k]) as int].pipeline@
                    == rows@[ms@[0] as int].pipeline@,
        decreases ms@.len() - i,
    {
        if !text::same(rows[ms[i]].pipeline.as_str(), rows[ms[0]].pipeline.as_str()) {
            assert(rows@[ms@[0] as int].pipeline@ != rows@[ms@[i as int] as int].pipeline@);
            return true;
        }
        i += 1;
    }
    false
}

/// The groups of procs with the same tags in more than one pipeline, by their
/// places.
pub fn isomorphic_groups(rows: &Vec<ProcRow>) -> (r: Vec<Vec<usize>>)
    ensures
        ({
            let keys = tag_keys(rows@, rows@.len() as int);
            group_views(r@) == groups_upto(rows@, keys, keys.len() as int)
        }),
{
    let mut keys: Vec<Vec<String>> = Vec::new();
    let mut i: usize = 0;
    assert(list_views(keys@) =~= Seq::<Seq<Seq<char>>>::empty());
    while i < rows.len()
        invariant
            i <= rows@.len(),
            list_views(keys@) == tag_keys(rows@, i as int),
        decreases rows@.len() - i,
    {
        if !rows[i].tags.is_empty() {
            add_key(&mut keys, rows[i].tags.to_vec());
        }
        i += 1;
    }
    let ghost kv = list_views(keys@);
    let mut out: Vec<Vec<usize>> = Vec::new();
    let mut j: usize = 0;
    assert(group_views(out@) =~= Seq::<Seq<usize>>::empty());
    while j < keys.len()
        invariant
            j <= keys@.len(),
            kv == list_views(keys@),
            group_views(out@) == groups_upto(rows@, kv, j as int),
        decreases keys@.len() - j,
    {
        assert(kv[j as int] == text::views(keys@[j as int]@));
        let ms = places_with(rows, &keys[j]);
        if is_across(rows, &ms) {
            let ghost mv = ms@;
            let ghost before = out@;
            out.push(ms);
            assert(group_views(out@) =~= group_views(before).push(mv));
        }
        j += 1;
    }
    out
}

// ── Runs ──

/// A run in the store.
#[derive(Debug)]
pub struct RunRow {
    pub impl_name: String,
    pub status: String,
    pub rate_tokens: i64,
}

/// The runs of an implementation among the first `n`.
pub open spec fn runs_of(rows: Seq<RunRow>, name: Seq<char>, n: int) -> Seq<RunRow>
    decreases n,
{
    if n <= 0 {
        Seq::empty()
    } else if rows[n - 1].impl_name@ == name {
        runs_of(rows, name, n - 1).push(rows[n - 1])
    } else {
        runs_of(rows, name, n - 1)
    }
}

/// The last runs that are looked at.
pub open spec fn window_of(rs: Seq<RunRow>) -> Seq<RunRow> {
    if rs.len() > ast::WINDOW_SIZE {
        rs.skip(rs.len() - ast::WINDOW_SIZE)
    } else {
        rs
    }
}

/// How many of the first `n` runs have failed.
pub open spec fn fail_count(rs: Seq<RunRow>, n: int) -> nat
    decreases n,
{
    if n <= 0 {
        0
    } else if rs[n - 1].status@ != "Ok"@ {
        fail_count(rs, n - 1) + 1
    } else {
        fail_count(rs, n - 1)
    }
}

/// How many runs before the `n`-th have failed in a row.
pub open spec fn fails_before(rs: Seq<RunRow>, n: int) -> nat
    decreases n,
{
    if n <= 0 || rs[n - 1].status@ == "Ok"@ {
        0
    } else {
        fails_before(rs, n - 1) + 1
    }
}

/// The tokens of the first `n` runs.
pub open spec fn token_sum(rs: Seq<RunRow>, n: int) -> int
    decreases n,
{
    if n <= 0 {
        0
    } else {
        token_sum(rs, n - 1) + rs[n - 1].rate_tokens
    }
}

/// Whether the tokens of runs can be added up.
pub open spec fn sums_fit(rs: Seq<RunRow>) -> bool {
    forall|n: int|
        0 <= n <= rs.len() ==> i64::MIN <= #[trigger] token_sum(rs, n) <= i64::MAX
}

/// The figures of the last runs of an implementation.
pub open spec fn figures(rows: Seq<RunRow>, name: Seq<char>) -> RecentRuns {
    let w = window_of(runs_of(rows, name, rows.len() as int));
    RecentRuns {
        window: w.len() as usize,
        fails: fail_count(w, w.len() as int) as usize,
        consec_fail: fails_before(w, w.len() as int) as usize,
        n: w.len() as usize,
        sum_tokens: token_sum(w, w.len() as int) as i64,
    }
}

/// The names of the implementations of the first `n` runs.
pub open spec fn run_names(rows: Seq<RunRow>, n: int) -> Set<Seq<char>>
    decreases n,
{
    if n <= 0 {
        Set::empty()
    } else {
        run_names(rows, n - 1).insert(rows[n - 1].impl_name@)
    }
}

/// The places of the runs of an implementation.
fn places_of(rows: &Vec<RunRow>, name: &str) -> (r: Vec<usize>)
    ensures
        forall|k: int| 0 <= k < r@.len() ==> #[trigger] r@[k] < rows@.len(),
        r@.map_values(|p: usize| rows@[p as int]) == runs_of(rows@, name@, rows@.len() as int),
{
    let mut out: Vec<usize> = Vec::new();
    let mut i: usize = 0;
    assert(out@.map_values(|p: usize| rows@[p as int]) =~= Seq::<RunRow>::empty());
    while i < rows.len()
        invariant
            i <= rows@.len(),
            forall|k: int| 0 <= k < out@.len() ==> #[trigger] out@[k] < rows@.len(),
            out@.map_values(|p: usize| rows@[p as int]) == runs_of(rows@, name@, i as int),
        decreases rows@.len() - i,
    {
        if text::same(rows[i].impl_name.as_str(), name) {
            let ghost before = out@;
            out.push(i);
            assert(out@.map_values(|p: usize| rows@[p as int]) =~= before.map_values(
                |p: usize| rows@[p as int],
            ).push(rows@[i as int]));
        }
        i += 1;
    }
    out
}

/// The figures of the last runs of an implementation.
pub fn recent_figures(rows: &Vec<RunRow>, name: &str) -> (r: RecentRuns)
    requires
        sums_fit(window_of(runs_of(rows@, name@, rows@.len() as int))),
    ensures
        r == figures(rows@, name@),
{
    let ps = places_of(rows, name);
    let ghost rs = runs_of(rows@, name@, rows@.len() as int);
    let ghost w = window_of(rs);
    let ghost pv = ps@.map_values(|p: usize| rows@[p as int]);
    assert(pv.len() == ps@.len());
    let from: usize = if ps.len() > ast::WINDOW_SIZE {
        ps.len() - ast::WINDOW_SIZE
    } else {
        0
    };
    let total: usize = ps.len();
    let n: usize = total - from;
    assert(w.len() == n);
    assert forall|k: int| 0 <= k < n implies w[k] == rows@[(#[trigger] ps@[from + k]) as int] by {
        assert(pv[from + k] == rows@[ps@[from + k] as int]);
    }
    let mut fails: usize = 0;
    let mut sum: i64 = 0;
    let mut i: usize = 0;
    while i < n
        invariant
            i <= n,
            n == w.len(),
            from + n == total,
            total == ps@.len(),
            fails <= i,
            forall|k: int| 0 <= k < ps@.len() ==> #[trigger] ps@[k] < rows@.len(),
            forall|k: int| 0 <= k < n ==> w[k] == rows@[(#[trigger] ps@[from + k]) as int],
            sums_fit(w),
            fails == fail_count(w, i as int),
            sum == token_sum(w, i as int),
        decreases n - i,
    {
        let row: &RunRow = &rows[ps[from + i]];
        assert(w[i as int] == *row);
        if !text::same(row.status.as_str(), "Ok") {
            fails += 1;
        }
        assert(i64::MIN <= token_sum(w, i + 1) <= i64::MAX);
        sum = sum + row.rate_tokens;
        i += 1;
    }
    let mut consec: usize = 0;
    let mut j: usize = n;
    let mut more = true;
    while more && j > 0
        invariant
            j <= n,
            n == w.len(),
            from + n == total,
            total == ps@.len(),
            consec == n - j,
            forall|k: int| 0 <= k < ps@.len() ==> #[trigger] ps@[k] < rows@.len(),
            forall|k: int| 0 <= k < n ==> w[k] == rows@[(#[trigger] ps@[from + k]) as int],
            more ==> fails_before(w, n as int) == consec + fails_before(w, j as int),
            !more ==> fails_before(w, n as int) == consec,
        decreases j + (if more {
            1int
        } else {
            0int
        }),
    {
        let at: usize = from + (j - 1);
        let row: &RunRow = &rows[ps[at]];
        assert(w[j - 1] == rows@[ps@[from + (j - 1)] as int]);
        if text::same(row.status.as_str(), "Ok") {
            more = false;
        } else {
            consec += 1;
            j -= 1;
        }
    }
    RecentRuns { window: n, fails, consec_fail: consec, n, sum_tokens: sum }
}

/// The figures of the last runs of each implementation.
pub fn load_recent_runs(rows: &Vec<RunRow>) -> (r: TextMap<RecentRuns>)
    requires
        forall|name: Seq<char>| sums_fit(
            window_of(#[trigger] runs_of(rows@, name, rows@.len() as int)),
        ),
    ensures
        r.wf(),
        r@.dom() == run_names(rows@, rows@.len() as int),
        forall|name: Seq<char>|
            r@.dom().contains(name) ==> #[trigger] r@[name] == figures(rows@, name),
{
    let mut out: TextMap<RecentRuns> = TextMap::new();
    let mut i: usize = 0;
    assert(out@.dom() =~= run_names(rows@, 0));
    while i < rows.len()
        invariant
            i <= rows@.len(),
            forall|name: Seq<char>| sums_fit(
                window_of(#[trigger] runs_of(rows@, name, rows@.len() as int)),
            ),
            out.wf(),
            out@.dom() == run_names(rows@, i as int),
            forall|name: Seq<char>|
                out@.dom().contains(name) ==> #[trigger] out@[name] == figures(rows@, name),
        decreases rows@.len() - i,
    {
        let name = rows[i].impl_name.clone();
        let ghost nv = name@;
        let f = recent_figures(rows, name.as_str());
        out.insert(name, f);
        assert(out@.dom() =~= run_names(rows@, i + 1));
        i += 1;
    }
    out
}

// ── Patches ──

/// An override of one field of one implementation.
#[derive(Debug)]
pub struct PatchRow {
    pub pipeline: String,
    pub proc_name: String,
    pub impl_name: String,
    pub field: String,
    pub value: String,
    pub origin: String,
    pub status: String,
}

/// Whether a text stands for yes.
pub open spec fn says_yes(s: Seq<char>) -> bool {
    s == "true"@ || s == "1"@
}

/// Whether a patch is in force for an implementation: only a confirmed one is.
pub open spec fn applies(p: PatchRow, proc: Seq<char>, imp: Seq<char>) -> bool {
    p.status@ == "confirmed"@ && p.proc_name@ == proc && p.impl_name@ == imp
}

/// An implementation with a patch applied. Patches of costs are numbers and
/// change nothing here.
pub open spec fn with_patch(i: Impl, proc: Seq<char>, p: PatchRow) -> Impl {
    if !applies(p, proc, i.name@) {
        i
    } else if p.field@ == "enabled"@ {
        Impl { enabled: says_yes(p.value@), ..i }
    } else if p.field@ == "retry"@ {
        Impl {
            retry: match text::unsigned_spec(p.value@, usize::MAX as nat) {
                Some(n) => n as usize,
                None => i.retry,
            },
            ..i
        }
    } else if p.field@ == "stub"@ {
        Impl { stub: says_yes(p.value@), ..i }
    } else {
        i
    }
}

/// An implementation with the first `n` patches applied.
pub open spec fn with_patches(i: Impl, proc: Seq<char>, ps: Seq<PatchRow>, n: int) -> Impl
    decreases n,
{
    if n <= 0 {
        i
    } else {
        with_patch(with_patches(i, proc, ps, n - 1), proc, ps[n - 1])
    }
}

/// The flags of an implementation with the patches applied: whether it is
/// enabled, how often it is tried again, whether it is a stub.
fn patched_flags(i: &Impl, proc: &str, ps: &Vec<PatchRow>) -> (r: (bool, usize, bool))
    ensures
        with_patches(*i, proc@, ps@, ps@.len() as int) == (Impl {
            enabled: r.0,
            retry: r.1,
            stub: r.2,
            ..*i
        }),
{
    let mut enabled = i.enabled;
    let mut retry: usize = i.retry;
    let mut stub = i.stub;
    let mut k: usize = 0;
    while k < ps.len()
        invariant
            k <= ps@.len(),
            with_patches(*i, proc@, ps@, k as int) == (Impl { enabled, retry, stub, ..*i }),
        decreases ps@.len() - k,
    {
        let p: &PatchRow = &ps[k];
        if text::same(p.status.as_str(), "confirmed") && text::same(p.proc_name.as_str(), proc)
            && text::same(p.impl_name.as_str(), i.name.as_str()) {
            let v = p.value.as_str();
            if text::same(p.field.as_str(), "enabled") {
                enabled = text::same(v, "true") || text::same(v, "1");
            } else if text::same(p.field.as_str(), "retry") {
                match text::parse_unsigned(v, usize::MAX as u64) {
                    Some(n) => {
                        retry = n as usize;
                    },
                    None => {},
                }
            } else if text::same(p.field.as_str(), "stub") {
                stub = text::same(v, "true") || text::same(v, "1");
            }
        }
        k += 1;
    }
    (enabled, retry, stub)
}

/// Applies the confirmed patches of flags to a proc.
fn patch_proc(p: &mut Proc, ps: &Vec<PatchRow>)
    ensures
        (Proc { plan: old(p).plan, ..*final(p) }) == *old(p),
        final(p).plan@ == old(p).plan@.map_values(
            |i: Impl| with_patches(i, old(p).name@, ps@, ps@.len() as int),
        ),
{
    let ghost start = *p;
    let ghost all = p.plan@.map_values(
        |i: Impl| with_patches(i, p.name@, ps@, ps@.len() as int),
    );
    let mut j: usize = 0;
    while j < p.plan.len()
        invariant
            j <= p.plan@.len(),
            p.plan@.len() == start.plan@.len(),
            (Proc { plan: start.plan, ..*p }) == start,
            all == start.plan@.map_values(
                |i: Impl| with_patches(i, start.name@, ps@, ps@.len() as int),
            ),
            forall|k: int| 0 <= k < j ==> #[trigger] p.plan@[k] == all[k],
            forall|k: int| j <= k < p.plan@.len() ==> #[trigger] p.plan@[k] == start.plan@[k],
        decreases p.plan@.len() - j,
    {
        let (enabled, retry, stub) = patched_flags(&p.plan[j], p.name.as_str(), ps);
        let imp = &mut p.plan[j];
        imp.enabled = enabled;
        imp.retry = retry;
        imp.stub = stub;
        j += 1;
    }
    assert(p.plan@ =~= all);
}

/// Applies the confirmed patches of flags to the procs of a pipeline, in order.
pub fn apply_patches(procs: &mut Vec<Proc>, ps: &Vec<PatchRow>)
    ensures
        final(procs)@.len() == old(procs)@.len(),
        forall|i: int|
            0 <= i < old(procs)@.len() ==> {
                &&& (Proc { plan: old(procs)@[i].plan, ..#[trigger] final(procs)@[i] })
                    == old(procs)@[i]
                &&& final(procs)@[i].plan@ == old(procs)@[i].plan@.map_values(
                    |im: Impl| with_patches(im, old(procs)@[i].name@, ps@, ps@.len() as int),
                )
            },
{
    let ghost start = procs@;
    let mut i: usize = 0;
    while i < procs.len()
        invariant
            i <= procs@.len(),
            procs@.len() == start.len(),
            forall|k: int|
                0 <= k < i ==> {
                    &&& (Proc { plan: start[k].plan, ..#[trigger] procs@[k] }) == start[k]
                    &&& procs@[k].plan@ == start[k].plan@.map_values(
                        |im: Impl| with_patches(im, start[k].name@, ps@, ps@.len() as int),
                    )
                },
            forall|k: int| i <= k < procs@.len() ==> #[trigger] procs@[k] == start[k],
        decreases procs@.len() - i,
    {
        patch_proc(&mut procs[i], ps);
        i += 1;
    }
}

/// A patch that is not confirmed changes nothing.
pub proof fn law_unconfirmed_patches_do_nothing(
    i: Impl,
    proc: Seq<char>,
    ps: Seq<PatchRow>,
    n: int,
)
    requires
        0 <= n <= ps.len(),
        forall|k: int| 0 <= k < n ==> (#[trigger] ps[k]).status@ != "confirmed"@,
    ensures
        with_patches(i, proc, ps, n) == i,
    decreases n,
{
    if n > 0 {
        law_unconfirmed_patches_do_nothing(i, proc, ps, n - 1);
    }
}

} // verus!
