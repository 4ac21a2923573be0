//! What holds of what the store keeps: tags, runs, patches, costs, incidents and
//! dates.

use crate::ast::{Impl, Proc};
use crate::incident;
use crate::policy;
use crate::policy::{CostField, CostSpec, GCostTask};
use crate::records;
use crate::records::{PatchRow, RunRow};
use crate::text;
use crate::text_laws;
use crate::time;
use vstd::prelude::*;

verus! {

// ── Tags and words ──

/// The tags of a column are its pieces between commas that are not empty.
pub proof fn law_tags_stand_between_commas(s: Seq<char>, t: Seq<char>)
    ensures
        records::column_tags(s).contains(t) <==> t.len() > 0 && text::split_char_spec(
            s,
            ',',
        ).contains(t),
{
    let ps = text::split_char_spec(s, ',');
    lemma_pieces(ps, ps.len() as int, t);
    assert(ps.take(ps.len() as int) =~= ps);
}

proof fn lemma_pieces(ps: Seq<Seq<char>>, n: int, t: Seq<char>)
    requires
        0 <= n <= ps.len(),
    ensures
        records::full_pieces(ps, n).contains(t) <==> t.len() > 0 && ps.take(n).contains(t),
    decreases n,
{
    if n > 0 {
        lemma_pieces(ps, n - 1, t);
        let a = ps.take(n);
        let b = ps.take(n - 1);
        assert(a[n - 1] == ps[n - 1]);
        if b.contains(t) {
            let i = choose|i: int| 0 <= i < b.len() && b[i] == t;
            assert(a[i] == t);
        }
        if a.contains(t) {
            let i = choose|i: int| 0 <= i < a.len() && a[i] == t;
            if i < n - 1 {
                assert(b[i] == t);
            }
        }
    }
}

/// A question becomes its words, each between quotes; a word without quotes of its
/// own stays as it is.
pub proof fn law_words_are_quoted(q: Seq<char>, i: int)
    requires
        0 <= i < text::words_spec(q).len(),
        forall|j: int|
            0 <= j < text::words_spec(q)[i].len() ==> #[trigger] text::words_spec(q)[i][j] != '"',
    ensures
        records::search_terms(q).len() == text::words_spec(q).len(),
        records::search_terms(q)[i] == seq!['"'] + text::words_spec(q)[i] + seq!['"'],
{
    reveal_strlit("\"");
    let w = text::words_spec(q)[i];
    if text::has(w, "\""@) {
        let k = choose|k: int| text::occurs_at(w, "\""@, k);
        assert(w.subrange(k, k + 1)[0] == '"');
    }
    text_laws::law_replacing_goes_on(w, "\""@, ""@, 0);
    assert("\""@ =~= seq!['"']);
}

// ── Runs ──

/// The runs of an implementation are those of its name, in order.
pub proof fn law_runs_are_told_apart(rows: Seq<RunRow>, name: Seq<char>)
    ensures
        records::runs_of(rows, name, rows.len() as int) == rows.filter(
            |r: RunRow| r.impl_name@ == name,
        ),
{
    lemma_runs(rows, name, rows.len() as int);
    assert(rows.take(rows.len() as int) =~= rows);
}

proof fn lemma_runs(rows: Seq<RunRow>, name: Seq<char>, n: int)
    requires
        0 <= n <= rows.len(),
    ensures
        records::runs_of(rows, name, n) == rows.take(n).filter(|r: RunRow| r.impl_name@ == name),
    decreases n,
{
    let own = |r: RunRow| r.impl_name@ == name;
    if n > 0 {
        lemma_runs(rows, name, n - 1);
        assert(rows.take(n) =~= rows.take(n - 1).push(rows[n - 1]));
        rows.take(n - 1).lemma_filter_push(rows[n - 1], own);
    } else {
        reveal(Seq::filter);
        assert(rows.take(0) =~= Seq::empty());
    }
}

proof fn lemma_fails(rs: Seq<RunRow>, n: int)
    requires
        0 <= n <= rs.len(),
    ensures
        records::fail_count(rs, n) == rs.take(n).filter(|r: RunRow| r.status@ != "Ok"@).len(),
        records::fail_count(rs, n) <= n,
    decreases n,
{
    let bad = |r: RunRow| r.status@ != "Ok"@;
    if n > 0 {
        lemma_fails(rs, n - 1);
        assert(rs.take(n) =~= rs.take(n - 1).push(rs[n - 1]));
        rs.take(n - 1).lemma_filter_push(rs[n - 1], bad);
    } else {
        reveal(Seq::filter);
        assert(rs.take(0) =~= Seq::empty());
    }
}

proof fn lemma_row(rs: Seq<RunRow>, n: int)
    requires
        0 <= n <= rs.len(),
    ensures
        records::fails_before(rs, n) <= n,
        forall|i: int|
            n - records::fails_before(rs, n) <= i < n ==> (#[trigger] rs[i]).status@ != "Ok"@,
        records::fails_before(rs, n) < n ==> rs[n - records::fails_before(rs, n) - 1].status@
            == "Ok"@,
    decreases n,
{
    if n > 0 && rs[n - 1].status@ != "Ok"@ {
        lemma_row(rs, n - 1);
    }
}

/// The figures of an implementation are those of its last twenty runs: how many
/// there are, how many of them did not go well, and how many at the end did not,
/// one after the other.
pub proof fn law_figures_are_of_the_last_runs(rows: Seq<RunRow>, name: Seq<char>, w: Seq<RunRow>)
    requires
        ({
            let own = rows.filter(|r: RunRow| r.impl_name@ == name);
            w == (if own.len() <= 20 {
                own
            } else {
                own.subrange(own.len() - 20, own.len() as int)
            })
        }),
    ensures
        ({
            let f = records::figures(rows, name);
            &&& f.window == w.len()
            &&& f.n == w.len()
            &&& f.fails == w.filter(|r: RunRow| r.status@ != "Ok"@).len()
            &&& f.consec_fail <= w.len()
            &&& forall|i: int|
                w.len() - f.consec_fail <= i < w.len() ==> (#[trigger] w[i]).status@ != "Ok"@
            &&& f.consec_fail < w.len() ==> w[w.len() - f.consec_fail - 1].status@ == "Ok"@
        }),
{
    law_runs_are_told_apart(rows, name);
    let own = records::runs_of(rows, name, rows.len() as int);
    assert(records::window_of(own) =~= w);
    let n = w.len() as int;
    lemma_fails(w, n);
    lemma_row(w, n);
    assert(w.take(n) =~= w);
}

/// The tokens of runs add up.
pub proof fn law_tokens_add_up(a: Seq<RunRow>, b: Seq<RunRow>)
    ensures
        records::token_sum(a + b, (a + b).len() as int) == records::token_sum(a, a.len() as int)
            + records::token_sum(b, b.len() as int),
        a.len() == 1 ==> records::token_sum(a, 1) == a[0].rate_tokens,
    decreases b.len(),
{
    reveal_with_fuel(records::token_sum, 2);
    if b.len() > 0 {
        let c = b.drop_last();
        law_tokens_add_up(a, c);
        lemma_sum_prefix(a + b, a + c, (a + c).len() as int);
        lemma_sum_prefix(b, c, c.len() as int);
        assert((a + b)[(a + b).len() - 1] == b[b.len() - 1]);
    } else {
        assert(a + b =~= a);
    }
}

proof fn lemma_sum_prefix(a: Seq<RunRow>, b: Seq<RunRow>, n: int)
    requires
        0 <= n <= a.len(),
        n <= b.len(),
        forall|i: int| 0 <= i < n ==> #[trigger] a[i] == b[i],
    ensures
        records::token_sum(a, n) == records::token_sum(b, n),
    decreases n,
{
    if n > 0 {
        assert(a[n - 1] == b[n - 1]);
        lemma_sum_prefix(a, b, n - 1);
    }
}

/// There are figures for every implementation that has run and for no other.
pub proof fn law_all_that_ran_have_figures(rows: Seq<RunRow>, name: Seq<char>, n: int)
    requires
        0 <= n <= rows.len(),
    ensures
        records::run_names(rows, n).contains(name) <==> exists|i: int|
            0 <= i < n && (#[trigger] rows[i]).impl_name@ == name,
    decreases n,
{
    if n > 0 {
        law_all_that_ran_have_figures(rows, name, n - 1);
        assert(rows[n - 1].impl_name@ == rows[n - 1].impl_name@);
    }
}

// ── Patches ──

/// A confirmed patch of an implementation of that proc changes the field it names
/// and no other: it turns it on or off, marks it as a stub or not, or says how
/// often it is tried again. Any other patch changes nothing.
pub proof fn law_patches_change_one_field(i: Impl, proc: Seq<char>, p: PatchRow)
    ensures
        ({
            let own = p.status@ == "confirmed"@ && p.proc_name@ == proc && p.impl_name@ == i.name@;
            let r = records::with_patch(i, proc, p);
            let yes = p.value@ == "true"@ || p.value@ == "1"@;
            &&& !own ==> r == i
            &&& own && p.field@ == "enabled"@ ==> r.enabled == yes && r == (Impl {
                enabled: r.enabled,
                ..i
            })
            &&& own && p.field@ == "stub"@ ==> r.stub == yes && r == (Impl { stub: r.stub, ..i })
            &&& own && p.field@ == "retry"@ ==> r == (Impl { retry: r.retry, ..i })
            &&& own && p.field@ != "enabled"@ && p.field@ != "stub"@ && p.field@ != "retry"@ ==> r
                == i
        }),
{
    reveal_strlit("enabled");
    reveal_strlit("stub");
    reveal_strlit("retry");
    assert("enabled"@.len() == 7 && "stub"@.len() == 4 && "retry"@.len() == 5);
}

/// A patch of the tries gives their number where it is one, and changes nothing
/// where it is not.
pub proof fn law_patched_tries_are_numbers(i: Impl, proc: Seq<char>, p: PatchRow, n: nat)
    requires
        p.status@ == "confirmed"@,
        p.proc_name@ == proc,
        p.impl_name@ == i.name@,
        p.field@ == "retry"@,
        n <= usize::MAX,
    ensures
        p.value@ == text::dec(n) ==> records::with_patch(i, proc, p).retry == n,
        text::unsigned_spec(p.value@, usize::MAX as nat) is None ==> records::with_patch(i, proc, p)
            == i,
{
    reveal_strlit("enabled");
    reveal_strlit("retry");
    assert("enabled"@.len() == 7 && "retry"@.len() == 5);
    text_laws::law_numbers_are_read(n, usize::MAX as nat, Seq::empty());
}

/// Later patches come on top of earlier ones.
pub proof fn law_later_patches_win(i: Impl, proc: Seq<char>, ps: Seq<PatchRow>, p: PatchRow)
    ensures
        records::with_patches(i, proc, ps.push(p), ps.len() as int + 1) == records::with_patch(
            records::with_patches(i, proc, ps, ps.len() as int),
            proc,
            p,
        ),
        records::with_patches(i, proc, Seq::empty(), 0) == i,
{
    lemma_patches_prefix(i, proc, ps.push(p), ps, ps.len() as int);
}

proof fn lemma_patches_prefix(
    i: Impl,
    proc: Seq<char>,
    a: Seq<PatchRow>,
    b: Seq<PatchRow>,
    n: int,
)
    requires
        0 <= n <= a.len(),
        n <= b.len(),
        forall|k: int| 0 <= k < n ==> #[trigger] a[k] == b[k],
    ensures
        records::with_patches(i, proc, a, n) == records::with_patches(i, proc, b, n),
    decreases n,
{
    if n > 0 {
        assert(a[n - 1] == b[n - 1]);
        lemma_patches_prefix(i, proc, a, b, n - 1);
    }
}

// ── Costs ──

proof fn lemma_number_end(s: Seq<char>, i: int, k: int, dot: bool)
    requires
        0 <= i <= k <= s.len(),
        forall|j: int| i <= j < k ==> text::is_digit(#[trigger] s[j]),
    ensures
        policy::number_end(s, i, dot) == policy::number_end(s, k, dot),
    decreases k - i,
{
    if i < k {
        assert(text::is_digit(s[i]));
        lemma_number_end(s, i + 1, k, dot);
    }
}

proof fn lemma_number_from(s: Seq<char>, i: int, k: int)
    requires
        0 <= i <= k < s.len(),
        forall|j: int| i <= j < k ==> !text::is_digit(#[trigger] s[j]),
        text::is_digit(s[k]),
    ensures
        policy::number_from(s, i) == Some(s.subrange(k, policy::number_end(s, k, false))),
    decreases k - i,
{
    if i < k {
        assert(!text::is_digit(s[i]));
        lemma_number_from(s, i + 1, k);
    }
}

/// The first number of an output is its first run of digits, with what follows a
/// dot, wherever it stands.
pub proof fn law_the_first_number_is_measured(
    a: Seq<char>,
    d: Seq<char>,
    f: Seq<char>,
    b: Seq<char>,
)
    requires
        forall|i: int| 0 <= i < a.len() ==> !text::is_digit(#[trigger] a[i]),
        text::all_digits(d),
        text::all_digits(f),
        d.len() > 0,
        b.len() > 0 ==> !text::is_digit(b[0]) && b[0] != '.',
    ensures
        policy::number_from(a + d + b, 0) == Some(d),
        policy::number_from(a + d + seq!['.'] + f + b, 0) == Some(d + seq!['.'] + f),
        policy::number_from(a, 0) is None,
{
    let n = a.len() as int;
    let m = n + d.len();
    let s = a + d + b;
    assert forall|i: int| 0 <= i < n implies !text::is_digit(#[trigger] s[i]) by {
        assert(s[i] == a[i]);
    }
    assert forall|i: int| n <= i < m implies text::is_digit(#[trigger] s[i]) by {
        assert(s[i] == d[i - n]);
    }
    assert(text::is_digit(s[n]));
    lemma_number_from(s, 0, n);
    lemma_number_end(s, n, m, false);
    if b.len() > 0 {
        assert(s[m] == b[0]);
    }
    assert(s.subrange(n, m) =~= d);
    let t = a + d + seq!['.'] + f + b;
    let k = m + 1 + f.len();
    assert forall|i: int| 0 <= i < n implies !text::is_digit(#[trigger] t[i]) by {
        assert(t[i] == a[i]);
    }
    assert forall|i: int| n <= i < m implies text::is_digit(#[trigger] t[i]) by {
        assert(t[i] == d[i - n]);
    }
    assert(text::is_digit(t[n]));
    lemma_number_from(t, 0, n);
    lemma_number_end(t, n, m, false);
    assert(t[m] == '.');
    assert forall|i: int| m + 1 <= i < k implies text::is_digit(#[trigger] t[i]) by {
        assert(t[i] == f[i - m - 1]);
    }
    lemma_number_end(t, m + 1, k, true);
    if b.len() > 0 {
        assert(t[k] == b[0]);
    }
    assert(t.subrange(n, k) =~= d + seq!['.'] + f);
    lemma_no_number(a, 0);
}

proof fn lemma_no_number(s: Seq<char>, i: int)
    requires
        0 <= i <= s.len(),
        forall|j: int| 0 <= j < s.len() ==> !text::is_digit(#[trigger] s[j]),
    ensures
        policy::number_from(s, i) is None,
    decreases s.len() - i,
{
    if i < s.len() {
        assert(!text::is_digit(s[i]));
        lemma_no_number(s, i + 1);
    }
}

/// What a policy says of a field of a cost.
pub open spec fn said(s: CostSpec, field: CostField) -> Option<policy::CostValue> {
    match field {
        CostField::Latency => s.latency,
        CostField::Risk => s.risk,
        CostField::Tokens => s.tokens,
        CostField::Money => s.money,
    }
}

proof fn lemma_field_task(
    p: int,
    i: int,
    field: CostField,
    v: Option<policy::CostValue>,
    t: GCostTask,
)
    ensures
        policy::field_task(p, i, field, v).contains(t) <==> v is Some && t == (p, i, field, v->0@),
{
    let r = policy::field_task(p, i, field, v);
    if v is Some {
        assert(r[0] == (p, i, field, v->0@));
    }
}

proof fn lemma_impl_tasks(p: int, i: int, s: CostSpec, t: GCostTask)
    ensures
        policy::impl_tasks(p, i, s).contains(t) <==> t.0 == p && t.1 == i && said(s, t.2) is Some
            && t.3 == said(s, t.2)->0@,
{
    let a = policy::field_task(p, i, CostField::Latency, s.latency);
    let b = policy::field_task(p, i, CostField::Risk, s.risk);
    let c = policy::field_task(p, i, CostField::Tokens, s.tokens);
    let d = policy::field_task(p, i, CostField::Money, s.money);
    lemma_field_task(p, i, CostField::Latency, s.latency, t);
    lemma_field_task(p, i, CostField::Risk, s.risk, t);
    lemma_field_task(p, i, CostField::Tokens, s.tokens, t);
    lemma_field_task(p, i, CostField::Money, s.money, t);
    vstd::seq_lib::lemma_seq_concat_contains_all_elements(a, b, t);
    vstd::seq_lib::lemma_seq_concat_contains_all_elements(a + b, c, t);
    vstd::seq_lib::lemma_seq_concat_contains_all_elements(a + b + c, d, t);
}

proof fn lemma_plan_tasks(
    costs: Map<Seq<char>, CostSpec>,
    p: int,
    proc: Proc,
    n: int,
    t: GCostTask,
)
    requires
        0 <= n <= proc.plan@.len(),
    ensures
        policy::plan_tasks(costs, p, proc, n).contains(t) <==> t.0 == p && 0 <= t.1 < n && ({
            let key = proc.name@ + "."@ + proc.plan@[t.1].name@;
            costs.dom().contains(key) && said(costs[key], t.2) is Some && t.3 == said(
                costs[key],
                t.2,
            )->0@
        }),
    decreases n,
{
    if n > 0 {
        lemma_plan_tasks(costs, p, proc, n - 1, t);
        let key = policy::cost_key(proc.name@, proc.plan@[n - 1].name@);
        if costs.dom().contains(key) {
            lemma_impl_tasks(p, n - 1, costs[key], t);
            vstd::seq_lib::lemma_seq_concat_contains_all_elements(
                policy::plan_tasks(costs, p, proc, n - 1),
                policy::impl_tasks(p, n - 1, costs[key]),
                t,
            );
        }
    }
}

/// A field is found out exactly where the policy speaks of it under the names of
/// the proc and the implementation, and from what it says there.
pub proof fn law_policies_speak_by_name(
    costs: Map<Seq<char>, CostSpec>,
    procs: Seq<Proc>,
    n: int,
    t: GCostTask,
)
    requires
        0 <= n <= procs.len(),
    ensures
        policy::policy_tasks(costs, procs, n).contains(t) <==> 0 <= t.0 < n && 0 <= t.1
            < procs[t.0].plan@.len() && ({
            let key = procs[t.0].name@ + "."@ + procs[t.0].plan@[t.1].name@;
            costs.dom().contains(key) && said(costs[key], t.2) is Some && t.3 == said(
                costs[key],
                t.2,
            )->0@
        }),
    decreases n,
{
    if n > 0 {
        law_policies_speak_by_name(costs, procs, n - 1, t);
        let p = procs[n - 1];
        lemma_plan_tasks(costs, n - 1, p, p.plan@.len() as int, t);
        vstd::seq_lib::lemma_seq_concat_contains_all_elements(
            policy::policy_tasks(costs, procs, n - 1),
            policy::plan_tasks(costs, n - 1, p, p.plan@.len() as int),
            t,
        );
    }
}

// ── Incidents ──

/// A broken contract points at the fields where one is missing and at the content
/// where none is; what the model did, at the model; all else, at the machine. A
/// result that was cut off points at the model as well, and no layer is named
/// twice.
pub proof fn law_errors_point_at_a_layer(code: Seq<char>, msg: Seq<char>, result: Seq<char>)
    ensures
        ({
            let ls = incident::layers_of(code, msg, result);
            let model = code == "truncation"@ || code == "auth"@ || code == "ratelimit"@;
            let cut = text::has(result, "meta_finish_reason=length"@);
            &&& ls.no_duplicates()
            &&& ls.contains("L1"@) <==> code == "contract"@ && text::has(
                msg,
                "missing required output field"@,
            )
            &&& ls.contains("L2"@) <==> code == "contract"@ && !text::has(
                msg,
                "missing required output field"@,
            )
            &&& ls.contains("L0.5"@) <==> model || cut
            &&& ls.contains("L0"@) <==> code != "contract"@ && !model
            &&& 1 <= ls.len() <= 2
        }),
{
    reveal_strlit("L0");
    reveal_strlit("L0.5");
    reveal_strlit("L1");
    reveal_strlit("L2");
    reveal_strlit("contract");
    reveal_strlit("truncation");
    reveal_strlit("auth");
    reveal_strlit("ratelimit");
    let ls = incident::layers_of(code, msg, result);
    assert("L0"@[1] == '0' && "L1"@[1] == '1' && "L2"@[1] == '2');
    assert("L0"@.len() == 2 && "L0.5"@.len() == 4 && "L1"@.len() == 2 && "L2"@.len() == 2);
    assert("contract"@.len() == 8 && "truncation"@.len() == 10 && "auth"@.len() == 4
        && "ratelimit"@.len() == 9);
    assert(ls[0] == incident::layer_of(code, msg));
    if ls.len() == 2 {
        assert(ls[1] == "L0.5"@);
    }
    assert(ls.contains(ls[0]));
    if ls.len() == 2 {
        assert(ls.contains(ls[1]));
    }
}

/// The evidence of an incident starts with the error; of an encoded result it has
/// the fields as well, but not the output behind them.
pub proof fn law_evidence_has_error_and_fields(
    msg: Seq<char>,
    fields: Seq<char>,
    raw: Seq<char>,
    other: Seq<char>,
)
    requires
        msg.len() <= 200,
        fields.len() <= 100,
        !text::has(fields, "§"@),
        !"§§FIELDS§§"@.is_prefix_of(other),
    ensures
        incident::evidence(msg, other) == "err: "@ + msg,
        incident::evidence(msg, "§§FIELDS§§"@ + fields + "§§RAW§§"@ + raw) == "err: "@ + msg
            + " | fields: "@ + fields,
        incident::evidence(msg, "§§FIELDS§§"@ + fields) == "err: "@ + msg + " | fields: "@ + fields,
{
    reveal_strlit("§");
    reveal_strlit("§§RAW§§");
    let head = "§§FIELDS§§"@;
    let mark = "§§RAW§§"@;
    let rest = fields + mark + raw;
    text_laws::law_beginnings_come_off(head, rest);
    assert(head + rest =~= head + fields + mark + raw);
    text_laws::law_beginnings_come_off(head, fields);
    let n = fields.len() as int;
    assert forall|k: int| 0 <= k < n implies fields[k] != '§' by {
        if fields[k] == '§' {
            assert(fields.subrange(k, k + 1) =~= "§"@);
            assert(text::occurs_at(fields, "§"@, k));
        }
    }
    assert(text::occurs_at(rest, mark, n)) by {
        assert(rest.subrange(n, n + mark.len()) =~= mark);
    }
    text::lemma_find_from(rest, mark, 0);
    match text::find_str_spec(rest, mark) {
        Some(k) => {
            if k < n {
                assert(text::occurs_at(rest, mark, k));
                assert(rest.subrange(k, k + mark.len())[0] == mark[0]);
                assert(rest[k] == fields[k]);
            }
            assert(k == n);
            assert(rest.take(n) =~= fields);
        },
        None => {},
    }
    text::lemma_find_from(fields, mark, 0);
    match text::find_str_spec(fields, mark) {
        Some(k) => {
            assert(text::occurs_at(fields, mark, k));
            assert(fields.subrange(k, k + mark.len())[0] == mark[0]);
        },
        None => {},
    }
}

/// What a good input is held to is what was asked, without white space around it;
/// where nothing was, that it went well.
pub proof fn law_good_inputs_go_well(a: Seq<char>, e: Seq<char>, b: Seq<char>)
    requires
        text::blank(a),
        text::blank(b),
        e.len() > 0,
        !text::is_space(e[0]),
        !text::is_space(e.last()),
    ensures
        incident::expectation(a + e + b) == e,
        incident::expectation(a) == "@self.ok == 1"@,
{
    text_laws::law_trimming_takes_the_ends(a, e, b);
    let n = Seq::<char>::empty();
    text_laws::law_trimming_takes_the_ends(a, n, n);
    assert(a + n + n =~= a);
}

// ── Dates ──

/// The first of January 1970 is day 0, and every day is one behind the day before
/// it: within a month, from month to month, and from year to year.
pub proof fn law_days_follow_each_other(y: int, m: int, d: int)
    requires
        1 <= m <= 12,
    ensures
        time::day_number(1970, 1, 1) == 0,
        time::day_number(y, m, d + 1) == time::day_number(y, m, d) + 1,
        m < 12 ==> time::day_number(y, m + 1, 1) == time::day_number(y, m, time::days_in_month(y, m))
            + 1,
        time::day_number(y + 1, 1, 1) == time::day_number(y, 12, 31) + 1,
{
    reveal_with_fuel(time::days_before_month, 14);
    assert(time::days_before_month(y, 12) == 334 + (if time::leap(y) {
        1int
    } else {
        0
    }));
    lemma_leap_step(y);
}

proof fn lemma_leap_step(y: int)
    ensures
        time::leaps_upto(y) == time::leaps_upto(y - 1) + (if time::leap(y) {
            1int
        } else {
            0
        }),
{
    assert(y / 4 == (y - 1) / 4 + (if y % 4 == 0 {
        1int
    } else {
        0
    }));
    assert(y / 100 == (y - 1) / 100 + (if y % 100 == 0 {
        1int
    } else {
        0
    }));
    assert(y / 400 == (y - 1) / 400 + (if y % 400 == 0 {
        1int
    } else {
        0
    }));
    if y % 400 == 0 {
        assert(y % 100 == 0 && y % 4 == 0);
    } else if y % 100 == 0 {
        assert(y % 4 == 0);
    }
}

/// A month has 30 or 31 days by its name, and February 28 or, every fourth year
/// but those of three centuries in four, 29.
pub proof fn law_months_have_their_days(y: int, m: int)
    requires
        1 <= m <= 12,
    ensures
        m == 1 || m == 3 || m == 5 || m == 7 || m == 8 || m == 10 || m == 12 ==> time::days_in_month(
            y,
            m,
        ) == 31,
        m == 4 || m == 6 || m == 9 || m == 11 ==> time::days_in_month(y, m) == 30,
        m == 2 && y % 4 != 0 ==> time::days_in_month(y, m) == 28,
        m == 2 && y % 4 == 0 && y % 100 != 0 ==> time::days_in_month(y, m) == 29,
        m == 2 && y % 100 == 0 && y % 400 != 0 ==> time::days_in_month(y, m) == 28,
        m == 2 && y % 400 == 0 ==> time::days_in_month(y, m) == 29,
{
    if y % 400 == 0 {
        assert(y % 100 == 0 && y % 4 == 0);
    } else if y % 100 == 0 {
        assert(y % 4 == 0);
    }
}

/// Numbers of a date have two digits, years four: zeros fill them up, and their
/// value is the number.
pub proof fn law_numbers_are_filled_up(n: int)
    requires
        0 <= n,
    ensures
        n < 100 ==> time::two_digits(n).len() == 2 && text::digits_value(time::two_digits(n)) == n,
        n < 10000 ==> time::four_digits(n).len() == 4 && text::digits_value(time::four_digits(n))
            == n,
{
    reveal_strlit("0");
    reveal_strlit("00");
    reveal_strlit("000");
    reveal_with_fuel(text::dec, 5);
    reveal_with_fuel(text::digits_value, 5);
    if n < 10000 {
        let f = time::four_digits(n);
        lemma_four(n);
    }
    if n < 100 {
        lemma_two(n);
    }
}

proof fn lemma_two(n: int)
    requires
        0 <= n < 100,
    ensures
        time::two_digits(n).len() == 2,
        text::digits_value(time::two_digits(n)) == n,
{
    reveal_strlit("0");
    let d = text::dec(n as nat);
    text_laws::law_decimals_read_back(n as nat);
    lemma_width(n as nat);
    if n < 10 {
        lemma_zero_in_front("0"@, d);
    }
}

proof fn lemma_four(n: int)
    requires
        0 <= n < 10000,
    ensures
        time::four_digits(n).len() == 4,
        text::digits_value(time::four_digits(n)) == n,
{
    reveal_strlit("0");
    reveal_strlit("00");
    reveal_strlit("000");
    let d = text::dec(n as nat);
    text_laws::law_decimals_read_back(n as nat);
    lemma_width(n as nat);
    if n < 10 {
        lemma_zero_in_front("000"@, d);
    } else if n < 100 {
        lemma_zero_in_front("00"@, d);
    } else if n < 1000 {
        lemma_zero_in_front("0"@, d);
    }
}

proof fn lemma_width(n: nat)
    requires
        n < 10000,
    ensures
        text::dec(n).len() == (if n < 10 {
            1int
        } else if n < 100 {
            2
        } else if n < 1000 {
            3
        } else {
            4
        }),
{
    reveal_with_fuel(text::dec, 5);
}

proof fn lemma_zero_in_front(z: Seq<char>, d: Seq<char>)
    requires
        forall|i: int| 0 <= i < z.len() ==> #[trigger] z[i] == '0',
    ensures
        text::digits_value(z + d) == text::digits_value(d),
    decreases z.len() + d.len(),
{
    let s = z + d;
    if d.len() > 0 {
        assert(s.drop_last() =~= z + d.drop_last());
        lemma_zero_in_front(z, d.drop_last());
    } else if z.len() > 0 {
        assert(s =~= z);
        assert(z.last() == '0');
        let y = z.drop_last();
        assert forall|i: int| 0 <= i < y.len() implies #[trigger] y[i] == '0' by {
            assert(y[i] == z[i]);
        }
        lemma_zero_in_front(y, d);
        assert(y + d =~= y);
    }
}

} // verus!
