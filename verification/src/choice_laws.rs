//! Which of several comes first, counts or is left out.

use crate::ast::{GValue, Impl};
use crate::config;
use crate::errflow;
use crate::explore;
use crate::grow;
use crate::grow::Corpus;
use crate::harvest;
use crate::harvest::{GSeen, HarvestHit};
use crate::json;
use crate::jvalue;
use crate::jvalue::GJv;
use crate::order;
use crate::ranking;
use crate::script;
use crate::text;
use crate::text_laws;
use crate::time;
use crate::tries;
use vstd::prelude::*;

verus! {

// ── Runs ──

/// Some implementation of two plans may run exactly where one of either may; of a
/// plan of one, where that one may.
pub proof fn law_any_of_two_plans_may_run(
    a: Seq<Impl>,
    b: Seq<Impl>,
    i: Impl,
    params: Map<Seq<char>, Seq<char>>,
    results: Map<Seq<char>, GValue>,
)
    ensures
        tries::any_may_run(a + b, params, results) <==> tries::any_may_run(a, params, results)
            || tries::any_may_run(b, params, results),
        tries::any_may_run(seq![i], params, results) <==> tries::may_run(i, params, results),
        !tries::any_may_run(Seq::empty(), params, results),
{
    let all = a + b;
    if tries::any_may_run(all, params, results) {
        let k = choose|k: int|
            0 <= k < all.len() && tries::may_run(#[trigger] all[k], params, results);
        if k < a.len() {
            assert(tries::may_run(a[k], params, results));
        } else {
            assert(tries::may_run(b[k - a.len()], params, results));
        }
    }
    if tries::any_may_run(a, params, results) {
        let k = choose|k: int| 0 <= k < a.len() && tries::may_run(#[trigger] a[k], params, results);
        assert(all[k] == a[k]);
    }
    if tries::any_may_run(b, params, results) {
        let k = choose|k: int| 0 <= k < b.len() && tries::may_run(#[trigger] b[k], params, results);
        assert(all[a.len() + k] == b[k]);
    }
    assert(seq![i][0] == i);
}

/// The first failed input is the first that has failed.
pub proof fn law_the_first_failed_input_counts(
    results: Map<Seq<char>, GValue>,
    refs: Seq<Seq<char>>,
    i: int,
    k: int,
)
    requires
        0 <= i <= k <= refs.len(),
        forall|j: int|
            i <= j < k ==> !(results.dom().contains(#[trigger] refs[j]) && errflow::is_left(
                results[refs[j]],
            )),
        k < refs.len() ==> results.dom().contains(refs[k]) && errflow::is_left(results[refs[k]]),
    ensures
        errflow::first_dead(results, refs, i) == (if k < refs.len() {
            Some(refs[k])
        } else {
            None
        }),
    decreases k - i,
{
    if i < k {
        assert(!(results.dom().contains(refs[i]) && errflow::is_left(results[refs[i]])));
        law_the_first_failed_input_counts(results, refs, i + 1, k);
    }
}

/// Of two places the one with the smaller key goes first, at equal keys the one
/// that came first; of two different places exactly one does.
pub proof fn law_smaller_keys_go_first(keys: Seq<i64>, a: int, b: int)
    ensures
        keys[a] < keys[b] ==> ranking::goes_first(keys, a, b) && !ranking::goes_first(keys, b, a),
        keys[a] == keys[b] ==> (ranking::goes_first(keys, a, b) <==> a < b),
        a != b ==> ranking::goes_first(keys, a, b) != ranking::goes_first(keys, b, a),
        !ranking::goes_first(keys, a, a),
{
}

// ── Tiers ──

/// The known tiers are named in order, apart by commas; where there are none, that
/// is said.
pub proof fn law_known_tiers_are_named(names: Seq<Seq<char>>)
    requires
        order::ascending(names),
    ensures
        names.len() == 0 ==> config::known_names(names.to_set()) == "(none)"@,
        names.len() > 0 ==> config::known_names(names.to_set()) == text::join_spec(names, ", "@),
{
    order::lemma_in_order(names);
}

// ── Curricula ──

/// A curriculum is what stands in the brackets behind the word for its tasks: it is
/// refused where a task is, or where it has no task and does not stop; otherwise it
/// has all the tasks, says whether to stop, and the gap.
pub proof fn law_curricula_have_tasks_or_stop(body: Seq<char>, p: int, a: int, b: int)
    requires
        text::find_str_spec(body, "\"tasks\""@) == Some(p),
        text::find_char_from(body, '[', p) == Some(a),
        explore::close_from(body, a, '[', ']', 0, false) == Some(b),
    ensures
        ({
            let r = explore::body_of(body);
            let ts = explore::tasks_from(body.subrange(a, b + 1), 0);
            let stop = json::flag_field(body, "stop"@) == Some(true);
            &&& ts is Err ==> r is Err && r->Err_0 == ts->Err_0
            &&& ts is Ok ==> (r is Ok <==> ts->Ok_0.len() > 0 || stop)
            &&& r is Ok ==> r->Ok_0.tasks == ts->Ok_0 && r->Ok_0.stop == stop
            &&& r is Ok && explore::whole_text(body, "gap"@) is Some ==> r->Ok_0.gap
                == explore::whole_text(body, "gap"@)->0
            &&& r is Ok && explore::whole_text(body, "gap"@) is None ==> r->Ok_0.gap.len() == 0
        }),
{
}

/// A curriculum without the word for its tasks, or without a list behind it, is
/// refused.
pub proof fn law_curricula_without_tasks_are_refused(body: Seq<char>)
    requires
        !text::has(body, "\"tasks\""@) || forall|i: int|
            0 <= i < body.len() ==> #[trigger] body[i] != '[',
    ensures
        explore::body_of(body) is Err,
{
    text::lemma_has_iff_found(body, "\"tasks\""@);
    text::lemma_find_from(body, "\"tasks\""@, 0);
    if text::has(body, "\"tasks\""@) {
        let p = text::find_str_spec(body, "\"tasks\""@)->0;
        text::lemma_find_char_none(body, '[', p);
    }
}

/// The tasks of a list stand in braces, one behind the other: a list is read where
/// each is, and the first that is not is told.
pub proof fn law_tasks_stand_in_braces(s: Seq<char>, i: int, a: int, b: int)
    requires
        0 <= i <= a < b < s.len(),
        text::find_char_from(s, '{', i) == Some(a),
        explore::close_from(s, a, '{', '}', 0, false) == Some(b),
    ensures
        ({
            let r = explore::tasks_from(s, i);
            let t = explore::task_of(s.subrange(a, b + 1));
            let rest = explore::tasks_from(s, b + 1);
            &&& r is Ok <==> t is Ok && rest is Ok
            &&& r is Ok ==> r->Ok_0.len() == rest->Ok_0.len() + 1 && r->Ok_0[0] == t->Ok_0
                && r->Ok_0.skip(1) == rest->Ok_0
            &&& t is Err ==> r->Err_0 == t->Err_0
            &&& t is Ok && rest is Err ==> r->Err_0 == rest->Err_0
        }),
{
    let t = explore::task_of(s.subrange(a, b + 1));
    let rest = explore::tasks_from(s, b + 1);
    if t is Ok && rest is Ok {
        assert((seq![t->Ok_0] + rest->Ok_0).skip(1) =~= rest->Ok_0);
    }
}

/// A list without braces has no tasks.
pub proof fn law_lists_without_braces_have_no_tasks(s: Seq<char>, i: int)
    requires
        0 <= i <= s.len(),
        forall|j: int| i <= j < s.len() ==> #[trigger] s[j] != '{',
    ensures
        explore::tasks_from(s, i) is Ok,
        explore::tasks_from(s, i)->Ok_0.len() == 0,
{
    text::lemma_find_char_none(s, '{', i);
}

// ── Constructs ──

proof fn lemma_count_in(s: Seq<usize>, id: usize, n: int)
    requires
        0 <= n <= s.len(),
    ensures
        grow::count_in(s, id, n) >= 0,
        grow::count_in(s, id, n) > 0 <==> exists|j: int| 0 <= j < n && #[trigger] s[j] == id,
    decreases n,
{
    if n > 0 {
        lemma_count_in(s, id, n - 1);
        assert(s[n - 1] == s[n - 1]);
    }
}

proof fn lemma_count_of(seqs: Seq<Vec<usize>>, id: usize, n: int)
    requires
        0 <= n <= seqs.len(),
    ensures
        grow::count_of(seqs, id, n) >= 0,
        grow::count_of(seqs, id, n) > 0 <==> exists|i: int|
            0 <= i < n && (#[trigger] seqs[i])@.contains(id),
    decreases n,
{
    if n > 0 {
        lemma_count_of(seqs, id, n - 1);
        let s = seqs[n - 1]@;
        lemma_count_in(s, id, s.len() as int);
        if s.contains(id) {
            let j = choose|j: int| 0 <= j < s.len() && s[j] == id;
            assert(s[j] == id);
        }
        assert(seqs[n - 1] == seqs[n - 1]);
    }
}

/// A number is a construct exactly where its text has more than one line and it
/// stands in some sequence.
pub proof fn law_constructs_occur(c: Corpus, id: usize)
    ensures
        grow::is_construct(c, id) <==> c.ir.texts()[id as int].contains('\n') && exists|i: int|
            0 <= i < c.seqs@.len() && (#[trigger] c.seqs@[i])@.contains(id),
{
    lemma_count_of(c.seqs@, id, c.seqs@.len() as int);
    let t = c.ir.texts()[id as int];
    text::lemma_find_char_from(t, '\n', 0);
    if t.contains('\n') {
        let k = choose|k: int| 0 <= k < t.len() && t[k] == '\n';
        assert(t[k] == '\n');
    }
}

// ── Commands ──

/// The command that came more often goes before, at equal counts the one that comes
/// first by name; none goes before itself, nor two before each other.
pub proof fn law_frequent_commands_go_first(a: HarvestHit, b: HarvestHit)
    ensures
        a.count > b.count ==> harvest::goes_before(a, b) && !harvest::goes_before(b, a),
        a.count == b.count ==> (harvest::goes_before(a, b) <==> order::text_lt(a.cmd@, b.cmd@)),
        !(harvest::goes_before(a, b) && harvest::goes_before(b, a)),
        a.cmd@ != b.cmd@ ==> harvest::goes_before(a, b) || harvest::goes_before(b, a),
{
    order::lemma_lt_total(a.cmd@, b.cmd@);
    if order::text_lt(a.cmd@, b.cmd@) {
        order::lemma_lt_asymmetric(a.cmd@, b.cmd@);
    }
}

/// A hit that tells how often its command came and when is true exactly where the
/// command came more than once.
pub proof fn law_hits_came_more_than_once(all: Seq<GSeen>, h: HarvestHit)
    requires
        h.count == harvest::times(all, h.cmd@, all.len() as int),
        harvest::shows_stamp(h.last_seen@, harvest::latest(all, h.cmd@, all.len() as int)),
    ensures
        harvest::true_hit(all, h) <==> harvest::times(all, h.cmd@, all.len() as int) > 1,
{
}

/// A time is shown as it is eight hours east.
pub proof fn law_times_are_shown_eight_hours_east(s: Seq<char>, secs: int)
    ensures
        secs + 8 * 60 * 60 <= i64::MAX ==> (harvest::shows_stamp(s, secs) <==> time::shows(
            s,
            secs + 8 * 60 * 60,
            " "@,
            false,
        )),
        secs + 8 * 60 * 60 > i64::MAX ==> (harvest::shows_stamp(s, secs) <==> s == "?"@),
{
}

/// A command is among those of a list of calls exactly where it is among those of
/// a call that is an object; and those of one more call stand behind the others.
pub proof fn law_calls_give_their_commands(calls: Seq<GJv>, n: int, x: Seq<char>)
    requires
        0 <= n <= calls.len(),
    ensures
        harvest::list_commands(calls, n).contains(x) <==> exists|i: int|
            0 <= i < n && gives(#[trigger] calls[i], x),
        n > 0 ==> harvest::list_commands(calls, n - 1).is_prefix_of(
            harvest::list_commands(calls, n),
        ),
    decreases n,
{
    if n > 0 {
        law_calls_give_their_commands(calls, n - 1, x);
        let before = harvest::list_commands(calls, n - 1);
        let now = harvest::list_commands(calls, n);
        if calls[n - 1] is O {
            let f = calls[n - 1]->O_0;
            let more = harvest::call_commands(f, f.len() as int);
            assert(now == before + more);
            vstd::seq_lib::lemma_seq_concat_contains_all_elements(before, more, x);
        }
        assert(now.subrange(0, before.len() as int) =~= before);
    }
}

/// Whether a command is among those of a call.
pub open spec fn gives(call: GJv, x: Seq<char>) -> bool {
    call is O && harvest::call_commands(call->O_0, call->O_0.len() as int).contains(x)
}

/// Calls that are a list with commands give these; any other text gives what a
/// rough search finds.
pub proof fn law_lists_are_read_before_texts_are_searched(s: Seq<char>)
    ensures
        ({
            let v = jvalue::value_at(s, 0);
            let listed = v is Some && (v->0).0 is A;
            let calls = (v->0).0->A_0;
            let cmds = harvest::list_commands(calls, calls.len() as int);
            &&& listed && (exists|x: Seq<char>| cmds.contains(x)) ==> harvest::exact_commands(s)
                == cmds
            &&& !(listed && (exists|x: Seq<char>| cmds.contains(x))) ==> harvest::exact_commands(s)
                == harvest::rough_commands(s)
        }),
{
    let v = jvalue::value_at(s, 0);
    if v is Some && (v->0).0 is A {
        let calls = (v->0).0->A_0;
        let cmds = harvest::list_commands(calls, calls.len() as int);
        if cmds.len() > 0 {
            assert(cmds.contains(cmds[0]));
        }
    }
}

/// A command without backslashes is meant as it is; an escaped quote means the
/// quote.
pub proof fn law_escaped_quotes_are_quotes(a: Seq<char>, b: Seq<char>)
    requires
        forall|i: int| 0 <= i < a.len() ==> #[trigger] a[i] != '\\',
        forall|i: int| 0 <= i < b.len() ==> #[trigger] b[i] != '\\',
    ensures
        harvest::unescaped(a) == a,
        harvest::unescaped(a + seq!['\\', '"'] + b) == a + seq!['"'] + b,
{
    reveal_strlit("\\\\");
    reveal_strlit("\\");
    reveal_strlit("\\\"");
    reveal_strlit("\"");
    let s = a + seq!['\\', '"'] + b;
    lemma_no_part(a, "\\\\"@, 0);
    lemma_no_part(a, "\\\""@, 0);
    lemma_no_part(b, "\\\""@, 0);
    text_laws::law_replacing_goes_on(a, "\\\\"@, "\\"@, 0);
    text_laws::law_replacing_goes_on(a, "\\\""@, "\""@, 0);
    if text::has(s, "\\\\"@) {
        let i = choose|i: int| text::occurs_at(s, "\\\\"@, i);
        let m = s.subrange(i, i + 2);
        assert(m[0] == s[i] && m[1] == s[i + 1]);
        assert(m[0] == '\\' && m[1] == '\\');
        if i < a.len() {
            assert(s[i] == a[i]);
        } else if i > a.len() + 1 {
            assert(s[i] == b[i - a.len() - 2]);
        } else if i == a.len() {
            assert(s[i + 1] == '"');
        } else {
            assert(s[i] == '"');
        }
    }
    text_laws::law_replacing_goes_on(s, "\\\\"@, "\\"@, 0);
    let k = a.len() as int;
    assert(s.subrange(k, k + 2) =~= "\\\""@);
    assert(text::occurs_at(s, "\\\""@, k));
    assert forall|j: int| 0 <= j < k implies !#[trigger] text::occurs_at(s, "\\\""@, j) by {
        if text::occurs_at(s, "\\\""@, j) {
            assert(s.subrange(j, j + 2)[0] == s[j]);
            assert(s[j] == a[j]);
        }
    }
    text_laws::law_replacing_goes_on(s, "\\\""@, "\""@, k);
    text_laws::law_replacing_goes_on(b, "\\\""@, "\""@, 0);
    assert(s.take(k) =~= a);
    assert(s.skip(k + 2) =~= b);
    assert("\""@ =~= seq!['"']);
}

proof fn lemma_no_part(s: Seq<char>, p: Seq<char>, k: int)
    requires
        p.len() > 0,
        p[0] == '\\',
        forall|i: int| 0 <= i < s.len() ==> #[trigger] s[i] != '\\',
    ensures
        !text::has(s, p),
{
    if text::has(s, p) {
        let i = choose|i: int| text::occurs_at(s, p, i);
        assert(s.subrange(i, i + p.len())[0] == s[i]);
    }
}

// ── Scripts ──

/// The keys of a header count in small letters; its values stay.
pub proof fn law_keys_count_in_small_letters(es: Seq<(Seq<char>, Seq<char>)>, i: int)
    requires
        0 <= i < es.len(),
    ensures
        script::lower_keys(es).len() == es.len(),
        script::lower_keys(es)[i].0 == text::lower(es[i].0),
        script::lower_keys(es)[i].1 == es[i].1,
{
}

/// The name of a script is made of letters, digits, underscores and dashes.
pub proof fn law_names_of_scripts(s: Seq<char>, t: Seq<char>, c: char)
    ensures
        script::name_chars(s + t) <==> script::name_chars(s) && script::name_chars(t),
        script::name_chars(seq![c]) <==> text::alnum(c) || c == '_' || c == '-',
{
    if script::name_chars(s + t) {
        assert forall|i: int| 0 <= i < s.len() implies script::name_char(#[trigger] s[i]) by {
            assert(script::name_char((s + t)[i]));
        }
        assert forall|i: int| 0 <= i < t.len() implies script::name_char(#[trigger] t[i]) by {
            assert(script::name_char((s + t)[s.len() + i]));
        }
    }
    if script::name_chars(seq![c]) {
        assert(script::name_char(seq![c][0]));
    }
}

/// Coordinates go with a note on each of the four dimensions: without coordinates
/// there is neither, with wrong ones or without a note the header is refused.
pub proof fn law_coordinates_go_with_notes(kv: Map<Seq<char>, Seq<char>>, path: Seq<char>)
    ensures
        ({
            let r = script::annotation(kv, path);
            let lacks = script::missing(kv, script::note_keys(), 4).len() > 0;
            let given = kv.dom().contains("mcsm"@);
            &&& !given ==> r is Ok && (r->Ok_0).0.len() == 0 && (r->Ok_0).1.len() == 0
            &&& given ==> (r is Ok <==> script::coordinates(kv["mcsm"@]) && !lacks)
            &&& given && r is Ok ==> (r->Ok_0).0 == kv["mcsm"@]
            &&& given && r is Ok ==> (r->Ok_0).1 == ("F: "@ + kv["mcsm_note_f"@]) + ("\nO: "@
                + kv["mcsm_note_o"@]) + ("\nP: "@ + kv["mcsm_note_p"@]) + ("\nT: "@
                + kv["mcsm_note_t"@])
        }),
{
    let r = script::annotation(kv, path);
    if kv.dom().contains("mcsm"@) && r is Ok {
        assert((r->Ok_0).1 =~= ("F: "@ + kv["mcsm_note_f"@]) + ("\nO: "@ + kv["mcsm_note_o"@]) + (
        "\nP: "@ + kv["mcsm_note_p"@]) + ("\nT: "@ + kv["mcsm_note_t"@]));
    }
}

} // verus!
