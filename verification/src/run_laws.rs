//! What holds of every run of a proc: which of its ways are tried, in which
//! order, on which items, and when it is tried again.

use crate::ast::{GValue, Impl, Proc};
use crate::condition;
use crate::dslresult;
use crate::errflow;
use crate::errflow::ErrCode;
use crate::text;
use crate::text_laws;
use crate::tries;
use crate::tries::{GAfterTry, GItemStep, GItems, GNextImpl, Tries};
use vstd::prelude::*;

verus! {

// ── Conditions ──

/// Whether the condition of an implementation holds, where it has one.
pub open spec fn unhindered(
    imp: Impl,
    params: Map<Seq<char>, Seq<char>>,
    results: Map<Seq<char>, GValue>,
) -> bool {
    imp.when is Some ==> condition::holds(params, results, imp.when->0@)
}

/// The eligible places are all allowed places whose condition holds or that have
/// none, and no other, in the order in which they are allowed.
pub proof fn law_eligible_are_the_unhindered(
    plan: Seq<Impl>,
    allowed: Seq<usize>,
    params: Map<Seq<char>, Seq<char>>,
    results: Map<Seq<char>, GValue>,
)
    ensures
        tries::eligible_upto(plan, allowed, params, results, allowed.len() as int)
            == allowed.filter(|w: usize| unhindered(plan[w as int], params, results)),
        forall|k: int|
            0 <= k < allowed.len() ==> (tries::eligible_upto(
                plan,
                allowed,
                params,
                results,
                allowed.len() as int,
            ).contains(#[trigger] allowed[k]) <==> unhindered(
                plan[allowed[k] as int],
                params,
                results,
            )),
{
    let keep = |w: usize| unhindered(plan[w as int], params, results);
    lemma_eligible_filter(plan, allowed, params, results, allowed.len() as int);
    assert(allowed.take(allowed.len() as int) =~= allowed);
    let r = allowed.filter(keep);
    assert forall|k: int| 0 <= k < allowed.len() implies (r.contains(#[trigger] allowed[k])
        <==> unhindered(plan[allowed[k] as int], params, results)) by {
        if keep(allowed[k]) {
            allowed.lemma_filter_contains(keep, k);
        }
        if r.contains(allowed[k]) {
            let i = choose|i: int| 0 <= i < r.len() && r[i] == allowed[k];
            allowed.lemma_filter_pred(keep, i);
        }
    }
}

/// The eligible places up to some point are what is kept up to it.
proof fn lemma_eligible_filter(
    plan: Seq<Impl>,
    allowed: Seq<usize>,
    params: Map<Seq<char>, Seq<char>>,
    results: Map<Seq<char>, GValue>,
    n: int,
)
    requires
        0 <= n <= allowed.len(),
    ensures
        tries::eligible_upto(plan, allowed, params, results, n) == allowed.take(n).filter(
            |w: usize| unhindered(plan[w as int], params, results),
        ),
    decreases n,
{
    let keep = |w: usize| unhindered(plan[w as int], params, results);
    reveal(Seq::filter);
    if n > 0 {
        lemma_eligible_filter(plan, allowed, params, results, n - 1);
        assert(allowed.take(n).drop_last() =~= allowed.take(n - 1));
        assert(allowed.take(n).last() == allowed[n - 1]);
    }
}

// ── Ways in turn ──

/// A place where nothing is to be tried: its implementation is neither a stub nor
/// enabled.
pub open spec fn void(plan: Seq<Impl>, w: usize) -> bool {
    !plan[w as int].stub && !plan[w as int].enabled
}

/// A proc goes through its ways from the first to the last: what is tried next is
/// the first place that is not void, a stub answers with its name, and there is
/// an end only where all that is left is void.
pub proof fn law_ways_go_in_turn(plan: Seq<Impl>, ranked: Seq<usize>, from: int, k: int)
    requires
        0 <= from <= k < ranked.len(),
        !void(plan, ranked[k]),
        forall|j: int| from <= j < k ==> void(plan, #[trigger] ranked[j]),
    ensures
        tries::next_of(plan, ranked, from) == (if plan[ranked[k] as int].stub {
            GNextImpl::Stub("[STUB:"@ + plan[ranked[k] as int].name@ + "]"@)
        } else {
            GNextImpl::Run(k)
        }),
    decreases k - from,
{
    if from < k {
        assert(void(plan, ranked[from]));
        law_ways_go_in_turn(plan, ranked, from + 1, k);
    }
}

/// Where all that is left is void, there is an end.
pub proof fn law_void_ways_end(plan: Seq<Impl>, ranked: Seq<usize>, from: int)
    requires
        0 <= from <= ranked.len(),
        forall|j: int| from <= j < ranked.len() ==> void(plan, #[trigger] ranked[j]),
    ensures
        tries::next_of(plan, ranked, from) is End,
    decreases ranked.len() - from,
{
    if from < ranked.len() {
        assert(void(plan, ranked[from]));
        law_void_ways_end(plan, ranked, from + 1);
    }
}

/// A proc without a way left fails with the last error, and with one that names
/// it where there was none.
pub proof fn law_last_errors_stand(name: Seq<char>, e: Seq<char>)
    ensures
        tries::final_failure(name, Some(e)) == e,
        name.is_suffix_of(tries::final_failure(name, None)),
        text::has(tries::final_failure(name, None), "All paths failed"@),
{
    let m = tries::final_failure(name, None);
    reveal_strlit("All paths failed for proc: ");
    reveal_strlit("All paths failed");
    assert(m.subrange(m.len() - name.len(), m.len() as int) =~= name);
    assert(m.subrange(0, "All paths failed"@.len() as int) =~= "All paths failed"@);
    assert(text::occurs_at(m, "All paths failed"@, 0));
}

// ── Items ──

/// The items of a text are its lines that hold more than white space, in their
/// order; any other value is one item.
pub proof fn law_items_are_the_full_lines(v: GValue)
    ensures
        v matches GValue::Text(t) ==> tries::items_of(v) == text::lines_spec(t).filter(
            |l: Seq<char>| !text::blank(l),
        ),
        !(v is Text) ==> tries::items_of(v).len() == 1,
{
    match v {
        GValue::Text(t) => {
            let ls = text::lines_spec(t);
            lemma_full_lines(ls, ls.len() as int);
            assert(ls.take(ls.len() as int) =~= ls);
        },
        _ => {},
    }
}

proof fn lemma_full_lines(ls: Seq<Seq<char>>, n: int)
    requires
        0 <= n <= ls.len(),
    ensures
        tries::full_lines(ls, n) == ls.take(n).filter(|l: Seq<char>| !text::blank(l)),
    decreases n,
{
    reveal(Seq::filter);
    if n > 0 {
        lemma_full_lines(ls, n - 1);
        assert(ls.take(n).drop_last() =~= ls.take(n - 1));
        assert(ls.take(n).last() == ls[n - 1]);
        text::lemma_trimmed_empty(ls[n - 1]);
    }
}

/// What is run on for an item is what stands before its first bar, without white
/// space at its ends.
pub proof fn law_items_end_at_the_bar(a: Seq<char>, b: Seq<char>)
    requires
        forall|i: int| 0 <= i < a.len() ==> #[trigger] a[i] != '|',
    ensures
        tries::clean_item(a) == text::trimmed(a),
        tries::clean_item(a + seq!['|'] + b) == text::trimmed(a),
{
    let s = a + seq!['|'] + b;
    text::lemma_find_char_none(a, '|', 0);
    text::lemma_find_char_from(s, '|', 0);
    match text::find_char_spec(s, '|') {
        Some(i) => {
            assert(s[a.len() as int] == '|');
            if i < a.len() {
                assert(s[i] == a[i]);
            }
            assert(s.take(i) =~= a);
        },
        None => {
            assert(s[a.len() as int] == '|');
        },
    }
}

/// The body that is run on an item is that of the implementation with the item in
/// the place of the variable, wherever it stands; a body that does not name it is
/// run as it is.
pub proof fn law_items_take_the_place_of_the_variable(
    body: Seq<char>,
    var: Seq<char>,
    item: Seq<char>,
    k: int,
)
    ensures
        !text::has(body, "{"@ + var + "}"@) ==> tries::expanded(body, var, item) == body,
        text::occurs_at(body, "{"@ + var + "}"@, k) && (forall|j: int|
            0 <= j < k ==> !#[trigger] text::occurs_at(body, "{"@ + var + "}"@, j))
            ==> tries::expanded(body, var, item) == body.take(k) + item + tries::expanded(
            body.skip(k + var.len() + 2),
            var,
            item,
        ),
{
    reveal_strlit("{");
    reveal_strlit("}");
    text_laws::law_replacing_goes_on(body, "{"@ + var + "}"@, item, k);
    assert(("{"@ + var + "}"@).len() == var.len() + 2);
}

/// Behind a finished item the next one is tried with the whole order, whatever
/// place finished the item before: what runs next is the first place of the order
/// that is not void, on the item at hand, and an item is given up only where the
/// whole order is void.
pub proof fn law_every_item_has_the_whole_order(
    p: Proc,
    ranked: Seq<usize>,
    s: GItems,
    v: GValue,
)
    requires
        0 <= s.at < s.items.len(),
    ensures
        ({
            let (t, step) = tries::advance_items(p, ranked, tries::item_done(s, v));
            &&& t.items == s.items
            &&& s.at < t.at <= s.items.len()
            &&& t.parts.len() == s.parts.len() + (if v is Text {
                1int
            } else {
                0int
            }) + (t.at - s.at - 1)
            &&& v matches GValue::Text(x) ==> t.parts[s.parts.len() as int] == x
            &&& match step {
                GItemStep::Run { rank, item, body } => {
                    &&& t.at < s.items.len()
                    &&& t.rank == rank
                    &&& 0 <= rank < ranked.len()
                    &&& forall|j: int|
                        0 <= j < rank ==> void(p.plan@, #[trigger] ranked[j])
                    &&& !p.plan@[ranked[rank] as int].stub
                    &&& p.plan@[ranked[rank] as int].enabled
                    &&& item == tries::clean_item(s.items[t.at])
                    &&& body == tries::expanded(
                        p.plan@[ranked[rank] as int].body_text@,
                        p.foreach_var@,
                        item,
                    )
                },
                GItemStep::Failed(e) => {
                    &&& t.at < s.items.len()
                    &&& forall|j: int|
                        0 <= j < ranked.len() ==> void(p.plan@, #[trigger] ranked[j])
                    &&& p.name@.is_suffix_of(e)
                },
                GItemStep::Done(r) => {
                    &&& t.at == s.items.len()
                    &&& r == text::join_spec(t.parts, "\n---\n---\n"@)
                },
            }
        }),
{
    let done = tries::item_done(s, v);
    lemma_items(p, ranked, done);
    let (t, step) = tries::advance_items(p, ranked, done);
    if v is Text {
        assert(done.parts[s.parts.len() as int] == v->Text_0);
    }
}

/// After a way has failed on an item, the rest of the order is tried on the same
/// item.
pub proof fn law_failed_ways_leave_the_rest(p: Proc, ranked: Seq<usize>, s: GItems)
    requires
        0 <= s.at < s.items.len(),
        0 <= s.rank < ranked.len(),
    ensures
        ({
            let (t, step) = tries::advance_items(p, ranked, GItems { rank: s.rank + 1, ..s });
            &&& s.at <= t.at <= s.items.len()
            &&& step matches GItemStep::Run { rank, .. } ==> (t.at == s.at ==> rank > s.rank
                && forall|j: int| s.rank < j < rank ==> void(p.plan@, #[trigger] ranked[j]))
            &&& step is Failed && t.at == s.at ==> forall|j: int|
                s.rank < j < ranked.len() ==> void(p.plan@, #[trigger] ranked[j])
            &&& t.at > s.at ==> exists|j: int|
                s.rank < j < ranked.len() && p.plan@[(#[trigger] ranked[j]) as int].stub
        }),
{
    lemma_items(p, ranked, GItems { rank: s.rank + 1, ..s });
}

/// What is known of a step over items.
proof fn lemma_items(p: Proc, ranked: Seq<usize>, s: GItems)
    requires
        0 <= s.at <= s.items.len(),
        0 <= s.rank,
    ensures
        ({
            let (t, step) = tries::advance_items(p, ranked, s);
            let from = if t.at == s.at {
                s.rank
            } else {
                0
            };
            &&& t.items == s.items
            &&& s.at <= t.at <= s.items.len()
            &&& t.parts.len() == s.parts.len() + (t.at - s.at)
            &&& forall|i: int| 0 <= i < s.parts.len() ==> t.parts[i] == #[trigger] s.parts[i]
            &&& t.at > s.at ==> exists|j: int|
                s.rank <= j < ranked.len() && p.plan@[(#[trigger] ranked[j]) as int].stub
            &&& match step {
                GItemStep::Run { rank, item, body } => {
                    &&& t.at < s.items.len()
                    &&& t.rank == rank
                    &&& from <= rank < ranked.len()
                    &&& forall|j: int|
                        from <= j < rank ==> void(p.plan@, #[trigger] ranked[j])
                    &&& !p.plan@[ranked[rank] as int].stub
                    &&& p.plan@[ranked[rank] as int].enabled
                    &&& item == tries::clean_item(s.items[t.at])
                    &&& body == tries::expanded(
                        p.plan@[ranked[rank] as int].body_text@,
                        p.foreach_var@,
                        item,
                    )
                },
                GItemStep::Failed(e) => {
                    &&& t.at < s.items.len()
                    &&& forall|j: int|
                        from <= j < ranked.len() ==> void(p.plan@, #[trigger] ranked[j])
                    &&& p.name@.is_suffix_of(e)
                },
                GItemStep::Done(r) => {
                    &&& t.at == s.items.len()
                    &&& r == text::join_spec(t.parts, "\n---\n---\n"@)
                },
            }
        }),
    decreases s.items.len() - s.at, ranked.len() - s.rank,
{
    if s.at < s.items.len() && s.rank < ranked.len() {
        let imp = p.plan@[ranked[s.rank] as int];
        let item = tries::clean_item(s.items[s.at]);
        if imp.stub {
            let t = GItems {
                at: s.at + 1,
                rank: 0,
                parts: s.parts.push(tries::item_stub(imp.name@, item)),
                ..s
            };
            lemma_items(p, ranked, t);
            let u = tries::advance_items(p, ranked, t).0;
            assert forall|i: int| 0 <= i < s.parts.len() implies u.parts[i]
                == #[trigger] s.parts[i] by {
                assert(t.parts[i] == s.parts[i]);
            }
            assert(p.plan@[ranked[s.rank] as int].stub);
        } else if !imp.enabled {
            let t = GItems { rank: s.rank + 1, ..s };
            lemma_items(p, ranked, t);
            assert(void(p.plan@, ranked[s.rank]));
        }
    } else if s.at < s.items.len() {
        let e = "All paths failed for foreach item in: "@ + p.name@;
        assert(e.subrange(e.len() - p.name@.len(), e.len() as int) =~= p.name@);
    }
}

// ── Trying again ──

/// The kinds of errors that may pass by themselves, and how often a proc is tried
/// again on them.
pub open spec fn chances(c: ErrCode) -> int {
    match c {
        ErrCode::Timeout | ErrCode::RateLimit | ErrCode::Network | ErrCode::Truncation => 2,
        ErrCode::Memory | ErrCode::Resource => 1,
        _ => 0,
    }
}

/// A proc is tried again just as often as its first error allows, twice as often
/// where it matters, and waits one second more each time.
pub proof fn law_first_errors_decide(c: ErrCode, e: Seq<char>, critical: bool)
    ensures
        ({
            let t = Tries { started: false, budget: 0, used: 0 };
            let n = if critical {
                2 * chances(c)
            } else {
                chances(c)
            };
            match tries::after_failure(t, c, e, critical) {
                GAfterTry::Again { delay, tries } => n > 0 && delay == 1 && tries == (Tries {
                    started: true,
                    budget: n as u32,
                    used: 1,
                }),
                GAfterTry::Failed { error, incident } => n == 0 && error == e && !incident,
                GAfterTry::Done => false,
            }
        }),
{
}

/// Later errors of a proc change nothing of that.
pub proof fn law_later_errors_use_up_tries(t: Tries, c: ErrCode, e: Seq<char>, critical: bool)
    requires
        t.started,
        t.used < u32::MAX,
    ensures
        match tries::after_failure(t, c, e, critical) {
            GAfterTry::Again { delay, tries } => t.used < t.budget && delay == t.used + 1 && tries
                == (Tries { started: true, budget: t.budget, used: (t.used + 1) as u32 }),
            GAfterTry::Failed { error, incident } => t.used >= t.budget && error == e && !incident,
            GAfterTry::Done => false,
        },
{
}

/// An implementation is tried again as often as it says, with a wait of two
/// seconds that doubles each time; what the same input repeats is not.
pub proof fn law_waits_double(retry: nat, attempt: nat, c: ErrCode)
    ensures
        tries::retry_delay(retry, attempt, c) is Some <==> attempt < retry && c != ErrCode::Data
            && c != ErrCode::Format && c != ErrCode::Schema,
        tries::retry_delay(retry, 0, c) is Some ==> tries::retry_delay(retry, 0, c) == Some(2nat),
        tries::retry_delay(retry, attempt + 1, c) matches Some(d) ==> tries::retry_delay(
            retry,
            attempt,
            c,
        ) matches Some(b) && d == 2 * b,
{
    vstd::arithmetic::power2::lemma2_to64();
    vstd::arithmetic::power2::lemma_pow2_unfold(attempt + 2);
}

// ── Contracts ──

/// A result keeps to the contract of a proc exactly where the proc promises
/// nothing, or the result is a text that has every promised field and of which
/// every condition holds, with the proc in the place of `self`.
pub proof fn law_contracts_are_kept_in_full(p: Proc, v: GValue)
    ensures
        tries::contract_error(p, v) is None <==> (p.contract.outputs@.len() == 0
            && p.contract.invariants@.len() == 0) || (v is Text && (forall|i: int|
            0 <= i < p.contract.outputs@.len() ==> dslresult::field_of(
                (#[trigger] p.contract.outputs@[i])@,
                v->Text_0,
            ) is Some) && (forall|i: int|
            0 <= i < p.contract.invariants@.len() ==> condition::holds(
                Map::empty(),
                map![p.name@ => v],
                text::replace_spec(
                    (#[trigger] p.contract.invariants@[i])@,
                    "@self."@,
                    "@"@ + p.name@ + "."@,
                ),
            ))),
        tries::contract_error(p, v) matches Some(m) ==> text::has(m, "contract violation"@),
{
    let outputs = text::views(p.contract.outputs@);
    match v {
        GValue::Text(t) => {
            lemma_outputs(p, t, 0);
            lemma_invariants(p, v, 0);
        },
        _ => {},
    }
    match tries::contract_error(p, v) {
        Some(m) => {
            reveal_strlit("contract violation: proc '");
            reveal_strlit("contract violation");
            let c = "contract violation"@;
            assert(m.subrange(0, c.len() as int) =~= c);
            assert(text::occurs_at(m, c, 0));
        },
        None => {},
    }
}

proof fn lemma_outputs(p: Proc, t: Seq<char>, i: int)
    requires
        0 <= i <= p.contract.outputs@.len(),
    ensures
        tries::missing_output(text::views(p.contract.outputs@), t, i) is None <==> forall|k: int|
            i <= k < p.contract.outputs@.len() ==> dslresult::field_of(
                (#[trigger] p.contract.outputs@[k])@,
                t,
            ) is Some,
    decreases p.contract.outputs@.len() - i,
{
    if i < p.contract.outputs@.len() {
        lemma_outputs(p, t, i + 1);
        assert(text::views(p.contract.outputs@)[i] == p.contract.outputs@[i]@);
    }
}

proof fn lemma_invariants(p: Proc, v: GValue, i: int)
    requires
        0 <= i <= p.contract.invariants@.len(),
    ensures
        tries::broken_invariant(p, v, i) is None <==> forall|k: int|
            i <= k < p.contract.invariants@.len() ==> condition::holds(
                Map::empty(),
                map![p.name@ => v],
                text::replace_spec(
                    (#[trigger] p.contract.invariants@[k])@,
                    "@self."@,
                    "@"@ + p.name@ + "."@,
                ),
            ),
    decreases p.contract.invariants@.len() - i,
{
    if i < p.contract.invariants@.len() {
        lemma_invariants(p, v, i + 1);
        assert(tries::contract_conditions(p)[i] == text::replace_spec(
            p.contract.invariants@[i]@,
            "@self."@,
            "@"@ + p.name@ + "."@,
        ));
    }
}

/// A result stands exactly where nothing is wrong with it; else it is the
/// failure, and is not tried again.
pub proof fn law_broken_contracts_are_final(t: Tries, violation: Option<Seq<char>>)
    ensures
        match tries::after_result(t, violation) {
            GAfterTry::Done => violation is None,
            GAfterTry::Failed { error, incident } => violation == Some(error) && incident
                == !t.started,
            GAfterTry::Again { .. } => false,
        },
{
}

} // verus!
