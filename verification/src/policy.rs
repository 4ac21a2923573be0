//! Policies: what is to be measured, with which command, and what came of it.

use crate::ast;
use crate::ast::{Impl, Proc};
use crate::order::TextMap;
use crate::text;
use vstd::prelude::*;

verus! {

/// How long a measurement stays good, in seconds.
pub const COST_MEASURE_TTL_SECS: u64 = 86_400;

/// The length of the number that starts at the `i`-th character: digits and at
/// most one dot.
pub open spec fn number_end(s: Seq<char>, i: int, dot: bool) -> int
    decreases s.len() - i,
{
    if 0 <= i < s.len() && text::is_digit(s[i]) {
        number_end(s, i + 1, dot)
    } else if 0 <= i < s.len() && s[i] == '.' && !dot {
        number_end(s, i + 1, true)
    } else {
        i
    }
}

/// The first number from the `i`-th character on.
pub open spec fn number_from(s: Seq<char>, i: int) -> Option<Seq<char>>
    decreases s.len() - i,
{
    if i < 0 || i >= s.len() {
        None
    } else if text::is_digit(s[i]) {
        Some(s.subrange(i, number_end(s, i, false)))
    } else {
        number_from(s, i + 1)
    }
}

/// Whether a character is a decimal digit.
fn is_number_char(c: char) -> (r: bool)
    ensures
        r == text::is_digit(c),
{
    '0' as u32 <= c as u32 && c as u32 <= '9' as u32
}

/// The text of the first number in a text, whatever stands around it: digits and
/// at most one dot, from the first digit on.
pub fn first_number(s: &str) -> (r: Option<String>)
    ensures
        text::opt_view(r) == number_from(s@, 0),
{
    let chars = text::chars_of(s);
    let n: usize = chars.len();
    let mut i: usize = 0;
    while i < n
        invariant
            i <= n,
            n == chars@.len(),
            chars@ == s@,
            number_from(s@, 0) == number_from(s@, i as int),
        decreases n - i,
    {
        if is_number_char(chars[i]) {
            let mut k: usize = i;
            let mut dot = false;
            while k < n && (is_number_char(chars[k]) || (chars[k] == '.' && !dot))
                invariant
                    i <= k <= n,
                    n == chars@.len(),
                    chars@ == s@,
                    number_end(s@, i as int, false) == number_end(s@, k as int, dot),
                decreases n - k,
            {
                if chars[k] == '.' {
                    dot = true;
                }
                k += 1;
            }
            return Some(text::string_of_range(chars.as_slice(), i, k));
        }
        i += 1;
    }
    None
}

/// The proc and the implementation that a key names: the first dot separates
/// them.
pub open spec fn key_parts(key: Seq<char>) -> (Seq<char>, Seq<char>) {
    match text::split_once_spec(key, '.') {
        Some(p) => p,
        None => (key, Seq::empty()),
    }
}

/// The proc and the implementation that a key names.
pub fn split_key(key: &str) -> (r: (String, String))
    ensures
        (r.0@, r.1@) == key_parts(key@),
{
    match text::split_once(key, '.') {
        Some(p) => p,
        None => {
            let e = String::new();
            assert(e@ =~= Seq::<char>::empty());
            (key.to_owned(), e)
        },
    }
}

/// A proc's name has no dot: then its key names it and the implementation.
pub proof fn law_keys_read_back(proc: Seq<char>, imp: Seq<char>)
    requires
        text::find_char_spec(proc, '.') is None,
    ensures
        key_parts(proc + "."@ + imp) == (proc, imp),
{
    reveal_strlit(".");
    let s = proc + "."@ + imp;
    let n = proc.len() as int;
    text::lemma_find_char_from(proc, '.', 0);
    assert(s[n] == '.');
    assert forall|j: int| 0 <= j < n implies s[j] != '.' by {
        assert(s[j] == proc[j]);
    }
    text::lemma_find_char_is(s, '.', 0, n);
    assert(s.take(n) =~= proc);
    assert(s.skip(n + 1) =~= imp);
}

/// A field of a cost.
#[derive(Debug, Clone, Copy, PartialEq, Eq, Structural)]
pub enum CostField {
    Latency,
    Risk,
    Tokens,
    Money,
}

/// Where a cost comes from.
#[derive(Debug)]
pub enum CostValue {
    /// It is this number, in binary form.
    Direct(u64),
    /// This command measures it.
    Measure(String),
}

/// Where a cost comes from, as values.
pub enum GCost {
    Direct(u64),
    Measure(Seq<char>),
}

impl CostValue {
    pub open spec fn view(&self) -> GCost {
        match self {
            CostValue::Direct(v) => GCost::Direct(*v),
            CostValue::Measure(c) => GCost::Measure(c@),
        }
    }

    /// An equal one of its own.
    pub fn duplicate(&self) -> (r: CostValue)
        ensures
            r@ == self@,
    {
        match self {
            CostValue::Direct(v) => CostValue::Direct(*v),
            CostValue::Measure(c) => CostValue::Measure(c.clone()),
        }
    }
}

/// What a policy says of the cost of an implementation.
#[derive(Debug)]
pub struct CostSpec {
    pub latency: Option<CostValue>,
    pub risk: Option<CostValue>,
    pub tokens: Option<CostValue>,
    pub money: Option<CostValue>,
}

/// A field that is to be found out.
#[derive(Debug)]
pub struct CostTask {
    /// The places of the proc and the implementation.
    pub proc: usize,
    pub imp: usize,
    pub field: CostField,
    pub value: CostValue,
}

/// A field that is to be found out, as values.
pub type GCostTask = (int, int, CostField, GCost);

/// The tasks as values.
pub open spec fn task_views(v: Seq<CostTask>) -> Seq<GCostTask> {
    v.map_values(|t: CostTask| (t.proc as int, t.imp as int, t.field, t.value@))
}

/// The task of one field, if the policy speaks of it.
pub open spec fn field_task(p: int, i: int, field: CostField, v: Option<CostValue>) -> Seq<
    GCostTask,
> {
    match v {
        Some(c) => seq![(p, i, field, c@)],
        None => Seq::empty(),
    }
}

/// The tasks of one implementation, field by field.
pub open spec fn impl_tasks(p: int, i: int, s: CostSpec) -> Seq<GCostTask> {
    field_task(p, i, CostField::Latency, s.latency) + field_task(p, i, CostField::Risk, s.risk)
        + field_task(p, i, CostField::Tokens, s.tokens) + field_task(
        p,
        i,
        CostField::Money,
        s.money,
    )
}

/// The key of an implementation in a policy.
pub open spec fn cost_key(proc: Seq<char>, imp: Seq<char>) -> Seq<char> {
    proc + "."@ + imp
}

/// The tasks of the first `n` implementations of a proc.
pub open spec fn plan_tasks(
    costs: Map<Seq<char>, CostSpec>,
    p: int,
    proc: Proc,
    n: int,
) -> Seq<GCostTask>
    decreases n,
{
    if n <= 0 {
        Seq::empty()
    } else {
        let key = cost_key(proc.name@, proc.plan@[n - 1].name@);
        if costs.dom().contains(key) {
            plan_tasks(costs, p, proc, n - 1) + impl_tasks(p, n - 1, costs[key])
        } else {
            plan_tasks(costs, p, proc, n - 1)
        }
    }
}

/// The tasks of the first `n` procs.
pub open spec fn policy_tasks(costs: Map<Seq<char>, CostSpec>, procs: Seq<Proc>, n: int) -> Seq<
    GCostTask,
>
    decreases n,
{
    if n <= 0 {
        Seq::empty()
    } else {
        policy_tasks(costs, procs, n - 1) + plan_tasks(
            costs,
            n - 1,
            procs[n - 1],
            procs[n - 1].plan@.len() as int,
        )
    }
}

/// Adds the task of one field, if the policy speaks of it.
fn push_task(out: &mut Vec<CostTask>, p: usize, i: usize, field: CostField, v: &Option<CostValue>)
    ensures
        task_views(final(out)@) == task_views(old(out)@) + field_task(
            p as int,
            i as int,
            field,
            *v,
        ),
{
    let ghost before = task_views(out@);
    match v {
        Some(c) => {
            let value = c.duplicate();
            let ghost t = (p as int, i as int, field, value@);
            out.push(CostTask { proc: p, imp: i, field, value });
            assert(task_views(out@) =~= before + seq![t]);
        },
        None => {
            assert(task_views(out@) =~= before + Seq::<GCostTask>::empty());
        },
    }
}

/// What a policy has to find out of a pipeline: proc by proc, implementation by
/// implementation and field by field.
pub fn apply_policy(procs: &Vec<Proc>, costs: &TextMap<CostSpec>) -> (r: Vec<CostTask>)
    requires
        costs.wf(),
    ensures
        task_views(r@) == policy_tasks(costs@, procs@, procs@.len() as int),
{
    let mut out: Vec<CostTask> = Vec::new();
    let mut p: usize = 0;
    assert(task_views(out@) =~= Seq::<GCostTask>::empty());
    while p < procs.len()
        invariant
            p <= procs@.len(),
            costs.wf(),
            task_views(out@) == policy_tasks(costs@, procs@, p as int),
        decreases procs@.len() - p,
    {
        let proc: &Proc = &procs[p];
        let ghost start = task_views(out@);
        let mut i: usize = 0;
        assert(start + plan_tasks(costs@, p as int, *proc, 0) =~= start);
        while i < proc.plan.len()
            invariant
                i <= proc.plan@.len(),
                costs.wf(),
                task_views(out@) == start + plan_tasks(costs@, p as int, *proc, i as int),
            decreases proc.plan@.len() - i,
        {
            let mut key = proc.name.clone();
            key.append(".");
            key.append(proc.plan[i].name.as_str());
            let ghost before = task_views(out@);
            match costs.get(key.as_str()) {
                Some(s) => {
                    push_task(&mut out, p, i, CostField::Latency, &s.latency);
                    push_task(&mut out, p, i, CostField::Risk, &s.risk);
                    push_task(&mut out, p, i, CostField::Tokens, &s.tokens);
                    push_task(&mut out, p, i, CostField::Money, &s.money);
                    assert(task_views(out@) =~= before + impl_tasks(p as int, i as int, *s));
                    assert(task_views(out@) =~= start + (plan_tasks(
                        costs@,
                        p as int,
                        *proc,
                        i as int,
                    ) + impl_tasks(p as int, i as int, *s)));
                },
                None => {},
            }
            i += 1;
        }
        p += 1;
    }
    out
}

/// The command that measures a cost for a topic.
pub fn measure_command(command: &str, topic: &str) -> (r: String)
    ensures
        r@ == text::replace_spec(command@, "{topic}"@, topic@),
{
    proof {
        reveal_strlit("{topic}");
    }
    text::replace(command, "{topic}", topic)
}

/// The number that a measurement gave: none where the command failed or printed
/// no number.
pub fn measured(success: bool, stdout: &str) -> (r: Option<String>)
    ensures
        text::opt_view(r) == (if success {
            number_from(stdout@, 0)
        } else {
            None
        }),
{
    if success {
        first_number(stdout)
    } else {
        None
    }
}

} // verus!
