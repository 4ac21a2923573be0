//! The run of a single proc: its contract, the order of its implementations,
//! the tries of each of them, and the items of a proc that runs once for each.

use crate::ast;
use crate::ast::{GValue, Impl, Proc, Value};
use crate::condition;
use crate::dslresult;
use crate::errflow;
use crate::errflow::{Action, Backoff, ErrCode};
use crate::order::TextMap;
use crate::text;
use vstd::prelude::*;

verus! {

// ── Contracts ──

/// The first of the promised fields from the `i`-th on that a result lacks.
pub open spec fn missing_output(outputs: Seq<Seq<char>>, t: Seq<char>, i: int) -> Option<Seq<char>>
    decreases outputs.len() - i,
{
    if i >= outputs.len() {
        None
    } else if dslresult::field_of(outputs[i], t) is None {
        Some(outputs[i])
    } else {
        missing_output(outputs, t, i + 1)
    }
}

/// The first of the conditions of a contract from the `i`-th on that does not
/// hold of a result, as it was written.
pub open spec fn broken_invariant(p: Proc, v: GValue, i: int) -> Option<Seq<char>>
    decreases p.contract.invariants@.len() - i,
{
    if i < 0 || i >= p.contract.invariants@.len() {
        None
    } else if !condition::holds(Map::empty(), map![p.name@ => v], contract_conditions(p)[i]) {
        Some(p.contract.invariants@[i]@)
    } else {
        broken_invariant(p, v, i + 1)
    }
}

/// What is wrong with a result of a proc.
pub open spec fn contract_error(p: Proc, v: GValue) -> Option<Seq<char>> {
    let outputs = text::views(p.contract.outputs@);
    let invariants = text::views(p.contract.invariants@);
    if outputs.len() == 0 && invariants.len() == 0 {
        None
    } else {
        match v {
            GValue::Text(t) => match missing_output(outputs, t, 0) {
                Some(f) => Some(
                    "contract violation: proc '"@ + p.name@ + "' missing required output field '"@
                        + f + "'"@,
                ),
                None => match broken_invariant(p, v, 0) {
                    Some(c) => Some(
                        "contract violation: proc '"@ + p.name@ + "' invariant failed: "@ + c,
                    ),
                    None => None,
                },
            },
            _ => Some(
                "contract violation: proc '"@ + p.name@
                    + "' declared outputs/invariants but result is not text-structured"@,
            ),
        }
    }
}

/// The conditions of a contract as conditions on results: a proc speaks of
/// itself as `self`.
pub open spec fn contract_conditions(p: Proc) -> Seq<Seq<char>> {
    text::views(p.contract.invariants@).map_values(
        |c: Seq<char>| text::replace_spec(c, "@self."@, "@"@ + p.name@ + "."@),
    )
}

/// The conditions of a contract as conditions on results.
pub fn invariant_conditions(p: &Proc) -> (r: Vec<String>)
    ensures
        text::views(r@) == contract_conditions(*p),
{
    proof {
        reveal_strlit("@self.");
    }
    let mut me = "@".to_owned();
    me.append(p.name.as_str());
    me.append(".");
    let ghost all = contract_conditions(*p);
    let mut out: Vec<String> = Vec::new();
    let mut i: usize = 0;
    assert(text::views(out@) =~= all.take(0));
    while i < p.contract.invariants.len()
        invariant
            i <= p.contract.invariants@.len(),
            me@ == "@"@ + p.name@ + "."@,
            "@self."@.len() > 0,
            all == contract_conditions(*p),
            text::views(out@) == all.take(i as int),
        decreases p.contract.invariants@.len() - i,
    {
        let c = text::replace(p.contract.invariants[i].as_str(), "@self.", me.as_str());
        assert(c@ == all[i as int]);
        let ghost before = out@;
        out.push(c);
        assert(text::views(out@) =~= text::views(before).push(all[i as int]));
        assert(all.take(i + 1) =~= all.take(i as int).push(all[i as int]));
        i += 1;
    }
    assert(all.take(i as int) =~= all);
    out
}

/// Checks a result against the contract of a proc: every promised field is
/// there and every condition holds.
pub fn check_contract(p: &Proc, v: &Value) -> (r: Result<(), String>)
    ensures
        match r {
            Ok(_) => contract_error(*p, v@) is None,
            Err(m) => contract_error(*p, v@) == Some(m@),
        },
{
    let ghost outputs = text::views(p.contract.outputs@);
    let ghost invariants = text::views(p.contract.invariants@);
    if p.contract.outputs.len() == 0 && p.contract.invariants.len() == 0 {
        return Ok(());
    }
    let mut m = "contract violation: proc '".to_owned();
    m.append(p.name.as_str());
    let t: &str = match v {
        Value::Text(t) => t.as_str(),
        _ => {
            m.append("' declared outputs/invariants but result is not text-structured");
            return Err(m);
        },
    };
    let mut i: usize = 0;
    while i < p.contract.outputs.len()
        invariant
            i <= p.contract.outputs@.len(),
            outputs == text::views(p.contract.outputs@),
            invariants == text::views(p.contract.invariants@),
            outputs.len() != 0 || invariants.len() != 0,
            v@ == GValue::Text(t@),
            m@ == "contract violation: proc '"@ + p.name@,
            missing_output(outputs, t@, 0) == missing_output(outputs, t@, i as int),
        decreases p.contract.outputs@.len() - i,
    {
        if dslresult::extract_field(p.contract.outputs[i].as_str(), t).is_none() {
            m.append("' missing required output field '");
            m.append(p.contract.outputs[i].as_str());
            m.append("'");
            return Err(m);
        }
        i += 1;
    }
    let params: TextMap<String> = TextMap::new();
    let mut results: TextMap<Value> = TextMap::new();
    results.insert(p.name.clone(), v.duplicate());
    assert(condition::param_views(params) =~= Map::<Seq<char>, Seq<char>>::empty());
    assert(ast::result_views(results) =~= map![p.name@ => v@]);
    let conds = invariant_conditions(p);
    assert(conds@.len() == text::views(conds@).len());
    let mut j: usize = 0;
    while j < p.contract.invariants.len()
        invariant
            j <= p.contract.invariants@.len(),
            outputs == text::views(p.contract.outputs@),
            invariants == text::views(p.contract.invariants@),
            outputs.len() != 0 || invariants.len() != 0,
            v@ == GValue::Text(t@),
            m@ == "contract violation: proc '"@ + p.name@,
            missing_output(outputs, t@, 0) is None,
            params.wf(),
            results.wf(),
            condition::param_views(params) == Map::<Seq<char>, Seq<char>>::empty(),
            ast::result_views(results) == map![p.name@ => v@],
            text::views(conds@) == contract_conditions(*p),
            conds@.len() == p.contract.invariants@.len(),
            broken_invariant(*p, v@, 0) == broken_invariant(*p, v@, j as int),
        decreases p.contract.invariants@.len() - j,
    {
        assert(conds@[j as int]@ == contract_conditions(*p)[j as int]);
        if !condition::eval_when(&params, &results, conds[j].as_str()) {
            m.append("' invariant failed: ");
            m.append(p.contract.invariants[j].as_str());
            return Err(m);
        }
        j += 1;
    }
    Ok(())
}

/// What breaks a contract is an error of that kind, unless it tells of the user
/// stopping it.
pub proof fn law_violations_are_contract_errors(s: Seq<char>)
    requires
        text::has(s, "contract violation"@),
        !errflow::says_cancelled(s),
    ensures
        errflow::kind_of_lower(s) == ErrCode::Contract,
        errflow::response_to(errflow::kind_of_lower(s)) == errflow::Response::Exit,
{
}

// ── Tries of a proc ──

/// How often a proc has been tried again.
#[derive(Debug, Clone, Copy, PartialEq, Eq, Structural)]
pub struct Tries {
    /// Whether the first try is over.
    pub started: bool,
    /// How often the proc may be tried again.
    pub budget: u32,
    pub used: u32,
}

/// What follows a try.
#[derive(Debug)]
pub enum AfterTry {
    /// The result stands.
    Done,
    /// The proc has failed; `incident` tells whether that is put on record as a
    /// broken contract.
    Failed { error: String, incident: bool },
    /// The proc is tried again after so many seconds.
    Again { delay: u64, tries: Tries },
}

/// What follows a try, as values.
pub enum GAfterTry {
    Done,
    Failed { error: Seq<char>, incident: bool },
    Again { delay: nat, tries: Tries },
}

impl AfterTry {
    pub open spec fn view(&self) -> GAfterTry {
        match self {
            AfterTry::Done => GAfterTry::Done,
            AfterTry::Failed { error, incident } => GAfterTry::Failed {
                error: error@,
                incident: *incident,
            },
            AfterTry::Again { delay, tries } => GAfterTry::Again {
                delay: *delay as nat,
                tries: *tries,
            },
        }
    }
}

/// How often an error of this kind lets a proc be tried again.
pub open spec fn budget_for(c: ErrCode, critical: bool) -> u32 {
    match errflow::plan_for_proc(c, critical) {
        Action::Retry { budget, .. } => budget,
        _ => 0,
    }
}

/// What follows a try that failed with an error of this kind: the first error
/// decides how often the proc is tried again.
pub open spec fn after_failure(t: Tries, c: ErrCode, e: Seq<char>, critical: bool) -> GAfterTry {
    let now = if t.started {
        t
    } else {
        Tries { started: true, budget: budget_for(c, critical), used: 0 }
    };
    if now.used < now.budget {
        GAfterTry::Again {
            delay: (now.used + 1) as nat,
            tries: Tries { used: (now.used + 1) as u32, ..now },
        }
    } else {
        GAfterTry::Failed { error: e, incident: false }
    }
}

/// What follows a try that gave a result, given what is wrong with it.
pub open spec fn after_result(t: Tries, violation: Option<Seq<char>>) -> GAfterTry {
    match violation {
        None => GAfterTry::Done,
        Some(e) => GAfterTry::Failed { error: e, incident: !t.started },
    }
}

/// The tries before the first one.
pub fn no_tries() -> (r: Tries)
    ensures
        r == (Tries { started: false, budget: 0, used: 0 }),
{
    Tries { started: false, budget: 0, used: 0 }
}

/// What follows a try that failed: the kind of the first error decides how
/// often the proc is tried again.
pub fn try_failed(t: Tries, e: &str, critical: bool) -> (r: AfterTry)
    ensures
        r@ == after_failure(t, errflow::kind_of(e@), e@, critical),
{
    let now = if t.started {
        t
    } else {
        let budget: u32 = match errflow::strategy_for(errflow::classify(e), critical) {
            Action::Retry { budget, .. } => budget,
            _ => 0,
        };
        Tries { started: true, budget, used: 0 }
    };
    if now.used < now.budget {
        let wait = Backoff::Linear;
        AfterTry::Again {
            delay: wait.delay_secs(now.used),
            tries: Tries { started: true, budget: now.budget, used: now.used + 1 },
        }
    } else {
        AfterTry::Failed { error: e.to_owned(), incident: false }
    }
}

/// What follows a try that gave a result. A broken contract is not tried again.
pub fn try_gave(t: Tries, p: &Proc, v: &Value) -> (r: AfterTry)
    ensures
        r@ == after_result(t, contract_error(*p, v@)),
{
    match check_contract(p, v) {
        Ok(_) => AfterTry::Done,
        Err(e) => AfterTry::Failed { error: e, incident: !t.started },
    }
}

/// A proc is tried at most four times again, and only where it matters more
/// than twice; each further try uses up one.
pub proof fn law_tries_end(t: Tries, c: ErrCode, e: Seq<char>, critical: bool)
    requires
        t.started ==> t.budget <= (if critical {
            4int
        } else {
            2int
        }),
    ensures
        match after_failure(t, c, e, critical) {
            GAfterTry::Again { delay, tries } => {
                &&& tries.started
                &&& tries.used <= tries.budget
                &&& tries.budget <= (if critical {
                    4int
                } else {
                    2int
                })
                &&& tries.used == (if t.started {
                    t.used + 1
                } else {
                    1int
                })
                &&& delay == tries.used
            },
            GAfterTry::Failed { error, incident } => error == e && !incident,
            GAfterTry::Done => false,
        },
{
}

// ── Implementations in turn ──

/// What is tried next.
#[derive(Debug)]
pub enum NextImpl {
    /// The result of a stub.
    Stub(String),
    /// The implementation at this place of the order.
    Run(usize),
    /// Nothing is left.
    End,
}

/// What is tried next, as values.
pub enum GNextImpl {
    Stub(Seq<char>),
    Run(int),
    End,
}

impl NextImpl {
    pub open spec fn view(&self) -> GNextImpl {
        match self {
            NextImpl::Stub(s) => GNextImpl::Stub(s@),
            NextImpl::Run(i) => GNextImpl::Run(*i as int),
            NextImpl::End => GNextImpl::End,
        }
    }
}

/// The result of a stub.
pub open spec fn stub_text(name: Seq<char>) -> Seq<char> {
    "[STUB:"@ + name + "]"@
}

/// What is tried next from the `i`-th place of the order on: the first stub or
/// enabled implementation.
pub open spec fn next_of(plan: Seq<Impl>, ranked: Seq<usize>, i: int) -> GNextImpl
    decreases ranked.len() - i,
{
    if i >= ranked.len() {
        GNextImpl::End
    } else {
        let imp = plan[ranked[i] as int];
        if imp.stub {
            GNextImpl::Stub(stub_text(imp.name@))
        } else if imp.enabled {
            GNextImpl::Run(i)
        } else {
            next_of(plan, ranked, i + 1)
        }
    }
}

/// What is tried next from the `from`-th place of the order on.
pub fn next_impl(plan: &Vec<Impl>, ranked: &Vec<usize>, from: usize) -> (r: NextImpl)
    requires
        forall|k: int| 0 <= k < ranked@.len() ==> #[trigger] ranked@[k] < plan@.len(),
        from <= ranked@.len(),
    ensures
        r@ == next_of(plan@, ranked@, from as int),
        r matches NextImpl::Run(i) ==> from <= i < ranked@.len(),
{
    let mut i: usize = from;
    while i < ranked.len()
        invariant
            from <= i <= ranked@.len(),
            forall|k: int| 0 <= k < ranked@.len() ==> #[trigger] ranked@[k] < plan@.len(),
            next_of(plan@, ranked@, from as int) == next_of(plan@, ranked@, i as int),
        decreases ranked@.len() - i,
    {
        let imp: &Impl = &plan[ranked[i]];
        if imp.stub {
            let mut s = "[STUB:".to_owned();
            s.append(imp.name.as_str());
            s.append("]");
            return NextImpl::Stub(s);
        }
        if imp.enabled {
            return NextImpl::Run(i);
        }
        i += 1;
    }
    NextImpl::End
}

/// No way is left out: what is tried next is a stub or enabled, all that stands
/// before it in the order is neither, and a proc is given up only where all that
/// is left is neither.
pub proof fn law_every_way_is_tried(plan: Seq<Impl>, ranked: Seq<usize>, i: int)
    requires
        0 <= i <= ranked.len(),
    ensures
        match next_of(plan, ranked, i) {
            GNextImpl::Run(k) => {
                &&& i <= k < ranked.len()
                &&& plan[ranked[k] as int].enabled && !plan[ranked[k] as int].stub
                &&& forall|j: int| i <= j < k ==> idle(plan[(#[trigger] ranked[j]) as int])
            },
            GNextImpl::Stub(t) => exists|k: int|
                i <= k < ranked.len() && plan[(#[trigger] ranked[k]) as int].stub && t == stub_text(
                    plan[ranked[k] as int].name@,
                ) && (forall|j: int| i <= j < k ==> idle(plan[(#[trigger] ranked[j]) as int])),
            GNextImpl::End => forall|j: int|
                i <= j < ranked.len() ==> idle(plan[(#[trigger] ranked[j]) as int]),
        },
    decreases ranked.len() - i,
{
    if i < ranked.len() {
        let imp = plan[ranked[i] as int];
        if imp.stub {
            assert(plan[ranked[i] as int].stub);
        } else if !imp.enabled {
            law_every_way_is_tried(plan, ranked, i + 1);
            match next_of(plan, ranked, i + 1) {
                GNextImpl::Stub(t) => {
                    let k = choose|k: int|
                        i + 1 <= k < ranked.len() && plan[(#[trigger] ranked[k]) as int].stub && t
                            == stub_text(plan[ranked[k] as int].name@) && (forall|j: int|
                            i + 1 <= j < k ==> idle(plan[(#[trigger] ranked[j]) as int]));
                    assert(plan[ranked[k] as int].stub);
                },
                _ => {},
            }
        }
    }
}

/// An implementation that is neither a stub nor enabled.
pub open spec fn idle(imp: Impl) -> bool {
    !imp.stub && !imp.enabled
}

/// The error of a proc without a way left: the last one, or that there was none.
pub open spec fn final_failure(name: Seq<char>, last: Option<Seq<char>>) -> Seq<char> {
    match last {
        Some(e) => e,
        None => "All paths failed for proc: "@ + name,
    }
}

/// The error of a proc without a way left.
pub fn exhausted(p: &Proc, last: Option<String>) -> (r: String)
    ensures
        r@ == final_failure(p.name@, text::opt_view(last)),
{
    match last {
        Some(e) => e,
        None => {
            let mut m = "All paths failed for proc: ".to_owned();
            m.append(p.name.as_str());
            m
        },
    }
}

/// Whether an implementation may run: its condition holds, or it has none.
pub open spec fn may_run(
    imp: Impl,
    params: Map<Seq<char>, Seq<char>>,
    results: Map<Seq<char>, GValue>,
) -> bool {
    match imp.when {
        None => true,
        Some(c) => condition::holds(params, results, c@),
    }
}

/// Whether an implementation may run.
pub fn is_eligible(params: &TextMap<String>, results: &TextMap<Value>, imp: &Impl) -> (r: bool)
    requires
        params.wf(),
        results.wf(),
    ensures
        r == may_run(*imp, condition::param_views(*params), ast::result_views(*results)),
{
    match &imp.when {
        None => true,
        Some(c) => condition::eval_when(params, results, c.as_str()),
    }
}

/// The places of the first `n` of the allowed implementations that may run.
pub open spec fn eligible_upto(
    plan: Seq<Impl>,
    allowed: Seq<usize>,
    params: Map<Seq<char>, Seq<char>>,
    results: Map<Seq<char>, GValue>,
    n: int,
) -> Seq<usize>
    decreases n,
{
    if n <= 0 {
        Seq::empty()
    } else {
        let before = eligible_upto(plan, allowed, params, results, n - 1);
        if may_run(plan[allowed[n - 1] as int], params, results) {
            before.push(allowed[n - 1])
        } else {
            before
        }
    }
}

/// The places of the allowed implementations that may run.
pub fn eligible(
    plan: &Vec<Impl>,
    allowed: &Vec<usize>,
    params: &TextMap<String>,
    results: &TextMap<Value>,
) -> (r: Vec<usize>)
    requires
        forall|k: int| 0 <= k < allowed@.len() ==> #[trigger] allowed@[k] < plan@.len(),
        params.wf(),
        results.wf(),
    ensures
        r@ == eligible_upto(
            plan@,
            allowed@,
            condition::param_views(*params),
            ast::result_views(*results),
            allowed@.len() as int,
        ),
        forall|k: int| 0 <= k < r@.len() ==> #[trigger] r@[k] < plan@.len(),
{
    let mut out: Vec<usize> = Vec::new();
    let mut i: usize = 0;
    while i < allowed.len()
        invariant
            i <= allowed@.len(),
            params.wf(),
            results.wf(),
            forall|k: int| 0 <= k < allowed@.len() ==> #[trigger] allowed@[k] < plan@.len(),
            forall|k: int| 0 <= k < out@.len() ==> #[trigger] out@[k] < plan@.len(),
            out@ == eligible_upto(
                plan@,
                allowed@,
                condition::param_views(*params),
                ast::result_views(*results),
                i as int,
            ),
        decreases allowed@.len() - i,
    {
        if is_eligible(params, results, &plan[allowed[i]]) {
            out.push(allowed[i]);
        }
        i += 1;
    }
    out
}

/// What becomes of a proc before its first try.
#[derive(Debug)]
pub enum Ways {
    /// It is passed over: it has implementations, and the condition of none holds.
    Nothing,
    /// These implementations may be tried.
    Try(Vec<usize>),
}

/// What becomes of a proc before its first try, as values.
pub enum GWays {
    Nothing,
    Try(Seq<usize>),
}

impl Ways {
    pub open spec fn view(&self) -> GWays {
        match self {
            Ways::Nothing => GWays::Nothing,
            Ways::Try(v) => GWays::Try(v@),
        }
    }
}

/// Whether an implementation of the plan may run.
pub open spec fn any_may_run(
    plan: Seq<Impl>,
    params: Map<Seq<char>, Seq<char>>,
    results: Map<Seq<char>, GValue>,
) -> bool {
    exists|k: int| 0 <= k < plan.len() && may_run(#[trigger] plan[k], params, results)
}

/// What becomes of a proc before its first try: where it has implementations and
/// the condition of none of them holds, it is passed over. Where one may run that
/// is not allowed, it is not: it is left with what is allowed, be it nothing.
pub open spec fn ways_of(
    plan: Seq<Impl>,
    allowed: Seq<usize>,
    params: Map<Seq<char>, Seq<char>>,
    results: Map<Seq<char>, GValue>,
) -> GWays {
    let open = eligible_upto(plan, allowed, params, results, allowed.len() as int);
    if plan.len() > 0 && !any_may_run(plan, params, results) {
        GWays::Nothing
    } else {
        GWays::Try(open)
    }
}

/// Whether an implementation of the plan may run.
fn has_way(plan: &Vec<Impl>, params: &TextMap<String>, results: &TextMap<Value>) -> (r: bool)
    requires
        params.wf(),
        results.wf(),
    ensures
        r == any_may_run(plan@, condition::param_views(*params), ast::result_views(*results)),
{
    let ghost ps = condition::param_views(*params);
    let ghost rs = ast::result_views(*results);
    let mut i: usize = 0;
    while i < plan.len()
        invariant
            i <= plan@.len(),
            params.wf(),
            results.wf(),
            ps == condition::param_views(*params),
            rs == ast::result_views(*results),
            forall|k: int| 0 <= k < i ==> !may_run(#[trigger] plan@[k], ps, rs),
        decreases plan@.len() - i,
    {
        if is_eligible(params, results, &plan[i]) {
            assert(may_run(plan@[i as int], ps, rs));
            return true;
        }
        i += 1;
    }
    false
}

/// What becomes of a proc before its first try.
pub fn ways(
    plan: &Vec<Impl>,
    allowed: &Vec<usize>,
    params: &TextMap<String>,
    results: &TextMap<Value>,
) -> (r: Ways)
    requires
        forall|k: int| 0 <= k < allowed@.len() ==> #[trigger] allowed@[k] < plan@.len(),
        params.wf(),
        results.wf(),
    ensures
        r@ == ways_of(
            plan@,
            allowed@,
            condition::param_views(*params),
            ast::result_views(*results),
        ),
        r matches Ways::Try(v) ==> forall|k: int|
            0 <= k < v@.len() ==> #[trigger] v@[k] < plan@.len(),
{
    if plan.len() > 0 && !has_way(plan, params, results) {
        Ways::Nothing
    } else {
        Ways::Try(eligible(plan, allowed, params, results))
    }
}

/// A proc is passed over exactly where it has implementations and each of them,
/// allowed or not, has a condition that does not hold.
pub proof fn law_unmet_conditions_pass_over(
    plan: Seq<Impl>,
    allowed: Seq<usize>,
    params: Map<Seq<char>, Seq<char>>,
    results: Map<Seq<char>, GValue>,
)
    ensures
        ways_of(plan, allowed, params, results) is Nothing <==> plan.len() > 0 && forall|k: int|
            0 <= k < plan.len() ==> (#[trigger] plan[k]).when is Some && !condition::holds(
                params,
                results,
                plan[k].when->0@,
            ),
{
    if ways_of(plan, allowed, params, results) is Nothing {
        assert forall|k: int| 0 <= k < plan.len() implies (#[trigger] plan[k]).when is Some
            && !condition::holds(params, results, plan[k].when->0@) by {
            assert(!may_run(plan[k], params, results));
        }
    }
}

/// A proc that is left with no way though it has one that may run is not passed
/// over: it is tried with nothing, and so every path has failed.
pub proof fn law_lost_ways_are_a_failure(
    plan: Seq<Impl>,
    allowed: Seq<usize>,
    params: Map<Seq<char>, Seq<char>>,
    results: Map<Seq<char>, GValue>,
    i: int,
)
    requires
        0 <= i < plan.len(),
        may_run(plan[i], params, results),
        forall|k: int|
            0 <= k < allowed.len() ==> !may_run(plan[(#[trigger] allowed[k]) as int], params, results),
    ensures
        ways_of(plan, allowed, params, results) == GWays::Try(Seq::empty()),
        next_of(plan, Seq::empty(), 0) == GNextImpl::End,
{
    lemma_none_eligible(plan, allowed, params, results, allowed.len() as int);
    let open = eligible_upto(plan, allowed, params, results, allowed.len() as int);
    assert(open =~= Seq::<usize>::empty());
}

/// Nothing is eligible where nothing may run.
proof fn lemma_none_eligible(
    plan: Seq<Impl>,
    allowed: Seq<usize>,
    params: Map<Seq<char>, Seq<char>>,
    results: Map<Seq<char>, GValue>,
    n: int,
)
    requires
        n <= allowed.len(),
    ensures
        eligible_upto(plan, allowed, params, results, n).len() == 0 <==> forall|k: int|
            0 <= k < n ==> !may_run(plan[(#[trigger] allowed[k]) as int], params, results),
    decreases n,
{
    if n > 0 {
        lemma_none_eligible(plan, allowed, params, results, n - 1);
        if !may_run(plan[allowed[n - 1] as int], params, results) && eligible_upto(
            plan,
            allowed,
            params,
            results,
            n,
        ).len() == 0 {
            assert forall|k: int| 0 <= k < n implies !may_run(
                plan[(#[trigger] allowed[k]) as int],
                params,
                results,
            ) by {
                if k < n - 1 {
                    assert(!may_run(plan[allowed[k] as int], params, results));
                }
            }
        }
    }
}

// ── Tries of an implementation ──

/// Whether the same input gives the same error again.
pub open spec fn repeats(c: ErrCode) -> bool {
    c == ErrCode::Data || c == ErrCode::Format || c == ErrCode::Schema
}

/// The seconds to wait before an implementation is tried again; nothing where
/// it is not.
pub open spec fn retry_delay(retry: nat, attempt: nat, c: ErrCode) -> Option<nat> {
    if repeats(c) || attempt >= retry {
        None
    } else {
        Some(vstd::arithmetic::power2::pow2(attempt + 1))
    }
}

/// The power of two.
fn power_of_two(n: usize) -> (r: u64)
    requires
        n < 64,
    ensures
        r == vstd::arithmetic::power2::pow2(n as nat),
{
    let mut r: u64 = 1;
    let mut i: usize = 0;
    proof {
        vstd::arithmetic::power2::lemma2_to64();
    }
    while i < n
        invariant
            i <= n < 64,
            r == vstd::arithmetic::power2::pow2(i as nat),
            i < 64 ==> r <= 0x8000_0000_0000_0000,
        decreases n - i,
    {
        proof {
            vstd::arithmetic::power2::lemma_pow2_unfold((i + 1) as nat);
            vstd::arithmetic::power2::lemma2_to64();
            vstd::arithmetic::power2::lemma2_to64_rest();
            if i + 1 < 63 {
                vstd::arithmetic::power2::lemma_pow2_strictly_increases((i + 1) as nat, 63);
            }
        }
        r = r * 2;
        i += 1;
    }
    r
}

/// The seconds to wait before an implementation is tried again after its error:
/// two, four, eight and so on; nothing where the same input would fail again or
/// no try is left.
pub fn retry_after(retry: usize, attempt: usize, e: &str) -> (r: Option<u64>)
    requires
        attempt < 63,
    ensures
        match r {
            Some(d) => retry_delay(retry as nat, attempt as nat, errflow::kind_of(e@)) == Some(
                d as nat,
            ),
            None => retry_delay(retry as nat, attempt as nat, errflow::kind_of(e@)) is None,
        },
{
    let code = errflow::classify(e);
    if code == ErrCode::Data || code == ErrCode::Format || code == ErrCode::Schema {
        return None;
    }
    if attempt < retry {
        Some(power_of_two(attempt + 1))
    } else {
        None
    }
}

/// What the same input repeats is what goes to the next implementation.
pub proof fn law_repeating_errors_are_rerouted(c: ErrCode)
    ensures
        repeats(c) <==> errflow::plan_for(c) == Action::Reroute,
{
}

// ── Items ──

/// The lines with something on them, of the first `n`.
pub open spec fn full_lines(lines: Seq<Seq<char>>, n: int) -> Seq<Seq<char>>
    decreases n,
{
    if n <= 0 {
        Seq::empty()
    } else if text::trimmed(lines[n - 1]).len() == 0 {
        full_lines(lines, n - 1)
    } else {
        full_lines(lines, n - 1).push(lines[n - 1])
    }
}

/// The items of a result: the lines of a text, or any other value as one.
pub open spec fn items_of(v: GValue) -> Seq<Seq<char>> {
    match v {
        GValue::Text(t) => full_lines(text::lines_spec(t), text::lines_spec(t).len() as int),
        GValue::File(f) => seq!["File("@ + text::debug_quoted(f) + ")"@],
        GValue::Null => seq!["Null"@],
    }
}

/// An item without what stands behind a bar.
pub open spec fn clean_item(s: Seq<char>) -> Seq<char> {
    text::trimmed(
        match text::find_char_spec(s, '|') {
            Some(i) => s.take(i),
            None => s,
        },
    )
}

/// The items of a result.
pub fn foreach_items(v: &Value) -> (r: Vec<String>)
    ensures
        text::views(r@) == items_of(v@),
{
    let mut out: Vec<String> = Vec::new();
    match v {
        Value::Text(t) => {
            let lines = text::lines(t.as_str());
            let ghost lv = text::views(lines@);
            let mut i: usize = 0;
            assert(text::views(out@) =~= Seq::<Seq<char>>::empty());
            while i < lines.len()
                invariant
                    i <= lines@.len(),
                    lv == text::views(lines@),
                    text::views(out@) == full_lines(lv, i as int),
                decreases lines@.len() - i,
            {
                if !text::trim(lines[i].as_str()).as_str().is_empty() {
                    let ghost before = out@;
                    out.push(lines[i].clone());
                    assert(text::views(out@) =~= text::views(before).push(lv[i as int]));
                }
                i += 1;
            }
        },
        Value::File(f) => {
            let mut s = "File(".to_owned();
            s.append(text::debug_quote(f.as_str()).as_str());
            s.append(")");
            out.push(s);
            assert(text::views(out@) =~= items_of(v@));
        },
        Value::Null => {
            out.push("Null".to_owned());
            assert(text::views(out@) =~= items_of(v@));
        },
    }
    out
}

/// An item without what stands behind a bar.
pub fn cleaned(s: &str) -> (r: String)
    ensures
        r@ == clean_item(s@),
{
    match text::find_char(s, '|') {
        Some(i) => {
            proof {
                text::lemma_find_char_from(s@, '|', 0);
            }
            let head = text::slice(s, 0, i);
            assert(head@ =~= s@.take(i as int));
            text::trim(head.as_str())
        },
        None => text::trim(s),
    }
}

/// What is said of a source without a result.
pub fn no_source(src: &str) -> (r: String)
    ensures
        r@ == "foreach source not found: @"@ + src@,
{
    let mut m = "foreach source not found: @".to_owned();
    m.append(src);
    m
}

/// A run over items.
#[derive(Debug)]
pub struct Items {
    pub items: Vec<String>,
    pub at: usize,
    /// Which place of the order is tried on the item at hand.
    pub rank: usize,
    pub parts: Vec<String>,
}

/// A run over items, as values.
pub struct GItems {
    pub items: Seq<Seq<char>>,
    pub at: int,
    pub rank: int,
    pub parts: Seq<Seq<char>>,
}

impl Items {
    pub open spec fn view(&self) -> GItems {
        GItems {
            items: text::views(self.items@),
            at: self.at as int,
            rank: self.rank as int,
            parts: text::views(self.parts@),
        }
    }
}

/// What is to be done next for the items.
#[derive(Debug)]
pub enum ItemStep {
    /// The implementation at this place of the order is run on the item, with
    /// this body.
    Run { rank: usize, item: String, body: String },
    /// All items are through, with this result.
    Done(String),
    /// An item has no way left.
    Failed(String),
}

/// What is to be done next for the items, as values.
pub enum GItemStep {
    Run { rank: int, item: Seq<char>, body: Seq<char> },
    Done(Seq<char>),
    Failed(Seq<char>),
}

impl ItemStep {
    pub open spec fn view(&self) -> GItemStep {
        match self {
            ItemStep::Run { rank, item, body } => GItemStep::Run {
                rank: *rank as int,
                item: item@,
                body: body@,
            },
            ItemStep::Done(s) => GItemStep::Done(s@),
            ItemStep::Failed(s) => GItemStep::Failed(s@),
        }
    }
}

/// The result of a stub on an item.
pub open spec fn item_stub(name: Seq<char>, item: Seq<char>) -> Seq<char> {
    "[STUB:"@ + name + ":"@ + text::cut_spec(item, 40) + "]"@
}

/// A body with the item in place of the variable.
pub open spec fn expanded(body: Seq<char>, var: Seq<char>, item: Seq<char>) -> Seq<char> {
    text::replace_spec(body, "{"@ + var + "}"@, item)
}

/// What is to be done next for the items, and the run as it then stands.
pub open spec fn advance_items(p: Proc, ranked: Seq<usize>, s: GItems) -> (GItems, GItemStep)
    decreases s.items.len() - s.at, ranked.len() - s.rank,
{
    if s.at >= s.items.len() {
        (s, GItemStep::Done(text::join_spec(s.parts, "\n---\n---\n"@)))
    } else if s.rank >= ranked.len() {
        (s, GItemStep::Failed("All paths failed for foreach item in: "@ + p.name@))
    } else {
        let imp = p.plan@[ranked[s.rank] as int];
        let item = clean_item(s.items[s.at]);
        if imp.stub {
            advance_items(
                p,
                ranked,
                GItems {
                    at: s.at + 1,
                    rank: 0,
                    parts: s.parts.push(item_stub(imp.name@, item)),
                    ..s
                },
            )
        } else if !imp.enabled {
            advance_items(p, ranked, GItems { rank: s.rank + 1, ..s })
        } else {
            (
                s,
                GItemStep::Run {
                    rank: s.rank,
                    item,
                    body: expanded(imp.body_text@, p.foreach_var@, item),
                },
            )
        }
    }
}

/// The run after the item at hand gave a value; a value that is no text is left
/// out of the result.
pub open spec fn item_done(s: GItems, v: GValue) -> GItems {
    GItems {
        at: s.at + 1,
        rank: 0,
        parts: match v {
            GValue::Text(t) => s.parts.push(t),
            _ => s.parts,
        },
        ..s
    }
}

impl Items {
    /// The run before its first item.
    pub fn start(items: Vec<String>) -> (r: Items)
        ensures
            r@ == (GItems {
                items: text::views(items@),
                at: 0,
                rank: 0,
                parts: Seq::empty(),
            }),
    {
        let r = Items { items, at: 0, rank: 0, parts: Vec::new() };
        assert(text::views(r.parts@) =~= Seq::<Seq<char>>::empty());
        r
    }

    /// Goes on to the next thing to do.
    pub fn next(&mut self, p: &Proc, ranked: &Vec<usize>) -> (r: ItemStep)
        requires
            forall|k: int| 0 <= k < ranked@.len() ==> #[trigger] ranked@[k] < p.plan@.len(),
            old(self).at <= old(self).items@.len(),
        ensures
            (final(self)@, r@) == advance_items(*p, ranked@, old(self)@),
            r is Run ==> final(self).at < final(self).items@.len() && final(self).rank
                < ranked@.len(),
    {
        let ghost start = self@;
        while self.at < self.items.len()
            invariant
                start == old(self)@,
                self.at <= self.items@.len(),
                forall|k: int| 0 <= k < ranked@.len() ==> #[trigger] ranked@[k] < p.plan@.len(),
                advance_items(*p, ranked@, start) == advance_items(*p, ranked@, self@),
            decreases self.items@.len() - self.at, ranked@.len() - self.rank,
        {
            if self.rank >= ranked.len() {
                let mut m = "All paths failed for foreach item in: ".to_owned();
                m.append(p.name.as_str());
                return ItemStep::Failed(m);
            }
            let imp: &Impl = &p.plan[ranked[self.rank]];
            let item = cleaned(self.items[self.at].as_str());
            assert(self@.items[self.at as int] == self.items@[self.at as int]@);
            if imp.stub {
                let mut s = "[STUB:".to_owned();
                s.append(imp.name.as_str());
                s.append(":");
                s.append(text::cut(item.as_str(), 40).as_str());
                s.append("]");
                let ghost sv = s@;
                let ghost before = self.parts@;
                self.parts.push(s);
                assert(text::views(self.parts@) =~= text::views(before).push(sv));
                self.at += 1;
                self.rank = 0;
            } else if !imp.enabled {
                self.rank += 1;
            } else {
                let mut mark = "{".to_owned();
                mark.append(p.foreach_var.as_str());
                mark.append("}");
                proof {
                    reveal_strlit("{");
                    assert(mark@.len() > 0);
                }
                let body = text::replace(imp.body_text.as_str(), mark.as_str(), item.as_str());
                return ItemStep::Run { rank: self.rank, item, body };
            }
        }
        ItemStep::Done(text::join(self.parts.as_slice(), "\n---\n---\n"))
    }

    /// Takes the value of the item at hand.
    pub fn succeed(&mut self, v: Value)
        requires
            old(self).at < old(self).items@.len(),
        ensures
            final(self)@ == item_done(old(self)@, v@),
    {
        match v {
            Value::Text(t) => {
                let ghost tv = t@;
                let ghost before = self.parts@;
                self.parts.push(t);
                assert(text::views(self.parts@) =~= text::views(before).push(tv));
            },
            _ => {},
        }
        let n: usize = self.items.len();
        assert(self.at < n);
        self.at += 1;
        self.rank = 0;
    }

    /// Takes the failure of the implementation at hand.
    pub fn fail(&mut self, ranked: &Vec<usize>)
        requires
            old(self).rank < ranked@.len(),
        ensures
            final(self)@ == (GItems { rank: old(self)@.rank + 1, ..old(self)@ }),
    {
        let n: usize = ranked.len();
        assert(self.rank < n);
        self.rank += 1;
    }
}

/// Going on over items loses no result and never goes back to an item; an item
/// is given up only where the whole order has been tried on it.
pub proof fn law_items_go_forward(p: Proc, ranked: Seq<usize>, s: GItems)
    requires
        0 <= s.at <= s.items.len(),
    ensures
        ({
            let (t, step) = advance_items(p, ranked, s);
            &&& t.items == s.items
            &&& s.at <= t.at <= s.items.len()
            &&& s.parts.is_prefix_of(t.parts)
            &&& step is Failed ==> t.rank >= ranked.len()
            &&& step is Done ==> t.at == s.items.len()
        }),
    decreases s.items.len() - s.at, ranked.len() - s.rank,
{
    assert(s.parts.is_prefix_of(s.parts)) by {
        assert(s.parts.subrange(0, s.parts.len() as int) =~= s.parts);
    }
    if s.at < s.items.len() && s.rank < ranked.len() {
        let imp = p.plan@[ranked[s.rank] as int];
        let item = clean_item(s.items[s.at]);
        if imp.stub {
            let t = GItems {
                at: s.at + 1,
                rank: 0,
                parts: s.parts.push(item_stub(imp.name@, item)),
                ..s
            };
            law_items_go_forward(p, ranked, t);
            let u = advance_items(p, ranked, t).0;
            assert(s.parts =~= u.parts.take(s.parts.len() as int)) by {
                assert(t.parts =~= u.parts.take(t.parts.len() as int));
                assert forall|i: int| 0 <= i < s.parts.len() implies s.parts[i] == u.parts[i] by {
                    assert(t.parts[i] == u.parts[i]);
                }
            }
        } else if !imp.enabled {
            law_items_go_forward(p, ranked, GItems { rank: s.rank + 1, ..s });
        }
    }
}

// ── Rates ──

/// A rough number of tokens of an output.
pub fn rate_tokens(out: &str) -> (r: usize)
    ensures
        r == out@.len() / 4,
{
    let v = text::chars_of(out);
    v.len() / 4
}

} // verus!
