//! The pipeline language as data: pipelines, their procs, the alternative
//! implementations of each proc, and the values that flow between them.

use crate::order::{TextMap, TextSet};
use crate::text;
use vstd::prelude::*;

verus! {

/// How many of the latest runs of an implementation are looked at.
pub const WINDOW_SIZE: usize = 20;

/// A condition on a result, and what to say where it does not hold.
#[derive(Debug)]
pub struct Check {
    pub cond: String,
    pub msg: String,
}

/// One way to carry out a proc.
#[derive(Debug)]
pub struct Impl {
    pub name: String,
    pub description: String,
    pub tags: TextSet,
    /// Where the declared cost stands in the ascending order of costs: of two
    /// implementations the one with the smaller key is the cheaper one.
    pub cost_key: i64,
    pub enabled: bool,
    pub when: Option<String>,
    pub refs: Vec<String>,
    pub body_text: String,
    pub stub: bool,
    pub retry: usize,
    pub ensure: Vec<Check>,
}

/// What a proc promises of its result: the fields it has, and conditions on them.
#[derive(Debug)]
pub struct Contract {
    pub outputs: Vec<String>,
    pub invariants: Vec<String>,
}

/// A step of a pipeline.
#[derive(Debug)]
pub struct Proc {
    pub name: String,
    pub description: String,
    pub plan: Vec<Impl>,
    pub checks: Vec<Check>,
    pub contract: Contract,
    pub deliver: bool,
    pub deliver_refs: Vec<String>,
    pub needs: Vec<String>,
    pub foreach: Option<String>,
    pub foreach_var: String,
    pub pick_by: String,
}

/// A pipeline.
#[derive(Debug)]
pub struct Pipeline {
    pub name: String,
    pub description: String,
    pub procs: Vec<Proc>,
}

impl Default for Contract {
    fn default() -> (r: Contract)
        ensures
            r.outputs@.len() == 0,
            r.invariants@.len() == 0,
    {
        Contract { outputs: Vec::new(), invariants: Vec::new() }
    }
}

/// The names of the procs, in order.
pub open spec fn proc_names(procs: Seq<Proc>) -> Seq<Seq<char>> {
    procs.map_values(|p: Proc| p.name@)
}

/// The tags of the implementations.
pub open spec fn plan_tags(plan: Seq<Impl>) -> Set<Seq<char>> {
    Set::new(|t: Seq<char>| exists|i: int| 0 <= i < plan.len() && #[trigger] plan[i].tags@.contains(t))
}

/// Adds every member of `from` to `into`.
pub(crate) fn add_all(into: &mut TextSet, from: &TextSet)
    requires
        old(into).wf(),
    ensures
        final(into).wf(),
        final(into)@ == old(into)@.union(from@),
{
    let n: usize = from.len();
    let mut i: usize = 0;
    while i < n
        invariant
            n == from.seq().len(),
            i <= n,
            into.wf(),
            into@ == old(into)@.union(from.seq().take(i as int).to_set()),
        decreases n - i,
    {
        let t = from.at(i).clone();
        into.insert(t);
        proof {
            let a = from.seq().take(i as int);
            let b = from.seq().take(i + 1);
            assert(b =~= a.push(from.seq()[i as int]));
            assert forall|x: Seq<char>| b.to_set().contains(x) <==> a.to_set().insert(
                from.seq()[i as int],
            ).contains(x) by {
                if b.contains(x) {
                    let j = choose|j: int| 0 <= j < b.len() && b[j] == x;
                    if j < i {
                        assert(a[j] == x);
                    }
                }
                if a.contains(x) {
                    let j = choose|j: int| 0 <= j < a.len() && a[j] == x;
                    assert(b[j] == x);
                }
                assert(b[i as int] == from.seq()[i as int]);
            }
            assert(into@ =~= old(into)@.union(b.to_set()));
        }
        i += 1;
    }
    assert(from.seq().take(n as int) =~= from.seq());
}

/// The tags of a proc: those of all its implementations.
pub fn proc_tags(proc: &Proc) -> (r: TextSet)
    ensures
        r.wf(),
        r@ == plan_tags(proc.plan@),
{
    let mut out = TextSet::new();
    let mut i: usize = 0;
    assert(out@ =~= plan_tags(proc.plan@.take(0)));
    while i < proc.plan.len()
        invariant
            i <= proc.plan@.len(),
            out.wf(),
            out@ == plan_tags(proc.plan@.take(i as int)),
        decreases proc.plan@.len() - i,
    {
        add_all(&mut out, &proc.plan[i].tags);
        proof {
            let a = proc.plan@.take(i as int);
            let b = proc.plan@.take(i + 1);
            assert forall|t: Seq<char>| plan_tags(b).contains(t) <==> plan_tags(a).union(
                proc.plan@[i as int].tags@,
            ).contains(t) by {
                if plan_tags(b).contains(t) {
                    let j = choose|j: int| 0 <= j < b.len() && #[trigger] b[j].tags@.contains(t);
                    if j < i {
                        assert(a[j].tags@.contains(t));
                    }
                }
                if plan_tags(a).contains(t) {
                    let j = choose|j: int| 0 <= j < a.len() && #[trigger] a[j].tags@.contains(t);
                    assert(b[j].tags@.contains(t));
                }
                assert(b[i as int] == proc.plan@[i as int]);
            }
            assert(out@ =~= plan_tags(b));
        }
        i += 1;
    }
    assert(proc.plan@.take(i as int) =~= proc.plan@);
    out
}

/// The tags of all procs.
pub open spec fn procs_tags(procs: Seq<Proc>) -> Set<Seq<char>> {
    Set::new(
        |t: Seq<char>| exists|i: int| 0 <= i < procs.len() && plan_tags(#[trigger] procs[i].plan@).contains(t),
    )
}

impl Pipeline {
    /// The effects of a pipeline: the tags of all implementations of all procs.
    pub fn computed_tags(&self) -> (r: TextSet)
        ensures
            r.wf(),
            r@ == procs_tags(self.procs@),
    {
        let mut out = TextSet::new();
        let mut i: usize = 0;
        assert(out@ =~= procs_tags(self.procs@.take(0)));
        while i < self.procs.len()
            invariant
                i <= self.procs@.len(),
                out.wf(),
                out@ == procs_tags(self.procs@.take(i as int)),
            decreases self.procs@.len() - i,
        {
            let t = proc_tags(&self.procs[i]);
            add_all(&mut out, &t);
            proof {
                let a = self.procs@.take(i as int);
                let b = self.procs@.take(i + 1);
                let here = plan_tags(self.procs@[i as int].plan@);
                assert forall|t: Seq<char>| procs_tags(b).contains(t) <==> procs_tags(a).union(
                    here,
                ).contains(t) by {
                    if procs_tags(b).contains(t) {
                        let j = choose|j: int|
                            0 <= j < b.len() && plan_tags(#[trigger] b[j].plan@).contains(t);
                        if j < i {
                            assert(plan_tags(a[j].plan@).contains(t));
                        }
                    }
                    if procs_tags(a).contains(t) {
                        let j = choose|j: int|
                            0 <= j < a.len() && plan_tags(#[trigger] a[j].plan@).contains(t);
                        assert(plan_tags(b[j].plan@).contains(t));
                    }
                    assert(b[i as int].plan@ == self.procs@[i as int].plan@);
                }
                assert(out@ =~= procs_tags(b));
            }
            i += 1;
        }
        assert(self.procs@.take(i as int) =~= self.procs@);
        out
    }
}

/// How a run ended.
#[derive(Debug, Clone, Copy, PartialEq, Eq, Structural)]
pub enum Status {
    Done,
    Fail,
}

/// The name of a status.
pub open spec fn status_text(s: Status) -> Seq<char> {
    match s {
        Status::Done => "Ok"@,
        Status::Fail => "Fail"@,
    }
}

impl Status {
    /// The name under which a status is shown and recorded.
    pub fn text(&self) -> (r: String)
        ensures
            r@ == status_text(*self),
    {
        match self {
            Status::Done => "Ok".to_owned(),
            Status::Fail => "Fail".to_owned(),
        }
    }
}

/// What a proc left behind.
#[derive(Debug)]
pub enum Value {
    Text(String),
    File(String),
    Null,
}

/// What a proc left behind, as values.
pub enum GValue {
    Text(Seq<char>),
    File(Seq<char>),
    Null,
}

/// The text of a value: a text itself, a file's path, nothing.
pub open spec fn value_text(v: GValue) -> Seq<char> {
    match v {
        GValue::Text(t) => t,
        GValue::File(f) => f,
        GValue::Null => Seq::empty(),
    }
}

/// What the procs left behind, as values.
pub open spec fn result_views(m: TextMap<Value>) -> Map<Seq<char>, GValue> {
    m@.map_values(|v: Value| v@)
}

impl Value {
    pub open spec fn view(&self) -> GValue {
        match self {
            Value::Text(t) => GValue::Text(t@),
            Value::File(f) => GValue::File(f@),
            Value::Null => GValue::Null,
        }
    }

    /// The text of a value: a text itself, a file's path, nothing.
    pub open spec fn text(self) -> Seq<char> {
        value_text(self@)
    }

    /// The text of a value.
    pub fn as_text(&self) -> (r: &str)
        ensures
            r@ == self.text(),
    {
        match self {
            Value::Text(t) => t.as_str(),
            Value::File(f) => f.as_str(),
            Value::Null => {
                proof {
                    reveal_strlit("");
                    assert(""@ =~= Seq::<char>::empty());
                }
                ""
            },
        }
    }

    /// How many bytes the text takes in UTF-8.
    pub fn len(&self) -> (r: usize)
        ensures
            r == vstd::utf8::encode_utf8(self.text()).len(),
    {
        self.as_text().as_bytes().len()
    }

    /// An equal value of its own.
    pub fn duplicate(&self) -> (r: Value)
        ensures
            r == *self,
    {
        match self {
            Value::Text(t) => Value::Text(t.clone()),
            Value::File(f) => Value::File(f.clone()),
            Value::Null => Value::Null,
        }
    }
}

/// The latest runs of one implementation.
#[derive(Debug, Clone, Copy, PartialEq, Eq, Structural)]
pub struct RecentRuns {
    pub window: usize,
    pub fails: usize,
    pub consec_fail: usize,
    pub n: usize,
    pub sum_tokens: i64,
}

impl Default for RecentRuns {
    fn default() -> (r: RecentRuns)
        ensures
            r == (RecentRuns { window: 0, fails: 0, consec_fail: 0, n: 0, sum_tokens: 0 }),
    {
        RecentRuns { window: 0, fails: 0, consec_fail: 0, n: 0, sum_tokens: 0 }
    }
}

} // verus!
