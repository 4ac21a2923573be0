//! What is done about errors of each kind, and what a record of one holds.

use crate::errflow;
use crate::errflow::{Action, Backoff, ErrCode, Response};
use vstd::prelude::*;

verus! {

/// An error that passes by itself.
pub open spec fn passing(c: ErrCode) -> bool {
    c == ErrCode::Timeout || c == ErrCode::RateLimit || c == ErrCode::Network || c
        == ErrCode::Truncation
}

/// An error that may pass once there is more room.
pub open spec fn crowded(c: ErrCode) -> bool {
    c == ErrCode::Memory || c == ErrCode::Resource
}

/// An error of what an implementation gave.
pub open spec fn mangled(c: ErrCode) -> bool {
    c == ErrCode::Data || c == ErrCode::Format || c == ErrCode::Schema
}

/// An error that no run survives.
pub open spec fn terminal(c: ErrCode) -> bool {
    c == ErrCode::Contract || c == ErrCode::Cancelled
}

/// What passes by itself is tried twice more, what needs room once more, a
/// critical proc twice as often; what an implementation mangled goes to the next
/// one; all else is handed on.
pub proof fn law_errors_are_met_by_kind(c: ErrCode)
    ensures
        passing(c) ==> errflow::plan_for_proc(c, false) == (Action::Retry {
            budget: 2,
            backoff: Backoff::Linear,
        }) && errflow::plan_for_proc(c, true) == (Action::Retry {
            budget: 4,
            backoff: Backoff::Linear,
        }),
        crowded(c) ==> errflow::plan_for_proc(c, false) == (Action::Retry {
            budget: 1,
            backoff: Backoff::Linear,
        }) && errflow::plan_for_proc(c, true) == (Action::Retry {
            budget: 2,
            backoff: Backoff::Linear,
        }),
        mangled(c) ==> errflow::plan_for_proc(c, false) == Action::Reroute && errflow::plan_for_proc(
            c,
            true,
        ) == Action::Reroute,
        !passing(c) && !crowded(c) && !mangled(c) ==> errflow::plan_for_proc(c, false)
            == Action::Escalate && errflow::plan_for_proc(c, true) == Action::Escalate,
        errflow::plan_for(c) == errflow::plan_for_proc(c, false),
{
}

/// The procs behind a failure stop with what no run survives, wait for what is
/// tried again, switch where the failed one gave something wrong or was refused,
/// and go on behind all else.
pub proof fn law_failures_are_answered_by_kind(c: ErrCode)
    ensures
        errflow::response_to(c) == Response::Exit <==> terminal(c),
        errflow::response_to(c) == Response::Wait <==> passing(c) || crowded(c),
        errflow::response_to(c) == Response::Switch <==> mangled(c) || c == ErrCode::Auth,
        errflow::response_to(c) == Response::Ignore <==> c == ErrCode::Dependency || c
            == ErrCode::Permission || c == ErrCode::Crash,
{
}

/// A text that is cut keeps its beginning and gets a mark; one that is short
/// enough stays.
pub proof fn law_cuts_are_marked(s: Seq<char>, n: nat)
    ensures
        s.len() <= n ==> errflow::marked_cut(s, n) == s,
        s.len() > n ==> errflow::marked_cut(s, n).len() == n + 1 && errflow::marked_cut(s, n).take(
            n as int,
        ) == s.take(n as int) && errflow::marked_cut(s, n).last() == '…',
{
    reveal_strlit("…");
    if s.len() > n {
        assert(errflow::marked_cut(s, n).take(n as int) =~= s.take(n as int));
    }
}

/// A failure that is handed on has the kind of the one before it, the name of the
/// proc it is handed to, and says where it came from.
pub proof fn law_handed_on_failures_say_whence(
    proc: Seq<char>,
    from: Seq<char>,
    upstream: Seq<char>,
)
    ensures
        errflow::inherited(proc, from, upstream).proc == proc,
        errflow::inherited(proc, from, upstream).code == errflow::code_in(upstream),
        errflow::inherited(proc, from, upstream).message == "propagated from "@ + from,
        errflow::inherited(proc, from, upstream).impl_ == "-"@,
        errflow::inherited(proc, from, upstream).raw.len() == 0,
        errflow::inherited(proc, from, upstream).attempts == 0,
{
}

} // verus!
