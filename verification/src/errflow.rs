//! Errors by kind: what a failure means, what is done about it by itself, and
//! what it means for the procs behind it.

use crate::ast;
use crate::ast::{GValue, Value};
use crate::dslresult;
use crate::order::TextMap;
use crate::text;
use vstd::prelude::*;

verus! {

// ── Kinds ──

/// The kind of an error. Errors of one kind are dealt with alike.
#[derive(Debug, Clone, Copy, PartialEq, Eq, Structural)]
pub enum ErrCode {
    Timeout,
    /// Too much was asked in too short a time.
    RateLimit,
    /// Credentials that are not accepted.
    Auth,
    Network,
    /// Something local is missing or full.
    Resource,
    Permission,
    Memory,
    /// Something that has to be installed is missing.
    Dependency,
    /// The output was cut off.
    Truncation,
    /// The input cannot be read.
    Format,
    /// The output does not have the expected fields.
    Schema,
    /// A value is out of range.
    Data,
    /// A call breaks the contract of what it calls.
    Contract,
    /// The user stopped it.
    Cancelled,
    /// Anything else.
    Crash,
}

/// The name of a kind.
pub open spec fn code_name(c: ErrCode) -> Seq<char> {
    match c {
        ErrCode::Timeout => "timeout"@,
        ErrCode::RateLimit => "ratelimit"@,
        ErrCode::Auth => "auth"@,
        ErrCode::Network => "network"@,
        ErrCode::Resource => "resource"@,
        ErrCode::Permission => "permission"@,
        ErrCode::Memory => "memory"@,
        ErrCode::Dependency => "dependency"@,
        ErrCode::Truncation => "truncation"@,
        ErrCode::Format => "format"@,
        ErrCode::Schema => "schema"@,
        ErrCode::Data => "data"@,
        ErrCode::Contract => "contract"@,
        ErrCode::Cancelled => "cancelled"@,
        ErrCode::Crash => "crash"@,
    }
}

/// The kind of that name.
pub open spec fn code_named(s: Seq<char>) -> Option<ErrCode> {
    let t = text::trimmed(s);
    if t == "timeout"@ {
        Some(ErrCode::Timeout)
    } else if t == "ratelimit"@ {
        Some(ErrCode::RateLimit)
    } else if t == "auth"@ {
        Some(ErrCode::Auth)
    } else if t == "network"@ {
        Some(ErrCode::Network)
    } else if t == "resource"@ {
        Some(ErrCode::Resource)
    } else if t == "permission"@ {
        Some(ErrCode::Permission)
    } else if t == "memory"@ {
        Some(ErrCode::Memory)
    } else if t == "dependency"@ {
        Some(ErrCode::Dependency)
    } else if t == "truncation"@ {
        Some(ErrCode::Truncation)
    } else if t == "format"@ {
        Some(ErrCode::Format)
    } else if t == "schema"@ {
        Some(ErrCode::Schema)
    } else if t == "data"@ {
        Some(ErrCode::Data)
    } else if t == "contract"@ {
        Some(ErrCode::Contract)
    } else if t == "cancelled"@ {
        Some(ErrCode::Cancelled)
    } else if t == "crash"@ {
        Some(ErrCode::Crash)
    } else {
        None
    }
}

impl ErrCode {
    /// The kind of that name.
    pub fn from_code(s: &str) -> (r: Option<ErrCode>)
        ensures
            r == code_named(s@),
    {
        let t = text::trim(s);
        let w = t.as_str();
        if text::same(w, "timeout") {
            Some(ErrCode::Timeout)
        } else if text::same(w, "ratelimit") {
            Some(ErrCode::RateLimit)
        } else if text::same(w, "auth") {
            Some(ErrCode::Auth)
        } else if text::same(w, "network") {
            Some(ErrCode::Network)
        } else if text::same(w, "resource") {
            Some(ErrCode::Resource)
        } else if text::same(w, "permission") {
            Some(ErrCode::Permission)
        } else if text::same(w, "memory") {
            Some(ErrCode::Memory)
        } else if text::same(w, "dependency") {
            Some(ErrCode::Dependency)
        } else if text::same(w, "truncation") {
            Some(ErrCode::Truncation)
        } else if text::same(w, "format") {
            Some(ErrCode::Format)
        } else if text::same(w, "schema") {
            Some(ErrCode::Schema)
        } else if text::same(w, "data") {
            Some(ErrCode::Data)
        } else if text::same(w, "contract") {
            Some(ErrCode::Contract)
        } else if text::same(w, "cancelled") {
            Some(ErrCode::Cancelled)
        } else if text::same(w, "crash") {
            Some(ErrCode::Crash)
        } else {
            None
        }
    }

    /// The name of a kind.
    pub fn code(&self) -> (r: &'static str)
        ensures
            r@ == code_name(*self),
    {
        match self {
            ErrCode::Timeout => "timeout",
            ErrCode::RateLimit => "ratelimit",
            ErrCode::Auth => "auth",
            ErrCode::Network => "network",
            ErrCode::Resource => "resource",
            ErrCode::Permission => "permission",
            ErrCode::Memory => "memory",
            ErrCode::Dependency => "dependency",
            ErrCode::Truncation => "truncation",
            ErrCode::Format => "format",
            ErrCode::Schema => "schema",
            ErrCode::Data => "data",
            ErrCode::Contract => "contract",
            ErrCode::Cancelled => "cancelled",
            ErrCode::Crash => "crash",
        }
    }
}

/// Whether a text is one word of small letters.
pub open spec fn one_word(s: Seq<char>) -> bool {
    s.len() > 0 && forall|i: int| 0 <= i < s.len() ==> 'a' <= #[trigger] s[i] <= 'z'
}

/// A word is not changed by trimming.
proof fn lemma_word_trimmed(s: Seq<char>)
    requires
        one_word(s),
    ensures
        text::trimmed(s) == s,
{
    assert('a' <= s[0] <= 'z');
    assert('a' <= s.last() <= 'z');
    assert(text::trim_start_spec(s) == s);
    assert(text::trim_end_spec(s) == s);
}

/// The names of the kinds are words, and no two are the same.
proof fn lemma_code_names(c: ErrCode)
    ensures
        one_word(code_name(c)),
        code_named(code_name(c)) == Some(c),
{
    reveal_strlit("timeout");
    reveal_strlit("ratelimit");
    reveal_strlit("auth");
    reveal_strlit("network");
    reveal_strlit("resource");
    reveal_strlit("permission");
    reveal_strlit("memory");
    reveal_strlit("dependency");
    reveal_strlit("truncation");
    reveal_strlit("format");
    reveal_strlit("schema");
    reveal_strlit("data");
    reveal_strlit("contract");
    reveal_strlit("cancelled");
    reveal_strlit("crash");
    let s = code_name(c);
    lemma_word_trimmed(s);
    assert("timeout"@[0] != "network"@[0]);
    assert("ratelimit"@[0] != "cancelled"@[0]);
    assert("auth"@[0] != "data"@[0]);
    assert("resource"@[0] != "contract"@[0]);
    assert("permission"@[0] != "dependency"@[0]);
    assert("permission"@[0] != "truncation"@[0]);
    assert("memory"@[0] != "format"@[0]);
    assert("memory"@[0] != "schema"@[0]);
    assert("dependency"@[0] != "truncation"@[0]);
    assert("format"@[0] != "schema"@[0]);
}

/// A kind is read back from its name.
pub proof fn law_code_read_back(c: ErrCode)
    ensures
        code_named(code_name(c)) == Some(c),
{
    lemma_code_names(c);
}

// ── Classification ──

/// Whether a message in small letters says that the user stopped it.
pub open spec fn says_cancelled(s: Seq<char>) -> bool {
    ||| text::has(s, "interrupted by user"@)
    ||| text::has(s, "cancelled"@)
    ||| text::has(s, "canceled"@)
    ||| text::has(s, "ctrl+c"@)
    ||| text::has(s, "sigint"@)
    ||| text::has(s, "keyboardinterrupt"@)
}

/// Whether a message in small letters says that the user stopped it.
fn is_cancelled(s: &str) -> (r: bool)
    ensures
        r == says_cancelled(s@),
{
    text::contains(s, "interrupted by user")
        || text::contains(s, "cancelled")
        || text::contains(s, "canceled")
        || text::contains(s, "ctrl+c")
        || text::contains(s, "sigint")
        || text::contains(s, "keyboardinterrupt")
}

/// Whether a message in small letters says that a call breaks the contract of what it calls.
pub open spec fn says_contract(s: Seq<char>) -> bool {
    ||| text::has(s, "not attached"@)
    ||| text::has(s, "not in contract"@)
    ||| text::has(s, "contract violation"@)
    ||| text::has(s, "missing required param"@)
    ||| text::has(s, "missing parameter"@)
    ||| text::has(s, "invalid script name"@)
    ||| text::has(s, "protected root"@)
    ||| text::has(s, "param '"@)
}

/// Whether a message in small letters says that a call breaks the contract of what it calls.
fn is_contract(s: &str) -> (r: bool)
    ensures
        r == says_contract(s@),
{
    text::contains(s, "not attached")
        || text::contains(s, "not in contract")
        || text::contains(s, "contract violation")
        || text::contains(s, "missing required param")
        || text::contains(s, "missing parameter")
        || text::contains(s, "invalid script name")
        || text::contains(s, "protected root")
        || text::contains(s, "param '")
}

/// Whether a message in small letters says that too much was asked in too short a time.
pub open spec fn says_ratelimit(s: Seq<char>) -> bool {
    ||| text::has(s, "too many requests"@)
    ||| text::has(s, "429"@)
    ||| text::has(s, "rate limit"@)
    ||| text::has(s, "ratelimit"@)
    ||| text::has(s, "rate exceeded"@)
    ||| text::has(s, "quota exceeded"@)
    ||| text::has(s, "quota limit"@)
    ||| text::has(s, "enhance your calm"@)
    ||| text::has(s, "slow down"@)
}

/// Whether a message in small letters says that too much was asked in too short a time.
fn is_ratelimit(s: &str) -> (r: bool)
    ensures
        r == says_ratelimit(s@),
{
    text::contains(s, "too many requests")
        || text::contains(s, "429")
        || text::contains(s, "rate limit")
        || text::contains(s, "ratelimit")
        || text::contains(s, "rate exceeded")
        || text::contains(s, "quota exceeded")
        || text::contains(s, "quota limit")
        || text::contains(s, "enhance your calm")
        || text::contains(s, "slow down")
}

/// Whether a message in small letters says that the credentials are not accepted.
pub open spec fn says_auth(s: Seq<char>) -> bool {
    ||| text::has(s, "401"@)
    ||| text::has(s, "403"@)
    ||| text::has(s, "unauthorized"@)
    ||| text::has(s, "forbidden"@)
    ||| text::has(s, "invalid api key"@)
    ||| text::has(s, "invalid_api_key"@)
    ||| text::has(s, "invalid token"@)
    ||| text::has(s, "token expired"@)
    ||| text::has(s, "expired token"@)
    ||| text::has(s, "authentication"@)
    ||| text::has(s, "authenticationfailed"@)
    ||| text::has(s, "permission denied by api"@)
    ||| text::has(s, "incorrect api key"@)
}

/// Whether a message in small letters says that the credentials are not accepted.
fn is_auth(s: &str) -> (r: bool)
    ensures
        r == says_auth(s@),
{
    text::contains(s, "401")
        || text::contains(s, "403")
        || text::contains(s, "unauthorized")
        || text::contains(s, "forbidden")
        || text::contains(s, "invalid api key")
        || text::contains(s, "invalid_api_key")
        || text::contains(s, "invalid token")
        || text::contains(s, "token expired")
        || text::contains(s, "expired token")
        || text::contains(s, "authentication")
        || text::contains(s, "authenticationfailed")
        || text::contains(s, "permission denied by api")
        || text::contains(s, "incorrect api key")
}

/// Whether a message in small letters says that it took too long.
pub open spec fn says_timeout(s: Seq<char>) -> bool {
    ||| text::has(s, "timed out"@)
    ||| text::has(s, "timeouterror"@)
    ||| text::has(s, "timeout expired"@)
}

/// Whether a message in small letters says that it took too long.
fn is_timeout(s: &str) -> (r: bool)
    ensures
        r == says_timeout(s@),
{
    text::contains(s, "timed out")
        || text::contains(s, "timeouterror")
        || text::contains(s, "timeout expired")
}

/// Whether a message in small letters says that memory ran out.
pub open spec fn says_memory(s: Seq<char>) -> bool {
    ||| text::has(s, "out of memory"@)
    ||| text::has(s, "cuda out of memory"@)
    ||| text::has(s, "cuda error: out of memory"@)
    ||| text::has(s, "oom"@)
    ||| text::has(s, "cannot allocate memory"@)
    ||| text::has(s, "memoryerror"@)
    ||| text::has(s, "killed"@)
    ||| text::has(s, "exit some(137)"@)
    ||| text::has(s, "exit 137"@)
    ||| text::has(s, "tried to allocate"@)
}

/// Whether a message in small letters says that memory ran out.
fn is_memory(s: &str) -> (r: bool)
    ensures
        r == says_memory(s@),
{
    text::contains(s, "out of memory")
        || text::contains(s, "cuda out of memory")
        || text::contains(s, "cuda error: out of memory")
        || text::contains(s, "oom")
        || text::contains(s, "cannot allocate memory")
        || text::contains(s, "memoryerror")
        || text::contains(s, "killed")
        || text::contains(s, "exit some(137)")
        || text::contains(s, "exit 137")
        || text::contains(s, "tried to allocate")
}

/// Whether a message in small letters says that something that has to be installed is missing.
pub open spec fn says_dependency(s: Seq<char>) -> bool {
    ||| text::has(s, "modulenotfounderror"@)
    ||| text::has(s, "importerror"@)
    ||| text::has(s, "cannot import"@)
    ||| text::has(s, "no module named"@)
    ||| text::has(s, "command not found"@)
    ||| text::has(s, "not found command"@)
    ||| text::has(s, "shared library"@)
    ||| text::has(s, "shared libraries"@)
    ||| text::has(s, "cannot open shared object"@)
    ||| text::has(s, "library not found"@)
    ||| text::has(s, "librarymissingerror"@)
    ||| text::has(s, "version mismatch"@)
    ||| text::has(s, "version conflict"@)
    ||| text::has(s, "incompatible version"@)
}

/// Whether a message in small letters says that something that has to be installed is missing.
fn is_dependency(s: &str) -> (r: bool)
    ensures
        r == says_dependency(s@),
{
    text::contains(s, "modulenotfounderror")
        || text::contains(s, "importerror")
        || text::contains(s, "cannot import")
        || text::contains(s, "no module named")
        || text::contains(s, "command not found")
        || text::contains(s, "not found command")
        || text::contains(s, "shared library")
        || text::contains(s, "shared libraries")
        || text::contains(s, "cannot open shared object")
        || text::contains(s, "library not found")
        || text::contains(s, "librarymissingerror")
        || text::contains(s, "version mismatch")
        || text::contains(s, "version conflict")
        || text::contains(s, "incompatible version")
}

/// Whether a message in small letters says that it is not allowed.
pub open spec fn says_permission(s: Seq<char>) -> bool {
    ||| text::has(s, "permission denied"@)
    ||| text::has(s, "permissionerror"@)
    ||| text::has(s, "eacces"@)
    ||| text::has(s, "eperm"@)
    ||| text::has(s, "operation not permitted"@)
    ||| text::has(s, "read-only file system"@)
}

/// Whether a message in small letters says that it is not allowed.
fn is_permission(s: &str) -> (r: bool)
    ensures
        r == says_permission(s@),
{
    text::contains(s, "permission denied")
        || text::contains(s, "permissionerror")
        || text::contains(s, "eacces")
        || text::contains(s, "eperm")
        || text::contains(s, "operation not permitted")
        || text::contains(s, "read-only file system")
}

/// Whether a message in small letters says that the other side cannot be reached.
pub open spec fn says_network(s: Seq<char>) -> bool {
    ||| text::has(s, "connection refused"@)
    ||| text::has(s, "connection reset"@)
    ||| text::has(s, "connectionerror"@)
    ||| text::has(s, "connection error"@)
    ||| text::has(s, "connect failed"@)
    ||| text::has(s, "getaddrinfo failed"@)
    ||| text::has(s, "errno -2"@)
    ||| text::has(s, "econnrefused"@)
    ||| text::has(s, "ehostunreach"@)
    ||| text::has(s, "enetunreach"@)
    ||| text::has(s, "econnreset"@)
    ||| text::has(s, "network is unreachable"@)
    ||| text::has(s, "network error"@)
    ||| text::has(s, "temporary failure in name resolution"@)
    ||| text::has(s, "name or service not known"@)
    ||| text::has(s, "service unavailable"@)
    ||| text::has(s, "503 service"@)
    ||| text::has(s, "502 bad gateway"@)
    ||| text::has(s, "504 gateway"@)
    ||| text::has(s, "gateway timeout"@)
    ||| text::has(s, "bad gateway"@)
}

/// Whether a message in small letters says that the other side cannot be reached.
fn is_network(s: &str) -> (r: bool)
    ensures
        r == says_network(s@),
{
    text::contains(s, "connection refused")
        || text::contains(s, "connection reset")
        || text::contains(s, "connectionerror")
        || text::contains(s, "connection error")
        || text::contains(s, "connect failed")
        || text::contains(s, "getaddrinfo failed")
        || text::contains(s, "errno -2")
        || text::contains(s, "econnrefused")
        || text::contains(s, "ehostunreach")
        || text::contains(s, "enetunreach")
        || text::contains(s, "econnreset")
        || text::contains(s, "network is unreachable")
        || text::contains(s, "network error")
        || text::contains(s, "temporary failure in name resolution")
        || text::contains(s, "name or service not known")
        || text::contains(s, "service unavailable")
        || text::contains(s, "503 service")
        || text::contains(s, "502 bad gateway")
        || text::contains(s, "504 gateway")
        || text::contains(s, "gateway timeout")
        || text::contains(s, "bad gateway")
}

/// Whether a message in small letters says that something local is missing or full.
pub open spec fn says_resource(s: Seq<char>) -> bool {
    ||| text::has(s, "not found"@)
    ||| text::has(s, "no such file"@)
    ||| text::has(s, "nosuchfile"@)
    ||| text::has(s, "filenotfounderror"@)
    ||| text::has(s, "launch failed"@)
    ||| text::has(s, "spawn failed"@)
    ||| text::has(s, "disk full"@)
    ||| text::has(s, "enospc"@)
    ||| text::has(s, "address in use"@)
    ||| text::has(s, "eaddrinuse"@)
}

/// Whether a message in small letters says that something local is missing or full.
fn is_resource(s: &str) -> (r: bool)
    ensures
        r == says_resource(s@),
{
    text::contains(s, "not found")
        || text::contains(s, "no such file")
        || text::contains(s, "nosuchfile")
        || text::contains(s, "filenotfounderror")
        || text::contains(s, "launch failed")
        || text::contains(s, "spawn failed")
        || text::contains(s, "disk full")
        || text::contains(s, "enospc")
        || text::contains(s, "address in use")
        || text::contains(s, "eaddrinuse")
}

/// Whether a message in small letters says that the output was cut off.
pub open spec fn says_truncation(s: Seq<char>) -> bool {
    ||| text::has(s, "finish_reason=length"@)
    ||| text::has(s, "finish reason: length"@)
    ||| text::has(s, "finish_reason: length"@)
    ||| text::has(s, "output truncated"@)
    ||| text::has(s, "truncated output"@)
    ||| text::has(s, "was truncated"@)
    ||| text::has(s, "response truncated"@)
    ||| text::has(s, "max_tokens"@)
    ||| text::has(s, "max tokens exceeded"@)
    ||| text::has(s, "context length exceeded"@)
    ||| text::has(s, "context window exceeded"@)
    ||| text::has(s, "maximum context length"@)
    ||| text::has(s, "too long"@)
    ||| text::has(s, "exceeds the maximum"@)
}

/// Whether a message in small letters says that the output was cut off.
fn is_truncation(s: &str) -> (r: bool)
    ensures
        r == says_truncation(s@),
{
    text::contains(s, "finish_reason=length")
        || text::contains(s, "finish reason: length")
        || text::contains(s, "finish_reason: length")
        || text::contains(s, "output truncated")
        || text::contains(s, "truncated output")
        || text::contains(s, "was truncated")
        || text::contains(s, "response truncated")
        || text::contains(s, "max_tokens")
        || text::contains(s, "max tokens exceeded")
        || text::contains(s, "context length exceeded")
        || text::contains(s, "context window exceeded")
        || text::contains(s, "maximum context length")
        || text::contains(s, "too long")
        || text::contains(s, "exceeds the maximum")
}

/// Whether a message in small letters says that the input cannot be read.
pub open spec fn says_format(s: Seq<char>) -> bool {
    ||| text::has(s, "jsondecodeerror"@)
    ||| text::has(s, "unicodedecodeerror"@)
    ||| text::has(s, "unicodeencodeerror"@)
    ||| text::has(s, "invalid utf"@)
    ||| text::has(s, "invalidutf"@)
    ||| text::has(s, "parse error"@)
    ||| text::has(s, "parseerror"@)
    ||| text::has(s, "parsing error"@)
    ||| text::has(s, "unexpected df output"@)
    ||| text::has(s, "unexpected end of input"@)
    ||| text::has(s, "unexpected token"@)
    ||| text::has(s, "invalid format"@)
    ||| text::has(s, "malformed"@)
    ||| text::has(s, "not well-formed"@)
}

/// Whether a message in small letters says that the input cannot be read.
fn is_format(s: &str) -> (r: bool)
    ensures
        r == says_format(s@),
{
    text::contains(s, "jsondecodeerror")
        || text::contains(s, "unicodedecodeerror")
        || text::contains(s, "unicodeencodeerror")
        || text::contains(s, "invalid utf")
        || text::contains(s, "invalidutf")
        || text::contains(s, "parse error")
        || text::contains(s, "parseerror")
        || text::contains(s, "parsing error")
        || text::contains(s, "unexpected df output")
        || text::contains(s, "unexpected end of input")
        || text::contains(s, "unexpected token")
        || text::contains(s, "invalid format")
        || text::contains(s, "malformed")
        || text::contains(s, "not well-formed")
}

/// Whether a message in small letters says that the output does not have the expected fields.
pub open spec fn says_schema(s: Seq<char>) -> bool {
    ||| text::has(s, "keyerror"@)
    ||| text::has(s, "typeerror"@)
    ||| text::has(s, "attributeerror"@)
    ||| text::has(s, "validation"@)
    ||| text::has(s, "validationerror"@)
    ||| text::has(s, "missing field"@)
    ||| text::has(s, "missing key"@)
    ||| text::has(s, "expected one of"@)
    ||| text::has(s, "invalid response format"@)
    ||| text::has(s, "unrecognized response"@)
    ||| text::has(s, "field is required"@)
    ||| text::has(s, "null value"@)
    ||| text::has(s, "none value"@)
}

/// Whether a message in small letters says that the output does not have the expected fields.
fn is_schema(s: &str) -> (r: bool)
    ensures
        r == says_schema(s@),
{
    text::contains(s, "keyerror")
        || text::contains(s, "typeerror")
        || text::contains(s, "attributeerror")
        || text::contains(s, "validation")
        || text::contains(s, "validationerror")
        || text::contains(s, "missing field")
        || text::contains(s, "missing key")
        || text::contains(s, "expected one of")
        || text::contains(s, "invalid response format")
        || text::contains(s, "unrecognized response")
        || text::contains(s, "field is required")
        || text::contains(s, "null value")
        || text::contains(s, "none value")
}

/// Whether a message in small letters says that a value is out of range.
pub open spec fn says_data(s: Seq<char>) -> bool {
    ||| text::has(s, "valueerror"@)
    ||| text::has(s, "indexerror"@)
    ||| text::has(s, "overflow"@)
    ||| text::has(s, "zerodivisionerror"@)
    ||| text::has(s, "assertion"@)
    ||| text::has(s, "assertionerror"@)
    ||| text::has(s, "out of range"@)
    ||| text::has(s, "out of bounds"@)
    ||| text::has(s, "arithmetic"@)
}

/// Whether a message in small letters says that a value is out of range.
fn is_data(s: &str) -> (r: bool)
    ensures
        r == says_data(s@),
{
    text::contains(s, "valueerror")
        || text::contains(s, "indexerror")
        || text::contains(s, "overflow")
        || text::contains(s, "zerodivisionerror")
        || text::contains(s, "assertion")
        || text::contains(s, "assertionerror")
        || text::contains(s, "out of range")
        || text::contains(s, "out of bounds")
        || text::contains(s, "arithmetic")
}

/// The kind of an error with this message, in small letters. What says more
/// comes first: the will of the user, the contract, then the specific causes.
pub open spec fn kind_of_lower(s: Seq<char>) -> ErrCode {
    if says_cancelled(s) {
        ErrCode::Cancelled
    } else if says_contract(s) {
        ErrCode::Contract
    } else if says_ratelimit(s) {
        ErrCode::RateLimit
    } else if says_auth(s) {
        ErrCode::Auth
    } else if says_timeout(s) {
        ErrCode::Timeout
    } else if says_memory(s) {
        ErrCode::Memory
    } else if says_dependency(s) {
        ErrCode::Dependency
    } else if says_permission(s) {
        ErrCode::Permission
    } else if says_network(s) {
        ErrCode::Network
    } else if says_resource(s) {
        ErrCode::Resource
    } else if says_truncation(s) {
        ErrCode::Truncation
    } else if says_format(s) {
        ErrCode::Format
    } else if says_schema(s) {
        ErrCode::Schema
    } else if says_data(s) {
        ErrCode::Data
    } else {
        ErrCode::Crash
    }
}

/// The kind of an error with this message.
pub open spec fn kind_of(raw: Seq<char>) -> ErrCode {
    kind_of_lower(text::lower(raw))
}

/// The kind of an error with this message, in small letters.
pub fn classify_lower(s: &str) -> (r: ErrCode)
    ensures
        r == kind_of_lower(s@),
{
    if is_cancelled(s) {
        ErrCode::Cancelled
    } else if is_contract(s) {
        ErrCode::Contract
    } else if is_ratelimit(s) {
        ErrCode::RateLimit
    } else if is_auth(s) {
        ErrCode::Auth
    } else if is_timeout(s) {
        ErrCode::Timeout
    } else if is_memory(s) {
        ErrCode::Memory
    } else if is_dependency(s) {
        ErrCode::Dependency
    } else if is_permission(s) {
        ErrCode::Permission
    } else if is_network(s) {
        ErrCode::Network
    } else if is_resource(s) {
        ErrCode::Resource
    } else if is_truncation(s) {
        ErrCode::Truncation
    } else if is_format(s) {
        ErrCode::Format
    } else if is_schema(s) {
        ErrCode::Schema
    } else if is_data(s) {
        ErrCode::Data
    } else {
        ErrCode::Crash
    }
}

/// The kind of an error with this message.
pub fn classify(raw: &str) -> (r: ErrCode)
    ensures
        r == kind_of(raw@),
{
    let lower = text::lowercase(raw);
    classify_lower(lower.as_str())
}

/// The rank of a kind: of two kinds that a message tells of, the one of the lower
/// rank counts.
pub open spec fn rank(c: ErrCode) -> int {
    match c {
        ErrCode::Cancelled => 0,
        ErrCode::Contract => 1,
        ErrCode::RateLimit => 2,
        ErrCode::Auth => 3,
        ErrCode::Timeout => 4,
        ErrCode::Memory => 5,
        ErrCode::Dependency => 6,
        ErrCode::Permission => 7,
        ErrCode::Network => 8,
        ErrCode::Resource => 9,
        ErrCode::Truncation => 10,
        ErrCode::Format => 11,
        ErrCode::Schema => 12,
        ErrCode::Data => 13,
        ErrCode::Crash => 14,
    }
}

/// What a part of a text has, the text has.
proof fn lemma_part_has(a: Seq<char>, b: Seq<char>, p: Seq<char>)
    ensures
        text::has(a, p) ==> text::has(a + b, p),
        text::has(b, p) ==> text::has(a + b, p),
{
    let t = a + b;
    if text::has(a, p) {
        let i = choose|i: int| text::occurs_at(a, p, i);
        assert(t.subrange(i, i + p.len()) =~= a.subrange(i, i + p.len()));
        assert(text::occurs_at(t, p, i));
    }
    if text::has(b, p) {
        let i = choose|i: int| text::occurs_at(b, p, i);
        let j = a.len() + i;
        assert(t.subrange(j, j + p.len()) =~= b.subrange(i, i + p.len()));
        assert(text::occurs_at(t, p, j));
    }
}

/// A text that has all that another has tells of no kind less.
proof fn lemma_tells_no_less(a: Seq<char>, b: Seq<char>)
    requires
        forall|p: Seq<char>| #[trigger] text::has(a, p) ==> text::has(b, p),
    ensures
        rank(kind_of_lower(b)) <= rank(kind_of_lower(a)),
{
    assert(says_cancelled(a) ==> says_cancelled(b));
    assert(says_contract(a) ==> says_contract(b));
    assert(says_ratelimit(a) ==> says_ratelimit(b));
    assert(says_auth(a) ==> says_auth(b));
    assert(says_timeout(a) ==> says_timeout(b));
    assert(says_memory(a) ==> says_memory(b));
    assert(says_dependency(a) ==> says_dependency(b));
    assert(says_permission(a) ==> says_permission(b));
    assert(says_network(a) ==> says_network(b));
    assert(says_resource(a) ==> says_resource(b));
    assert(says_truncation(a) ==> says_truncation(b));
    assert(says_format(a) ==> says_format(b));
    assert(says_schema(a) ==> says_schema(b));
    assert(says_data(a) ==> says_data(b));
}

/// Text around a message makes nothing of what the message tells go unseen: the
/// kind of two messages in small letters, one behind the other, ranks no higher
/// than that of either.
pub proof fn law_more_text_tells_no_less(a: Seq<char>, b: Seq<char>)
    ensures
        rank(kind_of_lower(a + b)) <= rank(kind_of_lower(a)),
        rank(kind_of_lower(a + b)) <= rank(kind_of_lower(b)),
{
    assert forall|p: Seq<char>| #[trigger] text::has(a, p) implies text::has(a + b, p) by {
        lemma_part_has(a, b, p);
    }
    assert forall|p: Seq<char>| #[trigger] text::has(b, p) implies text::has(a + b, p) by {
        lemma_part_has(a, b, p);
    }
    lemma_tells_no_less(a, a + b);
    lemma_tells_no_less(b, a + b);
}

/// The kind of two ASCII messages, one behind the other, ranks no higher than
/// that of either.
pub proof fn law_more_ascii_tells_no_less(a: Seq<char>, b: Seq<char>)
    requires
        text::ascii(a),
        text::ascii(b),
    ensures
        rank(kind_of(a + b)) <= rank(kind_of(a)),
        rank(kind_of(a + b)) <= rank(kind_of(b)),
{
    let t = a + b;
    assert(text::ascii(t)) by {
        assert forall|i: int| 0 <= i < t.len() implies (#[trigger] t[i]) as int <= 0x7f by {
            if i < a.len() {
                assert(t[i] == a[i]);
            } else {
                assert(t[i] == b[i - a.len()]);
            }
        }
    }
    assert(text::lower(t) =~= text::lower(a) + text::lower(b));
    law_more_text_tells_no_less(text::lower(a), text::lower(b));
}

/// What differs from an ASCII character only as a capital is one too.
proof fn lemma_letter_ascii(c: char, d: char)
    requires
        c as int <= 0x7f,
        text::lower_ascii(c) == text::lower_ascii(d),
    ensures
        d as int <= 0x7f,
{
}

/// Two ASCII messages that differ only in capitals are of the same kind.
pub proof fn law_only_letters_matter(s: Seq<char>, t: Seq<char>)
    requires
        text::ascii(s),
        text::lower_ascii_spec(s) == text::lower_ascii_spec(t),
    ensures
        kind_of(s) == kind_of(t),
{
    let a = text::lower_ascii_spec(s);
    let b = text::lower_ascii_spec(t);
    assert(a.len() == s.len() && b.len() == t.len());
    assert forall|i: int| 0 <= i < t.len() implies (#[trigger] t[i]) as int <= 0x7f by {
        assert(s[i] as int <= 0x7f);
        assert(a[i] == text::lower_ascii(s[i]));
        assert(b[i] == text::lower_ascii(t[i]));
        lemma_letter_ascii(s[i], t[i]);
    }
    assert(text::ascii(t));
}

/// Capitals do not matter in an ASCII message.
pub proof fn law_capitals_do_not_matter(s: Seq<char>)
    requires
        text::ascii(s),
    ensures
        kind_of(text::lower_ascii_spec(s)) == kind_of(s),
{
    let t = text::lower_ascii_spec(s);
    assert forall|i: int| 0 <= i < t.len() implies (#[trigger] t[i]) as int <= 0x7f
        && text::lower_ascii(t[i]) == t[i] by {
        assert(s[i] as int <= 0x7f);
        assert(t[i] == text::lower_ascii(s[i]));
    }
    assert(text::ascii(t));
    assert(text::lower_ascii_spec(t) =~= t);
}

// ── Records ──

/// The longest message of a record.
pub const MSG_MAX: usize = 500;

/// The longest raw output of a record.
pub const RAW_MAX: usize = 4096;

/// A text cut to `n` characters, with a mark where something is missing.
pub open spec fn marked_cut(s: Seq<char>, n: nat) -> Seq<char> {
    if s.len() <= n {
        s
    } else {
        s.take(n as int) + "…"@
    }
}

/// A text cut to `n` characters, with a mark where something is missing.
pub fn trunc_chars(s: &str, n: usize) -> (r: String)
    ensures
        r@ == marked_cut(s@, n as nat),
{
    let v = text::chars_of(s);
    if v.len() <= n {
        s.to_owned()
    } else {
        let mut t = text::slice(s, 0, n);
        assert(t@ =~= s@.take(n as int));
        t.append("…");
        t
    }
}

/// The failure of a proc.
#[derive(Debug)]
pub struct ErrorRecord {
    pub code: ErrCode,
    pub proc: String,
    pub impl_: String,
    pub message: String,
    pub raw: String,
    pub attempts: u32,
}

/// The failure of a proc, as values.
pub struct GRecord {
    pub code: ErrCode,
    pub proc: Seq<char>,
    pub impl_: Seq<char>,
    pub message: Seq<char>,
    pub raw: Seq<char>,
    pub attempts: nat,
}

impl ErrorRecord {
    pub open spec fn view(&self) -> GRecord {
        GRecord {
            code: self.code,
            proc: self.proc@,
            impl_: self.impl_@,
            message: self.message@,
            raw: self.raw@,
            attempts: self.attempts as nat,
        }
    }
}

/// The fields of a record.
pub open spec fn record_fields(r: GRecord) -> Seq<(Seq<char>, Seq<char>)> {
    seq![
        ("err"@, "1"@),
        ("err_code"@, code_name(r.code)),
        ("err_proc"@, r.proc),
        ("err_impl"@, r.impl_),
        ("err_msg"@, r.message),
        ("attempts"@, text::dec(r.attempts)),
    ]
}

/// A record as a structured result.
pub open spec fn record_text(r: GRecord) -> Seq<char> {
    dslresult::encoded(record_fields(r), r.raw)
}

/// The kind that an encoded record has, or that of an unknown error.
pub open spec fn code_in(s: Seq<char>) -> ErrCode {
    match dslresult::field_of("err_code"@, s) {
        Some(c) => match code_named(c) {
            Some(k) => k,
            None => ErrCode::Crash,
        },
        None => ErrCode::Crash,
    }
}

/// The record of a proc behind a failed one.
pub open spec fn inherited(proc: Seq<char>, from: Seq<char>, upstream: Seq<char>) -> GRecord {
    GRecord {
        code: code_in(upstream),
        proc,
        impl_: "-"@,
        message: "propagated from "@ + from,
        raw: Seq::empty(),
        attempts: 0,
    }
}

/// A field out of two texts.
fn field(k: &str, v: &str) -> (r: (String, String))
    ensures
        r.0@ == k@,
        r.1@ == v@,
{
    (k.to_owned(), v.to_owned())
}

impl ErrorRecord {
    /// The record of a failure with this output.
    pub fn new(proc: &str, impl_: &str, raw: &str, attempts: u32) -> (r: ErrorRecord)
        ensures
            r@ == (GRecord {
                code: kind_of(raw@),
                proc: proc@,
                impl_: impl_@,
                message: marked_cut(text::trimmed(raw@), MSG_MAX as nat),
                raw: marked_cut(raw@, RAW_MAX as nat),
                attempts: attempts as nat,
            }),
    {
        let t = text::trim(raw);
        ErrorRecord {
            code: classify(raw),
            proc: proc.to_owned(),
            impl_: impl_.to_owned(),
            message: trunc_chars(t.as_str(), MSG_MAX),
            raw: trunc_chars(raw, RAW_MAX),
            attempts,
        }
    }

    /// The record as a structured result.
    pub fn encode(&self) -> (r: String)
        ensures
            r@ == record_text(self@),
    {
        let mut kvs: Vec<(String, String)> = Vec::new();
        kvs.push(field("err", "1"));
        kvs.push(field("err_code", self.code.code()));
        kvs.push(field("err_proc", self.proc.as_str()));
        kvs.push(field("err_impl", self.impl_.as_str()));
        kvs.push(field("err_msg", self.message.as_str()));
        let n = text::decimal(self.attempts as u128);
        kvs.push(field("attempts", n.as_str()));
        assert(dslresult::field_views(kvs@) =~= record_fields(self@));
        dslresult::encode_structured_result(&kvs, self.raw.as_str())
    }

    /// The record of a proc behind a failed one: it has the kind of the failure
    /// upstream.
    pub fn propagated(proc: &str, from_proc: &str, upstream_encoded: &str) -> (r: ErrorRecord)
        ensures
            r@ == inherited(proc@, from_proc@, upstream_encoded@),
    {
        let mut message = "propagated from ".to_owned();
        message.append(from_proc);
        let raw = String::new();
        assert(raw@ =~= Seq::<char>::empty());
        ErrorRecord {
            code: code_of(upstream_encoded),
            proc: proc.to_owned(),
            impl_: "-".to_owned(),
            message,
            raw,
            attempts: 0,
        }
    }
}

/// The kind that an encoded record has, or that of an unknown error.
pub fn code_of(encoded: &str) -> (r: ErrCode)
    ensures
        r == code_in(encoded@),
{
    match dslresult::extract_field("err_code", encoded) {
        Some(c) => match ErrCode::from_code(c.as_str()) {
            Some(k) => k,
            None => ErrCode::Crash,
        },
        None => ErrCode::Crash,
    }
}

/// Whether a value is that of a failed proc.
pub open spec fn is_left(v: GValue) -> bool {
    match v {
        GValue::Text(t) => dslresult::field_of("err"@, t) == Some("1"@),
        _ => false,
    }
}

/// Whether a value is that of a failed proc.
pub fn is_error_value(v: &Value) -> (r: bool)
    ensures
        r == is_left(v@),
{
    match v {
        Value::Text(t) => match dslresult::extract_field("err", t.as_str()) {
            Some(x) => text::same(x.as_str(), "1"),
            None => false,
        },
        _ => false,
    }
}

/// Two leading fields of an encoded text are found, whatever follows them.
proof fn lemma_leading_fields(kvs: Seq<(Seq<char>, Seq<char>)>, raw: Seq<char>)
    requires
        kvs.len() >= 3,
        kvs[0] == ("err"@, "1"@),
        kvs[1].0 == "err_code"@,
        one_word(kvs[1].1),
    ensures
        dslresult::field_of("err"@, dslresult::encoded(kvs, raw)) == Some("1"@),
        dslresult::field_of("err_code"@, dslresult::encoded(kvs, raw)) == Some(kvs[1].1),
{
    reveal_strlit("err");
    reveal_strlit("err_code");
    reveal_strlit("1");
    reveal_strlit("=");
    reveal_strlit("§§");
    reveal_strlit("RAW");
    let head = "§§FIELDS§§"@;
    let sep = "§§"@;
    let fs = dslresult::field_texts(kvs);
    let s = dslresult::encoded(kvs, raw);
    let a = fs[0];
    let b = fs[1];
    assert(a == "err"@ + "="@ + "1"@);
    assert(b == "err_code"@ + "="@ + kvs[1].1);
    dslresult::lemma_join_first(fs, sep);
    let more = fs.skip(1);
    dslresult::lemma_join_first(more, sep);
    assert(more[0] == b);
    let tail = text::join_spec(more.skip(1), sep) + "§§RAW§§"@ + raw;
    let body = a + sep + (b + sep + tail);
    assert(s =~= head + body);
    assert(head.is_prefix_of(s)) by {
        assert(s.subrange(0, head.len() as int) =~= head);
    }
    assert(s.skip(head.len() as int) =~= body);
    assert forall|i: int| 0 <= i < a.len() implies a[i] != '§' by {
    }
    assert forall|i: int| 0 <= i < b.len() implies b[i] != '§' by {
        if i >= 9 {
            assert(b[i] == kvs[1].1[i - 9]);
        }
    }
    lemma_no_mark_clean(a);
    lemma_no_mark_clean(b);
    dslresult::lemma_split_clean(a, b + sep + tail);
    dslresult::lemma_split_clean(b, tail);
    let parts = text::split_str_spec(body, sep);
    assert(parts[0] == a);
    assert(parts[1] == b);
    assert(text::find_char_spec("err"@, '=') is None) by {
        text::lemma_find_char_none("err"@, '=', 0);
    }
    assert(text::find_char_spec("err_code"@, '=') is None) by {
        text::lemma_find_char_none("err_code"@, '=', 0);
    }
    dslresult::lemma_split_once("err"@, "1"@);
    dslresult::lemma_split_once("err_code"@, kvs[1].1);
    assert(a.len() == 5 && b.len() > 5);
    assert("err"@ != "err_code"@);
    reveal_with_fuel(dslresult::field_from, 3);
}

/// A text without the separator's sign can stand in front of one.
proof fn lemma_no_mark_clean(p: Seq<char>)
    requires
        forall|i: int| 0 <= i < p.len() ==> p[i] != '§',
    ensures
        dslresult::clean(p),
{
    reveal_strlit("§§");
    if text::has(p, "§§"@) {
        let i = choose|i: int| text::occurs_at(p, "§§"@, i);
        assert(p.subrange(i, i + 2)[0] == '§');
    }
}

/// A recorded failure is seen as one and keeps its kind, whatever its message
/// and its output hold.
pub proof fn law_record_is_a_failure(r: GRecord)
    ensures
        dslresult::field_of("err"@, record_text(r)) == Some("1"@),
        code_in(record_text(r)) == r.code,
{
    lemma_code_names(r.code);
    lemma_leading_fields(record_fields(r), r.raw);
}

/// A failure is handed on with its kind, from proc to proc.
pub proof fn law_failures_keep_their_kind(r: GRecord, proc: Seq<char>, from: Seq<char>)
    ensures
        inherited(proc, from, record_text(r)).code == r.code,
        code_in(record_text(inherited(proc, from, record_text(r)))) == r.code,
{
    law_record_is_a_failure(r);
    law_record_is_a_failure(inherited(proc, from, record_text(r)));
}

// ── What is done about it ──

/// How long to wait between two tries.
#[derive(Debug, Clone, Copy, PartialEq, Eq, Structural)]
pub enum Backoff {
    Linear,
}

impl Backoff {
    /// The seconds to wait behind the given try, counted from 0: one more each
    /// time.
    pub fn delay_secs(&self, attempt: u32) -> (r: u64)
        requires
            attempt < u32::MAX,
        ensures
            r == attempt + 1,
    {
        (attempt + 1) as u64
    }
}

/// What is done about a failure by itself.
#[derive(Debug, Clone, Copy, PartialEq, Eq, Structural)]
pub enum Action {
    /// The whole plan is tried again, up to `budget` times.
    Retry { budget: u32, backoff: Backoff },
    /// The next implementation is tried at once.
    Reroute,
    /// Nothing; the failure is recorded and handed on.
    Escalate,
}

/// How often the plan is tried again on errors of this kind.
pub open spec fn retries(c: ErrCode) -> u32 {
    match c {
        ErrCode::Timeout => 2,
        ErrCode::RateLimit => 2,
        ErrCode::Network => 2,
        ErrCode::Truncation => 2,
        ErrCode::Memory => 1,
        ErrCode::Resource => 1,
        _ => 0,
    }
}

/// What is done about an error of this kind by itself: what may pass is tried
/// again, what depends on the implementation goes to the next one.
pub open spec fn plan_for(c: ErrCode) -> Action {
    if retries(c) > 0 {
        Action::Retry { budget: retries(c), backoff: Backoff::Linear }
    } else if c == ErrCode::Data || c == ErrCode::Format || c == ErrCode::Schema {
        Action::Reroute
    } else {
        Action::Escalate
    }
}

/// The same, with twice the tries for a critical proc.
pub open spec fn plan_for_proc(c: ErrCode, critical: bool) -> Action {
    match plan_for(c) {
        Action::Retry { budget, backoff } if critical => Action::Retry {
            budget: (budget * 2) as u32,
            backoff,
        },
        other => other,
    }
}

/// What is done about an error of this kind by itself.
pub fn strategy(code: ErrCode) -> (r: Action)
    ensures
        r == plan_for(code),
{
    match code {
        ErrCode::Timeout | ErrCode::RateLimit | ErrCode::Network | ErrCode::Truncation => {
            Action::Retry { budget: 2, backoff: Backoff::Linear }
        },
        ErrCode::Memory | ErrCode::Resource => Action::Retry {
            budget: 1,
            backoff: Backoff::Linear,
        },
        ErrCode::Data | ErrCode::Format | ErrCode::Schema => Action::Reroute,
        _ => Action::Escalate,
    }
}

/// What is done about an error of this kind by itself; a critical proc gets
/// twice the tries.
pub fn strategy_for(code: ErrCode, critical: bool) -> (r: Action)
    ensures
        r == plan_for_proc(code, critical),
{
    match strategy(code) {
        Action::Retry { budget, backoff } => {
            if critical {
                Action::Retry { budget: budget * 2, backoff }
            } else {
                Action::Retry { budget, backoff }
            }
        },
        other => other,
    }
}

/// What a failure means for the procs behind it.
#[derive(Debug, Clone, Copy, PartialEq, Eq, Structural)]
pub enum Response {
    /// Procs that do not need the failed one go on.
    Ignore,
    /// The tries of the failed proc are awaited.
    Wait,
    /// Implementations that do not need the failed proc take over.
    Switch,
    /// The pipeline stops.
    Exit,
}

/// What an error of this kind means for the procs behind it.
pub open spec fn response_to(c: ErrCode) -> Response {
    match c {
        ErrCode::Cancelled => Response::Exit,
        ErrCode::Contract => Response::Exit,
        ErrCode::Auth => Response::Switch,
        ErrCode::Data => Response::Switch,
        ErrCode::Format => Response::Switch,
        ErrCode::Schema => Response::Switch,
        ErrCode::Dependency => Response::Ignore,
        ErrCode::Permission => Response::Ignore,
        ErrCode::Crash => Response::Ignore,
        _ => Response::Wait,
    }
}

/// What an error of this kind means for the procs behind it.
pub fn respond(code: ErrCode) -> (r: Response)
    ensures
        r == response_to(code),
{
    match code {
        ErrCode::Cancelled | ErrCode::Contract => Response::Exit,
        ErrCode::Timeout | ErrCode::RateLimit | ErrCode::Memory | ErrCode::Network
        | ErrCode::Resource | ErrCode::Truncation => Response::Wait,
        ErrCode::Auth | ErrCode::Data | ErrCode::Format | ErrCode::Schema => Response::Switch,
        ErrCode::Dependency | ErrCode::Permission | ErrCode::Crash => Response::Ignore,
    }
}

/// What the user stopped is never tried again and stops the pipeline; and the
/// procs behind wait exactly for errors that are tried again.
pub proof fn law_tries_and_responses_agree(c: ErrCode, critical: bool)
    ensures
        (plan_for_proc(c, critical) is Retry) <==> response_to(c) == Response::Wait,
        response_to(c) == Response::Exit ==> plan_for_proc(c, critical) == Action::Escalate,
        c == ErrCode::Cancelled ==> response_to(c) == Response::Exit,
{
}

// ── Failed inputs ──

/// Whether the named proc has failed.
pub open spec fn dead(results: Map<Seq<char>, GValue>, x: Seq<char>) -> bool {
    results.dom().contains(x) && is_left(results[x])
}

/// The failed ones of the first `n` names.
pub open spec fn dead_upto(
    results: Map<Seq<char>, GValue>,
    refs: Seq<Seq<char>>,
    n: int,
) -> Seq<Seq<char>>
    decreases n,
{
    if n <= 0 {
        Seq::empty()
    } else if dead(results, refs[n - 1]) {
        dead_upto(results, refs, n - 1).push(refs[n - 1])
    } else {
        dead_upto(results, refs, n - 1)
    }
}

/// The first failed name from the `i`-th on.
pub open spec fn first_dead(
    results: Map<Seq<char>, GValue>,
    refs: Seq<Seq<char>>,
    i: int,
) -> Option<Seq<char>>
    decreases refs.len() - i,
{
    if i >= refs.len() {
        None
    } else if dead(results, refs[i]) {
        Some(refs[i])
    } else {
        first_dead(results, refs, i + 1)
    }
}

/// Whether the named proc has failed.
pub fn is_dead(results: &TextMap<Value>, x: &str) -> (r: bool)
    requires
        results.wf(),
    ensures
        r == dead(ast::result_views(*results), x@),
{
    match results.get(x) {
        Some(v) => is_error_value(v),
        None => false,
    }
}

/// The failed ones of the names.
pub fn dead_refs(results: &TextMap<Value>, refs: &Vec<String>) -> (r: Vec<String>)
    requires
        results.wf(),
    ensures
        text::views(r@) == dead_upto(ast::result_views(*results), text::views(refs@), refs@.len() as int),
{
    let ghost rv = text::views(refs@);
    let mut out: Vec<String> = Vec::new();
    let mut i: usize = 0;
    assert(text::views(out@) =~= Seq::<Seq<char>>::empty());
    while i < refs.len()
        invariant
            i <= refs@.len(),
            results.wf(),
            rv == text::views(refs@),
            text::views(out@) == dead_upto(ast::result_views(*results), rv, i as int),
        decreases refs@.len() - i,
    {
        if is_dead(results, refs[i].as_str()) {
            let ghost before = out@;
            out.push(refs[i].clone());
            assert(text::views(out@) =~= text::views(before).push(rv[i as int]));
        }
        i += 1;
    }
    out
}

/// The first failed one of the names.
pub fn upstream_left(results: &TextMap<Value>, refs: &Vec<String>) -> (r: Option<String>)
    requires
        results.wf(),
    ensures
        text::opt_view(r) == first_dead(ast::result_views(*results), text::views(refs@), 0),
{
    let ghost rv = text::views(refs@);
    let mut i: usize = 0;
    while i < refs.len()
        invariant
            i <= refs@.len(),
            results.wf(),
            rv == text::views(refs@),
            first_dead(ast::result_views(*results), rv, 0) == first_dead(ast::result_views(*results), rv, i as int),
        decreases refs@.len() - i,
    {
        if is_dead(results, refs[i].as_str()) {
            return Some(refs[i].clone());
        }
        i += 1;
    }
    None
}

} // verus!
