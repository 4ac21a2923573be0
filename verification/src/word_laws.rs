//! Which words of a message tell what kind of error it is.

use crate::errflow;
use crate::errflow::ErrCode;
use crate::text;
use vstd::prelude::*;

verus! {

/// Whether a text holds one of the words.
pub open spec fn any_of(s: Seq<char>, words: Seq<Seq<char>>) -> bool {
    exists|i: int| 0 <= i < words.len() && text::has(s, #[trigger] words[i])
}

/// The words that tell that the user stopped it.
pub open spec fn cancelled_words() -> Seq<Seq<char>> {
    seq![
        "interrupted by user"@,
        "cancelled"@,
        "canceled"@,
        "ctrl+c"@,
        "sigint"@,
        "keyboardinterrupt"@,
    ]
}

proof fn lemma_cancelled(s: Seq<char>)
    ensures
        errflow::says_cancelled(s) <==> any_of(s, cancelled_words()),
{
    let w = cancelled_words();
    assert(w.len() == 6);
    assert(w[0] == "interrupted by user"@);
    assert(w[1] == "cancelled"@);
    assert(w[2] == "canceled"@);
    assert(w[3] == "ctrl+c"@);
    assert(w[4] == "sigint"@);
    assert(w[5] == "keyboardinterrupt"@);
    if any_of(s, w) {
        let i = choose|i: int| 0 <= i < w.len() && text::has(s, #[trigger] w[i]);
        assert(text::has(s, w[i]));
    }
}

/// The words that tell that a call breaks a contract.
pub open spec fn contract_words() -> Seq<Seq<char>> {
    seq![
        "not attached"@,
        "not in contract"@,
        "contract violation"@,
        "missing required param"@,
        "missing parameter"@,
        "invalid script name"@,
        "protected root"@,
        "param '"@,
    ]
}

proof fn lemma_contract(s: Seq<char>)
    ensures
        errflow::says_contract(s) <==> any_of(s, contract_words()),
{
    let w = contract_words();
    assert(w.len() == 8);
    assert(w[0] == "not attached"@);
    assert(w[1] == "not in contract"@);
    assert(w[2] == "contract violation"@);
    assert(w[3] == "missing required param"@);
    assert(w[4] == "missing parameter"@);
    assert(w[5] == "invalid script name"@);
    assert(w[6] == "protected root"@);
    assert(w[7] == "param '"@);
    if any_of(s, w) {
        let i = choose|i: int| 0 <= i < w.len() && text::has(s, #[trigger] w[i]);
        assert(text::has(s, w[i]));
    }
}

/// The words that tell that too much was asked.
pub open spec fn ratelimit_words() -> Seq<Seq<char>> {
    seq![
        "too many requests"@,
        "429"@,
        "rate limit"@,
        "ratelimit"@,
        "rate exceeded"@,
        "quota exceeded"@,
        "quota limit"@,
        "enhance your calm"@,
        "slow down"@,
    ]
}

proof fn lemma_ratelimit(s: Seq<char>)
    ensures
        errflow::says_ratelimit(s) <==> any_of(s, ratelimit_words()),
{
    let w = ratelimit_words();
    assert(w.len() == 9);
    assert(w[0] == "too many requests"@);
    assert(w[1] == "429"@);
    assert(w[2] == "rate limit"@);
    assert(w[3] == "ratelimit"@);
    assert(w[4] == "rate exceeded"@);
    assert(w[5] == "quota exceeded"@);
    assert(w[6] == "quota limit"@);
    assert(w[7] == "enhance your calm"@);
    assert(w[8] == "slow down"@);
    if any_of(s, w) {
        let i = choose|i: int| 0 <= i < w.len() && text::has(s, #[trigger] w[i]);
        assert(text::has(s, w[i]));
    }
}

/// The words that tell that credentials are not accepted.
pub open spec fn auth_words() -> Seq<Seq<char>> {
    seq![
        "401"@,
        "403"@,
        "unauthorized"@,
        "forbidden"@,
        "invalid api key"@,
        "invalid_api_key"@,
        "invalid token"@,
        "token expired"@,
        "expired token"@,
        "authentication"@,
        "authenticationfailed"@,
        "permission denied by api"@,
        "incorrect api key"@,
    ]
}

proof fn lemma_auth(s: Seq<char>)
    ensures
        errflow::says_auth(s) <==> any_of(s, auth_words()),
{
    let w = auth_words();
    assert(w.len() == 13);
    assert(w[0] == "401"@);
    assert(w[1] == "403"@);
    assert(w[2] == "unauthorized"@);
    assert(w[3] == "forbidden"@);
    assert(w[4] == "invalid api key"@);
    assert(w[5] == "invalid_api_key"@);
    assert(w[6] == "invalid token"@);
    assert(w[7] == "token expired"@);
    assert(w[8] == "expired token"@);
    assert(w[9] == "authentication"@);
    assert(w[10] == "authenticationfailed"@);
    assert(w[11] == "permission denied by api"@);
    assert(w[12] == "incorrect api key"@);
    if any_of(s, w) {
        let i = choose|i: int| 0 <= i < w.len() && text::has(s, #[trigger] w[i]);
        assert(text::has(s, w[i]));
    }
}

/// The words that tell that it took too long.
pub open spec fn timeout_words() -> Seq<Seq<char>> {
    seq![
        "timed out"@,
        "timeouterror"@,
        "timeout expired"@,
    ]
}

proof fn lemma_timeout(s: Seq<char>)
    ensures
        errflow::says_timeout(s) <==> any_of(s, timeout_words()),
{
    let w = timeout_words();
    assert(w.len() == 3);
    assert(w[0] == "timed out"@);
    assert(w[1] == "timeouterror"@);
    assert(w[2] == "timeout expired"@);
    if any_of(s, w) {
        let i = choose|i: int| 0 <= i < w.len() && text::has(s, #[trigger] w[i]);
        assert(text::has(s, w[i]));
    }
}

/// The words that tell that memory ran out.
pub open spec fn memory_words() -> Seq<Seq<char>> {
    seq![
        "out of memory"@,
        "cuda out of memory"@,
        "cuda error: out of memory"@,
        "oom"@,
        "cannot allocate memory"@,
        "memoryerror"@,
        "killed"@,
        "exit some(137)"@,
        "exit 137"@,
        "tried to allocate"@,
    ]
}

proof fn lemma_memory(s: Seq<char>)
    ensures
        errflow::says_memory(s) <==> any_of(s, memory_words()),
{
    let w = memory_words();
    assert(w.len() == 10);
    assert(w[0] == "out of memory"@);
    assert(w[1] == "cuda out of memory"@);
    assert(w[2] == "cuda error: out of memory"@);
    assert(w[3] == "oom"@);
    assert(w[4] == "cannot allocate memory"@);
    assert(w[5] == "memoryerror"@);
    assert(w[6] == "killed"@);
    assert(w[7] == "exit some(137)"@);
    assert(w[8] == "exit 137"@);
    assert(w[9] == "tried to allocate"@);
    if any_of(s, w) {
        let i = choose|i: int| 0 <= i < w.len() && text::has(s, #[trigger] w[i]);
        assert(text::has(s, w[i]));
    }
}

/// The words that tell that something is not installed.
pub open spec fn dependency_words() -> Seq<Seq<char>> {
    seq![
        "modulenotfounderror"@,
        "importerror"@,
        "cannot import"@,
        "no module named"@,
        "command not found"@,
        "not found command"@,
        "shared library"@,
        "shared libraries"@,
        "cannot open shared object"@,
        "library not found"@,
        "librarymissingerror"@,
        "version mismatch"@,
        "version conflict"@,
        "incompatible version"@,
    ]
}

proof fn lemma_dependency(s: Seq<char>)
    ensures
        errflow::says_dependency(s) <==> any_of(s, dependency_words()),
{
    let w = dependency_words();
    assert(w.len() == 14);
    assert(w[0] == "modulenotfounderror"@);
    assert(w[1] == "importerror"@);
    assert(w[2] == "cannot import"@);
    assert(w[3] == "no module named"@);
    assert(w[4] == "command not found"@);
    assert(w[5] == "not found command"@);
    assert(w[6] == "shared library"@);
    assert(w[7] == "shared libraries"@);
    assert(w[8] == "cannot open shared object"@);
    assert(w[9] == "library not found"@);
    assert(w[10] == "librarymissingerror"@);
    assert(w[11] == "version mismatch"@);
    assert(w[12] == "version conflict"@);
    assert(w[13] == "incompatible version"@);
    if any_of(s, w) {
        let i = choose|i: int| 0 <= i < w.len() && text::has(s, #[trigger] w[i]);
        assert(text::has(s, w[i]));
    }
}

/// The words that tell that it is not allowed.
pub open spec fn permission_words() -> Seq<Seq<char>> {
    seq![
        "permission denied"@,
        "permissionerror"@,
        "eacces"@,
        "eperm"@,
        "operation not permitted"@,
        "read-only file system"@,
    ]
}

proof fn lemma_permission(s: Seq<char>)
    ensures
        errflow::says_permission(s) <==> any_of(s, permission_words()),
{
    let w = permission_words();
    assert(w.len() == 6);
    assert(w[0] == "permission denied"@);
    assert(w[1] == "permissionerror"@);
    assert(w[2] == "eacces"@);
    assert(w[3] == "eperm"@);
    assert(w[4] == "operation not permitted"@);
    assert(w[5] == "read-only file system"@);
    if any_of(s, w) {
        let i = choose|i: int| 0 <= i < w.len() && text::has(s, #[trigger] w[i]);
        assert(text::has(s, w[i]));
    }
}

/// The words that tell that the other side cannot be reached.
pub open spec fn network_words() -> Seq<Seq<char>> {
    seq![
        "connection refused"@,
        "connection reset"@,
        "connectionerror"@,
        "connection error"@,
        "connect failed"@,
        "getaddrinfo failed"@,
        "errno -2"@,
        "econnrefused"@,
        "ehostunreach"@,
        "enetunreach"@,
        "econnreset"@,
        "network is unreachable"@,
        "network error"@,
        "temporary failure in name resolution"@,
        "name or service not known"@,
        "service unavailable"@,
        "503 service"@,
        "502 bad gateway"@,
        "504 gateway"@,
        "gateway timeout"@,
        "bad gateway"@,
    ]
}

proof fn lemma_network(s: Seq<char>)
    ensures
        errflow::says_network(s) <==> any_of(s, network_words()),
{
    let w = network_words();
    assert(w.len() == 21);
    assert(w[0] == "connection refused"@);
    assert(w[1] == "connection reset"@);
    assert(w[2] == "connectionerror"@);
    assert(w[3] == "connection error"@);
    assert(w[4] == "connect failed"@);
    assert(w[5] == "getaddrinfo failed"@);
    assert(w[6] == "errno -2"@);
    assert(w[7] == "econnrefused"@);
    assert(w[8] == "ehostunreach"@);
    assert(w[9] == "enetunreach"@);
    assert(w[10] == "econnreset"@);
    assert(w[11] == "network is unreachable"@);
    assert(w[12] == "network error"@);
    assert(w[13] == "temporary failure in name resolution"@);
    assert(w[14] == "name or service not known"@);
    assert(w[15] == "service unavailable"@);
    assert(w[16] == "503 service"@);
    assert(w[17] == "502 bad gateway"@);
    assert(w[18] == "504 gateway"@);
    assert(w[19] == "gateway timeout"@);
    assert(w[20] == "bad gateway"@);
    if any_of(s, w) {
        let i = choose|i: int| 0 <= i < w.len() && text::has(s, #[trigger] w[i]);
        assert(text::has(s, w[i]));
    }
}

/// The words that tell that something local is missing or full.
pub open spec fn resource_words() -> Seq<Seq<char>> {
    seq![
        "not found"@,
        "no such file"@,
        "nosuchfile"@,
        "filenotfounderror"@,
        "launch failed"@,
        "spawn failed"@,
        "disk full"@,
        "enospc"@,
        "address in use"@,
        "eaddrinuse"@,
    ]
}

proof fn lemma_resource(s: Seq<char>)
    ensures
        errflow::says_resource(s) <==> any_of(s, resource_words()),
{
    let w = resource_words();
    assert(w.len() == 10);
    assert(w[0] == "not found"@);
    assert(w[1] == "no such file"@);
    assert(w[2] == "nosuchfile"@);
    assert(w[3] == "filenotfounderror"@);
    assert(w[4] == "launch failed"@);
    assert(w[5] == "spawn failed"@);
    assert(w[6] == "disk full"@);
    assert(w[7] == "enospc"@);
    assert(w[8] == "address in use"@);
    assert(w[9] == "eaddrinuse"@);
    if any_of(s, w) {
        let i = choose|i: int| 0 <= i < w.len() && text::has(s, #[trigger] w[i]);
        assert(text::has(s, w[i]));
    }
}

/// The words that tell that the output was cut off.
pub open spec fn truncation_words() -> Seq<Seq<char>> {
    seq![
        "finish_reason=length"@,
        "finish reason: length"@,
        "finish_reason: length"@,
        "output truncated"@,
        "truncated output"@,
        "was truncated"@,
        "response truncated"@,
        "max_tokens"@,
        "max tokens exceeded"@,
        "context length exceeded"@,
        "context window exceeded"@,
        "maximum context length"@,
        "too long"@,
        "exceeds the maximum"@,
    ]
}

proof fn lemma_truncation(s: Seq<char>)
    ensures
        errflow::says_truncation(s) <==> any_of(s, truncation_words()),
{
    let w = truncation_words();
    assert(w.len() == 14);
    assert(w[0] == "finish_reason=length"@);
    assert(w[1] == "finish reason: length"@);
    assert(w[2] == "finish_reason: length"@);
    assert(w[3] == "output truncated"@);
    assert(w[4] == "truncated output"@);
    assert(w[5] == "was truncated"@);
    assert(w[6] == "response truncated"@);
    assert(w[7] == "max_tokens"@);
    assert(w[8] == "max tokens exceeded"@);
    assert(w[9] == "context length exceeded"@);
    assert(w[10] == "context window exceeded"@);
    assert(w[11] == "maximum context length"@);
    assert(w[12] == "too long"@);
    assert(w[13] == "exceeds the maximum"@);
    if any_of(s, w) {
        let i = choose|i: int| 0 <= i < w.len() && text::has(s, #[trigger] w[i]);
        assert(text::has(s, w[i]));
    }
}

/// The words that tell that the input cannot be read.
pub open spec fn format_words() -> Seq<Seq<char>> {
    seq![
        "jsondecodeerror"@,
        "unicodedecodeerror"@,
        "unicodeencodeerror"@,
        "invalid utf"@,
        "invalidutf"@,
        "parse error"@,
        "parseerror"@,
        "parsing error"@,
        "unexpected df output"@,
        "unexpected end of input"@,
        "unexpected token"@,
        "invalid format"@,
        "malformed"@,
        "not well-formed"@,
    ]
}

proof fn lemma_format(s: Seq<char>)
    ensures
        errflow::says_format(s) <==> any_of(s, format_words()),
{
    let w = format_words();
    assert(w.len() == 14);
    assert(w[0] == "jsondecodeerror"@);
    assert(w[1] == "unicodedecodeerror"@);
    assert(w[2] == "unicodeencodeerror"@);
    assert(w[3] == "invalid utf"@);
    assert(w[4] == "invalidutf"@);
    assert(w[5] == "parse error"@);
    assert(w[6] == "parseerror"@);
    assert(w[7] == "parsing error"@);
    assert(w[8] == "unexpected df output"@);
    assert(w[9] == "unexpected end of input"@);
    assert(w[10] == "unexpected token"@);
    assert(w[11] == "invalid format"@);
    assert(w[12] == "malformed"@);
    assert(w[13] == "not well-formed"@);
    if any_of(s, w) {
        let i = choose|i: int| 0 <= i < w.len() && text::has(s, #[trigger] w[i]);
        assert(text::has(s, w[i]));
    }
}

/// The words that tell that fields are not as expected.
pub open spec fn schema_words() -> Seq<Seq<char>> {
    seq![
        "keyerror"@,
        "typeerror"@,
        "attributeerror"@,
        "validation"@,
        "validationerror"@,
        "missing field"@,
        "missing key"@,
        "expected one of"@,
        "invalid response format"@,
        "unrecognized response"@,
        "field is required"@,
        "null value"@,
        "none value"@,
    ]
}

proof fn lemma_schema(s: Seq<char>)
    ensures
        errflow::says_schema(s) <==> any_of(s, schema_words()),
{
    let w = schema_words();
    assert(w.len() == 13);
    assert(w[0] == "keyerror"@);
    assert(w[1] == "typeerror"@);
    assert(w[2] == "attributeerror"@);
    assert(w[3] == "validation"@);
    assert(w[4] == "validationerror"@);
    assert(w[5] == "missing field"@);
    assert(w[6] == "missing key"@);
    assert(w[7] == "expected one of"@);
    assert(w[8] == "invalid response format"@);
    assert(w[9] == "unrecognized response"@);
    assert(w[10] == "field is required"@);
    assert(w[11] == "null value"@);
    assert(w[12] == "none value"@);
    if any_of(s, w) {
        let i = choose|i: int| 0 <= i < w.len() && text::has(s, #[trigger] w[i]);
        assert(text::has(s, w[i]));
    }
}

/// The words that tell that a value is out of range.
pub open spec fn data_words() -> Seq<Seq<char>> {
    seq![
        "valueerror"@,
        "indexerror"@,
        "overflow"@,
        "zerodivisionerror"@,
        "assertion"@,
        "assertionerror"@,
        "out of range"@,
        "out of bounds"@,
        "arithmetic"@,
    ]
}

proof fn lemma_data(s: Seq<char>)
    ensures
        errflow::says_data(s) <==> any_of(s, data_words()),
{
    let w = data_words();
    assert(w.len() == 9);
    assert(w[0] == "valueerror"@);
    assert(w[1] == "indexerror"@);
    assert(w[2] == "overflow"@);
    assert(w[3] == "zerodivisionerror"@);
    assert(w[4] == "assertion"@);
    assert(w[5] == "assertionerror"@);
    assert(w[6] == "out of range"@);
    assert(w[7] == "out of bounds"@);
    assert(w[8] == "arithmetic"@);
    if any_of(s, w) {
        let i = choose|i: int| 0 <= i < w.len() && text::has(s, #[trigger] w[i]);
        assert(text::has(s, w[i]));
    }
}

/// The kind of a message is the first, in this order, of whose words it holds one;
/// a message that holds none of them tells of a crash.
pub proof fn law_words_tell_the_kind(s: Seq<char>)
    ensures
        ({
            let k = errflow::kind_of_lower(s);
            let cancelled = any_of(s, cancelled_words());
            let contract = any_of(s, contract_words());
            let ratelimit = any_of(s, ratelimit_words());
            let auth = any_of(s, auth_words());
            let timeout = any_of(s, timeout_words());
            let memory = any_of(s, memory_words());
            let dependency = any_of(s, dependency_words());
            let permission = any_of(s, permission_words());
            let network = any_of(s, network_words());
            let resource = any_of(s, resource_words());
            let truncation = any_of(s, truncation_words());
            let format = any_of(s, format_words());
            let schema = any_of(s, schema_words());
            let data = any_of(s, data_words());
            &&& cancelled ==> k == ErrCode::Cancelled
            &&& !cancelled && contract ==> k == ErrCode::Contract
            &&& !cancelled && !contract && ratelimit ==> k == ErrCode::RateLimit
            &&& !cancelled && !contract && !ratelimit && auth ==> k == ErrCode::Auth
            &&& !cancelled && !contract && !ratelimit && !auth && timeout ==> k == ErrCode::Timeout
            &&& !cancelled && !contract && !ratelimit && !auth && !timeout && memory ==> k == ErrCode::Memory
            &&& !cancelled && !contract && !ratelimit && !auth && !timeout && !memory && dependency ==> k == ErrCode::Dependency
            &&& !cancelled && !contract && !ratelimit && !auth && !timeout && !memory && !dependency && permission ==> k == ErrCode::Permission
            &&& !cancelled && !contract && !ratelimit && !auth && !timeout && !memory && !dependency && !permission && network ==> k == ErrCode::Network
            &&& !cancelled && !contract && !ratelimit && !auth && !timeout && !memory && !dependency && !permission && !network && resource ==> k == ErrCode::Resource
            &&& !cancelled && !contract && !ratelimit && !auth && !timeout && !memory && !dependency && !permission && !network && !resource && truncation ==> k == ErrCode::Truncation
            &&& !cancelled && !contract && !ratelimit && !auth && !timeout && !memory && !dependency && !permission && !network && !resource && !truncation && format ==> k == ErrCode::Format
            &&& !cancelled && !contract && !ratelimit && !auth && !timeout && !memory && !dependency && !permission && !network && !resource && !truncation && !format && schema ==> k == ErrCode::Schema
            &&& !cancelled && !contract && !ratelimit && !auth && !timeout && !memory && !dependency && !permission && !network && !resource && !truncation && !format && !schema && data ==> k == ErrCode::Data
            &&& !cancelled && !contract && !ratelimit && !auth && !timeout && !memory && !dependency && !permission && !network && !resource && !truncation && !format && !schema && !data ==> k == ErrCode::Crash
        }),
{
    lemma_cancelled(s);
    lemma_contract(s);
    lemma_ratelimit(s);
    lemma_auth(s);
    lemma_timeout(s);
    lemma_memory(s);
    lemma_dependency(s);
    lemma_permission(s);
    lemma_network(s);
    lemma_resource(s);
    lemma_truncation(s);
    lemma_format(s);
    lemma_schema(s);
    lemma_data(s);
}

} // verus!
