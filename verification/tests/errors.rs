#![allow(non_snake_case)]
use ductile::ast::{Contract, Impl, Pipeline, Proc, Value};
use ductile::critical::{critical_set, fatal_left};
use ductile::dslresult;
use ductile::errflow::{
    classify, code_of, dead_refs, is_error_value, respond, strategy, strategy_for, trunc_chars,
    upstream_left, Action, Backoff, ErrCode, ErrorRecord, Response,
};
use ductile::order::{TextMap, TextSet};
#[test]
fn engine_run_timeout() {
    assert_eq!(
        classify("run timed out after 5s: ffmpeg -i x.mp4"),
        ErrCode::Timeout
    );
}

#[test]
fn engine_file_not_found() {
    assert_eq!(classify("file not found: /tmp/a.txt"), ErrCode::Resource);
}

#[test]
fn engine_cp_source_not_found() {
    assert_eq!(
        classify("cp: source not found: /data/in.jpg"),
        ErrCode::Resource
    );
}

#[test]
fn engine_read_permission() {
    assert_eq!(
        classify("read failed: Permission denied (os error 13)"),
        ErrCode::Permission
    );
}

#[test]
fn engine_rm_protected_root() {
    assert_eq!(
        classify("rm refused: / is a protected root"),
        ErrCode::Contract
    );
}

#[test]
fn engine_script_not_attached() {
    assert_eq!(
        classify("script 'word_stat' not attached (registered: a, b)"),
        ErrCode::Contract
    );
}

#[test]
fn engine_param_not_in_contract() {
    assert_eq!(
        classify("param 'size' not in contract of 'resize'"),
        ErrCode::Contract
    );
}

#[test]
fn engine_missing_required_param() {
    assert_eq!(classify("missing required param: text"), ErrCode::Contract);
}

#[test]
fn engine_df_output() {
    assert_eq!(classify("disk: unexpected df output"), ErrCode::Format);
}

#[test]
fn engine_launch_failed() {
    assert_eq!(
        classify("search bridge launch failed: No such file or directory (os error 2)"),
        ErrCode::Resource
    );
}

#[test]
fn engine_spawn_failed() {
    assert_eq!(
        classify("spawn failed: Permission denied (os error 13)"),
        ErrCode::Permission
    );
}

#[test]
fn engine_all_paths_failed_is_crash_or_contextual() {
    assert_eq!(
        classify("All paths failed for proc: render"),
        ErrCode::Crash
    );
}

#[test]
fn py_traceback_typeerror() {
    let tb = "Traceback (most recent call last):\n  File \"x.py\", line 3, in <module>\nTypeError: can only concatenate str (not \"int\") to str";
    assert_eq!(classify(tb), ErrCode::Schema);
}

#[test]
fn py_traceback_filenotfound() {
    let tb = "Traceback (most recent call last):\n  File \"x.py\", line 2\nFileNotFoundError: [Errno 2] No such file or directory: 'in.csv'";
    assert_eq!(classify(tb), ErrCode::Resource);
}

#[test]
fn py_traceback_permissionerror() {
    let tb = "Traceback (most recent call last):\nPermissionError: [Errno 13] Permission denied: '/root/secret'";
    assert_eq!(classify(tb), ErrCode::Permission);
}

#[test]
fn py_json_decode() {
    assert_eq!(
        classify("json.decoder.JSONDecodeError: Expecting value: line 1 column 1"),
        ErrCode::Format
    );
}

#[test]
fn py_keyerror() {
    assert_eq!(classify("KeyError: 'width'"), ErrCode::Schema);
}

#[test]
fn py_unicode_decode() {
    assert_eq!(
        classify("UnicodeDecodeError: 'utf-8' codec can't decode byte 0xff"),
        ErrCode::Format
    );
}

#[test]
fn py_connection_refused() {
    assert_eq!(
        classify("requests.exceptions.ConnectionError: HTTPConnectionPool: Max retries exceeded ... Connection refused"),
        ErrCode::Network
    );
}

#[test]
fn py_timeout_error() {
    assert_eq!(
        classify("requests.exceptions.ReadTimeout: HTTPSConnectionPool: Read timed out. (read timeout=30)"),
        ErrCode::Timeout
    );
}

#[test]
fn bash_segfault_is_crash() {
    assert_eq!(
        classify("run failed (exit Some(139)): <empty stderr>"),
        ErrCode::Crash
    );
}

#[test]
fn bash_oOm_kill() {
    assert_eq!(classify("run failed (exit Some(137))"), ErrCode::Memory);
}

#[test]
fn empty_is_crash() {
    assert_eq!(classify(""), ErrCode::Crash);
}

#[test]
fn record_encodes_dsl_result_protocol() {
    let r = ErrorRecord::new("render", "ffmpeg", "run timed out after 5s: ffmpeg", 3);
    let enc = r.encode();
    assert_eq!(dslresult::extract_field("err", &enc).as_deref(), Some("1"));
    assert_eq!(
        dslresult::extract_field("err_code", &enc).as_deref(),
        Some("timeout")
    );
    assert_eq!(
        dslresult::extract_field("err_proc", &enc).as_deref(),
        Some("render")
    );
    assert_eq!(
        dslresult::extract_field("err_impl", &enc).as_deref(),
        Some("ffmpeg")
    );
    assert_eq!(
        dslresult::extract_field("attempts", &enc).as_deref(),
        Some("3")
    );
    assert!(enc.contains("ffmpeg"));
}

#[test]
fn record_truncates_long_raw() {
    let long = "x".repeat(10_000);
    let r = ErrorRecord::new("p", "i", &long, 1);
    assert!(r.raw.chars().count() <= 4097);
    assert!(r.message.chars().count() <= 501);
}

#[test]
fn is_error_value_detects_left() {
    let r = ErrorRecord::new("p", "i", "boom", 1);
    let v = Value::Text(r.encode());
    assert!(is_error_value(&v));
}

#[test]
fn is_error_value_rejects_normal_output() {
    let normal =
        dslresult::encode_structured_result(&vec![("score".to_string(), "85".to_string())], "raw");
    assert!(!is_error_value(&Value::Text(normal)));
    assert!(!is_error_value(&Value::Text(
        "plain text".into()
    )));
}

#[test]
fn upstream_left_detects_dead_dep() {
    let err = ErrorRecord::new("render", "ffmpeg", "boom timeout", 1).encode();
    let mut results = TextMap::new();
    results.insert("render".to_string(), Value::Text(err));
    results.insert("search".to_string(), Value::Text("ok".into()));
    assert_eq!(
        upstream_left(&results, &vec!["search".to_string(), "render".to_string()]),
        Some("render".to_string())
    );
    assert_eq!(upstream_left(&results, &vec!["search".to_string()]), None);
}

#[test]
fn respond_table() {
    assert_eq!(respond(ErrCode::Timeout), Response::Wait);
    assert_eq!(respond(ErrCode::Resource), Response::Wait);
    assert_eq!(respond(ErrCode::Data), Response::Switch);
    assert_eq!(respond(ErrCode::Permission), Response::Ignore);
    assert_eq!(respond(ErrCode::Crash), Response::Ignore);
    assert_eq!(respond(ErrCode::Contract), Response::Exit);
}

#[test]
fn new_ratelimit() {
    assert_eq!(
        classify("HTTP 429 Too Many Requests: rate limit exceeded"),
        ErrCode::RateLimit
    );
    assert_eq!(
        classify("openai: quota exceeded for this month"),
        ErrCode::RateLimit
    );
}

#[test]
fn new_auth() {
    assert_eq!(
        classify("HTTP 401 Unauthorized: invalid api key"),
        ErrCode::Auth
    );
    assert_eq!(classify("Error code: 403 - forbidden"), ErrCode::Auth);
    assert_eq!(
        classify("the token has expired (token expired)"),
        ErrCode::Auth
    );
}

#[test]
fn new_memory() {
    assert_eq!(
        classify("torch.cuda.OutOfMemoryError: CUDA out of memory. Tried to allocate 2.5 GiB"),
        ErrCode::Memory
    );
    assert_eq!(classify("MemoryError"), ErrCode::Memory);
}

#[test]
fn new_dependency() {
    assert_eq!(
        classify("ModuleNotFoundError: No module named 'numpy'"),
        ErrCode::Dependency
    );
    assert_eq!(
        classify("bash: ffmpeg: command not found"),
        ErrCode::Dependency
    );
    assert_eq!(
        classify("error while loading shared libraries: libcuda.so.1"),
        ErrCode::Dependency
    );
}

#[test]
fn new_network() {
    assert_eq!(
        classify("socket.gaierror: [Errno -2] Name or service not known"),
        ErrCode::Network
    );
    assert_eq!(classify("HTTP 502 Bad Gateway"), ErrCode::Network);
    assert_eq!(classify("HTTP 503 Service Unavailable"), ErrCode::Network);
}

#[test]
fn new_cancelled() {
    assert_eq!(classify("KeyboardInterrupt"), ErrCode::Cancelled);
    assert_eq!(
        classify("process interrupted by user (SIGINT)"),
        ErrCode::Cancelled
    );
}

#[test]
fn respond_table_v14c() {
    assert_eq!(respond(ErrCode::Cancelled), Response::Exit);
    assert_eq!(respond(ErrCode::RateLimit), Response::Wait);
    assert_eq!(respond(ErrCode::Memory), Response::Wait);
    assert_eq!(respond(ErrCode::Network), Response::Wait);
    assert_eq!(respond(ErrCode::Auth), Response::Switch);
    assert_eq!(respond(ErrCode::Dependency), Response::Ignore);
}

#[test]
fn strategy_table_v14c() {
    assert_eq!(strategy(ErrCode::Cancelled), Action::Escalate);
    assert_eq!(
        strategy(ErrCode::RateLimit),
        Action::Retry {
            budget: 2,
            backoff: Backoff::Linear
        }
    );
    assert_eq!(strategy(ErrCode::Auth), Action::Escalate);
    assert_eq!(
        strategy(ErrCode::Memory),
        Action::Retry {
            budget: 1,
            backoff: Backoff::Linear
        }
    );
    assert_eq!(strategy(ErrCode::Dependency), Action::Escalate);
}

#[test]
fn data_split_truncation() {
    assert_eq!(
        classify("openai response: finish_reason=length, output was truncated"),
        ErrCode::Truncation
    );
    assert_eq!(
        classify("This model's maximum context length is 4096 tokens"),
        ErrCode::Truncation
    );
    assert_eq!(
        classify("output truncated: response cut off at max_tokens"),
        ErrCode::Truncation
    );
}

#[test]
fn data_split_format() {
    assert_eq!(
        classify("json.decoder.JSONDecodeError: Expecting value: line 1 column 1"),
        ErrCode::Format
    );
    assert_eq!(
        classify("UnicodeDecodeError: 'utf-8' codec can't decode byte 0xff"),
        ErrCode::Format
    );
    assert_eq!(
        classify("yaml: mapping values are not allowed here — parse error"),
        ErrCode::Format
    );
}

#[test]
fn data_split_schema() {
    assert_eq!(classify("KeyError: 'width'"), ErrCode::Schema);
    assert_eq!(
        classify("TypeError: can only concatenate str (not \"int\") to str"),
        ErrCode::Schema
    );
    assert_eq!(
        classify("pydantic ValidationError: field is required (missing field 'title')"),
        ErrCode::Schema
    );
}

#[test]
fn data_narrowed_to_value_domain() {
    assert_eq!(
        classify("ValueError: invalid literal for int()"),
        ErrCode::Data
    );
    assert_eq!(
        classify("IndexError: list index out of range"),
        ErrCode::Data
    );
    assert_eq!(
        classify("ZeroDivisionError: division by zero"),
        ErrCode::Data
    );
    assert_eq!(classify("OverflowError: math range error"), ErrCode::Data);
}

#[test]
fn strategy_v14d() {
    assert_eq!(
        strategy(ErrCode::Truncation),
        Action::Retry {
            budget: 2,
            backoff: Backoff::Linear
        }
    );
    assert_eq!(strategy(ErrCode::Format), Action::Reroute);
    assert_eq!(strategy(ErrCode::Schema), Action::Reroute);
}

#[test]
fn respond_v14d() {
    assert_eq!(respond(ErrCode::Truncation), Response::Wait);
    assert_eq!(respond(ErrCode::Format), Response::Switch);
    assert_eq!(respond(ErrCode::Schema), Response::Switch);
}

#[test]
fn strategy_table() {
    assert_eq!(
        strategy(ErrCode::Timeout),
        Action::Retry {
            budget: 2,
            backoff: Backoff::Linear
        }
    );
    assert_eq!(strategy(ErrCode::Data), Action::Reroute);
    assert_eq!(strategy(ErrCode::Permission), Action::Escalate);
    assert_eq!(strategy(ErrCode::Contract), Action::Escalate);
    assert_eq!(strategy(ErrCode::Crash), Action::Escalate);
}

#[test]
fn dead_refs_and_code_of() {
    let err =
        ErrorRecord::new("render", "ffmpeg", "Permission denied (os error 13)", 1).encode();
    let mut results = TextMap::new();
    results.insert("render".to_string(), Value::Text(err));
    results.insert("search".to_string(), Value::Text("ok".into()));
    let dead = dead_refs(&results, &vec!["search".to_string(), "render".to_string()]);
    assert_eq!(dead, vec!["render".to_string()]);
    assert_eq!(
        code_of(&match results.get("render") {
            Some(Value::Text(t)) => t.clone(),
            _ => String::new(),
        }),
        ErrCode::Permission
    );
    assert_eq!(code_of("plain text"), ErrCode::Crash);
}

#[test]
fn permission_beats_resource_weak_words() {
    assert_eq!(
        classify("write failed: /out/x.mp4: Permission denied"),
        ErrCode::Permission
    );
}

#[test]
fn timeout_beats_resource() {
    assert_eq!(
        classify("Connection to db:5432 timed out. (connect timeout=10)"),
        ErrCode::Timeout
    );
}

#[test]
fn contract_param_quote_pattern() {
    assert_eq!(classify("missing parameter: width"), ErrCode::Contract);
    assert_eq!(classify("missing required param: text"), ErrCode::Contract);
    assert_eq!(classify("unknown parameter passed"), ErrCode::Crash);
}

fn mk_proc(name: &str, imp: &str, body: &str, refs: &[&str]) -> Proc {
    Proc {
        name: name.into(),
        description: String::new(),
        plan: vec![Impl {
            name: imp.into(),
            description: String::new(),
            tags: TextSet::new(),
            cost_key: 0,
            enabled: true,
            when: None,
            refs: refs.iter().map(|r| r.to_string()).collect(),
            body_text: body.into(),
            stub: false,
            retry: 0,
            ensure: vec![],
        }],
        checks: vec![],
        contract: Contract::default(),
        deliver: false,
        deliver_refs: vec![],
        needs: vec![],
        foreach: None,
        foreach_var: String::new(),
        pick_by: "cost + history".into(),
    }
}

fn mini_pipeline() -> Pipeline {
    let mut deliver = mk_proc("deliver", "", "", &[]);
    deliver.plan = vec![];
    deliver.deliver = true;
    deliver.deliver_refs = vec!["report".into()];
    Pipeline {
        name: "x".into(),
        description: String::new(),
        procs: vec![
            mk_proc("gen", "a", "run(\"echo @seed\")", &["seed"]),
            mk_proc("report", "r", "run(\"echo @gen\")", &["gen"]),
            mk_proc("notify", "n", "run(\"echo side\")", &[]),
            deliver,
        ],
    }
}

#[test]
fn critical_set_follows_deliver_closure() {
    let pl = mini_pipeline();
    let cs = critical_set(&pl);
    assert!(cs.contains("deliver"));
    assert!(cs.contains("report"));
    assert!(cs.contains("gen"));
    assert!(!cs.contains("notify"));
}

#[test]
fn fatal_left_only_on_critical() {
    let pl = mini_pipeline();
    let mut partial = TextMap::new();
    let side = ErrorRecord::new("notify", "n", "Connection refused", 1).encode();
    partial.insert("notify".to_string(), Value::Text(side));
    partial.insert("gen".to_string(), Value::Text("ok".into()));
    assert_eq!(fatal_left(&pl, &partial), None);
    let main = ErrorRecord::new("gen", "a", "Connection refused", 1).encode();
    partial.insert("gen".to_string(), Value::Text(main));
    assert_eq!(fatal_left(&pl, &partial), Some("gen".to_string()));
}

#[test]
fn strategy_for_doubles_retry_on_critical() {
    assert_eq!(
        strategy_for(ErrCode::Timeout, true),
        Action::Retry {
            budget: 4,
            backoff: Backoff::Linear
        }
    );
    assert_eq!(
        strategy_for(ErrCode::Timeout, false),
        Action::Retry {
            budget: 2,
            backoff: Backoff::Linear
        }
    );
    assert_eq!(strategy_for(ErrCode::Permission, true), Action::Escalate);
}

#[test]
fn no_deliver_means_all_critical() {
    let pl = Pipeline {
        name: "x".into(),
        description: String::new(),
        procs: vec![
            mk_proc("a", "x", "run(\"echo 1\")", &[]),
            mk_proc("b", "y", "run(\"echo 2\")", &[]),
        ],
    };
    let cs = critical_set(&pl);
    assert!(cs.contains("a") && cs.contains("b"));
}

#[test]
fn names_of_kinds_are_read_back() {
    for c in [
        ErrCode::Timeout,
        ErrCode::RateLimit,
        ErrCode::Resource,
        ErrCode::Network,
        ErrCode::Memory,
        ErrCode::Data,
        ErrCode::Truncation,
        ErrCode::Format,
        ErrCode::Schema,
        ErrCode::Permission,
        ErrCode::Auth,
        ErrCode::Dependency,
        ErrCode::Contract,
        ErrCode::Cancelled,
        ErrCode::Crash,
    ] {
        assert_eq!(ErrCode::from_code(c.code()), Some(c));
    }
    assert_eq!(ErrCode::from_code("nope"), None);
}

#[test]
fn failures_hand_their_kind_on() {
    let first = ErrorRecord::new("a", "i", "HTTP 502 Bad Gateway", 2).encode();
    let next = ErrorRecord::propagated("b", "a", &first);
    assert_eq!(next.code, ErrCode::Network);
    assert_eq!(code_of(&next.encode()), ErrCode::Network);
    assert!(is_error_value(&Value::Text(next.encode())));
}

#[test]
fn waits_grow_by_a_second() {
    assert_eq!(Backoff::Linear.delay_secs(0), 1);
    assert_eq!(Backoff::Linear.delay_secs(4), 5);
}

#[test]
fn cut_texts_are_marked() {
    assert_eq!(trunc_chars("abc", 3), "abc");
    assert_eq!(trunc_chars("主题词", 2), "主题…");
}

#[test]
fn violations_are_of_the_contract_kind() {
    assert_eq!(classify("contract violation: missing output 'title'"), ErrCode::Contract);
}

#[test]
fn more_text_hides_no_cause() {
    assert_eq!(classify("spawn failed: Permission denied (os error 13)"), ErrCode::Permission);
    assert_eq!(classify("Connection to db:5432 timed out. (connect timeout=10)"), ErrCode::Timeout);
    assert_eq!(classify("connection refused"), ErrCode::Network);
    assert_eq!(classify("connection refused; retry timed out"), ErrCode::Timeout);
    assert_eq!(classify("retry timed out; connection refused"), ErrCode::Timeout);
    assert_eq!(classify("CONNECTION Refused"), ErrCode::Network);
    assert_eq!(classify(&"connection refused".to_ascii_uppercase()), ErrCode::Network);
}
