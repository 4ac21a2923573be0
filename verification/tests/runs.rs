use ductile::ast::{Contract, Impl, Pipeline, Proc, Value};
use ductile::dslresult::{encode_structured_result, extract_field, field_coverage, parse_dsl_result_block};
use ductile::errflow::is_error_value;
use ductile::flow::{conclude, start_flow, ExecResult, Step};
use ductile::order::{TextMap, TextSet};
use ductile::records::{
    apply_patches, column_of_tags, fts_query, isomorphic_groups, like_pattern, load_recent_runs, tags_of_column, PatchRow,
    ProcRow, RunRow,
};
use ductile::report::{candidates, parse_query, report_failure, report_success, show_value};
use ductile::tree::{build_tree, load_sessions, no_sessions, parse_tree_args, render_json, render_tree, RunLine, Score};
use ductile::tries::{
    check_contract, eligible, exhausted, foreach_items, next_impl, no_tries, retry_after, try_failed, try_gave, ways,
    AfterTry, ItemStep, Items, NextImpl, Ways,
};

fn way(name: &str, body: &str) -> Impl {
    Impl {
        name: name.into(),
        description: String::new(),
        tags: TextSet::new(),
        cost_key: 0,
        enabled: true,
        when: None,
        refs: ductile::body::body_refs(body),
        body_text: body.into(),
        stub: false,
        retry: 0,
        ensure: vec![],
    }
}

fn proc(name: &str, plan: Vec<Impl>) -> Proc {
    Proc {
        name: name.into(),
        description: String::new(),
        plan,
        checks: vec![],
        contract: Contract::default(),
        deliver: false,
        deliver_refs: vec![],
        needs: vec![],
        foreach: None,
        foreach_var: String::new(),
        pick_by: "cost".into(),
    }
}

fn pipeline(procs: Vec<Proc>) -> Pipeline {
    Pipeline { name: "t".into(), description: String::new(), procs }
}

/// Runs a proc: its allowed implementations in their order; nothing where no
/// condition of its holds.
fn run_proc(
    p: &Proc,
    allowed: &Vec<usize>,
    results: &TextMap<Value>,
    step: &dyn Fn(&str) -> Result<Value, String>,
) -> Result<Option<Value>, String> {
    let order = match ways(&p.plan, allowed, &TextMap::new(), results) {
        Ways::Nothing => return Ok(None),
        Ways::Try(order) => order,
    };
    let mut from = 0;
    let mut last = None;
    loop {
        match next_impl(&p.plan, &order, from) {
            NextImpl::Stub(s) => return Ok(Some(Value::Text(s))),
            NextImpl::Run(i) => match step(&p.plan[order[i]].body_text) {
                Ok(v) => return check_contract(p, &v).map(|_| Some(v)),
                Err(e) => {
                    last = Some(e);
                    from = i + 1;
                }
            },
            NextImpl::End => return Err(exhausted(p, last)),
        }
    }
}

fn exec_pipeline(pl: &Pipeline, step: &dyn Fn(&str) -> Result<Value, String>) -> ExecResult {
    let mut f = start_flow(pl, false);
    loop {
        match f.next(pl) {
            Step::Run { proc, plan, switched } => match run_proc(&pl.procs[proc], &plan, &f.results, step) {
                Ok(Some(v)) => f.succeed(pl, proc, v),
                Ok(None) => f.pass_over(pl, proc),
                Err(e) => {
                    if let Some(m) = f.fail(pl, proc, &e, switched) {
                        return ExecResult::Failed { error: m, partial: f.results };
                    }
                }
            },
            Step::Stop(e) => return ExecResult::Failed { error: e, partial: f.results },
            Step::End => return conclude(pl, f.results, None),
        }
    }
}

fn text(s: &str) -> Value {
    Value::Text(s.into())
}

#[test]
fn executor_exec_pipeline_stub_proc() {
    let mut i = way("stub_impl", "read(\"x\")");
    i.stub = true;
    let pl = pipeline(vec![proc("p", vec![i])]);
    match exec_pipeline(&pl, &|_| Err("no step".into())) {
        ExecResult::Success(map) => {
            assert!(map.contains_key("p"));
            assert!(map.get("p").unwrap().as_text().contains("STUB"));
        }
        ExecResult::Failed { error, .. } => panic!("stub should succeed: {}", error),
    }
}

#[test]
fn procs_run_behind_what_they_need() {
    let pl = pipeline(vec![
        proc("c", vec![way("c1", "run(\"join @a @b\")")]),
        proc("b", vec![way("b1", "run(\"use @a\")")]),
        proc("a", vec![way("a1", "run(\"start\")")]),
    ]);
    let mut f = start_flow(&pl, false);
    let mut seen = vec![];
    while let Step::Run { proc, .. } = f.next(&pl) {
        seen.push(pl.procs[proc].name.clone());
        f.succeed(&pl, proc, text("ok"));
    }
    assert_eq!(seen, ["a", "b", "c"]);
    assert_eq!(f.results.len(), 3);
}

#[test]
fn equal_procs_run_once_where_classes_are_asked_for() {
    let pl = pipeline(vec![
        proc("x", vec![way("x1", "run(\"same\")")]),
        proc("y", vec![way("y1", "run(\"same\")")]),
    ]);
    let mut f = start_flow(&pl, true);
    let mut runs = 0;
    while let Step::Run { proc, .. } = f.next(&pl) {
        runs += 1;
        f.succeed(&pl, proc, text("v"));
    }
    assert_eq!(runs, 1);
    assert_eq!(f.results.get("x").unwrap().as_text(), "v");
    assert_eq!(f.results.get("y").unwrap().as_text(), "v");
}

#[test]
fn the_next_implementation_takes_over() {
    let pl = pipeline(vec![proc("p", vec![way("a", "bad"), way("b", "good")])]);
    let r = exec_pipeline(&pl, &|b| if b == "good" { Ok(text("v")) } else { Err("value error".into()) });
    match r {
        ExecResult::Success(m) => assert_eq!(m.get("p").unwrap().as_text(), "v"),
        ExecResult::Failed { error, .. } => panic!("{}", error),
    }
}

#[test]
fn failures_are_handed_on_and_end_the_run() {
    let pl = pipeline(vec![
        proc("a", vec![way("a1", "run(\"start\")")]),
        proc("b", vec![way("b1", "run(\"use @a\")")]),
    ]);
    match exec_pipeline(&pl, &|_| Err("value error".into())) {
        ExecResult::Failed { error, partial } => {
            assert!(error.contains("failed"), "{}", error);
            assert!(is_error_value(partial.get("a").unwrap()));
            assert!(is_error_value(partial.get("b").unwrap()));
        }
        ExecResult::Success(_) => panic!("a failure is no success"),
    }
}

#[test]
fn what_the_user_stopped_stops_at_once() {
    let pl = pipeline(vec![
        proc("a", vec![way("a1", "run(\"start\")")]),
        proc("b", vec![way("b1", "run(\"alone\")")]),
    ]);
    match exec_pipeline(&pl, &|_| Err("operation cancelled by user".into())) {
        ExecResult::Failed { error, partial } => {
            assert!(error.contains("unrecoverable"), "{}", error);
            assert_eq!(partial.len(), 1);
        }
        ExecResult::Success(_) => panic!("stopped"),
    }
}

#[test]
fn contracts_are_checked() {
    let mut p = proc("g", vec![way("a", "x")]);
    p.contract.outputs = vec!["score".into()];
    p.contract.invariants = vec!["@self.score >= 80".into()];
    let with = |s: &str| text(&encode_structured_result(&vec![("score".into(), s.into())], "raw"));
    assert_eq!(check_contract(&p, &with("85")), Ok(()));
    assert_eq!(
        check_contract(&p, &with("79")),
        Err("contract violation: proc 'g' invariant failed: @self.score >= 80".into())
    );
    assert_eq!(
        check_contract(&p, &text("plain")),
        Err("contract violation: proc 'g' missing required output field 'score'".into())
    );
    assert!(check_contract(&p, &Value::Null).is_err());
    assert!(matches!(try_gave(no_tries(), &p, &with("79")), AfterTry::Failed { incident: true, .. }));
    assert!(matches!(try_gave(no_tries(), &p, &with("80")), AfterTry::Done));
}

#[test]
fn tries_come_to_an_end() {
    let mut t = no_tries();
    let mut again = 0;
    loop {
        match try_failed(t, "run timed out", true) {
            AfterTry::Again { tries, .. } => {
                again += 1;
                t = tries;
            }
            AfterTry::Failed { error, .. } => {
                assert_eq!(error, "run timed out");
                break;
            }
            AfterTry::Done => panic!("no result"),
        }
    }
    assert!(again <= 4, "{}", again);
    assert_eq!(retry_after(2, 0, "run timed out"), Some(2));
    assert_eq!(retry_after(2, 1, "run timed out"), Some(4));
    assert_eq!(retry_after(2, 2, "run timed out"), None);
}

#[test]
fn conditions_keep_implementations_out() {
    let mut a = way("a", "x");
    a.when = Some("@gate.score >= 80".into());
    let plan = vec![a, way("b", "y")];
    let mut results = TextMap::new();
    assert_eq!(eligible(&plan, &vec![0, 1], &TextMap::new(), &results), vec![1]);
    results.insert("gate".to_string(), text("§§FIELDS§§score=80§§RAW§§"));
    assert_eq!(eligible(&plan, &vec![0, 1], &TextMap::new(), &results), vec![0, 1]);
}

#[test]
fn items_run_one_by_one() {
    assert_eq!(foreach_items(&text("a|note\n\n b \n")), vec!["a|note".to_string(), " b ".to_string()]);
    assert_eq!(foreach_items(&Value::File("f\"x".into())), vec!["File(\"f\\\"x\")".to_string()]);
    let mut p = proc("each", vec![way("w", "run(\"do {i}\")")]);
    p.foreach_var = "i".into();
    let order = vec![0];
    let mut items = Items::start(foreach_items(&text("a|note\nb")));
    let mut bodies = vec![];
    let end = loop {
        match items.next(&p, &order) {
            ItemStep::Run { body, .. } => {
                bodies.push(body);
                items.succeed(text("r"));
            }
            ItemStep::Done(s) => break s,
            ItemStep::Failed(e) => panic!("{}", e),
        }
    };
    assert_eq!(bodies, ["run(\"do a\")", "run(\"do b\")"]);
    assert_eq!(end, "r\n---\n---\nr");
    let mut one = Items::start(vec!["a".into()]);
    assert!(matches!(one.next(&p, &order), ItemStep::Run { .. }));
    one.fail(&order);
    assert!(matches!(one.next(&p, &order), ItemStep::Failed(_)));
}

#[test]
fn fields_are_read_back() {
    let kvs = vec![("score".to_string(), "85".to_string()), ("title".to_string(), "a=b".to_string())];
    let e = encode_structured_result(&kvs, "score=1§§x");
    assert_eq!(extract_field("score", &e), Some("85".to_string()));
    assert_eq!(extract_field("title", &e), Some("a=b".to_string()));
    assert_eq!(extract_field("x", &e), None);
    assert_eq!(extract_field("score", "plain"), None);
    assert_eq!(
        parse_dsl_result_block("noise\n##DSL_RESULT\nok=1\n##DSL_END\nok=2"),
        Some(vec![("ok".to_string(), "1".to_string())])
    );
    let out = "##DSL_RESULT\nok=1\nmore=2\n##DSL_END";
    assert_eq!(field_coverage(&vec!["ok".to_string(), "gone".to_string()], out), Some((1, 2)));
    assert_eq!(field_coverage(&vec![], out), None);
    assert_eq!(field_coverage(&vec!["ok".to_string()], "plain"), None);
}

#[test]
fn tags_come_back_from_their_column() {
    let mut t = TextSet::new();
    for x in ["write", "llm"] {
        t.insert(x.to_string());
    }
    assert_eq!(column_of_tags(&t), "llm,write");
    assert_eq!(tags_of_column("llm,,write").to_vec(), t.to_vec());
    assert_eq!(like_pattern("x"), "%x%");
    assert_eq!(fts_query("a \"b\" OR"), Some("\"a\" \"b\" \"OR\"".to_string()));
    assert_eq!(fts_query("  "), None);
}

#[test]
fn only_the_latest_runs_count() {
    let row = |i: &str, s: &str| RunRow { impl_name: i.into(), status: s.into(), rate_tokens: 2 };
    let mut rows = vec![];
    for _ in 0..25 {
        rows.push(row("a", "Ok"));
    }
    rows.push(row("a", "Fail"));
    rows.push(row("b", "Fail"));
    rows.push(row("a", "Fail"));
    let m = load_recent_runs(&rows);
    let a = m.get("a").unwrap();
    assert_eq!((a.window, a.fails, a.consec_fail, a.sum_tokens), (20, 2, 2, 40));
    assert_eq!(m.get("b").unwrap().window, 1);
}

#[test]
fn only_confirmed_patches_apply() {
    let patch = |status: &str, field: &str, value: &str| PatchRow {
        pipeline: "t".into(),
        proc_name: "p".into(),
        impl_name: "a".into(),
        field: field.into(),
        value: value.into(),
        origin: "human".into(),
        status: status.into(),
    };
    let mut procs = vec![proc("p", vec![way("a", "x")])];
    apply_patches(&mut procs, &vec![patch("proposed", "enabled", "false")]);
    assert!(procs[0].plan[0].enabled);
    apply_patches(&mut procs, &vec![patch("confirmed", "enabled", "false"), patch("confirmed", "stub", "1")]);
    assert!(!procs[0].plan[0].enabled);
    assert!(procs[0].plan[0].stub);
}

#[test]
fn procs_are_found_by_their_tags() {
    let row = |id: i64, name: &str, tags: &[&str]| {
        let mut t = TextSet::new();
        for x in tags {
            t.insert(x.to_string());
        }
        ProcRow {
            id,
            name: name.into(),
            pipeline: format!("t{}", id),
            description: String::new(),
            tags: t,
            impl_count: 1,
            is_deliver: false,
        }
    };
    let rows = vec![row(1, "a", &["llm", "write"]), row(2, "b", &["llm"]), row(3, "c", &["write", "llm"])];
    assert_eq!(candidates(&rows, &parse_query("#llm,write")), vec![0, 2]);
    assert_eq!(isomorphic_groups(&rows), vec![vec![0, 2]]);
}

#[test]
fn sessions_become_trees() {
    let line = |p: &str, s: &str| RunLine {
        session: "s1".into(),
        pipeline: "t".into(),
        proc_name: p.into(),
        impl_name: "i".into(),
        status: s.into(),
        latency_ms: 5,
        score: Some(Score { bits: 1f64.to_bits(), plain: "1".into(), two: "1.00".into() }),
        recorded_at: "2026-01-01".into(),
    };
    let rows = vec![line("a", "Fail"), line("a", "Ok"), line("b", "Ok")];
    let t = build_tree(&rows, &None, "s1");
    assert_eq!(t.nodes.len(), 2);
    assert_eq!(t.nodes.iter().map(|n| n.attempts).sum::<usize>(), 3);
    assert!(render_tree(&t).contains("s1"));
    let all = load_sessions(&rows, &Some("t".into()));
    assert_eq!(all.len(), 1);
    assert!(render_json(&all).contains("\"s1\""));
    assert!(load_sessions(&rows, &Some("other".into())).is_empty());
    assert!(no_sessions(&Some("other".into())).contains("other"));
    assert!(parse_tree_args(&vec!["--json".to_string()]).json);
}

#[test]
fn ends_are_reported() {
    let mut m = TextMap::new();
    m.insert("p".to_string(), text("v"));
    assert!(report_success(&m).contains("p"));
    assert!(report_failure("t", "boom", &m).contains("boom"));
    assert!(show_value(&Value::Null).len() < 20);
}

#[test]
fn printed_blocks_are_read_behind_other_output() {
    let out = "noise=1\n##DSL_RESULT\na=1\n##DSL_END\nmore\n##DSL_RESULT\ncount=42\ntitle=x = y\n##DSL_END\n";
    let want: Vec<(String, String)> =
        [("a", "1"), ("count", "42"), ("title", "x = y")].iter().map(|(k, v)| (k.to_string(), v.to_string())).collect();
    assert_eq!(parse_dsl_result_block(out), Some(want));
    assert_eq!(parse_dsl_result_block("count=42"), None);
}

#[test]
fn no_way_is_left_out() {
    let mut off = way("off", "x");
    off.enabled = false;
    let plan = vec![off, way("on", "y")];
    assert!(matches!(next_impl(&plan, &vec![0, 1], 0), NextImpl::Run(1)));
    assert!(matches!(next_impl(&plan, &vec![0, 1], 2), NextImpl::End));
    assert!(matches!(next_impl(&plan, &vec![0], 0), NextImpl::End));
}

#[test]
fn an_unmet_condition_passes_a_proc_over() {
    let mut never = way("w", "run(\"x\")");
    never.when = Some("@gate.score >= 80".into());
    let mut k = way("k", "run(\"y\")");
    k.stub = true;
    let pl = pipeline(vec![proc("s", vec![never]), proc("d", vec![k])]);
    match exec_pipeline(&pl, &|_| Err("no step".into())) {
        ExecResult::Success(m) => {
            assert_eq!(m.get("d").unwrap().as_text(), "[STUB:k]");
            assert!(!m.contains_key("s"));
        }
        ExecResult::Failed { error, .. } => panic!("{}", error),
    }
}

#[test]
fn a_proc_behind_one_that_was_passed_over_runs() {
    let mut never = way("w", "run(\"x\")");
    never.when = Some("@gate.score >= 80".into());
    let pl = pipeline(vec![proc("s", vec![never]), proc("d", vec![way("k", "run(\"use @s\")")])]);
    match exec_pipeline(&pl, &|_| Ok(text("v"))) {
        ExecResult::Success(m) => assert_eq!(m.get("d").unwrap().as_text(), "v"),
        ExecResult::Failed { error, .. } => panic!("{}", error),
    }
}

#[test]
fn a_proc_without_implementations_fails() {
    let p = proc("p", vec![]);
    assert!(matches!(ways(&p.plan, &vec![], &TextMap::new(), &TextMap::new()), Ways::Try(_)));
    match exec_pipeline(&pipeline(vec![p]), &|_| Ok(text("v"))) {
        ExecResult::Failed { .. } => {}
        ExecResult::Success(_) => panic!("there is nothing to run"),
    }
}

#[test]
fn untouched_implementations_take_over_whatever_failed() {
    for e in ["request timed out", "value error", "Permission denied", "connection refused"] {
        let pl = pipeline(vec![
            proc("a", vec![way("a1", "run(\"start\")")]),
            proc("b", vec![way("b1", "run(\"use @a\")"), way("b2", "run(\"alone\")")]),
        ]);
        let mut f = start_flow(&pl, false);
        match f.next(&pl) {
            Step::Run { proc, switched, .. } => assert_eq!(f.fail(&pl, proc, e, switched), None),
            _ => panic!("a runs first"),
        }
        match f.next(&pl) {
            Step::Run { proc, plan, switched } => {
                assert_eq!((proc, plan, switched), (1, vec![1], true), "{}", e)
            }
            _ => panic!("b2 takes over after: {}", e),
        }
    }
}

#[test]
fn runs_without_a_session_are_kept_by_pipeline_and_time() {
    let line = |session: &str, pl: &str, at: &str, p: &str| RunLine {
        session: session.into(),
        pipeline: pl.into(),
        proc_name: p.into(),
        impl_name: "i".into(),
        status: "Ok".into(),
        latency_ms: 5,
        score: None,
        recorded_at: at.into(),
    };
    let rows = vec![
        line("", "p", "t1", "a"),
        line("", "p", "t1", "b"),
        line("", "p", "t2", "a"),
        line("", "q", "t1", "a"),
        line("s1", "p", "t3", "a"),
    ];
    let shown = |ts: &Vec<ductile::tree::SessionTree>| -> Vec<(String, String, String, usize)> {
        ts.iter().map(|t| (t.session.clone(), t.pipeline.clone(), t.recorded_at.clone(), t.nodes.len())).collect()
    };
    let row = |s: &str, p: &str, t: &str, n: usize| (s.to_string(), p.to_string(), t.to_string(), n);
    assert_eq!(
        shown(&load_sessions(&rows, &None)),
        vec![
            row("legacy", "p", "t1", 2),
            row("legacy", "p", "t2", 1),
            row("legacy", "q", "t1", 1),
            row("s1", "p", "t3", 1)
        ]
    );
    assert_eq!(shown(&load_sessions(&rows, &Some("q".into()))), vec![row("legacy", "q", "t1", 1)]);
}

#[test]
fn groups_come_by_their_tags() {
    let row = |id: i64, pl: &str, tags: &[&str]| {
        let mut set = TextSet::new();
        for t in tags {
            set.insert(t.to_string());
        }
        ProcRow {
            id,
            name: "n".into(),
            pipeline: pl.into(),
            description: String::new(),
            tags: set,
            impl_count: 1,
            is_deliver: false,
        }
    };
    let rows = vec![
        row(1, "a", &["z"]),
        row(2, "a", &["b", "a"]),
        row(3, "b", &[]),
        row(4, "c", &[]),
        row(5, "b", &["a", "b"]),
        row(6, "c", &["z"]),
        row(7, "a", &["z"]),
        row(8, "a", &["y"]),
        row(9, "a", &["y"]),
    ];
    assert_eq!(isomorphic_groups(&rows), vec![vec![1, 4], vec![0, 5, 6]]);
}

/// A proc over the items of another.
fn over(name: &str, src: &str, plan: Vec<Impl>) -> Proc {
    let mut p = proc(name, plan);
    p.foreach = Some(src.into());
    p.foreach_var = "x".into();
    p
}

#[test]
fn a_failed_source_is_not_split_into_items() {
    for e in ["segfault", "request timed out", "value error", "Permission denied", "401 unauthorized"] {
        let mut out = proc("deliver", vec![]);
        out.deliver = true;
        out.deliver_refs = vec!["each".into()];
        let pl = pipeline(vec![
            proc("a_src", vec![way("s", "run(\"start\")")]),
            over("each", "a_src", vec![way("k", "run(\"item\")")]),
            out,
        ]);
        match exec_pipeline(&pl, &|b| if b.contains("start") { Err(e.into()) } else { Ok(text("v")) }) {
            ExecResult::Failed { partial, .. } => {
                assert!(is_error_value(partial.get("a_src").unwrap()), "{}", e);
                assert!(is_error_value(partial.get("each").unwrap()), "{}", e);
            }
            ExecResult::Success(_) => panic!("each has nothing to run over: {}", e),
        }
    }
}

#[test]
fn a_proc_over_items_switches_where_its_source_is_there() {
    let pl = pipeline(vec![
        proc("a", vec![way("a1", "run(\"start\")")]),
        proc("b", vec![way("b1", "run(\"list\")")]),
        over("each", "b", vec![way("k1", "run(\"use @a\")"), way("k2", "run(\"alone\")")]),
    ]);
    let mut f = start_flow(&pl, false);
    while let Step::Run { proc, plan, switched } = f.next(&pl) {
        match pl.procs[proc].name.as_str() {
            "a" => assert_eq!(f.fail(&pl, proc, "segfault", switched), None),
            "b" => f.succeed(&pl, proc, text("one\ntwo")),
            _ => {
                assert_eq!((plan, switched), (vec![1], true));
                return;
            }
        }
    }
    panic!("each runs with its second way");
}

#[test]
fn a_proc_cut_down_by_a_failed_input_fails() {
    let mut b = way("B", "run(\"alone\")");
    b.when = Some("@gate.score >= 80".into());
    let pl = pipeline(vec![
        proc("a", vec![way("a1", "run(\"start\")")]),
        proc("s", vec![way("A", "run(\"use @a\")"), b]),
        proc("z", vec![way("z1", "run(\"use @s\")")]),
    ]);
    match exec_pipeline(&pl, &|body| if body.contains("start") { Err("segfault".into()) } else { Ok(text("v")) }) {
        ExecResult::Failed { partial, .. } => {
            assert!(is_error_value(partial.get("s").unwrap()));
            assert!(partial.get("s").unwrap().as_text().contains("All paths failed"));
            assert!(is_error_value(partial.get("z").unwrap()));
        }
        ExecResult::Success(_) => panic!("s has lost its way"),
    }
}
