use ductile::explore::{
    parse_curriculum_json, CurriculumOutput, Explore, ExploreBudget, ExploreReport, ExploreStop, ExploreTask, Need,
    Stages, TaskKind, TaskOutcome,
};

fn curriculum_json(tasks: &str, gap: &str, stop: bool) -> String {
    format!(
        "{{\"tasks\": [{}], \"gap\": \"{}\", \"stop\": {}}}",
        tasks, gap, stop
    )
}

fn task(id: &str, kind: TaskKind) -> ExploreTask {
    ExploreTask {
        id: id.into(),
        goal: format!("goal-{}", id),
        kind,
        plan: format!("plan-{}", id),
        judge: "exit 0".into(),
    }
}

/// Answers what an exploration needs until it needs nothing.
fn run_explore_loop(
    topic: &str,
    budget: &ExploreBudget,
    stages: &Stages,
    curriculum: &mut dyn FnMut(&ExploreReport) -> Result<CurriculumOutput, String>,
    execute: &mut dyn FnMut(&ExploreTask) -> Result<String, String>,
    judge: &mut dyn FnMut(&ExploreTask, &str) -> TaskOutcome,
) -> ExploreReport {
    let mut e = Explore::start(topic, *budget, *stages);
    loop {
        match e.need() {
            Need::Curriculum => {
                let round = curriculum(&e.report);
                e.take_round(round);
            }
            Need::Outcome(t) => {
                let o = match execute(&t) {
                    Ok(a) => judge(&t, &a),
                    Err(x) => TaskOutcome::of_error(x),
                };
                e.take_outcome(o);
            }
            Need::Nothing => return e.report,
        }
    }
}

#[test]
fn parse_basic_two_tasks() {
    let raw = curriculum_json(
        "{\"id\":\"probe-a\",\"goal\":\"验证A\",\"kind\":\"broad\",\"plan\":\"run(echo A)\",\"judge\":\"stdout 含 A\"},\
         {\"id\":\"probe-b\",\"goal\":\"验证B\",\"kind\":\"deep\",\"plan\":\"parse(x.pipeline)\",\"judge\":\"exit 0\"}",
        "foreach 依赖边覆盖",
        false,
    );
    let out = parse_curriculum_json(&raw).unwrap();
    assert_eq!(out.tasks.len(), 2);
    assert_eq!(out.tasks[0].kind, TaskKind::Broad);
    assert_eq!(out.tasks[1].kind, TaskKind::Deep);
    assert!(!out.stop);
    assert_eq!(out.gap, "foreach 依赖边覆盖");
}

#[test]
fn parse_with_markdown_fence_and_prose() {
    // 模型带围栏+前后缀文本的容错
    let raw = "好的，以下是本轮探针：\n```json\n{\"tasks\": [{\"id\":\"p1\",\"goal\":\"g\",\"kind\":\"broad\",\"plan\":\"x\",\"judge\":\"y\"}], \"gap\":\"\", \"stop\": false}\n```\n以上。";
    let out = parse_curriculum_json(raw).unwrap();
    assert_eq!(out.tasks.len(), 1);
    assert_eq!(out.tasks[0].id, "p1");
}

#[test]
fn contract_violation_empty_tasks_no_stop() {
    // 门禁 3：tasks 空 + stop=false = 硬错误
    let raw = curriculum_json("", "没缺口了", false);
    let err = parse_curriculum_json(&raw).unwrap_err();
    assert!(err.contains("违约"), "{}", err);
}

#[test]
fn stop_true_with_empty_tasks_ok() {
    let raw = curriculum_json("", "收敛", true);
    let out = parse_curriculum_json(&raw).unwrap();
    assert!(out.stop);
    assert!(out.tasks.is_empty());
}

#[test]
fn missing_judge_is_hard_error() {
    // 判据必须非空（§2：judge 必须确定性可判）
    let raw = curriculum_json(
        "{\"id\":\"p1\",\"goal\":\"g\",\"kind\":\"broad\",\"plan\":\"x\",\"judge\":\"\"}",
        "",
        false,
    );
    assert!(parse_curriculum_json(&raw).is_err());
}

#[test]
fn bad_kind_rejected() {
    let raw = curriculum_json(
        "{\"id\":\"p1\",\"goal\":\"g\",\"kind\":\"wide\",\"plan\":\"x\",\"judge\":\"y\"}",
        "",
        false,
    );
    assert!(parse_curriculum_json(&raw).is_err());
}

#[test]
fn braces_inside_plan_do_not_truncate() {
    // negotiate 花括号截断教训：plan 含 {..} 嵌套
    let raw = curriculum_json(
        "{\"id\":\"p1\",\"goal\":\"验证 foreach\",\"kind\":\"broad\",\"plan\":\"foreach(source=@x, var=i){body}\",\"judge\":\"exit 0\"},\
         {\"id\":\"p2\",\"goal\":\"验证 .when\",\"kind\":\"deep\",\"plan\":\"when(a=={b})\",\"judge\":\"parse ok\"}",
        "",
        false,
    );
    let out = parse_curriculum_json(&raw).unwrap();
    assert_eq!(out.tasks.len(), 2, "花括号不应截断对象: {:?}", out.tasks);
    assert_eq!(out.tasks[1].id, "p2");
}

#[test]
fn escaped_quotes_in_goal() {
    let raw = curriculum_json(
        "{\"id\":\"p1\",\"goal\":\"验证 \\\"引号\\\" 场景\",\"kind\":\"broad\",\"plan\":\"x\",\"judge\":\"y\"}",
        "",
        false,
    );
    let out = parse_curriculum_json(&raw).unwrap();
    assert!(
        out.tasks[0].goal.contains("引号"),
        "{:?}",
        out.tasks[0].goal
    );
}

#[test]
fn stages_parse() {
    assert!(Stages::parse("").unwrap().brs && Stages::parse("").unwrap().drs);
    let s = Stages::parse("brs").unwrap();
    assert!(s.brs && !s.drs);
    assert!(Stages::parse("brs,drs").unwrap().drs);
    assert!(Stages::parse("wide").is_err());
}

#[test]
fn loop_brs_then_drs_full_cycle() {
    // 门禁 2 骨架：BRS>=2 波 + DRS>=2 步，报告完整
    let mut wave = 0;
    let mut curriculum_calls = 0;
    let mut curriculum = |_r: &ExploreReport| {
        curriculum_calls += 1;
        wave += 1;
        if wave <= 2 {
            Ok(CurriculumOutput {
                tasks: vec![task(&format!("b{}", wave), TaskKind::Broad)],
                gap: "g".into(),
                stop: false,
            })
        } else if wave <= 5 {
            // BRS 完（无 broad 题），DRS 出 2 步
            Ok(CurriculumOutput {
                tasks: vec![task(&format!("d{}", wave), TaskKind::Deep)],
                gap: "g".into(),
                stop: false,
            })
        } else {
            Ok(CurriculumOutput {
                tasks: vec![],
                gap: "".into(),
                stop: true,
            })
        }
    };
    let mut execute = |t: &ExploreTask| Ok(format!("artifact-{}", t.id));
    let mut judge = |t: &ExploreTask, a: &str| {
        if t.id.contains("d") {
            TaskOutcome::Fail { evidence: a.into() } // 深探发现缺陷
        } else {
            TaskOutcome::Pass { evidence: a.into() }
        }
    };
    let r = run_explore_loop(
        "selfaudit",
        &ExploreBudget {
            waves: 8,
            deep_steps: 12,
        },
        &Stages::default(),
        &mut curriculum,
        &mut execute,
        &mut judge,
    );
    assert_eq!(r.waves_run, 2, "两波 BRS");
    assert_eq!(r.deep_steps_run, 2, "两步 DRS");
    assert!(matches!(r.stop_reason, Some(ExploreStop::CurriculumStop)));
    assert!(r.has_findings(), "DRS Fail 是正产出");
    assert!(curriculum_calls >= 5);
}

#[test]
fn loop_budget_gate_marks_budget() {
    // 门禁 4：预算耗尽必标 Budget 不静默
    let mut n = 0;
    let mut curriculum = move |_r: &ExploreReport| {
        n += 1;
        Ok(CurriculumOutput {
            tasks: vec![task(&format!("b{}", n), TaskKind::Broad)],
            gap: "".into(),
            stop: false,
        })
    };
    let mut execute = |_t: &ExploreTask| Ok("a".into());
    let mut judge = |_t: &ExploreTask, _a: &str| TaskOutcome::Pass {
        evidence: "e".into(),
    };
    let r = run_explore_loop(
        "t",
        &ExploreBudget {
            waves: 3,
            deep_steps: 0,
        },
        &Stages {
            brs: true,
            drs: false,
        },
        &mut curriculum,
        &mut execute,
        &mut judge,
    );
    assert_eq!(r.waves_run, 3);
    assert!(r.budget_exhausted(), "必须标 Budget");
    assert!(!r.has_findings());
}

#[test]
fn loop_contract_violation_fails_closed() {
    // 门禁 3：curriculum 违约（解析层已拦）与运行层 Err 都 fail-closed
    let mut curriculum = |_r: &ExploreReport| Err("llm 桥挂了".to_string());
    let mut execute = |_t: &ExploreTask| Ok("a".into());
    let mut judge = |_t: &ExploreTask, _a: &str| TaskOutcome::Pass {
        evidence: "e".into(),
    };
    let r = run_explore_loop(
        "t",
        &ExploreBudget::default(),
        &Stages::default(),
        &mut curriculum,
        &mut execute,
        &mut judge,
    );
    assert!(matches!(r.stop_reason, Some(ExploreStop::FailClosed(_))));
    assert_eq!(r.waves_run, 0, "违约即停，不烧预算");
}

#[test]
fn loop_execute_error_is_undecidable() {
    let mut wave = 0;
    let mut curriculum = move |_r: &ExploreReport| {
        wave += 1;
        if wave == 1 {
            Ok(CurriculumOutput {
                tasks: vec![task("b1", TaskKind::Broad)],
                gap: "".into(),
                stop: false,
            })
        } else {
            Ok(CurriculumOutput {
                tasks: vec![],
                gap: "".into(),
                stop: true,
            })
        }
    };
    let mut execute = |_t: &ExploreTask| Err("探针管线不存在".to_string());
    let mut judge = |_t: &ExploreTask, _a: &str| TaskOutcome::Pass {
        evidence: "e".into(),
    };
    let r = run_explore_loop(
        "t",
        &ExploreBudget::default(),
        &Stages::default(),
        &mut curriculum,
        &mut execute,
        &mut judge,
    );
    assert!(matches!(
        r.results.get("b1"),
        Some((_, TaskOutcome::Undecidable { .. }))
    ));
}

#[test]
fn report_gates() {
    let mut r = ExploreReport::default();
    assert!(!r.has_findings());
    r.results.insert(
        "p1".into(),
        (
            TaskKind::Broad,
            TaskOutcome::Fail {
                evidence: "e".into(),
            },
        ),
    );
    assert!(r.has_findings());
    r.stop_reason = Some(ExploreStop::Budget);
    assert!(r.budget_exhausted());
    // Pass-only 且无固化 = 无发现（探索空转，P3 自举判据的输入）
    let mut r2 = ExploreReport::default();
    r2.results.insert(
        "p2".into(),
        (
            TaskKind::Deep,
            TaskOutcome::Pass {
                evidence: "e".into(),
            },
        ),
    );
    assert!(!r2.has_findings());
}

#[test]
fn unclosed_objects_are_refused() {
    assert!(parse_curriculum_json("{\"tasks\": [{\"id\":\"p\"").is_err());
    assert!(parse_curriculum_json("no object").is_err());
}

#[test]
fn broken_curricula_stop_a_later_wave() {
    let mut n = 0;
    let mut curriculum = |_r: &ExploreReport| {
        n += 1;
        if n == 1 {
            Ok(CurriculumOutput { tasks: vec![task("b1", TaskKind::Broad)], gap: "".into(), stop: false })
        } else {
            Err("gone".to_string())
        }
    };
    let mut execute = |t: &ExploreTask| Ok(t.id.clone());
    let mut judge = |_t: &ExploreTask, a: &str| TaskOutcome::Pass { evidence: a.into() };
    let r = run_explore_loop(
        "t",
        &ExploreBudget::default(),
        &Stages::default(),
        &mut curriculum,
        &mut execute,
        &mut judge,
    );
    assert_eq!(r.waves_run, 1);
    assert!(matches!(r.stop_reason, Some(ExploreStop::FailClosed(_))));
    assert_eq!(TaskKind::parse("deep"), Some(TaskKind::Deep));
    assert_eq!(TaskKind::parse("wide"), None);
}
