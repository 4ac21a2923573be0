use ductile::ast::Value;
use ductile::condition::{eval_expect, eval_when};
use ductile::incident::{evidence_snapshot, normalize_expect, resolution_note, signals_from_error};
use ductile::order::TextMap;
use ductile::review::{
    judge_answer, label_source, normalize_label, normalize_verdict, objection, phase_for, render_reviews, review_prompt,
    review_run, L4Phase, Reviewer,
};

/// The phase that so many verdicts and their labels come to.
fn phase_of(rows: &[(&str, &str)]) -> L4Phase {
    let agree = rows.iter().filter(|(v, l)| (*v == "pass") == (*l == "ok")).count();
    phase_for(rows.len() as i64, agree as i64)
}

#[test]
fn cold_start_is_log_only() {
    assert_eq!(phase_for(0, 0), L4Phase::LogOnly);
}

#[test]
fn promotion_needs_min_labeled_and_agreement() {
    assert_eq!(phase_of(&[("pass", "ok"); 7]), L4Phase::LogOnly);
    assert_eq!(phase_of(&[("pass", "ok"); 8]), L4Phase::Enforcing);
}

#[test]
fn low_agreement_blocks_promotion() {
    let mut rows = vec![];
    for i in 0..8 {
        rows.push((if i % 2 == 0 { "pass" } else { "fail" }, "ok"));
    }
    assert_eq!(phase_of(&rows), L4Phase::LogOnly);
}

#[test]
fn bad_verdict_and_bad_labels_agree() {
    assert_eq!(phase_of(&[("fail", "bad"); 8]), L4Phase::Enforcing);
}

#[test]
fn invalid_verdict_rejected() {
    assert!(normalize_verdict("maybe").is_err());
    assert_eq!(normalize_verdict("pass"), Ok("pass"));
    assert_eq!(normalize_label("ok"), Ok("ok"));
    assert!(normalize_label("perhaps").is_err());
}

#[test]
fn label_sources_are_known() {
    assert_eq!(label_source("blind:regcheck3"), "blind:regcheck3");
    assert_eq!(label_source("weird-source"), "human");
}

#[test]
fn review_prompt_is_minimal_context() {
    let p = review_prompt("做X", "交付Y");
    assert!(p.contains("任务意图"));
    assert!(p.contains("做X"));
    assert!(p.contains("交付Y"));
    assert!(!p.contains("plan"));
}

#[test]
fn objections_need_the_second_phase() {
    let v = judge_answer("FAIL 缺少内容", "fail 缺少内容");
    assert_eq!(v.verdict, "fail");
    assert!(objection(&v, L4Phase::LogOnly).is_none());
    assert!(objection(&v, L4Phase::Enforcing).is_some());
    let ok = review_run(&None, &Reviewer::Nobody, "x");
    assert!(objection(&ok, L4Phase::Enforcing).is_none());
    assert_eq!(L4Phase::Enforcing.as_str(), "enforcing");
    assert!(render_reviews(L4Phase::LogOnly, &None, &vec![]).contains("log_only"));
}

#[test]
fn signals_layer_mapping() {
    // L1 缺字段 / L2 谓词违例 / L0 传输 / L0.5 截断
    assert_eq!(
        signals_from_error("contract", "contract violation: proc 'g' missing required output field 'path'", ""),
        vec!["L1"]
    );
    assert_eq!(
        signals_from_error("contract", "contract violation: proc 'j' invariant failed: @self.score >= 80", ""),
        vec!["L2"]
    );
    assert_eq!(signals_from_error("timeout", "run timed out", ""), vec!["L0"]);
    assert_eq!(signals_from_error("truncation", "finish_reason length", ""), vec!["L0.5"]);
    // 结果带 META 截断证据 → 追加 L0.5
    assert_eq!(
        signals_from_error("data", "value error", "§§FIELDS§§meta_finish_reason=length§§RAW§§x"),
        vec!["L0", "L0.5"]
    );
}

#[test]
fn normalize_expect_default() {
    assert_eq!(normalize_expect(""), "@self.ok == 1");
    assert_eq!(normalize_expect("  @self.score >= 80  "), "@self.score >= 80");
}

#[test]
fn eval_expect_structured_field() {
    let ok = "§§FIELDS§§ok=1§§score=85§§RAW§§raw";
    assert!(eval_expect("@self.score >= 80", ok));
    assert!(!eval_expect("@self.score >= 90", ok));
    assert!(eval_expect("@self.ok == 1", ok));
}

#[test]
fn executor_eval_when_eq_true() {
    let mut params = TextMap::new();
    params.insert("mode".into(), "deep".into());
    let results: TextMap<Value> = TextMap::new();
    assert!(eval_when(&params, &results, "mode == \"deep\""));
}

#[test]
fn executor_eval_when_eq_false() {
    let mut params = TextMap::new();
    params.insert("mode".into(), "shallow".into());
    let results: TextMap<Value> = TextMap::new();
    assert!(!eval_when(&params, &results, "mode == \"deep\""));
}

#[test]
fn executor_eval_when_neq() {
    let mut params = TextMap::new();
    params.insert("mode".into(), "shallow".into());
    let results: TextMap<Value> = TextMap::new();
    assert!(eval_when(&params, &results, "mode != \"deep\""));
}

#[test]
fn executor_eval_when_missing_var() {
    let params: TextMap<String> = TextMap::new();
    let results: TextMap<Value> = TextMap::new();
    assert!(!eval_when(&params, &results, "mode == \"deep\""));
}

#[test]
fn executor_eval_when_empty_passes() {
    let params: TextMap<String> = TextMap::new();
    let results: TextMap<Value> = TextMap::new();
    assert!(eval_when(&params, &results, ""));
}

#[test]
fn eval_when_eq_true() {
    let mut params = TextMap::new();
    params.insert("mode".into(), "deep".into());
    let results: TextMap<Value> = TextMap::new();
    assert!(eval_when(&params, &results, "mode == \"deep\""));
}

#[test]
fn eval_when_eq_false() {
    let mut params = TextMap::new();
    params.insert("mode".into(), "shallow".into());
    let results: TextMap<Value> = TextMap::new();
    assert!(!eval_when(&params, &results, "mode == \"deep\""));
}

#[test]
fn eval_when_neq() {
    let mut params = TextMap::new();
    params.insert("mode".into(), "shallow".into());
    let results: TextMap<Value> = TextMap::new();
    assert!(eval_when(&params, &results, "mode != \"deep\""));
}

#[test]
fn eval_when_missing_var() {
    let params: TextMap<String> = TextMap::new();
    let results: TextMap<Value> = TextMap::new();
    assert!(!eval_when(&params, &results, "mode == \"deep\""));
}

#[test]
fn eval_when_empty_passes() {
    let params: TextMap<String> = TextMap::new();
    let results: TextMap<Value> = TextMap::new();
    assert!(eval_when(&params, &results, ""));
}

#[test]
fn numbers_are_compared_as_numbers() {
    let mut params = TextMap::new();
    for (k, v) in [("n", "9"), ("x", "-0.50"), ("z", "-0"), ("w", "word")] {
        params.insert(k.to_string(), v.to_string());
    }
    let results: TextMap<Value> = TextMap::new();
    for c in ["n < 10", "n <= 9.0", "n >= 09", "x > -1", "x == -0.5", "x < 0.4", "z == 0", "z >= 0.0", "n != 9.01", "w == word", "w != \"other\""] {
        assert!(eval_when(&params, &results, c), "{}", c);
    }
    for c in ["n > 10", "n < word", "w < 3", "x > -0.5", "n", "n ==", "gone != 1", "@p.score > 1", "n = 9"] {
        assert!(!eval_when(&params, &results, c), "{}", c);
    }
}

#[test]
fn results_are_read_by_name() {
    let params: TextMap<String> = TextMap::new();
    let mut results = TextMap::new();
    results.insert("gate".to_string(), Value::Text("§§FIELDS§§score=79.5§§RAW§§raw".to_string()));
    results.insert("plain".to_string(), Value::Text("yes".to_string()));
    assert!(eval_when(&params, &results, "@gate.score < 80"));
    assert!(!eval_when(&params, &results, "@gate.score >= 80"));
    assert!(!eval_when(&params, &results, "@gate.gone >= 80"));
    assert!(eval_when(&params, &results, "@plain == yes"));
}

#[test]
fn incidents_are_noted() {
    assert!(evidence_snapshot("boom", "text").contains("boom"));
    assert!(resolution_note("fixed").contains("fixed"));
}
