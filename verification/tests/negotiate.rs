use ductile::ast::Value;
use ductile::dslresult::encode_structured_result;
use ductile::negotiate::{
    already_provided, asked_script, negotiation_log, parse_missing, resolve_ref, supplement_block, MissingReq,
    PendingLog, RoundSummary,
};
use ductile::order::TextMap;

fn enc(fields: &[(&str, &str)]) -> String {
    let kvs: Vec<(String, String)> = fields.iter().map(|(k, v)| (k.to_string(), v.to_string())).collect();
    encode_structured_result(&kvs, "raw")
}

#[test]
fn enough_false_with_missing_is_negotiation() {
    let e = enc(&[
        ("enough", "false"),
        ("missing", r#"[{"ref":"@req.constraints","why":"选型需要预算"}]"#),
    ]);
    let m = parse_missing(&e).expect("应识别为协商回合");
    assert_eq!(m.len(), 1);
    assert_eq!(m[0].ref_str, "@req.constraints");
    assert_eq!(m[0].why, "选型需要预算");
}

#[test]
fn enough_true_or_absent_is_normal() {
    assert!(parse_missing(&enc(&[("enough", "true"), ("x", "1")])).is_none());
    assert!(parse_missing(&enc(&[("score", "85")])).is_none());
}

#[test]
fn enough_false_empty_missing_is_violation_not_negotiation() {
    // 违约：enough=false 但 missing 空 → None（调用方按 fail-closed 处理）
    assert!(parse_missing(&enc(&[("enough", "false")])).is_none());
}

#[test]
fn resolve_topic_field_proc_and_script() {
    let mut results = TextMap::new();
    results.insert(
        "req".into(),
        Value::Text(enc(&[("constraints", "预算500元内，别太复杂"), ("title", "x")])),
    );
    // topic 全文
    assert_eq!(resolve_ref("topic", "主题ABC", &results, &None).unwrap(), "主题ABC");
    // @proc.field 窗口 2000
    let v = resolve_ref("@req.constraints", "t", &results, &None).unwrap();
    assert!(v.contains("预算500元"));
    // @proc 全文
    let full = resolve_ref("@req", "t", &results, &None).unwrap();
    assert!(full.contains("constraints"));
    // 不存在 → Err
    assert!(resolve_ref("@nope.field", "t", &results, &None).is_err());
    assert!(resolve_ref("@req.nofield", "t", &results, &None).is_err());
    // 非法形态 → Err
    assert!(resolve_ref("随便什么", "t", &results, &None).is_err());
}

#[test]
fn resolve_field_window_truncated_at_2000_chars() {
    let mut results = TextMap::new();
    let long = "字".repeat(5000);
    results.insert(
        "big".into(),
        Value::Text(enc(&[("data", &long)])),
    );
    let v = resolve_ref("@big.data", "t", &results, &None).unwrap();
    assert_eq!(v.chars().count(), 2000);
}

#[test]
fn supplement_appends_and_marker_detects_provided() {
    let p0 = "基础prompt".to_string();
    let block = supplement_block(1, &vec![("@req.constraints".into(), "预算500元内".into())]);
    let p1 = format!("{}{}", p0, block);
    // 只增不减：p0 原文仍在
    assert!(p1.starts_with(p0.as_str()));
    // 已提供检测：同一 ref 第二次讨要应被识别
    assert!(already_provided(&p1, "@req.constraints"));
    assert!(!already_provided(&p1, "@req.title"));
    // 第二轮追加后两块都在场
    let p2 = format!("{}{}", p1, supplement_block(2, &vec![("@req.title".into(), "标题X".into())]));
    assert!(already_provided(&p2, "@req.constraints"));
    assert!(already_provided(&p2, "@req.title"));
}

#[test]
fn negotiation_log_json_shape() {
    let s = vec![RoundSummary {
        round: 1,
        prompt_len: 800,
        missing: vec![MissingReq {
            ref_str: "@req.constraints".into(),
            why: "预算".into(),
        }],
        resolved: vec!["@req.constraints".into()],
        unavailable: vec![],
    }];
    let j = negotiation_log(&s, 1200);
    assert!(j.contains("\"round\":1"), "{}", j);
    assert!(j.contains("\"ref\":\"@req.constraints\""));
    assert!(j.contains("\"final_prompt_len\":1200"));
}

#[test]
fn scripts_are_asked_for_by_name() {
    assert_eq!(asked_script("script:resize"), Some("resize".to_string()));
    assert_eq!(asked_script("topic"), None);
    assert!(resolve_ref("script:resize", "t", &TextMap::new(), &None).is_err());
}

#[test]
fn logs_are_taken_once() {
    let mut p = PendingLog { log: None };
    p.stash_log("l".to_string());
    assert_eq!(p.take_log(), Some("l".to_string()));
    assert_eq!(p.take_log(), None);
}

#[test]
fn nothing_else_counts_as_provided() {
    let items = vec![(" @a.x ".to_string(), "one".to_string()), ("topic".to_string(), "two".to_string())];
    let p = format!("prompt{}", supplement_block(3, &items));
    assert!(already_provided(&p, "@a.x") && already_provided(&p, " topic"));
    for x in ["@a", "a.x", "@a.x.y", "top", "one", "", "3", "["] {
        assert!(!already_provided(&p, x), "{}", x);
    }
}
