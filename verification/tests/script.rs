use ductile::script::{build_script_call_body, cse_safe, lang_interpreter, parse_contract, parse_mcsm, parse_script_body};
use ductile::script_card::Concurrency;

const GOOD: &str = r#"#!/usr/bin/env python3
# ductile: v1
# name: resize_image
# desc: 等比缩放图片
# lang: python
# params: src(path, required), width(int, default=800)
# output: out(path), bytes(int)
# pure: false
# idempotent: true
# concurrency: safe
# effects: fs
# timeout: 60
print("hi")
"#;

#[test]
fn parse_good_contract() {
    let card = parse_contract(GOOD, "/tmp/resize.py").unwrap();
    assert_eq!(card.name, "resize_image");
    assert_eq!(card.lang, "python");
    assert!(!card.pure);
    assert!(card.idempotent);
    assert_eq!(card.concurrency, Concurrency::Safe);
    assert_eq!(card.timeout_secs, 60);
    assert_eq!(card.retries, 0);
    assert!(!cse_safe(&card)); // pure=false → 不许 CSE
}

#[test]
fn pure_safe_script_allows_cse() {
    let src = GOOD.replace("pure: false", "pure: true");
    let card = parse_contract(&src, "/tmp/x.py").unwrap();
    assert!(cse_safe(&card));
}

#[test]
fn missing_keys_listed_at_once() {
    let src = "# ductile: v1\n# name: x\nprint(1)\n";
    let err = parse_contract(src, "/tmp/x.py").unwrap_err();
    assert!(err.contains("missing required keys"), "{}", err);
    assert!(err.contains("desc") && err.contains("lang"), "{}", err);
}

#[test]
fn no_header_is_hard_error() {
    let err = parse_contract("print(1)\n", "/tmp/x.py").unwrap_err();
    assert!(err.contains("no contract header"));
}

#[test]
fn unknown_lang_and_concurrency_rejected() {
    let bad = GOOD.replace("lang: python", "lang: cobol");
    assert!(parse_contract(&bad, "/x").is_err());
    let bad2 = GOOD.replace("concurrency: safe", "concurrency: whatever");
    assert!(parse_contract(&bad2, "/x").is_err());
}

#[test]
fn bad_bool_rejected() {
    let bad = GOOD.replace("pure: false", "pure: yes");
    let err = parse_contract(&bad, "/x").unwrap_err();
    assert!(err.contains("must be true/false"));
}

#[test]
fn script_body_tokenizer() {
    let (name, args) =
        parse_script_body("script(resize, src=\"a b.png\", width=1024)").unwrap();
    assert_eq!(name, "resize");
    assert_eq!(args[0], ("src".into(), "a b.png".into()));
    assert_eq!(args[1], ("width".into(), "1024".into()));
}

#[test]
fn script_body_unbalanced_quotes_hard_error() {
    assert!(parse_script_body("script(x, a=\"unclosed)").is_err());
    assert!(parse_script_body("script x").is_err());
}

#[test]
fn interpreter_map() {
    assert_eq!(lang_interpreter("python").unwrap(), "python3");
    assert_eq!(lang_interpreter("bash").unwrap(), "bash");
    assert_eq!(lang_interpreter("powershell").unwrap(), "pwsh");
    assert!(lang_interpreter("cobol").is_err());
}

#[test]
fn script_call_body_empty_kv() {
    assert_eq!(build_script_call_body("report", ""), "script(report)");
    assert_eq!(build_script_call_body("report", "   "), "script(report)");
}

#[test]
fn script_call_body_with_kv() {
    assert_eq!(
        build_script_call_body("report", "topic=x"),
        "script(report, topic=x)"
    );
}

#[test]
fn calls_read_back() {
    let (name, args) = parse_script_body(&build_script_call_body("report", "topic=x, n=2")).unwrap();
    assert_eq!(name, "report");
    assert_eq!(args, vec![("topic".to_string(), "x".to_string()), ("n".to_string(), "2".to_string())]);
    assert!(parse_script_body(&build_script_call_body("report", " ")).unwrap().1.is_empty());
    assert!(parse_script_body("script(report, loose)").is_err());
}

#[test]
fn concurrency_reads_back() {
    for c in [Concurrency::Safe, Concurrency::Serial, Concurrency::Exclusive] {
        assert_eq!(Concurrency::parse(c.as_str()), Ok(c));
    }
    assert!(Concurrency::parse("whatever").is_err());
}

#[test]
fn coordinates_go_with_their_notes() {
    assert!(parse_mcsm("F(1)-O(2)-P(3)-T(4)"));
    assert!(!parse_mcsm("F(1)-O(2)-P(3)-T(5)"));
    assert!(!parse_mcsm("F(0)-O(2)-P(3)-T(4)"));
    let with = GOOD.replace("# timeout: 60", "# timeout: 60\n# mcsm: F(1)-O(2)-P(3)-T(4)");
    assert!(parse_contract(&with, "/x").is_err());
    let noted = with.replace(
        "T(4)",
        "T(4)\n# mcsm_note_f: a\n# mcsm_note_o: b\n# mcsm_note_p: c\n# mcsm_note_t: d",
    );
    let card = parse_contract(&noted, "/x").unwrap();
    assert_eq!(card.mcsm, "F(1)-O(2)-P(3)-T(4)");
    assert_eq!(card.mcsm_note, "F: a\nO: b\nP: c\nT: d");
}
