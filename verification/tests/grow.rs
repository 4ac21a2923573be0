use ductile::grow::{build_corpus, corpus_refusal, count_calls, count_pairs, is_junk_construct, Interner};
use ductile::harvest::CmdCount;
use ductile::order::TextMap;

#[test]
fn terminator_tail_is_junk() {
    assert!(is_junk_construct("print(\"patched\")\nPY"));
    assert!(is_junk_construct("echo hi\nPYEOF"));
}

#[test]
fn generic_opener_is_junk() {
    assert!(is_junk_construct(
        "python3 - <<'PY'\nimport json\nreal content line here ok"
    ));
    assert!(is_junk_construct(
        "python3 -c \"\nimport json\nreal content line here ok"
    ));
}

#[test]
fn short_lines_all_junk() {
    assert!(is_junk_construct("a = 1\nb = 2\nc = 3"));
}

#[test]
fn real_construct_passes() {
    assert!(!is_junk_construct("import pathlib\nimport json\nd = json.loads(pathlib.Path('ledger.json').read_text())  # workflow"));
    assert!(!is_junk_construct(
        "const { chromium } = require('playwright');\n(async () => {"
    ));
}

#[test]
fn py_inside_code_line_not_junk() {
    // "PY" 出现在行中但不是裸终止符行 → 不误杀
    assert!(!is_junk_construct(
        "import PYutils  # PY in middle of a real line here"
    ));
}

#[test]
fn texts_keep_their_number() {
    let mut i = Interner::new();
    let a = i.intern("x");
    let b = i.intern("y");
    assert_ne!(a, b);
    assert_eq!(i.intern("x"), a);
    assert_eq!(i.get(b), "y");
    assert_eq!(i.len(), 2);
}

#[test]
fn merging_keeps_the_text() {
    let mut cmds = TextMap::new();
    cmds.insert("make build\nmake test".to_string(), CmdCount { calls: 3, sessions: 2 });
    cmds.insert("make build\nmake lint".to_string(), CmdCount { calls: 1, sessions: 1 });
    assert_eq!(count_calls(&cmds), 4);
    let mut c = build_corpus(&cmds);
    let pairs = c.pairs();
    let counted = count_pairs(&pairs);
    assert!(!counted.is_empty());
    let before: Vec<String> = c.seqs.iter().map(|s| s.iter().map(|t| c.ir.get(*t)).collect::<Vec<_>>().join("\n")).collect();
    let made = c.merge(&vec![counted[0].pair]);
    assert_eq!(made.len(), 1);
    let after: Vec<String> = c.seqs.iter().map(|s| s.iter().map(|t| c.ir.get(*t)).collect::<Vec<_>>().join("\n")).collect();
    assert_eq!(before, after);
}

#[test]
fn small_corpora_are_refused() {
    assert!(corpus_refusal(0, 7).is_some());
    assert!(corpus_refusal(1_000_000, 7).is_none());
}
