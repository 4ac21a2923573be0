use ductile::harvest::{
    extract_commands, extract_commands_exact, find_json_string_end, flag_file, harvest, harvest_full_counts,
    list_degraded, normalize, trunc_str, wrap_note,
};
use ductile::json::escape;
use ductile::jvalue::{jparse, jparse_str, Jv};

fn jv(s: &str) -> Option<Jv> {
    let mut i = 0usize;
    jparse(s, &mut i)
}

#[test]
fn jparse_scalar_and_other() {
    assert_eq!(jv("\"hi\""), Some(Jv::S("hi".into())));
    assert_eq!(jv("123"), Some(Jv::Other)); // number → Other
    assert_eq!(jv("true"), Some(Jv::Other));
    assert_eq!(jv("null"), Some(Jv::Other));
    assert_eq!(jv(""), None);
    assert_eq!(jv("   "), None);
}

#[test]
fn jparse_nested_containers() {
    let v = jv("[1, {\"a\": [\"x\", \"y\"]}]").unwrap();
    let Jv::A(items) = v else { panic!("array") };
    assert_eq!(items.len(), 2);
    let Jv::O(pairs) = &items[1] else {
        panic!("object")
    };
    assert_eq!(pairs[0].0, "a");
    let Jv::A(inner) = &pairs[0].1 else {
        panic!("inner array")
    };
    assert_eq!(inner.len(), 2);
}

#[test]
fn jparse_trailing_garbage_tolerated() {
    // jparse 只解析首个值——尾随垃圾不报错（调用方语义：提取即可）
    assert_eq!(jv("\"cmd\" junk"), Some(Jv::S("cmd".into())));
}

#[test]
fn jparse_malformed_returns_none() {
    assert_eq!(jv("[1,"), None);
    assert_eq!(jv("{\"k\""), None);
    assert_eq!(jv("{\"k\":"), None);
}

#[test]
fn jparse_empty_containers() {
    assert_eq!(jv("[]"), Some(Jv::A(vec![])));
    assert_eq!(jv("{}"), Some(Jv::O(vec![])));
}

#[test]
fn jparse_str_escapes() {
    // JSON 文本: "a\nb\tc\"" = quote a \n b \t c \" quote
    let s: String = vec!['"', 'a', '\\', 'n', 'b', '\\', 't', 'c', '\\', '"', '"']
        .into_iter()
        .collect();
    let mut i = 0usize;
    assert_eq!(jparse_str(&s, &mut i), Some("a\nb\tc\"".into()));
    // JSON 文本: "\\/"
    let s2: String = vec!['"', '\\', '\\', '/', '"'].into_iter().collect();
    let mut i = 0usize;
    assert_eq!(jparse_str(&s2, &mut i), Some("\\/".into()));
    // unterminated
    let mut i = 0usize;
    assert_eq!(jparse_str("\"abc", &mut i), None);
}

#[test]
fn jparse_str_unicode_escape() {
    // \u4e2d = 中
    let mut i = 0usize;
    assert_eq!(jparse_str("\"\\u4e2d\"", &mut i), Some("中".into()));
}

#[test]
fn jparse_str_surrogate_pair() {
    // U+1F600 = \ud83d\ude00（UTF-16 代理对），代理对恰在串尾
    let s: String = vec![
        '"', '\\', 'u', 'd', '8', '3', 'd', '\\', 'u', 'd', 'e', '0', '0', '"',
    ]
    .into_iter()
    .collect();
    let mut i = 0usize;
    assert_eq!(jparse_str(&s, &mut i), Some("\u{1F600}".into()));
}

#[test]
fn jparse_str_surrogate_pair_followed_by_char() {
    // 回归：代理对后跟普通字符不得被吞（旧 off-by-one 会静默丢 x）
    let s: String = vec![
        '"', '\\', 'u', 'd', '8', '3', 'd', '\\', 'u', 'd', 'e', '0', '0', 'x', '"',
    ]
    .into_iter()
    .collect();
    let mut i = 0usize;
    assert_eq!(jparse_str(&s, &mut i), Some("\u{1F600}x".into()));
}

#[test]
fn jparse_str_raw_utf8_multibyte() {
    let mut i = 0usize;
    assert_eq!(jparse_str("\"你好\"", &mut i), Some("你好".into()));
}

#[test]
fn exact_simple_tool_call() {
    let tc = r#"[{"function":{"name":"terminal","arguments":"{\"command\":\"echo hi\"}"}}]"#;
    assert_eq!(extract_commands_exact(tc), vec!["echo hi"]);
}

#[test]
fn exact_multiple_calls() {
    let tc = r#"[
        {"function":{"name":"t","arguments":"{\"command\":\"ls -la\"}"}},
        {"function":{"name":"t","arguments":"{\"command\":\"pwd\"}"}}
    ]"#;
    assert_eq!(extract_commands_exact(tc), vec!["ls -la", "pwd"]);
}

#[test]
fn exact_nested_escapes() {
    // arguments 的 JSON 文本: {"command":"echo \"hi\" \\"}
    // 解码后 command = echo "hi" \（含真实引号与反斜杠）
    let args_json: String = vec![
        '{', '"', 'c', 'o', 'm', 'm', 'a', 'n', 'd', '"', ':', '"', 'e', 'c', 'h', 'o', ' ',
        '\\', '"', 'h', 'i', '\\', '"', ' ', '\\', '\\', '"', '}',
    ]
    .into_iter()
    .collect();
    let expected: String = vec!['e', 'c', 'h', 'o', ' ', '"', 'h', 'i', '"', ' ', '\\']
        .into_iter()
        .collect();
    // arguments 是字符串化的 JSON → 整体再转义一层：\ → \\\\，" → \\"
    let args_lit: String = args_json
        .chars()
        .flat_map(|c| match c {
            '\\' => vec!['\\', '\\'],
            '"' => vec!['\\', '"'],
            other => vec![other],
        })
        .collect();
    let tc = format!("[{{\"function\":{{\"arguments\":\"{}\"}}}}]", args_lit);
    assert_eq!(extract_commands_exact(&tc), vec![expected]);
}

#[test]
fn exact_falls_back_to_heuristic_on_garbage() {
    // 非 JSON 输入 → 回退 extract_commands 启发式
    let out = extract_commands_exact("total garbage \"command\":\"x\" tail");
    assert!(!out.is_empty(), "heuristic fallback must find command");
}

#[test]
fn exact_empty_on_empty() {
    assert!(extract_commands_exact("[]").is_empty());
}

#[test]
fn heuristic_raw_json() {
    let s = r#"pre {"command": "cargo test"} post"#;
    assert_eq!(extract_commands(s), vec!["cargo test"]);
}

#[test]
fn heuristic_finds_multiple() {
    let s = r#"{"command":"a"} {"command":"b"}"#;
    assert_eq!(extract_commands(s), vec!["a", "b"]);
}

#[test]
fn heuristic_no_command_key() {
    assert!(extract_commands("nothing here").is_empty());
}

#[test]
fn json_string_end_escape_aware() {
    // 内容: \"bX" —— 索引1 的转义引号不是终点，索引4 的引号才是
    let s: String = r#"\"bX""#.chars().collect();
    assert_eq!(find_json_string_end(&s), Some(4));
    // 无终点
    assert_eq!(find_json_string_end("ab"), None);
}

#[test]
fn normalize_first_line_and_truncation_mark() {
    assert_eq!(normalize("line1\nline2"), "line1…");
    assert_eq!(normalize("  single  "), "single");
}

#[test]
fn normalize_strips_hash_comment() {
    assert_eq!(normalize("cmd arg # comment"), "cmd arg");
}

#[test]
fn escaped_strings_read_back() {
    for t in ["", "a\"b", "tab\tline\nback\\slash", "\u{1}\u{1f}", "你好 \u{1F600}"] {
        let s = format!("\"{}\"", escape(t));
        let mut i = 0usize;
        assert_eq!(jparse_str(&s, &mut i), Some(t.to_string()));
        assert_eq!(i, s.chars().count());
    }
}

#[test]
fn lone_halves_are_no_characters() {
    let mut i = 0usize;
    let r = jparse_str("\"\\ud83dx\"", &mut i);
    assert!(r != Some("\u{1F600}x".to_string()));
}

#[test]
fn repeated_commands_are_counted() {
    let call = |c: &str| format!("[{{\"function\":{{\"arguments\":\"{{\\\"command\\\":\\\"{}\\\"}}\"}}}}]", c);
    let rows = vec![
        (call("cargo build --release"), "s1".to_string()),
        (call("cargo build --release"), "s1".to_string()),
        (call("cargo build --release"), "s2".to_string()),
    ];
    let m = harvest_full_counts(&rows);
    let c = m.get("cargo build --release").unwrap();
    assert_eq!((c.calls, c.sessions), (3, 2));
    let hits = harvest(&rows.iter().map(|(t, _)| (t.clone(), 0)).collect());
    assert!(hits.iter().any(|h| h.count == 3), "{:?}", hits);
}

#[test]
fn notes_are_short() {
    assert_eq!(trunc_str("你好吗", 2), "你好...");
    assert_eq!(trunc_str("ab", 2), "ab");
    assert!(wrap_note("t", "echo hi").contains("echo hi"));
    assert_eq!(list_degraded(&vec![flag_file("x"), "other".to_string()]), vec!["x".to_string()]);
}
