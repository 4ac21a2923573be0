use ductile::config::{
    agents_from_sections, apply_llm_env_from_config, complexity_score, config_search_paths, is_readable,
    llm_from_sections, parse_toml_sections, resolve_tier_start, score_to_tier_index, tiers_from_sections, AgentConfig,
    LlmConfig, ModelTier, TiersConfig,
};
use ductile::order::TextMap;

fn map_of<V>(pairs: Vec<(&str, V)>) -> TextMap<V> {
    let mut m = TextMap::new();
    for (k, v) in pairs {
        m.insert(k.into(), v);
    }
    m
}

#[test]
fn parse_llm_section_strings() {
    let text = r#"
# comment
[llm]
base_url = "http://127.0.0.1:11434/v1"
api_key = "ollama"
model = 'qwen2.5'
timeout_secs = 90

[other]
x = 1
"#;
    let secs = parse_toml_sections(text);
    let cfg = llm_from_sections(&secs);
    assert_eq!(cfg.base_url, "http://127.0.0.1:11434/v1");
    assert_eq!(cfg.api_key, "ollama");
    assert_eq!(cfg.model, "qwen2.5");
    assert_eq!(cfg.timeout_secs, 90);
}

#[test]
fn comment_inside_quotes_preserved() {
    let text = r#"
[llm]
api_key = "abc#def"
"#;
    let cfg = llm_from_sections(&parse_toml_sections(text));
    assert_eq!(cfg.api_key, "abc#def");
}

#[test]
fn aliases_api_base_and_key() {
    let text = r#"
[llm]
api_base = "https://example.com/v1"
key = "secret"
default_model = "glm-5"
"#;
    let cfg = llm_from_sections(&parse_toml_sections(text));
    assert_eq!(cfg.base_url, "https://example.com/v1");
    assert_eq!(cfg.api_key, "secret");
    assert_eq!(cfg.model, "glm-5");
}

#[test]
fn defaults_when_empty_section() {
    let cfg = llm_from_sections(&TextMap::new());
    assert_eq!(cfg.base_url, "https://api.openai.com/v1");
    assert_eq!(cfg.model, "gpt-4o-mini");
    assert_eq!(cfg.timeout_secs, 120);
    assert!(cfg.api_key.is_empty());
}

#[test]
fn agents_section_parsed() {
    let text = r#"
[llm]
model = "default-m"

[agents.planner]
model = "qwen3.8:27b"
system = "你是规划助手。\n输出短计划。"
schema = "summary,kind"
timeout_secs = 300

[agents.judge]
model = "gpt-4o-mini"
"#;
    let secs = parse_toml_sections(text);
    let agents = agents_from_sections(&secs);
    let planner = agents.get("planner").expect("planner parsed");
    assert_eq!(planner.model, "qwen3.8:27b");
    // \n 展开
    assert!(
        planner.system.contains('\n'),
        "system: {:?}",
        planner.system
    );
    assert_eq!(planner.schema, "summary,kind");
    assert_eq!(planner.timeout_secs, 300);
    let judge = agents.get("judge").expect("judge parsed");
    assert_eq!(judge.model, "gpt-4o-mini");
    assert_eq!(judge.system, "");
    assert_eq!(agents.get("nonexistent"), None);
}

#[test]
fn agents_ignored_without_prefix() {
    let text = "[agents]\nmodel = \"x\"\n\n[other]\ny = \"1\"\n";
    let agents = agents_from_sections(&parse_toml_sections(text));
    // [agents] 裸段（无 .name）不产出 agent
    assert!(agents.agents.is_empty());
}

#[test]
fn tiers_section_parsed() {
    let text = r#"
[models.light]
model = "lfm2.5-8b"

[models.medium]
model = "qwen3.8:27b"
timeout_secs = 300

[models.high]
model = "ornith-1.5:35b"
base_url = "http://gpu-box:11434/v1"
"#;
    let tiers = tiers_from_sections(&parse_toml_sections(text));
    assert_eq!(tiers.tiers.len(), 3);
    assert_eq!(tiers.tiers.get("light").unwrap().model, "lfm2.5-8b");
    assert_eq!(tiers.tiers.get("light").unwrap().timeout_secs, 0); // 缺省回落 [llm]
    assert_eq!(tiers.tiers.get("medium").unwrap().timeout_secs, 300);
    assert_eq!(tiers.tiers.get("high").unwrap().base_url, "http://gpu-box:11434/v1");
}

#[test]
fn tiers_model_required() {
    // model 缺失的档被跳过（fail-safe，不产出半档）
    let text = "[models.broken]\ntimeout_secs = 60\n";
    let tiers = tiers_from_sections(&parse_toml_sections(text));
    assert!(tiers.tiers.is_empty());
}

#[test]
fn agent_tiers_ladder_parsed() {
    let text = "[agents.planner]\ntiers = \"light, medium,high\"\n";
    let agents = agents_from_sections(&parse_toml_sections(text));
    assert_eq!(
        agents.get("planner").unwrap().tiers,
        vec!["light", "medium", "high"]
    );
}

#[test]
fn complexity_scoring() {
    // 轻任务：短 prompt、无 schema
    assert_eq!(complexity_score(50, 0, 0), 0);
    // 中等：3 字段 schema
    assert_eq!(complexity_score(100, 100, 3), 1);
    // 重：7 字段 schema + 长 prompt
    assert_eq!(complexity_score(5000, 100, 7), 4);
    // 长 system 也加分
    assert_eq!(complexity_score(100, 500, 0), 1);
}

#[test]
fn tier_index_clamped() {
    assert_eq!(score_to_tier_index(0, 3), 0);
    assert_eq!(score_to_tier_index(2, 3), 1);
    assert_eq!(score_to_tier_index(4, 3), 2);
    // 两档阶梯：重任务钳到顶
    assert_eq!(score_to_tier_index(4, 2), 1);
    // 单档阶梯：永远 0
    assert_eq!(score_to_tier_index(99, 1), 0);
}

#[test]
fn resolve_tier_undefined_hard_error() {
    let agent = AgentConfig {
        tiers: vec!["light".into(), "ghost".into()],
        ..Default::default()
    };
    let tiers = TiersConfig {
        tiers: map_of(vec![(
            "light",
            ModelTier { model: "m".into(), ..Default::default() },
        )]),
    };
    let err = resolve_tier_start(&agent, &tiers, 10, 10, 0, None).unwrap_err();
    assert!(err.contains("undefined tier 'ghost'"), "{err}");
}

#[test]
fn resolve_tier_arg_selects_index() {
    let agent = AgentConfig {
        tiers: vec!["light".into(), "medium".into(), "high".into()],
        ..Default::default()
    };
    let mk = |m: &str| ModelTier {
        model: m.into(),
        ..Default::default()
    };
    let tiers = TiersConfig {
        tiers: map_of(vec![("light", mk("m1")), ("medium", mk("m2")), ("high", mk("m3"))]),
    };
    // tier= 手动指定
    let (_, i) = resolve_tier_start(&agent, &tiers, 0, 0, 0, Some("high")).unwrap();
    assert_eq!(i, 2);
    // tier= 不在阶梯内 → 硬错误
    assert!(resolve_tier_start(&agent, &tiers, 0, 0, 0, Some("ultra")).is_err());
    // 复杂度选择：轻 → 0
    let (_, i) = resolve_tier_start(&agent, &tiers, 50, 0, 0, None).unwrap();
    assert_eq!(i, 0);
    // 重 → 2
    let (_, i) = resolve_tier_start(&agent, &tiers, 5000, 500, 7, None).unwrap();
    assert_eq!(i, 2);
}

#[test]
fn defaults_are_filled_in_once() {
    let c = LlmConfig { model: "m".into(), ..Default::default() }.with_defaults();
    assert_eq!(c.model, "m");
    assert_eq!(c.base_url, "https://api.openai.com/v1");
    assert_eq!(c.with_defaults().timeout_secs, 120);
}

#[test]
fn unreadable_settings_are_told_apart() {
    assert!(is_readable("[llm]\nmodel = \"m\"\n"));
    assert!(is_readable(""));
}

#[test]
fn the_environment_goes_first() {
    let c = LlmConfig { api_key: "k".into(), ..Default::default() }.with_defaults();
    let all = apply_llm_env_from_config(&c, &vec![]);
    assert!(all.iter().any(|(n, v)| n == "OPENAI_API_KEY" && v == "k"), "{:?}", all);
    let held = vec!["OPENAI_API_KEY".to_string()];
    assert!(!apply_llm_env_from_config(&c, &held).iter().any(|(n, _)| n == "OPENAI_API_KEY"));
}

#[test]
fn settings_are_looked_for_in_order() {
    let p = config_search_paths(&Some("/x.toml".into()), &Some("/home/u".into()), &None);
    assert_eq!(p[0], vec!["/x.toml".to_string()]);
    assert!(p.len() >= 2);
}

#[test]
fn demand_never_climbs_down() {
    let mut last = 0;
    for (p, s, f) in [(0, 0, 0), (100, 100, 3), (5000, 100, 3), (5000, 500, 7)] {
        let i = score_to_tier_index(complexity_score(p, s, f), 3);
        assert!(i >= last);
        last = i;
    }
    assert_eq!(last, 2);
}

#[test]
fn line_breaks_of_agents_are_expanded() {
    let kv = map_of(vec![("system", "a\\nb".to_string()), ("schema", "x\\ny".to_string())]);
    let agents = agents_from_sections(&map_of(vec![("agents.p", kv)]));
    let p = agents.get("p").unwrap();
    assert_eq!(p.system, "a\nb");
    assert_eq!(p.schema, "x\ny");
}
