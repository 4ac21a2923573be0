use ductile::ast::{Contract, Impl, Pipeline, Proc};
use ductile::body::{body_op, body_refs, extract_quoted_arg};
use ductile::fuse::build_egraph;
use ductile::order::TextSet;
use ductile::plan::extract_plan;
use ductile::report::{describe_pipeline, shared_classes};
use ductile::schedule::{critical_path, is_acyclic, parallel_groups};
use ductile::unionfind::UnionFind;

fn mk_impl(name: &str, body: &str, latency: i64) -> Impl {
    Impl {
        name: name.into(),
        description: String::new(),
        tags: TextSet::new(),
        cost_key: latency,
        enabled: true,
        when: None,
        refs: vec![],
        body_text: body.into(),
        stub: false,
        retry: 0,
        ensure: vec![],
    }
}

fn mk_proc(name: &str, impls: Vec<Impl>) -> Proc {
    Proc {
        name: name.into(),
        description: String::new(),
        plan: impls,
        checks: vec![],
        contract: Contract::default(),
        deliver: false,
        deliver_refs: vec![],
        needs: vec![],
        foreach: None,
        foreach_var: String::new(),
        pick_by: "cost + history".into(),
    }
}

fn mk_pipeline(procs: Vec<Proc>) -> Pipeline {
    Pipeline { name: "t".into(), description: String::new(), procs }
}

fn class_of(eg: &ductile::egraph::EGraph, name: &str) -> usize {
    *eg.proc_class.get(name).unwrap()
}

fn unified(eg: &mut ductile::egraph::EGraph, a: &str, b: &str) -> bool {
    let x = class_of(eg, a);
    let y = class_of(eg, b);
    eg.uf.is_unified(x, y)
}

#[test]
fn union_find_basic() {
    let mut uf = UnionFind::new();
    let a = uf.make_set();
    let b = uf.make_set();
    let c = uf.make_set();
    assert!(!uf.is_unified(a, b));
    uf.union(a, b);
    assert!(uf.is_unified(a, b));
    assert!(!uf.is_unified(a, c));
    assert_eq!(uf.find_imm(a), uf.find_imm(b));
}

#[test]
fn union_find_chain_compression() {
    let mut uf = UnionFind::new();
    let ids: Vec<usize> = (0..5).map(|_| uf.make_set()).collect();
    uf.union(ids[0], ids[1]);
    uf.union(ids[1], ids[2]);
    uf.union(ids[2], ids[3]);
    assert_eq!(uf.find_imm(ids[0]), uf.find_imm(ids[3]));
    assert_ne!(uf.find_imm(ids[0]), uf.find_imm(ids[4]));
}

#[test]
fn enode_projection_op_and_children() {
    let pl = mk_pipeline(vec![
        mk_proc("src", vec![mk_impl("s1", "web_search(query=\"x\")", 10)]),
        mk_proc("down", vec![mk_impl("d1", "llm(input=@src, template=\"t\")", 20)]),
    ]);
    let eg = build_egraph(&pl);
    let s = class_of(&eg, "src");
    assert_eq!(eg.classes[s].nodes[0].op, "web_search");
    let d = class_of(&eg, "down");
    assert_eq!(eg.classes[d].nodes[0].op, "llm");
    assert_eq!(eg.classes[d].nodes[0].children, vec![eg.canon_imm(s)]);
    assert_eq!(eg.edges, vec![("src".to_string(), "down".to_string())]);
}

#[test]
fn origins_align_with_nodes() {
    let pl = mk_pipeline(vec![mk_proc(
        "p",
        vec![mk_impl("a", "run(\"ls\")", 1), mk_impl("b", "sh(\"pwd\")", 2)],
    )]);
    let eg = build_egraph(&pl);
    let c = class_of(&eg, "p");
    assert_eq!(eg.classes[c].origins, vec![("p".to_string(), 0), ("p".to_string(), 1)]);
}

#[test]
fn isomorphic_procs_union() {
    let pl = mk_pipeline(vec![
        mk_proc("src", vec![mk_impl("s1", "web_search(query=\"x\")", 10)]),
        mk_proc("dup1", vec![mk_impl("d1", "llm(input=@src, template=\"a\")", 20)]),
        mk_proc("dup2", vec![mk_impl("d2", "llm(input=@src, template=\"b\")", 30)]),
    ]);
    let mut eg = build_egraph(&pl);
    assert!(unified(&mut eg, "dup1", "dup2"));
    assert_eq!(eg.fusion_hits.get("isomorphic_union"), Some(&1));
    assert_eq!(eg.class_count(), 2);
    assert_eq!(shared_classes(&eg), vec![vec!["dup1".to_string(), "dup2".to_string()]]);
}

#[test]
fn merge_commutativity_unions() {
    let pl = mk_pipeline(vec![
        mk_proc("a", vec![mk_impl("a1", "web_search(query=\"x\")", 10)]),
        mk_proc("b", vec![mk_impl("b1", "mcp_search(query=\"y\")", 10)]),
        mk_proc("m1", vec![mk_impl("m1i", "merge(@a, @b, dedup)", 5)]),
        mk_proc("m2", vec![mk_impl("m2i", "merge(@b, @a)", 5)]),
    ]);
    let mut eg = build_egraph(&pl);
    assert!(unified(&mut eg, "m1", "m2"));
    assert_eq!(eg.fusion_hits.get("merge_flatten"), Some(&1));
}

#[test]
fn nested_merge_flattens_to_three_way() {
    let pl = mk_pipeline(vec![
        mk_proc("a", vec![mk_impl("a1", "web_search(query=\"x\")", 10)]),
        mk_proc("b", vec![mk_impl("b1", "mcp_search(query=\"y\")", 10)]),
        mk_proc("c", vec![mk_impl("c1", "run(\"echo z\")", 10)]),
        mk_proc("inner", vec![mk_impl("i1", "merge(@a, @b)", 5)]),
        mk_proc("outer", vec![mk_impl("o1", "merge(@inner, @c)", 5)]),
        mk_proc("threeway", vec![mk_impl("t1", "merge(@a, @b, @c)", 5)]),
    ]);
    let mut eg = build_egraph(&pl);
    assert!(unified(&mut eg, "outer", "threeway"));
}

#[test]
fn degenerate_merge_unions_with_child() {
    let pl = mk_pipeline(vec![
        mk_proc("a", vec![mk_impl("a1", "web_search(query=\"x\")", 10)]),
        mk_proc("m", vec![mk_impl("m1", "merge(@a)", 0)]),
    ]);
    let mut eg = build_egraph(&pl);
    assert!(unified(&mut eg, "m", "a"));
}

#[test]
fn write_read_cancellation() {
    let pl = mk_pipeline(vec![
        mk_proc("gen", vec![mk_impl("g1", "llm(template=\"write doc\")", 50)]),
        mk_proc(
            "writer",
            vec![mk_impl("w1", "write(to=\"out/{topic}.md\", content=@gen)", 5)],
        ),
        mk_proc("reader", vec![mk_impl("r1", "read(from=\"out/{topic}.md\")", 3)]),
    ]);
    let mut eg = build_egraph(&pl);
    assert!(unified(&mut eg, "reader", "gen"));
    assert_eq!(eg.fusion_hits.get("write_read_cancel"), Some(&1));
}

#[test]
fn write_read_different_paths_no_cancel() {
    let pl = mk_pipeline(vec![
        mk_proc("gen", vec![mk_impl("g1", "llm(template=\"doc\")", 50)]),
        mk_proc("writer", vec![mk_impl("w1", "write(to=\"out/a.md\", content=@gen)", 5)]),
        mk_proc("reader", vec![mk_impl("r1", "read(from=\"out/b.md\")", 3)]),
    ]);
    let mut eg = build_egraph(&pl);
    assert!(!unified(&mut eg, "reader", "gen"));
}

#[test]
fn when_carrier_blocks_isomorphic_fusion() {
    let mut deliver = mk_impl("x", "run(\"echo DELIVERED\")", 1);
    deliver.when = Some("@gen.score < 80".into());
    deliver.refs = vec!["gen".into()];
    let pl = mk_pipeline(vec![
        mk_proc("gen", vec![mk_impl("high", "run(\"echo 'score=85'\")", 1)]),
        mk_proc("deliver", vec![deliver]),
    ]);
    let mut eg = build_egraph(&pl);
    assert_eq!(eg.fusion_hits.get("isomorphic_union"), None);
    assert!(!unified(&mut eg, "gen", "deliver"));
    let groups = parallel_groups(&eg);
    assert_eq!(groups.len(), 2);
    assert_eq!(groups[0], vec!["gen".to_string()]);
    assert_eq!(groups[1], vec!["deliver".to_string()]);
}

#[test]
fn no_when_still_fuses_isomorphic() {
    let pl = mk_pipeline(vec![
        mk_proc("a", vec![mk_impl("x", "run(\"echo SAME\")", 1)]),
        mk_proc("b", vec![mk_impl("y", "run(\"echo SAME\")", 1)]),
    ]);
    let eg = build_egraph(&pl);
    assert_eq!(eg.fusion_hits.get("isomorphic_union"), Some(&1));
}

#[test]
fn when_carrier_blocks_write_read_cancel() {
    let mut writer = mk_impl("w1", "write(to=\"out/{topic}.md\", content=@gen)", 5);
    writer.when = Some("@gen.score < 80".into());
    writer.refs = vec!["gen".into()];
    let pl = mk_pipeline(vec![
        mk_proc("gen", vec![mk_impl("g1", "llm(template=\"write doc\")", 50)]),
        mk_proc("writer", vec![writer]),
        mk_proc("reader", vec![mk_impl("r1", "read(from=\"out/{topic}.md\")", 3)]),
    ]);
    let mut eg = build_egraph(&pl);
    assert_eq!(eg.fusion_hits.get("write_read_cancel"), None);
    assert!(!unified(&mut eg, "reader", "gen"));
}

#[test]
fn extract_picks_min_cost_and_aliases() {
    let pl = mk_pipeline(vec![
        mk_proc("src", vec![mk_impl("s1", "web_search(query=\"x\")", 10)]),
        mk_proc(
            "dup1",
            vec![
                mk_impl("cheap", "llm(input=@src, template=\"a\")", 10),
                mk_impl("dear", "llm(input=@src, template=\"b\")", 900),
            ],
        ),
        mk_proc("dup2", vec![mk_impl("d2", "llm(input=@src, template=\"c\")", 500)]),
    ]);
    let eg = build_egraph(&pl);
    let plan = extract_plan(&pl, &eg);
    assert!(plan.picks.contains_key("dup1"));
    assert_eq!(plan.picks.get("dup1").unwrap(), &("dup1".to_string(), "cheap".to_string()));
    assert_eq!(plan.aliases.get("dup2").map(String::as_str), Some("dup1"));
    let pos_src = plan.order.iter().position(|n| n == "src").unwrap();
    let pos_dup = plan.order.iter().position(|n| n == "dup1").unwrap();
    assert!(pos_src < pos_dup);
}

#[test]
fn extract_skips_disabled_and_deliver() {
    let mut deliver_proc = mk_proc("final", vec![mk_impl("f1", "read(from=\"x.md\")", 1)]);
    deliver_proc.deliver = true;
    let mut patched = mk_pipeline(vec![
        mk_proc("p", vec![mk_impl("off", "run(\"a\")", 1), mk_impl("on", "run(\"b\")", 2)]),
        deliver_proc,
    ]);
    patched.procs[0].plan[0].enabled = false;
    let eg = build_egraph(&patched);
    let plan = extract_plan(&patched, &eg);
    assert_eq!(plan.picks.get("p").unwrap(), &("p".to_string(), "on".to_string()));
    assert!(!plan.picks.contains_key("final"));
}

#[test]
fn extraction_is_deterministic() {
    let pl = mk_pipeline(vec![
        mk_proc("a", vec![mk_impl("a1", "web_search(query=\"x\")", 10)]),
        mk_proc("b", vec![mk_impl("b1", "run(\"echo @a\")", 10)]),
        mk_proc("c", vec![mk_impl("c1", "merge(@a, @b)", 1)]),
    ]);
    let eg1 = build_egraph(&pl);
    let eg2 = build_egraph(&pl);
    let p1 = extract_plan(&pl, &eg1);
    let p2 = extract_plan(&pl, &eg2);
    assert_eq!(p1.order, p2.order);
    assert_eq!(format!("{:?}", p1.picks), format!("{:?}", p2.picks));
    assert_eq!(format!("{:?}", p1.aliases), format!("{:?}", p2.aliases));
}

#[test]
fn saturation_terminates_on_self_merge() {
    let pl = mk_pipeline(vec![
        mk_proc("a", vec![mk_impl("a1", "web_search(query=\"x\")", 10)]),
        mk_proc("m", vec![mk_impl("m1", "merge(@m, @a)", 1)]),
    ]);
    let eg = build_egraph(&pl);
    assert_eq!(eg.class_count() >= 1, true);
    assert!(is_acyclic(&eg));
}

#[test]
fn parallel_groups_layers() {
    let pl = mk_pipeline(vec![
        mk_proc("a", vec![mk_impl("a1", "web_search(query=\"x\")", 10)]),
        mk_proc("b", vec![mk_impl("b1", "run(\"echo\")", 10)]),
        mk_proc("c", vec![mk_impl("c1", "merge(@a, @b)", 1)]),
    ]);
    let eg = build_egraph(&pl);
    let groups = parallel_groups(&eg);
    assert_eq!(groups.len(), 2);
    assert_eq!(groups[0].len(), 2);
    assert_eq!(groups[1], vec!["c".to_string()]);
}

#[test]
fn critical_path_chain() {
    let pl = mk_pipeline(vec![
        mk_proc("a", vec![mk_impl("a1", "web_search(query=\"x\")", 10)]),
        mk_proc("b", vec![mk_impl("b1", "run(\"echo @a\")", 10)]),
        mk_proc("c", vec![mk_impl("c1", "run(\"echo @b\")", 10)]),
    ]);
    let eg = build_egraph(&pl);
    assert!(is_acyclic(&eg));
    assert_eq!(critical_path(&eg), vec!["a", "b", "c"]);
}

#[test]
fn empty_pipeline_egraph() {
    let pl = mk_pipeline(vec![]);
    let eg = build_egraph(&pl);
    assert!(eg.nodes.is_empty());
    assert!(parallel_groups(&eg).is_empty());
    assert!(critical_path(&eg).is_empty());
    let plan = extract_plan(&pl, &eg);
    assert!(plan.order.is_empty());
}

#[test]
fn quoted_arg_extraction() {
    assert_eq!(
        extract_quoted_arg("read(from=\"out/x.md\")", "from"),
        Some("out/x.md".to_string())
    );
    assert_eq!(
        extract_quoted_arg("write(to = 'a b.md', content=@x)", "to"),
        Some("a b.md".to_string())
    );
    assert_eq!(extract_quoted_arg("read(from=\"x\")", "to"), None);
}

#[test]
fn op_head_extraction() {
    assert_eq!(body_op(r#"run("echo hi")"#), "run");
    assert_eq!(body_op(r#"web_search(query="AI")"#), "web_search");
    assert_eq!(body_op(r#"  llm(x=1)"#), "llm");
}

#[test]
fn op_fallbacks() {
    assert_eq!(body_op("just text"), "call");
    assert_eq!(body_op("(x)"), "call");
    assert_eq!(body_op(""), "call");
}

#[test]
fn refs_ordered_no_dedup() {
    assert_eq!(body_refs("f(@a, @b, @a)"), vec!["a", "b", "a"]);
}

#[test]
fn refs_requires_alnum_after_at() {
    assert!(body_refs("email@ host @/x").is_empty());
}

#[test]
fn refs_charset_includes_dash_underscore() {
    assert_eq!(body_refs("@a-b @c_d"), vec!["a-b", "c_d"]);
}

#[test]
fn refs_take_letters_of_any_script() {
    assert_eq!(body_refs("@主题 @é!"), vec!["主题", "é"]);
}

#[test]
fn quoted_arg_double_and_single_quotes() {
    assert_eq!(extract_quoted_arg(r#"to="out.txt""#, "to"), Some("out.txt".into()));
    assert_eq!(extract_quoted_arg(r#"to = 'single'"#, "to"), Some("single".into()));
}

#[test]
fn quoted_arg_tolerates_spacing() {
    assert_eq!(extract_quoted_arg(r#"key  =  "v""#, "key"), Some("v".into()));
}

#[test]
fn quoted_arg_word_boundary() {
    assert_eq!(extract_quoted_arg(r#"into="x" to="y""#, "to"), Some("y".into()));
}

#[test]
fn quoted_arg_missing_or_unquoted() {
    assert_eq!(extract_quoted_arg(r#"to=out"#, "to"), None);
    assert_eq!(extract_quoted_arg(r#"other="x""#, "to"), None);
    assert_eq!(extract_quoted_arg(r#"to="#, "to"), None);
}

#[test]
fn pipelines_are_described() {
    let mut i = mk_impl("x", "run(\"ls\")", 1);
    i.tags.insert("shell".to_string());
    i.description = "lists".into();
    let mut p = mk_proc("a", vec![i]);
    p.deliver = true;
    let mut pl = mk_pipeline(vec![p]);
    pl.description = "d".into();
    assert_eq!(
        describe_pipeline(&pl),
        "Pipeline: t\nDescription: d\nTags: #shell\n\n  Proc: a (1 impls) [deliver]\n    Impl: x [#shell]\n      Desc: lists\n"
    );
}

#[test]
fn plans_run_shared_work_once_and_in_order() {
    let pl = mk_pipeline(vec![
        mk_proc("z", vec![mk_impl("z1", "run(\"echo @a @b\")", 1)]),
        mk_proc("b", vec![mk_impl("b1", "web_search(query=\"x\")", 10)]),
        mk_proc("a", vec![mk_impl("a1", "web_search(query=\"x\")", 7)]),
    ]);
    let eg = build_egraph(&pl);
    let plan = extract_plan(&pl, &eg);
    assert_eq!(plan.order, ["a", "z"]);
    assert_eq!(plan.aliases.get("b").map(|s| s.as_str()), Some("a"));
    assert_eq!(plan.picks.get("a").map(|p| p.1.as_str()), Some("a1"));
}

#[test]
fn merging_loses_nothing() {
    let pl = Pipeline {
        name: "t".into(),
        description: String::new(),
        procs: vec![
            mk_proc("a", vec![mk_impl("a1", "llm(x=1)", 1), mk_impl("a2", "web_search(x=1)", 1)]),
            mk_proc("b", vec![mk_impl("b1", "web_search(x=1)", 1), mk_impl("b2", "llm(x=1)", 1)]),
            mk_proc("c", vec![mk_impl("c1", "run(\"x\")", 1)]),
        ],
    };
    let eg = build_egraph(&pl);
    let root = eg.canon_imm(0);
    assert_eq!(eg.canon_imm(1), root);
    assert_ne!(eg.canon_imm(2), root);
    let class = &eg.classes[root];
    assert_eq!(class.procs, vec!["a".to_string(), "b".to_string()]);
    assert_eq!(class.nodes.len(), 2);
    assert_eq!(class.origins.len(), 2);
    assert!(eg.classes[1 - root].nodes.is_empty() && eg.classes[1 - root].procs.is_empty());
}

#[test]
fn classes_are_merged_on_demand() {
    let pl = Pipeline {
        name: "t".into(),
        description: String::new(),
        procs: vec![
            mk_proc("a", vec![mk_impl("a1", "llm(x=1)", 1), mk_impl("a2", "run(\"x\")", 1)]),
            mk_proc("b", vec![mk_impl("b1", "run(\"y\")", 1), mk_impl("b2", "web_search(x=1)", 1)]),
        ],
    };
    let mut eg = build_egraph(&pl);
    assert_ne!(eg.canon_imm(0), eg.canon_imm(1));
    let k = eg.merge_classes(0, 1);
    assert_eq!((eg.canon_imm(0), eg.canon_imm(1)), (k, k));
    let ops: Vec<&str> = eg.classes[k].nodes.iter().map(|n| n.op.as_str()).collect();
    assert_eq!(ops, vec!["llm", "run", "web_search"]);
    assert_eq!(eg.classes[k].origins.len(), 3);
    assert_eq!(eg.classes[k].procs, vec!["a".to_string(), "b".to_string()]);
    assert_eq!(eg.merge_classes(1, 0), k);
    assert_eq!(eg.classes[k].nodes.len(), 3);
}
