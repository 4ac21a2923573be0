use ductile::ast::{Contract, Impl, Pipeline, Proc};
use ductile::body::body_refs;
use ductile::hyper::{HedgeKind, HyperSpec};
use ductile::hyper_check::check_pipeline_against;
use ductile::hyper_emit::{emit_pipeline, primary_body, resolve_deliver, stage_inputs, stage_need, stage_tags};
use ductile::hyper_nodes::{node_sig_from_proc, node_sig_from_stage, nodes_request, NodeQuery, NodesRequest};
use ductile::hyper_parse::parse_hyper;
use ductile::hyper_rank::tag_overlaps;
use ductile::hyper_sig::{struct_sig_from_hyper, struct_sig_from_pipeline, StructSig};
use ductile::hyper_similar::{rank_hits, score_similar, similar_report_json, Overlap, GraphKind};
use ductile::order::TextSet;

const SAMPLE: &str = r#"
Hyper("unstructured_extract")
  .goal("blurb -> title,url,topic")
  .require(judge=true, min_impls=2)
  .stage("load", role=source, tags=#read,#file)
  .stage("extract", tags=#llm,#extract, after=load)
  .stage("gate", role=judge, tags=#gate, after=extract)
  .stage("report", role=sink, tags=#write,#file, after=extract, gated_by=gate)
  .deliver(report)
"#;

fn way(name: &str, body: &str, when: Option<&str>) -> Impl {
    let mut refs = body_refs(body);
    if let Some(w) = when {
        refs.extend(body_refs(w));
    }
    Impl {
        name: name.into(),
        description: String::new(),
        tags: TextSet::new(),
        cost_key: 0,
        enabled: true,
        when: when.map(|w| w.into()),
        refs,
        body_text: body.into(),
        stub: false,
        retry: 0,
        ensure: vec![],
    }
}

fn proc(name: &str, imp: &str, body: &str, when: Option<&str>) -> Proc {
    Proc {
        name: name.into(),
        description: String::new(),
        plan: vec![way(imp, body, when)],
        checks: vec![],
        contract: Contract::default(),
        deliver: false,
        deliver_refs: vec![],
        needs: vec![],
        foreach: None,
        foreach_var: String::new(),
        pick_by: "cost + history".into(),
    }
}

fn delivery(of: &str) -> Proc {
    Proc {
        plan: vec![],
        deliver: true,
        deliver_refs: vec![of.into()],
        ..proc("deliver", "d", "", None)
    }
}

fn pipeline(name: &str, procs: Vec<Proc>) -> Pipeline {
    Pipeline { name: name.into(), description: String::new(), procs }
}

/// The pipeline that the skeleton of a hypergraph writes down.
fn built(h: &HyperSpec) -> Pipeline {
    let mut procs = vec![];
    for s in &h.stages {
        let when = s.gated_by.as_ref().map(|g| format!("@{}.score >= 80", g));
        let after = stage_inputs(&h.stages, s);
        let body = primary_body(s, &after, &stage_tags(s));
        let mut p = proc(&s.name, "a", &body, when.as_deref());
        p.plan[0].tags = stage_tags(s);
        while p.plan.len() < stage_need(&h.require, s) {
            p.plan.push(way("b", &body, when.as_deref()));
        }
        procs.push(p);
    }
    procs.push(delivery(&resolve_deliver(h)));
    pipeline(&h.name, procs)
}

fn tag_jaccard(a: &StructSig, b: &StructSig) -> Overlap {
    let parts = tag_overlaps(&a.tags, &b.tags);
    let mut sum = 0.0;
    for (common, all) in &parts {
        sum += if *all == 0 { 1.0 } else { *common as f64 / *all as f64 };
    }
    let mean = if parts.is_empty() { 1.0 } else { sum / parts.len() as f64 };
    Overlap { key: mean.to_bits(), text: format!("{:.4}", mean) }
}

#[test]
fn parse_tags_with_commas() {
    let h = parse_hyper(
        r#"
Hyper("t")
  .stage("load", tags=#read,#file)
"#,
    )
    .unwrap();
    assert!(h.stages[0].tags.contains("read"));
    assert!(h.stages[0].tags.contains("file"));
}

#[test]
fn parse_sample_hyper() {
    let h = parse_hyper(SAMPLE).expect("parse");
    assert_eq!(h.name, "unstructured_extract");
    assert!(h.require.judge);
    assert_eq!(h.require.min_impls, 2);
    assert_eq!(h.stages.len(), 4);
    assert_eq!(h.stages[3].gated_by.as_deref(), Some("gate"));
    assert_eq!(h.deliver.as_deref(), Some("report"));
}

#[test]
fn reject_unknown_after() {
    let bad = r#"
Hyper("x")
  .stage("a", tags=#read)
  .stage("b", after=missing)
"#;
    assert!(parse_hyper(bad).is_err());
}

#[test]
fn check_catches_missing_fallback() {
    let h = parse_hyper(SAMPLE).unwrap();
    let pl = pipeline(
        "unstructured_extract",
        vec![
            proc("load", "p", "read(from=\"{topic}\")", None),
            proc("extract", "p", "llm(prompt=@load, schema=\"title\")", None),
            proc("gate", "g", "run(\"echo ok\")", None),
            proc("report", "w", "write(to=\"o.txt\", content=@extract)", Some("@gate.score >= 80")),
            delivery("report"),
        ],
    );
    let errs = check_pipeline_against(&h, &pl);
    assert!(
        errs.iter().any(|e| e.contains("min_impls")),
        "errs={:?}",
        errs
    );
}

#[test]
fn structure_iso_ignores_names_and_tags() {
    let a = parse_hyper(
        r#"
Hyper("a")
  .require(judge=true)
  .stage("load", role=source, tags=#read)
  .stage("work", tags=#llm, after=load)
  .stage("gate", role=judge, tags=#gate, after=work)
  .stage("out", role=sink, tags=#write, after=work, gated_by=gate)
"#,
    )
    .unwrap();
    // Same structure, different names + tags → still isomorphic
    let b = parse_hyper(
        r#"
Hyper("b")
  .require(judge=true)
  .stage("ingest", role=source, tags=#web,#http)
  .stage("nlp", tags=#gpu, after=ingest)
  .stage("judge", role=judge, tags=#qa, after=nlp)
  .stage("save", role=sink, tags=#s3, after=nlp, gated_by=judge)
"#,
    )
    .unwrap();
    let sa = struct_sig_from_hyper(&a);
    let sb = struct_sig_from_hyper(&b);
    assert_eq!(sa.structure_key(), sb.structure_key());
    let hit = score_similar(&sa, &sb, "b.hyper", "b", "hyper", tag_jaccard(&sa, &sb));
    assert!(hit.structure_match);
    assert!(
        f64::from_bits(hit.tag_jaccard.key) < 0.5,
        "tags should diverge: {}",
        hit.tag_jaccard.text
    );
}

#[test]
fn tag_collision_is_not_structure_match() {
    // Same tags, different topology → must NOT structure-match
    let a = parse_hyper(
        r#"
Hyper("linear")
  .stage("x", role=source, tags=#llm,#search)
  .stage("y", role=sink, tags=#write, after=x)
"#,
    )
    .unwrap();
    let b = parse_hyper(
        r#"
Hyper("branched")
  .stage("x", role=source, tags=#llm,#search)
  .stage("m", tags=#llm,#search, after=x)
  .stage("y", role=sink, tags=#write, after=m)
"#,
    )
    .unwrap();
    let sa = struct_sig_from_hyper(&a);
    let sb = struct_sig_from_hyper(&b);
    assert_ne!(sa.structure_key(), sb.structure_key());
    let hit = score_similar(&sa, &sb, "b.hyper", "branched", "hyper", tag_jaccard(&sa, &sb));
    assert!(!hit.structure_match);
}

#[test]
fn node_iso_same_role_op_arity() {
    let pl = pipeline("a", vec![proc("load", "p", "read(from=\"x.txt\")", None)]);
    assert!(!pl.procs.is_empty(), "procs={}", pl.procs.len());
    let load = node_sig_from_proc(&pl.procs[0]);
    assert_eq!(
        load.op, "read",
        "body={:?} tags={:?}",
        pl.procs[0].plan[0].body_text, pl.procs[0].plan[0].tags
    );
    assert_eq!(load.in_arity, 0);
    assert_eq!(load.role, "source");

    let pl2 = pipeline("b", vec![proc("ingest", "p", "read(from=\"y.txt\")", None)]);
    let ingest = node_sig_from_proc(&pl2.procs[0]);
    assert_eq!(load.node_key(), ingest.node_key());
}

#[test]
fn hypergraph_hedges_project_and_key() {
    let h = parse_hyper(
        r#"
HyperGraph("g")
  .require(judge=true)
  .vertex("a", role=source)
  .vertex("b", role=default)
  .vertex("j", role=judge)
  .vertex("c", role=sink)
  .hedge("flow", kind=chain, a, b, c)
  .hedge("q", kind=gate, judge=j, producers=b, consumers=c)
  .deliver(c)
"#,
    )
    .unwrap();
    assert_eq!(h.vertices.len(), 4);
    assert_eq!(h.hedges.len(), 2);
    assert!(h.hedges.iter().any(|e| e.kind == HedgeKind::Chain));
    assert!(h.hedges.iter().any(|e| e.kind == HedgeKind::Gate));
    let c = h.stages.iter().find(|s| s.name == "c").unwrap();
    assert_eq!(c.gated_by.as_deref(), Some("j"));
    assert!(c.after.iter().any(|x| x == "b"));
    // gate must NOT force judge as data after= on consumer
    assert!(!c.after.iter().any(|x| x == "j"));
    let j = h.stages.iter().find(|s| s.name == "j").unwrap();
    assert!(j.after.iter().any(|x| x == "b"), "producers→judge");
    let key = h.hypergraph_key();
    assert!(key.contains("chain:"), "{}", key);
    assert!(key.contains("gate:"), "{}", key);

    // Rename vertices, same roles/hedge pattern → same hypergraph key
    let h2 = parse_hyper(
        r#"
HyperGraph("g2")
  .require(judge=true)
  .vertex("in", role=source)
  .vertex("mid", role=default)
  .vertex("judge", role=judge)
  .vertex("out", role=sink)
  .hedge("flow", kind=chain, in, mid, out)
  .hedge("q", kind=gate, judge=judge, producers=mid, consumers=out)
  .deliver(out)
"#,
    )
    .unwrap();
    assert_eq!(h.hypergraph_key(), h2.hypergraph_key());
}

#[test]
fn legacy_desugar_matches_explicit_hypergraph_key() {
    let legacy = parse_hyper(
        r#"
Hyper("legacy")
  .require(judge=true)
  .stage("ingest", role=source)
  .stage("nlp", after=ingest)
  .stage("judge", role=judge, after=nlp)
  .stage("save", role=sink, after=nlp, gated_by=judge)
"#,
    )
    .unwrap();
    let explicit = parse_hyper(
        r#"
HyperGraph("explicit")
  .require(judge=true)
  .vertex("ingest", role=source)
  .vertex("nlp", role=default)
  .vertex("judge", role=judge)
  .vertex("save", role=sink)
  .hedge("flow", kind=chain, ingest, nlp, save)
  .hedge("q", kind=gate, judge=judge, producers=nlp, consumers=save)
  .deliver(save)
"#,
    )
    .unwrap();
    assert_eq!(
        legacy.hypergraph_key(),
        explicit.hypergraph_key(),
        "legacy={}\nexplicit={}\nlegacy hedges={:?}\nexplicit hedges={:?}",
        legacy.hypergraph_key(),
        explicit.hypergraph_key(),
        legacy
            .hedges
            .iter()
            .map(|h| format!("{}:{:?}", h.kind.as_str(), h.members))
            .collect::<Vec<_>>(),
        explicit
            .hedges
            .iter()
            .map(|h| format!("{}:{:?}", h.kind.as_str(), h.members))
            .collect::<Vec<_>>(),
    );
    let save = legacy.stages.iter().find(|s| s.name == "save").unwrap();
    assert_eq!(save.gated_by.as_deref(), Some("judge"));
    assert!(!save.after.iter().any(|a| a == "judge"));
}

#[test]
fn emit_pipeline_dag_matches_hyper_projection() {
    let h = parse_hyper(
        r#"
HyperGraph("g")
  .require(judge=true)
  .vertex("a", role=source)
  .vertex("b", role=default)
  .vertex("j", role=judge)
  .vertex("c", role=sink)
  .hedge("flow", kind=chain, a, b, c)
  .hedge("q", kind=gate, judge=j, producers=b, consumers=c)
  .deliver(c)
"#,
    )
    .unwrap();
    let pl = built(&h);
    let sh = struct_sig_from_hyper(&h);
    let sp = struct_sig_from_pipeline(&pl);
    assert_eq!(
        sh.dag_key(),
        sp.dag_key(),
        "hyper dag={}\npipeline dag={}\nemit=\n{}",
        sh.dag_key(),
        sp.dag_key(),
        emit_pipeline(&h)
    );
    // when-gate must not invent judge→consumer data edge
    assert!(
        !sp.edges.iter().any(|&(from, to)| {
            sp.roles.get(from) == Some(&"judge") && sp.roles.get(to) == Some(&"sink")
        }),
        "spurious judge→sink edge: {:?}",
        sp.edges
    );
}

#[test]
fn gate_rejects_positional_members() {
    let err = parse_hyper(
        r#"
HyperGraph("bad")
  .vertex("a")
  .vertex("j", role=judge)
  .vertex("c")
  .hedge("q", kind=gate, a, j, c)
"#,
    )
    .unwrap_err();
    assert!(
        err.msg.contains("ports") || err.msg.contains("judge="),
        "{}",
        err.msg
    );
}

#[test]
fn xor_suppresses_alts_one_slot() {
    let h = parse_hyper(
        r#"
HyperGraph("x")
  .vertex("live", role=default, tags=#llm)
  .vertex("stub", role=default, tags=#stub)
  .vertex("out", role=sink, tags=#write)
  .hedge("alts", kind=xor, live, stub)
  .hedge("flow", kind=chain, live, out)
  .deliver(out)
"#,
    )
    .unwrap();
    let names: Vec<_> = h.stages.iter().map(|s| s.name.as_str()).collect();
    assert!(names.contains(&"live"));
    assert!(names.contains(&"out"));
    assert!(
        !names.contains(&"stub"),
        "xor alt must not be a stage: {:?}",
        names
    );
    let live = h.stages.iter().find(|s| s.name == "live").unwrap();
    assert!(live.min_impls >= 2, "slot min_impls={}", live.min_impls);
}

#[test]
fn bundle_enforced_in_check() {
    let h = parse_hyper(
        r#"
HyperGraph("b")
  .vertex("a", role=source)
  .vertex("c", role=sink)
  .hedge("flow", kind=chain, a, c)
  .hedge("pack", kind=bundle, a, c)
  .deliver(c)
"#,
    )
    .unwrap();
    let pl = built(&h);
    assert!(check_pipeline_against(&h, &pl).is_empty());

    // Drop proc "a" from a minimal pipeline → bundle fails
    let broken = pipeline(
        "broken",
        vec![proc("c", "p", "write(to=\"/tmp/x\", content=\"ok\")", None), delivery("c")],
    );
    let errs = check_pipeline_against(&h, &broken);
    assert!(
        errs.iter().any(|e| e.contains("bundle") && e.contains("a")),
        "{:?}",
        errs
    );
}

#[test]
fn built_pipeline_answers_its_hypergraph() {
    let h = parse_hyper(SAMPLE).unwrap();
    assert_eq!(check_pipeline_against(&h, &built(&h)), Vec::<String>::new());
}

#[test]
fn emitted_text_is_a_skeleton() {
    let h = parse_hyper("HyperGraph(\"two\")\n  .vertex(\"a\", role=source)\n  .vertex(\"c\", role=sink)\n  .hedge(\"f\", kind=chain, a, c)\n  .deliver(c)\n").unwrap();
    let t = emit_pipeline(&h);
    assert!(t.contains("Pipeline(\"two\")\n  .proc(\"a\")\n    .desc(\"hyper stage a role=source\")\n"), "{}", t);
    assert!(t.ends_with("  .proc(\"deliver\")\n    .deliver(@c)\n"), "{}", t);
}

#[test]
fn errors_name_their_line() {
    let e = parse_hyper("Hyper(\"x\")\n  .wat(1)\n").unwrap_err();
    assert_eq!(e.line, 2);
    assert!(parse_hyper("").is_err());
    assert!(parse_hyper("Hyper(\"x\")\n  .require(judge=true)\n  .stage(\"a\")\n").is_err());
    assert!(parse_hyper("HyperGraph(\"x\")\n  .vertex(\"a\")\n  .vertex(\"a\")\n").is_err());
    assert!(parse_hyper("Hyper(\"x\")\n  .stage(\"a\")\n  .deliver(b)\n").is_err());
}

#[test]
fn hits_are_ranked_by_shape_first() {
    let a = struct_sig_from_hyper(&parse_hyper(SAMPLE).unwrap());
    let b = struct_sig_from_hyper(&parse_hyper("Hyper(\"x\")\n  .stage(\"a\", tags=#read,#file)\n").unwrap());
    let far = score_similar(&a, &b, "far.hyper", "far", "hyper", Overlap { key: 1f64.to_bits(), text: "1.0000".into() });
    let near = score_similar(&a, &a, "near.hyper", "near", "hyper", Overlap { key: 0f64.to_bits(), text: "0.0000".into() });
    assert!(!far.structure_match && near.structure_match);
    let hits = vec![far, near];
    assert_eq!(rank_hits(&hits), vec![1, 0]);
    let j = similar_report_json("q.hyper", "q", &a, &hits);
    assert!(j.contains("\"reuse_pipeline\"") && !j.contains("far.hyper"), "{}", j);
}

#[test]
fn nodes_are_asked_for_in_three_ways() {
    match nodes_request("g.hyper:load", &None) {
        NodesRequest::One(GraphKind::Hyper, p, n) => assert_eq!((p.as_str(), n.as_str()), ("g.hyper", "load")),
        _ => panic!("one node"),
    }
    match nodes_request("g.pipeline", &None) {
        NodesRequest::All(GraphKind::Pipeline, p) => assert_eq!(p, "g.pipeline"),
        _ => panic!("all nodes"),
    }
    let q = NodeQuery { role: Some("judge".into()), op: None, in_arity: None, gated: None };
    assert_eq!(q.label(), "NodeQuery { role: Some(\"judge\"), op: None, in_arity: None, gated: None }");
    let h = parse_hyper(SAMPLE).unwrap();
    assert!(q.matches_filter(&node_sig_from_stage(&h.stages[2])));
    assert!(!q.matches_filter(&node_sig_from_stage(&h.stages[0])));
    assert!(matches!(nodes_request("", &Some(q)), NodesRequest::Filter));
    assert!(matches!(nodes_request("", &None), NodesRequest::Refused(_)));
    assert!(matches!(nodes_request("x.txt", &None), NodesRequest::Refused(_)));
}

fn goes_up(s: &StructSig) -> bool {
    s.edges.iter().all(|(u, v)| u < v)
}

#[test]
fn shapes_are_in_topological_order() {
    let h = parse_hyper(
        "HyperGraph(\"g\")\n  .vertex(\"c\", role=sink)\n  .vertex(\"a\", role=source)\n  .hedge(\"f\", kind=chain, a, c)\n",
    );
    let s = struct_sig_from_hyper(&h.unwrap());
    assert_eq!(s.roles, vec!["source", "sink"]);
    assert_eq!(s.edges, vec![(0, 1)]);

    let again = parse_hyper(
        "HyperGraph(\"g\")\n  .vertex(\"a\", role=source, tags=#x)\n  .vertex(\"c\", role=sink)\n  .hedge(\"f\", kind=chain, a, c)\n",
    );
    let t = struct_sig_from_hyper(&again.unwrap());
    assert_eq!(s.dag_key(), t.dag_key());
    assert!(t.tags[0].contains("x") && !t.tags[1].contains("x"));
}

#[test]
fn declared_order_breaks_ties() {
    let s = struct_sig_from_hyper(&parse_hyper(SAMPLE).unwrap());
    assert_eq!(s.roles, vec!["source", "default", "judge", "sink"]);
    assert_eq!(s.edges, vec![(0, 1), (1, 2), (1, 3)]);
    assert_eq!(s.gates, vec![(3, 2)]);
}

#[test]
fn implied_inputs_stay_with_their_stage() {
    let h = parse_hyper(
        "Hyper(\"x\")\n  .stage(\"p\", role=source)\n  .stage(\"e\", after=w)\n  .stage(\"t\", role=sink)\n  .stage(\"w\", role=judge, after=p)\n",
    );
    let s = struct_sig_from_hyper(&h.unwrap());
    assert_eq!(s.roles, vec!["source", "judge", "default", "sink"]);
    assert_eq!(s.edges, vec![(0, 1), (1, 2), (2, 3)]);
}

#[test]
fn procs_of_a_shape_are_in_topological_order() {
    let pl = pipeline(
        "t",
        vec![
            proc("c", "c1", "write(\"out\", @b)", None),
            proc("b", "b1", "run(\"use @a\")", None),
            proc("a", "a1", "run(\"start\")", None),
        ],
    );
    let s = struct_sig_from_pipeline(&pl);
    assert_eq!(s.edges, vec![(0, 1), (1, 2)]);
    assert!(goes_up(&s));
    let gated = pipeline(
        "t",
        vec![
            proc("w", "w1", "run(\"use @a\")", Some("@j.score >= 80")),
            proc("a", "a1", "run(\"start\")", None),
            proc("j", "j1", "run(\"judge @a\")", None),
        ],
    );
    let s = struct_sig_from_pipeline(&gated);
    assert_eq!(s.edges, vec![(0, 1), (0, 2)]);
    assert_eq!(s.gates, vec![(1, 2)]);
}

#[test]
fn rings_keep_their_declared_order() {
    let pl = pipeline(
        "t",
        vec![proc("a", "a1", "run(\"use @b\")", None), proc("b", "b1", "run(\"use @a\")", None)],
    );
    let s = struct_sig_from_pipeline(&pl);
    assert_eq!(s.edges, vec![(1, 0), (0, 1)]);
    assert!(!goes_up(&s));
}

#[test]
fn keys_do_not_depend_on_order() {
    let a = parse_hyper(
        "HyperGraph(\"g\")\n  .vertex(\"a\", role=source)\n  .vertex(\"j\", role=judge)\n  .vertex(\"c\", role=sink)\n  .hedge(\"f\", kind=chain, a, j)\n  .hedge(\"e\", kind=chain, a, c)\n",
    )
    .unwrap();
    let b = parse_hyper(
        "HyperGraph(\"other\")\n  .vertex(\"z\", role=sink)\n  .vertex(\"x\", role=source)\n  .vertex(\"y\", role=judge)\n  .hedge(\"q\", kind=chain, x, z)\n  .hedge(\"r\", kind=chain, x, y)\n",
    )
    .unwrap();
    assert_eq!(a.hypergraph_key(), b.hypergraph_key());
    let c = parse_hyper(
        "HyperGraph(\"g\")\n  .vertex(\"a\", role=source)\n  .vertex(\"j\", role=judge)\n  .vertex(\"c\", role=sink)\n  .hedge(\"f\", kind=chain, j, a)\n  .hedge(\"e\", kind=chain, a, c)\n",
    )
    .unwrap();
    assert_ne!(a.hypergraph_key(), c.hypergraph_key());
}

#[test]
fn inputs_of_a_node_count_once() {
    let mut h = parse_hyper(SAMPLE).unwrap();
    assert_eq!(node_sig_from_stage(&h.stages[1]).in_arity, 1);
    let again = h.stages[1].after[0].clone();
    h.stages[1].after.push(again);
    assert_eq!(node_sig_from_stage(&h.stages[1]).in_arity, 1);
}
