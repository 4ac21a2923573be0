use ductile::ast::{Contract, Impl, Pipeline, Proc, RecentRuns, Status, Value};
use ductile::order::{TextMap, TextSet};

fn mk_tags(tags: &[&str]) -> TextSet {
    let mut s = TextSet::new();
    for t in tags {
        s.insert(t.to_string());
    }
    s
}

fn default_impl() -> Impl {
    Impl {
        name: String::new(),
        description: String::new(),
        tags: TextSet::new(),
        cost_key: 0,
        enabled: true,
        when: None,
        refs: vec![],
        body_text: String::new(),
        stub: false,
        retry: 0,
        ensure: vec![],
    }
}

fn mk_proc(name: &str, plan: Vec<Impl>) -> Proc {
    Proc {
        name: name.into(),
        description: String::new(),
        plan,
        checks: vec![],
        contract: Contract::default(),
        deliver: false,
        deliver_refs: vec![],
        needs: vec![],
        foreach: None,
        foreach_var: String::new(),
        pick_by: "cost".into(),
    }
}

#[test]
fn value_as_text() {
    assert_eq!(Value::Text("hello".into()).as_text(), "hello");
    assert_eq!(Value::File("/tmp/x.txt".into()).as_text(), "/tmp/x.txt");
    assert_eq!(Value::Null.as_text(), "");
}

#[test]
fn value_len() {
    assert_eq!(Value::Text("hello".into()).len(), 5);
    assert_eq!(Value::Null.len(), 0);
}

#[test]
fn value_len_counts_bytes() {
    assert_eq!(Value::Text("主题".into()).len(), 6);
    assert_eq!(Value::File("é".into()).len(), 2);
}

#[test]
fn status_display() {
    assert_eq!(Status::Done.text(), "Ok");
    assert_eq!(Status::Fail.text(), "Fail");
}

#[test]
fn recent_runs_default() {
    let rr = RecentRuns::default();
    assert_eq!(rr.window, 0);
    assert_eq!(rr.fails, 0);
    assert_eq!(rr.consec_fail, 0);
}

#[test]
fn computed_tags_union_of_impl_tags() {
    let pl = Pipeline {
        name: "test".into(),
        description: String::new(),
        procs: vec![
            mk_proc(
                "a",
                vec![Impl { name: "x".into(), tags: mk_tags(&["search", "network"]), ..default_impl() }],
            ),
            mk_proc(
                "b",
                vec![Impl { name: "y".into(), tags: mk_tags(&["file", "network"]), ..default_impl() }],
            ),
        ],
    };
    let tags = pl.computed_tags();
    assert_eq!(tags.len(), 3);
    assert!(tags.contains("search"));
    assert!(tags.contains("file"));
    assert!(tags.contains("network"));
}

#[test]
fn computed_tags_empty_when_no_tags() {
    let pl = Pipeline {
        name: "bare".into(),
        description: String::new(),
        procs: vec![mk_proc("a", vec![Impl { name: "x".into(), ..default_impl() }])],
    };
    assert!(pl.computed_tags().is_empty());
}

#[test]
fn sets_keep_their_members_in_order() {
    let s = mk_tags(&["b", "a", "c", "a"]);
    assert_eq!(s.to_vec(), vec!["a", "b", "c"]);
    assert!(s.contains("b"));
    assert!(!s.contains("d"));
    assert!(mk_tags(&["a"]).is_subset(&s));
    assert!(!mk_tags(&["a", "d"]).is_subset(&s));
}

#[test]
fn maps_replace_and_find() {
    let mut m: TextMap<u32> = TextMap::new();
    m.insert("k".to_string(), 1);
    m.insert("a".to_string(), 2);
    m.insert("k".to_string(), 3);
    assert_eq!(m.len(), 2);
    assert_eq!(m.get("k"), Some(&3));
    assert_eq!(m.key_at(0), "a");
    assert_eq!(m.replace("a", 9), 2);
    assert_eq!(m.get("a"), Some(&9));
    assert!(!m.contains_key("zz"));
}
