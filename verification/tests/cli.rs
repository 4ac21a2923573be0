use ductile::cli::{dispatch, parse_promote_args, parse_topic_params, split_run_args, Command};
use ductile::report::usage;

fn s(v: &[&str]) -> Vec<String> {
    v.iter().map(|x| x.to_string()).collect()
}

#[test]
fn run_args_policy_extracted() {
    let (topic, policy, restrict) =
        split_run_args(&s(&["my", "topic", "--policy", "p.eval"])).unwrap();
    assert_eq!(topic, "my topic");
    assert_eq!(policy.as_deref(), Some("p.eval"));
    assert!(!restrict);
}

#[test]
fn run_args_policy_first() {
    let (topic, policy, _) = split_run_args(&s(&["--policy", "p.eval", "hello"])).unwrap();
    assert_eq!(topic, "hello");
    assert_eq!(policy.as_deref(), Some("p.eval"));
}

#[test]
fn run_args_no_policy() {
    let (topic, policy, restrict) = split_run_args(&s(&["just", "topic"])).unwrap();
    assert_eq!(topic, "just topic");
    assert!(policy.is_none());
    assert!(!restrict);
}

#[test]
fn run_args_policy_missing_value_err() {
    assert!(split_run_args(&s(&["t", "--policy"])).is_err());
}

#[test]
fn run_args_policy_consumes_next_token() {
    // --policy 后跟的 token 不会被误当 topic
    let (topic, _, _) =
        split_run_args(&s(&["--policy", "a.eval", "x", "--policy", "b.eval"])).unwrap();
    assert_eq!(topic, "x");
}

#[test]
fn run_args_restrict_shell_flag() {
    let (topic, policy, restrict) =
        split_run_args(&s(&["hello", "--restrict-shell"])).unwrap();
    assert_eq!(topic, "hello");
    assert!(policy.is_none());
    assert!(restrict);
}

#[test]
fn promote_defaults() {
    assert_eq!(parse_promote_args(&vec![]), (7, 40, false));
}

#[test]
fn promote_positional_and_flag() {
    assert_eq!(
        parse_promote_args(&s(&["30", "10", "--dry"])),
        (30, 10, true)
    );
}

#[test]
fn promote_only_flag() {
    assert_eq!(parse_promote_args(&s(&["--dry"])), (7, 40, true));
}

#[test]
fn topic_params_split() {
    let (topic, params) = parse_topic_params("量子计算 --mode=fast --n=3");
    assert_eq!(topic, "量子计算");
    assert_eq!(params.get("mode").unwrap(), "fast");
    assert_eq!(params.get("n").unwrap(), "3");
    assert_eq!(params.len(), 2);
}

#[test]
fn topic_params_empty_topic_defaults_ai() {
    let (topic, params) = parse_topic_params("--mode=deep");
    assert_eq!(topic, "AI");
    assert_eq!(params.get("mode").unwrap(), "deep");
}

#[test]
fn topic_params_no_eq_skipped() {
    let (_, params) = parse_topic_params("t --flag --k=v");
    assert_eq!(params.len(), 1);
    assert!(params.contains_key("k"));
}

#[test]
fn topic_params_empty_key_skipped() {
    let (_, params) = parse_topic_params("t -- =v");
    assert!(params.is_empty());
}

#[test]
fn dispatch_no_args_usage() {
    let args: Vec<String> = vec![];
    assert_eq!(dispatch(&args), Command::Usage);
    assert_eq!(dispatch(&s(&["ductile"])), Command::Usage);
    assert_eq!(dispatch(&s(&["ductile", "no-such-cmd"])), Command::Usage);
}

#[test]
fn commands_are_told_apart() {
    assert_eq!(dispatch(&s(&["ductile", "check", "a.pipeline"])), Command::Check("a.pipeline".into()));
    assert_eq!(dispatch(&s(&["ductile", "run"])), Command::Usage);
    assert_eq!(
        dispatch(&s(&["ductile", "run", "a.pipeline", "x", "y"])),
        Command::Run("a.pipeline".into(), s(&["x", "y"]))
    );
    assert_eq!(dispatch(&s(&["ductile", "doctor"])), Command::Doctor);
    assert!(usage("1").contains("run"));
}
