use ductile::ast::RecentRuns;
use ductile::order::TextMap;
use ductile::policy::{first_number, measure_command, measured, split_key};
use ductile::ranking::{impl_penalty, prefix_family, rank_impls, select_never_worse, Penalty, ReplayTrace};

fn runs(window: usize, fails: usize, consec_fail: usize) -> TextMap<RecentRuns> {
    let mut m = TextMap::new();
    m.insert("a".to_string(), RecentRuns { window, fails, consec_fail, n: 0, sum_tokens: 0 });
    m
}

/// A score as a number of thousandths.
fn key(x: f64) -> i64 {
    (x * 1000.0).round() as i64
}

fn keys(v: &[f64]) -> Vec<i64> {
    v.iter().map(|x| key(*x)).collect()
}

fn replay_score(t: &ReplayTrace, b1: f64, b2: f64) -> f64 {
    if t.n_probes() == 0 {
        return 0.0;
    }
    let n = t.n_probes() as f64;
    t.best() as f64 / 1000.0 - b1 * n + b2 * n / t.k_rounds() as f64
}

#[test]
fn impl_penalty_no_history() {
    assert!(matches!(impl_penalty(&TextMap::new(), "a"), Penalty::Nothing));
}

#[test]
fn impl_penalty_low_failure_rate() {
    assert!(matches!(impl_penalty(&runs(10, 1, 0), "a"), Penalty::Nothing));
}

#[test]
fn impl_penalty_consec_3_failures() {
    assert!(matches!(impl_penalty(&runs(5, 3, 3), "a"), Penalty::Endless));
}

#[test]
fn impl_penalty_high_failure() {
    assert!(matches!(impl_penalty(&runs(10, 8, 0), "a"), Penalty::Rate(8, 10)));
}

/// What an implementation with this latency and risk comes to, as a key.
fn effective(recent: &TextMap<RecentRuns>, name: &str, latency: i64, risk: f64) -> i64 {
    let base = 0.001 * latency as f64 + 10.0 * risk;
    let penalty = match impl_penalty(recent, name) {
        Penalty::Nothing => 0.0,
        Penalty::Rate(fails, window) => (7.0 * fails as f64 / window as f64).exp() - 1.0,
        Penalty::Endless => f64::INFINITY,
    };
    (base * (1.0 + penalty)).to_bits() as i64
}

#[test]
fn rank_impls_penalty_affects_order() {
    let mut recent = TextMap::new();
    recent.insert("cheap".to_string(), RecentRuns { window: 10, fails: 8, consec_fail: 0, n: 0, sum_tokens: 0 });
    let names = ["cheap", "expensive"];
    let keys = vec![effective(&recent, "cheap", 10, 0.0), effective(&recent, "expensive", 100, 0.0)];
    assert_eq!(names[rank_impls(&keys)[0]], "expensive");
}

#[test]
fn rank_default_pref_is_noop() {
    let recent = TextMap::new();
    let names = ["a", "b"];
    let keys = vec![effective(&recent, "a", 5_000, 0.0), effective(&recent, "b", 2_000, 0.0)];
    assert_eq!(names[rank_impls(&keys)[0]], "b");
}

#[test]
fn rank_impls_cheapest_first() {
    let recent = TextMap::new();
    let names = ["expensive", "cheap"];
    let keys = vec![effective(&recent, "expensive", 1000, 0.5), effective(&recent, "cheap", 10, 0.0)];
    let ranked = rank_impls(&keys);
    assert_eq!(names[ranked[0]], "cheap");
    assert_eq!(names[ranked[1]], "expensive");
    assert_eq!(rank_impls(&vec![7, 7, 3]), vec![2, 0, 1]);
    assert!(rank_impls(&vec![]).is_empty());
}

#[test]
fn best_ignores_order_failures_scored() {
    let t = ReplayTrace::serial(keys(&[0.0, 0.8, 0.0, 0.9]));
    assert_eq!(t.best(), key(0.9));
    assert_eq!(t.n_probes(), 4);
}

#[test]
fn prefix_family_full_coverage() {
    let fam = prefix_family(&keys(&[0.3, 0.9, 0.5]));
    assert_eq!(fam.len(), 4);
    assert_eq!(fam[0].1.n_probes(), 0);
    assert_eq!(fam[3].1.n_probes(), 3);
    let full = replay_score(&fam[3].1, 0.2, 0.01);
    let cut = replay_score(&fam[2].1, 0.2, 0.01);
    assert!(cut > full);
}

#[test]
fn select_never_worse_guarantees_pi0() {
    let (i, tie) = select_never_worse(&keys(&[0.5, 0.4, 0.3]));
    assert_eq!((i, tie), (0, true));
    let (i2, _) = select_never_worse(&keys(&[0.5, 0.7]));
    assert_eq!(i2, 1);
    let (i3, tie3) = select_never_worse(&keys(&[0.6, 0.6]));
    assert_eq!((i3, tie3), (0, true));
}

#[test]
fn avg_batch_semantics() {
    let t = ReplayTrace { node_scores: vec![1000; 6], batch_sizes: vec![2, 2, 2] };
    assert!((t.n_probes() as f64 / t.k_rounds() as f64 - 2.0).abs() < 1e-9);
    assert_eq!(t.k_rounds(), 3);
}

fn first_f64(s: &str) -> Option<f64> {
    first_number(s).and_then(|t| t.parse().ok())
}

#[test]
fn first_f64_variants() {
    assert_eq!(first_f64("0.201"), Some(0.201));
    assert_eq!(first_f64("measured latency: 123 ms"), Some(123.0));
    assert_eq!(first_f64("lat=1.5e3"), Some(1.5)); // 指数记法不支持——取到 1.5
    assert_eq!(first_f64("nope"), None);
    assert_eq!(first_f64(""), None);
    assert_eq!(first_f64("..5"), Some(5.0)); // 扫描语义：跳过前置点，取到 5
}

#[test]
fn measurements_need_success() {
    assert_eq!(measured(true, "lat: 12.5 ms"), Some("12.5".to_string()));
    assert_eq!(measured(false, "12"), None);
    assert_eq!(measured(true, "nope"), None);
    assert!(measure_command("echo {topic}", "x").contains("echo x"));
    assert_eq!(split_key("p.i"), ("p".to_string(), "i".to_string()));
}
