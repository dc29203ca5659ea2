use raven::config::config::EnvVars;
use raven::config::rules::{is_power_of_two, StandardCheck};
use raven::config::text::{parse_usize, same_text};
use raven::config::{
    merge_config, Config, ConflictError, LocalBenchmark, ParamSpace, Rule, RuleEngine, RuleSeverity,
};
use raven::distance::{DistanceKernel, DistanceMetric, F32};
use raven::graph::VamanaBuildConfig;

fn single(x: f32) -> F32 {
    F32(x.to_bits())
}

fn value(x: F32) -> f32 {
    f32::from_bits(x.0)
}

fn engine() -> RuleEngine<StandardCheck> {
    RuleEngine::with_standard_rules(false)
}

fn reason(cfg: &Config) -> String {
    engine().validate(cfg).unwrap_err().to_text()
}

/// Computes with the numbers of the machine.
struct Native;

impl DistanceKernel for Native {
    fn distance(&self, a: &[F32], b: &[F32]) -> F32 {
        let mut sum = 0.0f32;
        for (x, y) in a.iter().zip(b) {
            let d = f32::from_bits(x.0) - f32::from_bits(y.0);
            sum += d * d;
        }
        F32(sum.to_bits())
    }

    fn metric(&self) -> DistanceMetric {
        DistanceMetric::L2
    }

    fn name(&self) -> &'static str {
        "native"
    }
}

#[test]
fn config_default_config_values() {
    let cfg = Config::default();
    assert_eq!(cfg.distance, "l2");
    assert_eq!(cfg.m, 32);
    assert_eq!(value(cfg.alpha), 1.2);
}

#[test]
fn merge_config_defaults() {
    let result = merge_config(None, None, None, false, false);
    assert!(result.is_ok(), "default config should pass validation");
}

#[test]
fn merge_config_cli_overrides() {
    let mut cli = Config::default();
    cli.m = 64;
    let cfg = merge_config(None, Some(&cli), None, false, false).unwrap();
    assert_eq!(cfg.m, 64);
}

#[test]
fn apply_env_covers_new_fields() {
    let mut env = EnvVars::default();
    env.dim = Some("768".to_string());
    env.k = Some("20".to_string());
    env.top_n = Some("200".to_string());
    env.codebook_k = Some("512".to_string());
    env.sub_dim = Some("16".to_string());
    env.avq_alpha = Some(single(0.5));

    let mut cfg = Config::default();
    cfg.apply_env(&env);

    assert_eq!(cfg.dim, 768);
    assert_eq!(cfg.k, 20);
    assert_eq!(cfg.top_n, 200);
    assert_eq!(cfg.codebook_k, 512);
    assert_eq!(cfg.sub_dim, 16);
    assert_eq!(value(cfg.avq_alpha), 0.5);
}

#[test]
fn numbers_that_cannot_be_read_are_passed_over() {
    let mut env = EnvVars::default();
    env.dim = Some("12x".to_string());
    let mut cfg = Config::default();
    let before = cfg.dim;
    cfg.apply_env(&env);
    assert_eq!(cfg.dim, before);
    assert_eq!(parse_usize("+17"), Some(17));
    assert_eq!(parse_usize(""), None);
    assert_eq!(parse_usize("-1"), None);
    assert_eq!(parse_usize("99999999999999999999999"), None);
    assert!(same_text("l2", "l2"));
    assert!(!same_text("l2", "ip"));
}

#[test]
fn the_environment_comes_after_the_command_line() {
    let mut cli = Config::default();
    cli.m = 64;
    let mut env = EnvVars::default();
    env.m = Some("16".to_string());
    let cfg = merge_config(None, Some(&cli), Some(&env), false, false).unwrap();
    assert_eq!(cfg.m, 16);
    let file = Config { m: 8, ..Default::default() };
    let cfg = merge_config(Some(Ok(file)), None, None, false, false).unwrap();
    assert_eq!(cfg.m, 8);
}

#[test]
fn a_file_that_cannot_be_read_is_an_error() {
    let r = merge_config(Some(Err("broken".to_string())), None, None, false, false);
    assert!(r.unwrap_err().to_text().contains("broken"));
}

#[test]
fn default_param_space() {
    let ps = ParamSpace::default();
    assert_eq!(ps.m, vec![16, 32, 64]);
    let beta: Vec<f32> = ps.beta.iter().map(|&b| value(b)).collect();
    assert_eq!(beta, vec![0.0, 0.1, 0.3, 1.0]);
}

#[test]
fn coordinated_scan_has_phases() {
    let ps = ParamSpace::default();
    let combos: Vec<(f32, f32)> = ps
        .coordinated_alpha_beta_scan(single(1.2))
        .iter()
        .map(|&(a, b)| (value(a), value(b)))
        .collect();
    assert!(combos.iter().any(|&(a, b)| b == 0.0 && a == 1.0));
    assert!(combos.iter().any(|&(_, b)| b > 0.0));
    assert!(combos.iter().any(|&(a, b)| (a - 1.2).abs() < 0.01 && b == 0.3));
}

#[test]
fn full_grid_generates_configs() {
    let ps = ParamSpace::default();
    let configs = ps.full_grid();
    assert!(!configs.is_empty());
    assert_eq!(configs.len(), 8748);
    assert_eq!(configs.len(), ps.total_combinations());
    assert_eq!(ps.total_combinations(), 8748);
}

#[test]
fn default_engine_has_standard_rules() {
    assert_eq!(engine().len(), 10);
}

#[test]
fn validate_default_config() {
    assert!(engine().validate(&Config::default()).is_ok());
}

#[test]
fn validate_avq_with_ip() {
    let cfg = Config { avq: true, distance: "ip".to_string(), ..Default::default() };
    if let Err(e) = engine().validate(&cfg) {
        assert!(!e.to_text().contains("avq_l2_conflict"));
    }
}

#[test]
fn validate_no_avq_with_l2() {
    let cfg = Config { avq: false, distance: "l2".to_string(), ..Default::default() };
    assert!(engine().validate(&cfg).is_ok());
}

#[test]
fn avq_does_not_go_with_l2() {
    let cfg = Config { avq: true, distance: "l2".to_string(), ..Default::default() };
    assert!(reason(&cfg).contains("avq_l2_conflict"));
}

#[test]
fn gemm_threshold_violation() {
    let cfg = Config {
        avq: false,
        distance: "l2".to_string(),
        gemm_path: true,
        candidate_count: 4,
        gemm_threshold: 8,
        ..Default::default()
    };
    assert!(reason(&cfg).contains("gemm_threshold_check"));
}

#[test]
fn gemm_threshold_ok() {
    let cfg = Config {
        avq: false,
        distance: "l2".to_string(),
        gemm_path: true,
        candidate_count: 16,
        gemm_threshold: 8,
        ..Default::default()
    };
    assert!(engine().validate(&cfg).is_ok());
}

#[test]
fn alpha_positive_violation() {
    let cfg = Config {
        avq: false,
        distance: "l2".to_string(),
        alpha: single(0.0),
        ..Default::default()
    };
    assert!(reason(&cfg).contains("alpha_positive"));
}

#[test]
fn alpha_negative_violation() {
    let cfg = Config {
        avq: false,
        distance: "l2".to_string(),
        alpha: single(-1.0),
        ..Default::default()
    };
    assert!(reason(&cfg).contains("alpha_positive"));
}

#[test]
fn alpha_high_warning() {
    let cfg = Config {
        avq: false,
        distance: "l2".to_string(),
        alpha: single(1.2),
        ..Default::default()
    };
    let engine = engine();
    assert!(engine.validate(&cfg).is_ok());
    let warnings = engine.check_warnings(&cfg);
    assert!(warnings.iter().any(|w| w.name == "alpha_high_warning"));
    let both = engine.validate_and_warn(&cfg).unwrap();
    assert_eq!(both.len(), warnings.len());
}

#[test]
fn alpha_low_no_warning() {
    let cfg = Config {
        avq: false,
        distance: "l2".to_string(),
        alpha: single(0.5),
        ..Default::default()
    };
    let engine = engine();
    assert!(engine.validate(&cfg).is_ok());
    let warnings = engine.check_warnings(&cfg);
    assert!(!warnings.iter().any(|w| w.name == "alpha_high_warning"));
}

#[test]
fn codebook_k_not_power_of_two() {
    let cfg = Config {
        avq: true,
        distance: "ip".to_string(),
        codebook_k: 255,
        ..Default::default()
    };
    assert!(reason(&cfg).contains("codebook_k_power_of_two"));
}

#[test]
fn codebook_k_power_of_two_ok() {
    let cfg = Config {
        avq: true,
        distance: "ip".to_string(),
        codebook_k: 256,
        ..Default::default()
    };
    assert!(engine().validate(&cfg).is_ok());
}

#[test]
fn sub_dim_not_dividing_dim() {
    let cfg = Config {
        avq: false,
        distance: "l2".to_string(),
        dim: 128,
        sub_dim: 7,
        ..Default::default()
    };
    assert!(reason(&cfg).contains("sub_dim_divides_dim"));
}

#[test]
fn sub_dim_divides_dim_ok() {
    let cfg = Config {
        avq: false,
        distance: "l2".to_string(),
        dim: 128,
        sub_dim: 8,
        ..Default::default()
    };
    assert!(engine().validate(&cfg).is_ok());
}

#[test]
fn top_n_less_than_k_violation() {
    let cfg = Config {
        avq: false,
        distance: "l2".to_string(),
        k: 10,
        top_n: 5,
        ..Default::default()
    };
    assert!(reason(&cfg).contains("top_n_ge_k"));
}

#[test]
fn top_n_equal_k_ok() {
    let cfg = Config {
        avq: false,
        distance: "l2".to_string(),
        k: 10,
        top_n: 10,
        ..Default::default()
    };
    assert!(engine().validate(&cfg).is_ok());
}

#[test]
fn avq_alpha_out_of_range() {
    let cfg = Config {
        avq: true,
        distance: "ip".to_string(),
        avq_alpha: single(1.5),
        ..Default::default()
    };
    assert!(reason(&cfg).contains("avq_alpha_range"));
}

#[test]
fn avq_alpha_negative() {
    let cfg = Config {
        avq: true,
        distance: "ip".to_string(),
        avq_alpha: single(-0.1),
        ..Default::default()
    };
    assert!(reason(&cfg).contains("avq_alpha_range"));
}

#[test]
fn avq_alpha_boundary_ok() {
    for &alpha in &[0.0f32, 1.0] {
        let cfg = Config {
            avq: true,
            distance: "ip".to_string(),
            avq_alpha: single(alpha),
            ..Default::default()
        };
        assert!(engine().validate(&cfg).is_ok(), "avq_alpha={} should be valid", alpha);
    }
}

#[test]
fn avx512_dim_alignment_violation() {
    let cfg = Config {
        avq: false,
        distance: "l2".to_string(),
        avx512: true,
        dim: 100,
        ..Default::default()
    };
    assert!(reason(&cfg).contains("avx512_dim_alignment"));
}

#[test]
fn avx512_dim_alignment_ok() {
    let cfg = Config {
        avq: false,
        distance: "l2".to_string(),
        avx512: true,
        dim: 128,
        ..Default::default()
    };
    assert!(engine().validate(&cfg).is_ok());
}

#[test]
fn batches_need_a_program_built_for_them() {
    let cfg = Config { batch_mode: true, ..Default::default() };
    assert!(engine().validate(&cfg).is_err());
    assert!(RuleEngine::with_standard_rules(true).validate(&cfg).is_ok());
}

#[test]
fn is_power_of_two_check() {
    assert!(is_power_of_two(1));
    assert!(is_power_of_two(2));
    assert!(is_power_of_two(256));
    assert!(!is_power_of_two(0));
    assert!(!is_power_of_two(3));
    assert!(!is_power_of_two(255));
}

#[test]
fn dag_no_cycle_default_rules() {
    assert!(engine().validate_dag().is_ok());
}

#[test]
fn dag_cycle_detected() {
    let mut engine = RuleEngine::new_empty();
    engine.add_rule(
        Rule::new("rule_a", "A", StandardCheck::Always, "ok").with_depends_on(&["rule_b"]),
    );
    engine.add_rule(
        Rule::new("rule_b", "B", StandardCheck::Always, "ok").with_depends_on(&["rule_a"]),
    );
    assert!(engine.validate_dag().is_err());
}

#[test]
fn circles_of_any_length_are_found() {
    let chain = |len: usize, closed: bool| {
        let mut engine = RuleEngine::new_empty();
        let names: Vec<String> = (0..len).map(|i| format!("rule_{}", i)).collect();
        for i in 0..len {
            let rule = Rule::new(&names[i], "", StandardCheck::Always, "ok");
            if i + 1 < len || closed {
                engine.add_rule(rule.with_depends_on(&[&names[(i + 1) % len]]));
            } else {
                engine.add_rule(rule);
            }
        }
        engine.validate_dag().is_ok()
    };
    for len in 1..7 {
        assert!(chain(len, false));
        assert!(!chain(len, true));
    }
}

#[test]
fn dag_no_cycle_with_deps() {
    let mut engine = RuleEngine::new_empty();
    engine.add_rule(Rule::new("rule_a", "A", StandardCheck::Always, "ok"));
    engine.add_rule(
        Rule::new("rule_b", "B", StandardCheck::Always, "ok").with_depends_on(&["rule_a"]),
    );
    assert!(engine.validate_dag().is_ok());
}

#[test]
fn warnings_do_not_make_settings_invalid() {
    let mut engine = RuleEngine::new_empty();
    engine.add_rule(Rule::new_warning("w", "W", StandardCheck::AlphaBelowOne, "high"));
    let cfg = Config::default();
    assert!(engine.validate(&cfg).is_ok());
    let found = engine.check_warnings(&cfg);
    assert_eq!(found.len(), 1);
    assert_eq!(found[0].severity, RuleSeverity::Warning);
    let none: Result<(), ConflictError> = engine.validate_dag();
    assert!(none.is_ok());
}

#[test]
fn benchmark_runs_small() {
    let vectors: Vec<F32> = (0..1000).map(|i| single(i as f32)).collect();
    let dim = 10;
    let mut bench = LocalBenchmark::new(vectors, dim);
    bench.generate_random_queries(&Native, 10, 10);
    let config = VamanaBuildConfig {
        alpha: single(1.0),
        l_build: 50,
        r_max: 8,
        r_soft: 12,
        max_iterations: 1,
        saturate: true,
        enable_layered_nav: false,
        nav_m: 16,
        ..Default::default()
    };
    let result = bench.run(&Native, &config, 50, &[], 0);
    assert_eq!(result.hits.len(), 10);
    let recall: f64 = result
        .hits
        .iter()
        .zip(&result.truths)
        .map(|(&h, &t)| h as f64 / t as f64)
        .sum::<f64>()
        / 10.0;
    assert!(recall >= 0.0 && recall <= 1.0);
    assert!(result.elapsed_ns > 0);
    assert!(result.p95_latency_us <= result.p99_latency_us);
    assert_eq!(result.n, 100);
}

#[test]
fn true_neighbours_are_the_nearest() {
    let vectors: Vec<F32> = (0..50).map(|i| single((i * 7 % 50) as f32)).collect();
    let mut bench = LocalBenchmark::new(vectors, 1);
    bench.generate_random_queries(&Native, 5, 3);
    for (q, truth) in bench.queries().iter().zip(bench.ground_truth()) {
        assert_eq!(truth.len(), 3);
        let d = |id: u32| (value(bench.vectors()[id as usize]) - value(q[0])).abs();
        assert_eq!(d(truth[0]), 0.0);
        assert!(d(truth[1]) <= d(truth[2]));
        assert!(d(truth[2]) <= 2.0);
    }
}

#[test]
fn queries_can_be_given() {
    let vectors: Vec<F32> = (0..6).map(|i| single(i as f32)).collect();
    let bench = LocalBenchmark::new(vectors.clone(), 2)
        .with_queries(vec![vec![single(1.0), single(2.0)]], vec![vec![0, 1]]);
    assert_eq!(bench.queries(), &[vec![single(1.0), single(2.0)]]);
    assert_eq!(bench.ground_truth(), &[vec![0, 1]]);
    assert_eq!(bench.vectors(), &vectors[..]);
}
