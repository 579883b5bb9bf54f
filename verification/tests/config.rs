use tsuitate_bot::config::{
    check_overrides, is_strategy_env_key, single_overrides, ConfigStack, EnvSource, KnobCheck,
    StrategyConfig, DEFAULT_THINK_BUDGET_MS, STRATEGY_ENV_KEYS,
};

const KEY: &str = "TSUITATE_HAND_ASSET_W";

fn pairs(list: &[(&str, &str)]) -> EnvSource {
    let owned: Vec<(String, String)> = list
        .iter()
        .map(|(k, v)| (k.to_string(), v.to_string()))
        .collect();
    EnvSource::from_pairs(&owned)
}

/// The weight that the strategy would use: zero unless a number from zero up is given.
fn hand_asset_w(source: &EnvSource) -> f64 {
    source
        .var(KEY)
        .and_then(|v| v.parse::<f64>().ok())
        .filter(|v| v.is_finite() && *v >= 0.0)
        .unwrap_or(0.0)
}

fn resolve(source: EnvSource) -> StrategyConfig {
    let strategy = format!("hand_asset_w={}", hand_asset_w(&source));
    StrategyConfig::from_source(source, strategy, String::new(), String::new())
}

fn defaults() -> StrategyConfig {
    StrategyConfig::defaults("hand_asset_w=0".to_string(), String::new(), String::new())
}

fn check(overrides: &[(&str, &str)]) -> KnobCheck {
    let base = EnvSource::empty();
    let given = pairs(overrides);
    let prints: Vec<String> = single_overrides(&base, &given)
        .into_iter()
        .map(|s| resolve(s).fingerprint())
        .collect();
    check_overrides(&resolve(EnvSource::empty()).fingerprint(), &given, &prints)
}

/// 既定configはenvを一切見ない
#[test]
fn the_default_config_sees_no_env() {
    let a = defaults();
    let b = defaults();
    assert_eq!(a.fingerprint(), b.fingerprint());
    assert_eq!(a.think_budget_ms, DEFAULT_THINK_BUDGET_MS);
    assert_eq!(a.joseki_path, "joseki.json");
}

/// 設置は入れ子で正しく戻る
#[test]
fn nested_configs_are_put_back() {
    let base = defaults();
    let cand = resolve(pairs(&[(KEY, "0.5")]));
    assert_ne!(base.fingerprint(), cand.fingerprint());
    let read = |c: &StrategyConfig| hand_asset_w(&c.source);
    let mut stack = ConfigStack::new(defaults());
    let outer = stack.scoped(base);
    assert_eq!(stack.current(read), 0.0);
    let inner = stack.scoped(cand);
    assert_eq!(stack.current(read), 0.5);
    stack.leave(inner);
    assert_eq!(stack.current(read), 0.0);
    stack.leave(outer);
    assert_eq!(
        stack.current_config().fingerprint(),
        stack.ambient().fingerprint()
    );
}

/// ノブの綴り間違いと無効値を検出する
#[test]
fn misspelt_knobs_and_bad_values_are_found() {
    let c = check(&[("TSUITATE_HAND_ASSET_WW", "0.5")]);
    assert_eq!(c.unknown, vec!["TSUITATE_HAND_ASSET_WW".to_string()]);
    assert!(c.ineffective.is_empty());
    let c = check(&[("TSUITATE_HAND_ASSET_W", "とても大きい")]);
    assert!(c.unknown.is_empty());
    assert_eq!(c.ineffective, vec!["TSUITATE_HAND_ASSET_W".to_string()]);
    let c = check(&[("TSUITATE_HAND_ASSET_W", "0")]);
    assert_eq!(c.ineffective, vec!["TSUITATE_HAND_ASSET_W".to_string()]);
    assert!(check(&[("TSUITATE_HAND_ASSET_W", "0.5")]).is_clean());
    let c = check(&[("TSUITATE_HAND_ASSET_W", "-1")]);
    assert_eq!(c.ineffective, vec!["TSUITATE_HAND_ASSET_W".to_string()]);
}

/// 指紋は解決後の値で決まる
#[test]
fn the_fingerprint_follows_resolved_values() {
    let a = defaults();
    let b = resolve(pairs(&[("TSUITATE_HAND_ASSET_W", "0")]));
    assert_eq!(a.fingerprint(), b.fingerprint());
    let c = resolve(pairs(&[("TSUITATE_NOT_A_KNOB", "9")]));
    assert_eq!(a.fingerprint(), c.fingerprint());
    let d = resolve(pairs(&[("TSUITATE_HAND_ASSET_W", "とても大きい")]));
    assert_eq!(a.fingerprint(), d.fingerprint());
}

#[test]
fn the_budget_of_a_candidate_goes_first() {
    let both = resolve(pairs(&[
        ("TSUITATE_THINK_BUDGET_MS", "900"),
        ("TSUITATE_CAND_THINK_BUDGET_MS", "1500"),
    ]));
    assert_eq!(both.think_budget_ms, 1500);
    let one = resolve(pairs(&[("TSUITATE_THINK_BUDGET_MS", "900")]));
    assert_eq!(one.think_budget_ms, 900);
    let bad = resolve(pairs(&[("TSUITATE_THINK_BUDGET_MS", "soon")]));
    assert_eq!(bad.think_budget_ms, DEFAULT_THINK_BUDGET_MS);
    let joseki = resolve(pairs(&[("TSUITATE_JOSEKI", "other.json")]));
    assert_eq!(joseki.joseki_path, "other.json");
}

#[test]
fn later_values_win_and_names_stay_in_order() {
    let s = pairs(&[("B", "1"), ("A", "2"), ("B", "3")]);
    assert_eq!(
        s.vars(),
        &vec![
            ("A".to_string(), "2".to_string()),
            ("B".to_string(), "3".to_string())
        ]
    );
    let more = s.with_overrides(&vec![("A".to_string(), "9".to_string())]);
    assert_eq!(more.var("A"), Some("9".to_string()));
    assert_eq!(s.var("A"), Some("2".to_string()));
    assert_eq!(s.var("C"), None);
    let strategic = pairs(&[(KEY, "1"), ("PATH", "/bin")]);
    assert_eq!(
        strategic.strategy_keys(),
        vec![(KEY.to_string(), "1".to_string())]
    );
}

#[test]
fn the_names_of_the_knobs_are_different() {
    assert!(is_strategy_env_key(KEY));
    assert!(!is_strategy_env_key("TSUITATE_HAND_ASSET_WW"));
    let mut names: Vec<&str> = STRATEGY_ENV_KEYS.to_vec();
    names.sort();
    names.dedup();
    assert_eq!(names.len(), STRATEGY_ENV_KEYS.len());
    assert!(names.iter().all(|n| n.starts_with("TSUITATE_")));
}

#[test]
fn dropped_keys_have_no_effect() {
    let given = [
        (KEY, "0.5"),
        ("PATH", "/bin"),
        ("TSUITATE_CAND_THINK_BUDGET_MS", "1500"),
        ("TSUITATE_JOSEKI", "other.json"),
        ("TSUITATE_NOT_A_KNOB", "9"),
    ];
    let source = pairs(&given);
    let kept = source.strategy_keys();
    assert_eq!(kept.len(), 3);
    assert_eq!(source.vars().len(), 5);
    let a = resolve(EnvSource::from_pairs(&kept));
    let b = resolve(pairs(&given));
    assert_eq!(a.fingerprint(), b.fingerprint());
    assert_eq!((a.think_budget_ms, a.joseki_path.as_str()), (1500, "other.json"));
}

#[test]
fn a_fingerprint_is_hexadecimal() {
    let print = defaults().fingerprint();
    assert_eq!(print.len(), 64);
    assert!(print.chars().all(|c| c.is_ascii_digit() || ('a'..='f').contains(&c)));
}

#[test]
fn the_knobs_of_the_play_in_check_are_all_known() {
    for key in [
        "TSUITATE_CHECK_HYP_PRIOR",
        "TSUITATE_CHECK_FOUL_EVIDENCE",
        "TSUITATE_CHECK_ESCAPE_DECAY",
        "TSUITATE_CHECK_KING_PRIOR_W",
    ] {
        assert!(is_strategy_env_key(key));
    }
    assert!(STRATEGY_ENV_KEYS.windows(2).all(|w| w[0] < w[1]));
}
