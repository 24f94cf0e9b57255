use opencode_config::options::{resolve_env_flag_sources, resolve_run_options, strict_from_env_value, OptionsError, RunOptionsConfig};

fn config(strict: Option<bool>, env_allow: Option<bool>, env_mask_logs: Option<bool>) -> RunOptionsConfig {
    RunOptionsConfig { strict, env_allow, env_mask_logs }
}

fn env_strict(value: Option<&str>) -> Option<bool> {
    strict_from_env_value(value).expect("valid OPENCODE_STRICT")
}

#[test]
fn resolve_run_options_respects_precedence() {
    let options = resolve_run_options(None, None, None, None, env_strict(None));
    assert!(!options.strict);
    let options = resolve_run_options(None, None, None, None, env_strict(Some("1")));
    assert!(options.strict);
    let written = config(Some(false), None, None);
    let options = resolve_run_options(None, None, None, Some(&written), env_strict(Some("1")));
    assert!(!options.strict);
    let options = resolve_run_options(Some(true), None, None, Some(&written), env_strict(Some("1")));
    assert!(options.strict);
}

#[test]
fn strict_env_parsing_accepts_boolean_values() {
    let options = resolve_run_options(None, None, None, None, env_strict(Some("on")));
    assert!(options.strict);
    let options = resolve_run_options(None, None, None, None, env_strict(Some("0")));
    assert!(!options.strict);
}

#[test]
fn strict_env_rejects_invalid_values() {
    match strict_from_env_value(Some("maybe")) {
        Err(OptionsError::InvalidEnv { var, value }) => {
            assert_eq!(var, "OPENCODE_STRICT");
            assert_eq!(value, "maybe");
        }
        other => panic!("unexpected result: {other:?}"),
    }
}

#[test]
fn env_allow_and_env_mask_logs_precedence() {
    let options = resolve_run_options(None, None, None, None, None);
    assert!(!options.env_allow, "default env_allow should be false");
    assert!(!options.env_mask_logs, "default env_mask_logs should be false");
    let written = config(None, Some(true), Some(true));
    let options = resolve_run_options(None, None, None, Some(&written), None);
    assert!(options.env_allow, "config env_allow=true should propagate");
    assert!(options.env_mask_logs, "config env_mask_logs=true should propagate");
    let options = resolve_run_options(None, Some(false), Some(false), Some(&written), None);
    assert!(!options.env_allow, "CLI env_allow=false should override config");
    assert!(!options.env_mask_logs, "CLI env_mask_logs=false should override config");
}

#[test]
fn env_value_spellings() {
    for v in ["true", " YES ", "On", "1"] {
        assert_eq!(strict_from_env_value(Some(v)).unwrap(), Some(true), "{v}");
    }
    for v in ["false", "No", " off", "0"] {
        assert_eq!(strict_from_env_value(Some(v)).unwrap(), Some(false), "{v}");
    }
    assert_eq!(strict_from_env_value(None).unwrap(), None);
}

#[test]
fn environment_only_sets_strict() {
    let options = resolve_run_options(None, None, None, None, Some(true));
    assert!(options.strict);
    assert!(!options.env_allow);
    assert!(!options.env_mask_logs);
}

#[test]
fn env_flag_sources_keep_unset_flags_unset() {
    let written = config(Some(true), None, Some(true));
    assert_eq!(resolve_env_flag_sources(None, None, Some(&written)), (None, Some(true)));
    assert_eq!(resolve_env_flag_sources(Some(false), None, None), (Some(false), None));
}
