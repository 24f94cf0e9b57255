use opencode_config::env_resolve::{Allow, EnvResolver, ResolveError};

fn pairs(list: &[(&str, &str)]) -> Vec<(String, String)> {
    list.iter().map(|(k, v)| (k.to_string(), v.to_string())).collect()
}

fn lookup<'a>(result: &'a [(String, String)], key: &str) -> Option<&'a str> {
    result.iter().find(|(k, _)| k == key).map(|(_, v)| v.as_str())
}

#[test]
fn no_env_values_returns_empty() {
    let resolver = EnvResolver::new(Allow::All, false);
    let m = pairs(&[("build", "gpt-4"), ("code-variant", "fast")]);
    let result = resolver.resolve(&m, &pairs(&[])).expect("resolve");
    assert!(result.is_empty());
}

#[test]
fn allow_all_captures_present_var() {
    let resolver = EnvResolver::new(Allow::All, false);
    let m = pairs(&[("apiKey", "env:OCFG_TEST_A")]);
    let result = resolver.resolve(&m, &pairs(&[("OCFG_TEST_A", "hello")])).expect("resolve");
    assert_eq!(lookup(&result, "apiKey").unwrap(), "hello");
}

#[test]
fn missing_var_non_strict_skipped() {
    let resolver = EnvResolver::new(Allow::All, false);
    let m = pairs(&[("apiKey", "env:OCFG_TEST_MISSING")]);
    let result = resolver.resolve(&m, &pairs(&[])).expect("resolve");
    assert!(result.is_empty());
}

#[test]
fn missing_var_strict_returns_error() {
    let resolver = EnvResolver::new(Allow::All, true);
    let m = pairs(&[("apiKey", "env:OCFG_TEST_STRICT")]);
    let err = resolver.resolve(&m, &pairs(&[])).unwrap_err();
    assert!(
        matches!(err, ResolveError::MissingEnvVar { ref var } if var == "OCFG_TEST_STRICT"),
        "expected MissingEnvVar, got {err:?}",
    );
}

#[test]
fn partial_capture_only_present_inserted() {
    let resolver = EnvResolver::new(Allow::All, false);
    let m = pairs(&[("key_a", "env:OCFG_TEST_PRESENT"), ("key_b", "env:OCFG_TEST_ABSENT")]);
    let result = resolver.resolve(&m, &pairs(&[("OCFG_TEST_PRESENT", "found")])).expect("resolve");
    assert_eq!(result.len(), 1);
    assert_eq!(lookup(&result, "key_a").unwrap(), "found");
    assert!(lookup(&result, "key_b").is_none());
}

#[test]
fn allow_none_rejects_all() {
    let resolver = EnvResolver::new(Allow::Nothing, false);
    let m = pairs(&[("apiKey", "env:OCFG_TEST_NONE")]);
    let result = resolver.resolve(&m, &pairs(&[("OCFG_TEST_NONE", "should_not_appear")])).expect("resolve");
    assert!(result.is_empty(), "Allow::Nothing must produce empty result");
}

#[test]
fn allow_list_permits_whitelisted() {
    let resolver = EnvResolver::new(Allow::List(vec!["OCFG_TEST_LISTED".to_string()]), false);
    let m = pairs(&[("key", "env:OCFG_TEST_LISTED")]);
    let result = resolver.resolve(&m, &pairs(&[("OCFG_TEST_LISTED", "permitted_value")])).expect("resolve");
    assert_eq!(lookup(&result, "key").unwrap(), "permitted_value");
}

#[test]
fn allow_list_rejects_unlisted() {
    let resolver = EnvResolver::new(Allow::List(vec!["SOME_OTHER_VAR".to_string()]), false);
    let m = pairs(&[("key", "env:OCFG_TEST_UNLISTED")]);
    let result = resolver.resolve(&m, &pairs(&[("OCFG_TEST_UNLISTED", "secret")])).expect("resolve");
    assert!(result.is_empty(), "unlisted variable must be excluded from result");
}

#[test]
fn allow_list_mixed_entries() {
    let resolver = EnvResolver::new(Allow::List(vec!["OCFG_TEST_ALLOW_A".to_string()]), false);
    let m = pairs(&[("a", "env:OCFG_TEST_ALLOW_A"), ("b", "env:OCFG_TEST_ALLOW_B")]);
    let env = pairs(&[("OCFG_TEST_ALLOW_A", "val_a"), ("OCFG_TEST_ALLOW_B", "val_b")]);
    let result = resolver.resolve(&m, &env).expect("resolve");
    assert_eq!(result.len(), 1);
    assert_eq!(lookup(&result, "a").unwrap(), "val_a");
    assert!(lookup(&result, "b").is_none());
}
