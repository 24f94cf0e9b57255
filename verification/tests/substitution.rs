use opencode_config::json::{JsonMap, JsonValue};
use opencode_config::substitute::{substitute, substitute_with_env, SubstituteError};

fn from_serde(v: serde_json::Value) -> JsonValue {
    match v {
        serde_json::Value::Null => JsonValue::Null,
        serde_json::Value::Bool(b) => JsonValue::Bool(b),
        serde_json::Value::Number(n) => JsonValue::Number(n.to_string()),
        serde_json::Value::String(s) => JsonValue::String(s),
        serde_json::Value::Array(a) => JsonValue::Array(a.into_iter().map(from_serde).collect()),
        serde_json::Value::Object(m) => {
            let mut map = JsonMap::new();
            for (k, v) in m {
                map.insert(k, from_serde(v));
            }
            JsonValue::Object(map)
        }
    }
}

fn to_serde(v: &JsonValue) -> serde_json::Value {
    match v {
        JsonValue::Null => serde_json::Value::Null,
        JsonValue::Bool(b) => serde_json::Value::Bool(*b),
        JsonValue::Number(n) => serde_json::from_str(n).unwrap(),
        JsonValue::String(s) => serde_json::Value::String(s.clone()),
        JsonValue::Array(a) => serde_json::Value::Array(a.iter().map(to_serde).collect()),
        JsonValue::Object(m) => {
            let mut out = serde_json::Map::new();
            for (k, v) in &m.entries {
                out.insert(k.clone(), to_serde(v));
            }
            serde_json::Value::Object(out)
        }
    }
}

fn j(text: &str) -> JsonValue {
    from_serde(serde_json::from_str(text).unwrap())
}

fn map_of(pairs: Vec<(&str, JsonValue)>) -> JsonMap {
    let mut m = JsonMap::new();
    for (k, v) in pairs {
        m.insert(k.to_string(), v);
    }
    m
}

fn mapping() -> JsonMap {
    map_of(vec![
        ("build", j("\"openrouter/build\"")),
        ("build-variant", j("\"mini\"")),
        ("count", j("3")),
        ("flag", j("true")),
    ])
}

fn env(pairs: &[(&str, &str)]) -> Vec<(String, String)> {
    pairs.iter().map(|(k, v)| (k.to_string(), v.to_string())).collect()
}

#[test]
fn replaces_placeholders() {
    let mut value = j(r#"{"agent": {"model": "{{build}}", "variant": "{{build-variant}}"}}"#);
    substitute(&mut value, &mapping(), false).expect("substitute");
    let v = to_serde(&value);
    assert_eq!(v["agent"]["model"], "openrouter/build");
    assert_eq!(v["agent"]["variant"], "mini");
}

#[test]
fn missing_variant_removes_key() {
    let mut value = j(r#"{"agent": {"model": "{{build}}", "variant": "{{review-variant}}", "other": "{{review-variant}}"}}"#);
    substitute(&mut value, &mapping(), false).expect("substitute");
    let v = to_serde(&value);
    assert_eq!(v["agent"]["model"], "openrouter/build");
    assert!(!v["agent"].as_object().unwrap().contains_key("variant"));
    assert_eq!(v["agent"]["other"], "{{review-variant}}");
}

#[test]
fn replaces_inside_longer_string() {
    let mut value = j(r#"{"description": "Model {{build}} is ready"}"#);
    substitute(&mut value, &mapping(), false).expect("substitute");
    assert_eq!(to_serde(&value)["description"], "Model openrouter/build is ready");
}

#[test]
fn strict_errors_on_missing() {
    let mut value = j(r#"{"agent": {"model": "{{build}}", "missing": "{{review}}"}}"#);
    let error = substitute(&mut value, &mapping(), true).expect_err("error");
    match error {
        SubstituteError::MissingPlaceholder { key } => assert_eq!(key, "review"),
        SubstituteError::NonStringInStringPlaceholder { .. } => panic!("unexpected non-string error"),
        SubstituteError::Regex { .. } => panic!("unexpected regex error"),
    }
}

#[test]
fn replaces_node_with_non_string_value() {
    let mut value = j(r#"{"count": "{{count}}", "flag": "{{flag}}"}"#);
    substitute(&mut value, &mapping(), false).expect("substitute");
    let v = to_serde(&value);
    assert_eq!(v["count"], serde_json::Value::from(3));
    assert_eq!(v["flag"], serde_json::Value::Bool(true));
}

#[test]
fn strict_errors_on_non_string_in_string() {
    let mut value = j(r#"{"message": "Count is {{count}}"}"#);
    let error = substitute(&mut value, &mapping(), true).expect_err("error");
    match error {
        SubstituteError::NonStringInStringPlaceholder { key } => assert_eq!(key, "count"),
        other => panic!("unexpected error: {other:?}"),
    }
}

#[test]
fn permissive_stringifies_non_string_in_string() {
    let mut value = j(r#"{"message": "Count is {{count}}"}"#);
    substitute(&mut value, &mapping(), false).expect("substitute");
    assert_eq!(to_serde(&value)["message"], "Count is 3");
}

#[test]
fn env_only_placeholder() {
    let mut value = j(r#"{"host": "{{db-host}}"}"#);
    let env_map = env(&[("db-host", "localhost")]);
    substitute_with_env(&mut value, &JsonMap::new(), Some(&env_map), false).expect("substitute");
    assert_eq!(to_serde(&value)["host"], "localhost");
}

#[test]
fn model_config_wins_over_env() {
    let mut value = j(r#"{"model": "{{build}}"}"#);
    let m = map_of(vec![("build", j("\"openrouter/build\""))]);
    let env_map = env(&[("build", "env-override/build")]);
    substitute_with_env(&mut value, &m, Some(&env_map), false).expect("substitute");
    assert_eq!(to_serde(&value)["model"], "openrouter/build");
}

#[test]
fn env_fills_gap() {
    let mut value = j(r#"{"model": "{{build}}", "host": "{{db-host}}"}"#);
    let m = map_of(vec![("build", j("\"openrouter/build\""))]);
    let env_map = env(&[("db-host", "db.example.com")]);
    substitute_with_env(&mut value, &m, Some(&env_map), false).expect("substitute");
    let v = to_serde(&value);
    assert_eq!(v["model"], "openrouter/build");
    assert_eq!(v["host"], "db.example.com");
}

#[test]
fn strict_rejects_missing_env() {
    let mut value = j(r#"{"host": "{{db-host}}"}"#);
    let env_map: Vec<(String, String)> = Vec::new();
    let error = substitute_with_env(&mut value, &JsonMap::new(), Some(&env_map), true).expect_err("should fail");
    match error {
        SubstituteError::MissingPlaceholder { key } => assert_eq!(key, "db-host"),
        other => panic!("unexpected error: {other:?}"),
    }
}

#[test]
fn env_none_fallback() {
    let mut value = j(r#"{"model": "{{build}}", "missing": "{{unknown}}"}"#);
    let m = map_of(vec![("build", j("\"openrouter/build\""))]);
    substitute_with_env(&mut value, &m, None, false).expect("substitute");
    let v = to_serde(&value);
    assert_eq!(v["model"], "openrouter/build");
    assert_eq!(v["missing"], "{{unknown}}");
}

#[test]
fn env_permissive_unresolved_env_left_intact() {
    let mut value = j(r#"{"key": "{{env:SOME_VAR}}"}"#);
    let env_map: Vec<(String, String)> = Vec::new();
    substitute_with_env(&mut value, &JsonMap::new(), Some(&env_map), false).expect("permissive substitute");
    assert_eq!(to_serde(&value)["key"], "{{env:SOME_VAR}}", "unresolved env placeholder should remain in permissive mode");
}

#[test]
fn env_prefix_not_resolved_without_env_mapping() {
    let mut value = j(r#"{"model": "{{build}}", "apiKey": "{{env:MY_VAR}}"}"#);
    substitute(&mut value, &mapping(), false).expect("substitute");
    let v = to_serde(&value);
    assert_eq!(v["model"], "openrouter/build");
    assert_eq!(v["apiKey"], "{{env:MY_VAR}}", "env: placeholder must not be resolved without env mapping");
}

#[test]
fn env_value_is_always_string() {
    let mut value = j(r#"{"port": "{{db-port}}", "flag": "{{db-flag}}"}"#);
    let env_map = env(&[("db-port", "3306"), ("db-flag", "true")]);
    substitute_with_env(&mut value, &JsonMap::new(), Some(&env_map), false).expect("substitute");
    let v = to_serde(&value);
    assert!(v["port"].is_string(), "numeric env value must be String");
    assert_eq!(v["port"], "3306");
    assert!(!v["port"].is_number(), "env value must not become Number");
    assert!(v["flag"].is_string(), "boolean-like env value must be String");
    assert_eq!(v["flag"], "true");
    assert!(!v["flag"].is_boolean(), "env value must not become Bool");
}

#[test]
fn strict_missing_variant_is_an_error() {
    let mut value = j(r#"{"agent": {"variant": "{{review-variant}}"}}"#);
    let before = to_serde(&value);
    let error = substitute(&mut value, &mapping(), true).expect_err("strict");
    match error {
        SubstituteError::MissingPlaceholder { key } => assert_eq!(key, "review-variant"),
        other => panic!("unexpected error: {other:?}"),
    }
    assert_eq!(to_serde(&value), before);
}

#[test]
fn text_without_placeholders_is_unchanged() {
    let mut value = j(r#"{"a": "plain text", "b": [1, "x", null]}"#);
    let before = to_serde(&value);
    substitute(&mut value, &mapping(), true).expect("substitute");
    assert_eq!(to_serde(&value), before);
}

#[test]
fn whole_placeholder_with_blanks_takes_value_type() {
    let mut value = j(r#"{"n": "  {{ count }} "}"#);
    substitute(&mut value, &mapping(), false).expect("substitute");
    assert_eq!(to_serde(&value)["n"], serde_json::Value::from(3));
}
