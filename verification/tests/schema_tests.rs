use opencode_config::json::{JsonMap, JsonValue};
use opencode_config::schema::{build_schema, validate_against_schema, schema_for_palette, SchemaError};
use opencode_config::config::{AgentConfig, ModelConfigs, Palette};
use opencode_config::keyed::KeyedMap;

fn from_serde(v: serde_json::Value) -> JsonValue {
    match v {
        serde_json::Value::Null => JsonValue::Null,
        serde_json::Value::Bool(b) => JsonValue::Bool(b),
        serde_json::Value::Number(n) => JsonValue::Number(n.to_string()),
        serde_json::Value::String(s) => JsonValue::String(s),
        serde_json::Value::Array(a) => JsonValue::Array(a.into_iter().map(from_serde).collect()),
        serde_json::Value::Object(m) => {
            let mut map = JsonMap::new();
            for (k, v) in m {
                map.insert(k, from_serde(v));
            }
            JsonValue::Object(map)
        }
    }
}

fn to_serde(v: &JsonValue) -> serde_json::Value {
    match v {
        JsonValue::Null => serde_json::Value::Null,
        JsonValue::Bool(b) => serde_json::Value::Bool(*b),
        JsonValue::Number(n) => serde_json::from_str(n).unwrap(),
        JsonValue::String(s) => serde_json::Value::String(s.clone()),
        JsonValue::Array(a) => serde_json::Value::Array(a.iter().map(to_serde).collect()),
        JsonValue::Object(m) => {
            let mut out = serde_json::Map::new();
            for (k, v) in &m.entries {
                out.insert(k.clone(), to_serde(v));
            }
            serde_json::Value::Object(out)
        }
    }
}

fn j(text: &str) -> JsonValue {
    from_serde(serde_json::from_str(text).unwrap())
}

fn map_of(pairs: Vec<(&str, JsonValue)>) -> JsonMap {
    let mut m = JsonMap::new();
    for (k, v) in pairs {
        m.insert(k.to_string(), v);
    }
    m
}

#[test]
fn valid_document_passes() {
    let schema = j(r#"{"type": "object", "properties": {"name": {"type": "string"}}}"#);
    let findings = validate_against_schema(&schema, &j(r#"{"name": "ok"}"#)).expect("schema should compile");
    assert!(findings.is_empty(), "expected no findings for valid doc");
}

#[test]
fn invalid_type_produces_finding() {
    let schema = j(r#"{"type": "object", "properties": {"model": {"type": "string"}}}"#);
    let findings = validate_against_schema(&schema, &j(r#"{"model": 42}"#)).expect("schema should compile");
    assert!(!findings.is_empty(), "expected at least one finding");
    assert_eq!(findings[0].instance_path, "/model");
    assert!(findings[0].message.contains("string"), "message should mention 'string', got: {}", findings[0].message);
}

#[test]
fn missing_required_field_produces_finding() {
    let schema = j(r#"{"type": "object", "properties": {"name": {"type": "string"}}, "required": ["name"]}"#);
    let findings = validate_against_schema(&schema, &j("{}")).expect("schema should compile");
    assert!(!findings.is_empty(), "expected at least one finding");
    assert!(findings.iter().any(|f| f.message.contains("required")), "expected a finding mentioning 'required', got: {:?}", findings);
}

#[test]
fn malformed_schema_returns_error() {
    let result = validate_against_schema(&j(r#"{"type": "not-a-real-type"}"#), &j("{}"));
    assert!(result.is_err(), "expected Err for malformed schema");
    let err = result.unwrap_err();
    assert!(matches!(err, SchemaError::InvalidSchema { .. }), "expected InvalidSchema variant, got: {err:?}");
}

#[test]
fn multiple_violations_return_multiple_findings() {
    let schema = j(r#"{"type": "object", "properties": {"first": {"type": "string"}, "second": {"type": "string"}}}"#);
    let findings = validate_against_schema(&schema, &j(r#"{"first": 1, "second": 2}"#)).expect("schema should compile");
    assert!(findings.len() >= 2, "expected at least 2 findings, got {}", findings.len());
}

fn one_agent_configs() -> ModelConfigs {
    let mut agents = KeyedMap::new();
    agents.insert("build".to_string(), AgentConfig { model: "openrouter/openai/gpt-4o".to_string(), variant: None, reasoning: None });
    let mut palettes = KeyedMap::new();
    palettes.insert("default".to_string(), Palette { agents, mapping: JsonMap::new() });
    ModelConfigs { palettes }
}

#[test]
fn generate_schema_writes_file() {
    let configs = one_agent_configs();
    let name = "default".to_string();
    let (file, schema) = schema_for_palette(Some(&name), &configs).expect("generate schema");
    assert_eq!(file, "opencode.default.schema.json");
    let value = to_serde(&schema);
    assert_eq!(value["properties"]["agent"]["properties"]["build"]["properties"]["model"]["type"], "string");
}

#[test]
fn schema_of_palette_accepts_rendered_agents_and_rejects_numbers() {
    let configs = one_agent_configs();
    let schema = build_schema(&configs.palettes.entries[0].1);
    let ok = validate_against_schema(&schema, &j(r#"{"agent": {"build": {"model": "m", "extra": 1}}}"#)).unwrap();
    assert!(ok.is_empty());
    let bad = validate_against_schema(&schema, &j(r#"{"agent": {"build": {"model": 5}}}"#)).unwrap();
    assert_eq!(bad.len(), 1);
    assert_eq!(bad[0].instance_path, "/agent/build/model");
}

#[test]
fn schema_for_missing_palette_is_an_error() {
    let configs = one_agent_configs();
    let name = "nope".to_string();
    assert!(matches!(schema_for_palette(Some(&name), &configs), Err(SchemaError::MissingPalette { ref name }) if name == "nope"));
    assert!(matches!(schema_for_palette(None, &configs), Err(SchemaError::MissingPaletteName)));
}
