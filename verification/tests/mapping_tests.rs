use opencode_config::json::{JsonMap, JsonValue};
use opencode_config::mapping::{DefaultMapping, FragmentMapper, FragmentMap, MappingError};
use opencode_config::template::deep_merge;

fn from_serde(v: serde_json::Value) -> JsonValue {
    match v {
        serde_json::Value::Null => JsonValue::Null,
        serde_json::Value::Bool(b) => JsonValue::Bool(b),
        serde_json::Value::Number(n) => JsonValue::Number(n.to_string()),
        serde_json::Value::String(s) => JsonValue::String(s),
        serde_json::Value::Array(a) => JsonValue::Array(a.into_iter().map(from_serde).collect()),
        serde_json::Value::Object(m) => {
            let mut map = JsonMap::new();
            for (k, v) in m {
                map.insert(k, from_serde(v));
            }
            JsonValue::Object(map)
        }
    }
}

fn to_serde(v: &JsonValue) -> serde_json::Value {
    match v {
        JsonValue::Null => serde_json::Value::Null,
        JsonValue::Bool(b) => serde_json::Value::Bool(*b),
        JsonValue::Number(n) => serde_json::from_str(n).unwrap(),
        JsonValue::String(s) => serde_json::Value::String(s.clone()),
        JsonValue::Array(a) => serde_json::Value::Array(a.iter().map(to_serde).collect()),
        JsonValue::Object(m) => {
            let mut out = serde_json::Map::new();
            for (k, v) in &m.entries {
                out.insert(k.clone(), to_serde(v));
            }
            serde_json::Value::Object(out)
        }
    }
}

fn j(text: &str) -> JsonValue {
    from_serde(serde_json::from_str(text).unwrap())
}

fn map_of(pairs: Vec<(&str, JsonValue)>) -> JsonMap {
    let mut m = JsonMap::new();
    for (k, v) in pairs {
        m.insert(k.to_string(), v);
    }
    m
}

fn frag(m: &FragmentMap, name: &str) -> serde_json::Value {
    let value = m.entries.iter().find(|(k, _)| k == name).map(|(_, v)| v).expect("fragment");
    to_serde(value)
}

fn has(m: &FragmentMap, name: &str) -> bool {
    m.entries.iter().any(|(k, _)| k == name)
}

fn fragments(pairs: Vec<(&str, &str)>) -> FragmentMap {
    let mut m = JsonMap::new();
    for (k, v) in pairs {
        m.insert(k.to_string(), j(v));
    }
    m
}

#[test]
fn decompose_simple_template() {
    let template = j(r#"{"systemPrompt": "You are helpful", "theme": "dark", "agent": {"build": {"model": "gpt-4o", "variant": "mini"}, "review": {"model": "gpt-4o"}}}"#);
    let fragments = DefaultMapping.decompose("default", &template).expect("decompose");
    assert_eq!(fragments.entries.len(), 3);
    assert!(has(&fragments, "default.json"));
    assert!(has(&fragments, "build.json"));
    assert!(has(&fragments, "review.json"));
    let global = frag(&fragments, "default.json");
    assert!(global.get("agent").is_none());
    assert_eq!(global["systemPrompt"], "You are helpful");
    assert_eq!(global["theme"], "dark");
    let build = frag(&fragments, "build.json");
    assert_eq!(build["agent"]["build"]["model"], "gpt-4o");
    assert_eq!(build["agent"]["build"]["variant"], "mini");
    let review = frag(&fragments, "review.json");
    assert_eq!(review["agent"]["review"]["model"], "gpt-4o");
}

#[test]
fn decompose_no_agent_key() {
    let template = j(r#"{"systemPrompt": "You are helpful", "theme": "dark"}"#);
    let fragments = DefaultMapping.decompose("default", &template).expect("decompose");
    assert_eq!(fragments.entries.len(), 1);
    assert!(has(&fragments, "default.json"));
    assert_eq!(frag(&fragments, "default.json")["systemPrompt"], "You are helpful");
    assert_eq!(frag(&fragments, "default.json")["theme"], "dark");
}

#[test]
fn decompose_agent_only() {
    let template = j(r#"{"agent": {"build": {"model": "gpt-4o"}}}"#);
    let fragments = DefaultMapping.decompose("default", &template).expect("decompose");
    assert_eq!(fragments.entries.len(), 2);
    assert!(has(&fragments, "default.json"));
    assert_eq!(frag(&fragments, "default.json"), empty_obj());
    assert!(has(&fragments, "build.json"));
    assert_eq!(frag(&fragments, "build.json")["agent"]["build"]["model"], "gpt-4o");
}

fn empty_obj() -> serde_json::Value {
    serde_json::Value::Object(serde_json::Map::new())
}

#[test]
fn decompose_rejects_non_object() {
    for text in ["[1, 2, 3]", "\"hello\"", "42", "null"] {
        let err = DefaultMapping.decompose("default", &j(text)).unwrap_err();
        assert!(matches!(err, MappingError::NotAnObject));
    }
}

#[test]
fn decompose_rejects_non_object_agent() {
    let err = DefaultMapping.decompose("default", &j(r#"{"agent": "not-an-object"}"#)).unwrap_err();
    assert!(matches!(err, MappingError::AgentNotAnObject));
}

#[test]
fn decompose_rejects_invalid_agent_name_slash() {
    let err = DefaultMapping.decompose("default", &j(r#"{"agent": {"foo/bar": {"model": "gpt-4o"}}}"#)).unwrap_err();
    assert!(matches!(err, MappingError::InvalidAgentName { .. }));
}

#[test]
fn decompose_rejects_invalid_agent_name_backslash() {
    let err = DefaultMapping.decompose("default", &j(r#"{"agent": {"foo\\bar": {"model": "gpt-4o"}}}"#)).unwrap_err();
    assert!(matches!(err, MappingError::InvalidAgentName { .. }));
}

#[test]
fn decompose_rejects_invalid_agent_name_dotdot() {
    let err = DefaultMapping.decompose("default", &j(r#"{"agent": {"foo..bar": {"model": "gpt-4o"}}}"#)).unwrap_err();
    assert!(matches!(err, MappingError::InvalidAgentName { .. }));
}

#[test]
fn decompose_rejects_invalid_agent_name_leading_dot() {
    let err = DefaultMapping.decompose("default", &j(r#"{"agent": {".hidden": {"model": "gpt-4o"}}}"#)).unwrap_err();
    assert!(matches!(err, MappingError::InvalidAgentName { .. }));
}

#[test]
fn decompose_rejects_invalid_agent_name_empty() {
    let err = DefaultMapping.decompose("default", &j(r#"{"agent": {"": {"model": "gpt-4o"}}}"#)).unwrap_err();
    assert!(matches!(err, MappingError::InvalidAgentName { .. }));
}

#[test]
fn decompose_detects_collision() {
    let template = j(r#"{"systemPrompt": "You are helpful", "agent": {"build": {"model": "gpt-4o"}}}"#);
    let err = DefaultMapping.decompose("build", &template).unwrap_err();
    assert!(matches!(err, MappingError::FragmentCollision { .. }));
}

#[test]
fn decompose_rejects_non_object_agent_entry() {
    let err = DefaultMapping.decompose("default", &j(r#"{"agent": {"build": "not-an-object"}}"#)).unwrap_err();
    assert!(matches!(err, MappingError::AgentEntryNotAnObject { ref name } if name == "build"));
}

fn merge_in_order(fragments: &FragmentMap) -> JsonValue {
    let mut merged = JsonValue::Object(JsonMap::new());
    for (_, value) in &fragments.entries {
        deep_merge(&mut merged, value);
    }
    merged
}

#[test]
fn round_trip_simple() {
    let original = j(r#"{"systemPrompt": "You are helpful", "agent": {"build": {"model": "gpt-4o"}, "review": {"model": "gpt-5"}}}"#);
    let fragments = DefaultMapping.decompose("default", &original).expect("decompose");
    assert_eq!(to_serde(&merge_in_order(&fragments)), to_serde(&original));
}

#[test]
fn round_trip_complex() {
    let original = j(r#"{
        "systemPrompt": "Complex prompt",
        "theme": "dark",
        "options": {"verbose": true, "level": 3},
        "agent": {
            "build": {"model": "gpt-4o", "variant": "mini", "config": {"maxTokens": 4096, "temperature": 0.7}},
            "review": {"model": "gpt-5", "reasoningEffort": "high"},
            "deploy": {"model": "mistral-4", "nested": {"deep": {"value": true}}}
        }
    }"#);
    let fragments = DefaultMapping.decompose("default", &original).expect("decompose");
    assert_eq!(fragments.entries.len(), 4);
    assert_eq!(to_serde(&merge_in_order(&fragments)), to_serde(&original));
}

#[test]
fn validate_empty_fragments() {
    DefaultMapping.validate(&JsonMap::new()).expect("empty map is valid");
}

#[test]
fn validate_accepts_well_formed_fragments() {
    let f = fragments(vec![
        ("default.json", r#"{"systemPrompt": "test", "theme": "dark"}"#),
        ("build.json", r#"{"agent": {"build": {"model": "gpt-4o"}}}"#),
    ]);
    DefaultMapping.validate(&f).expect("well-formed is valid");
}

#[test]
fn validate_catches_non_object_fragment() {
    let f = fragments(vec![("bad.json", "\"not an object\"")]);
    assert!(matches!(DefaultMapping.validate(&f).unwrap_err(), MappingError::NotAnObject));
}

#[test]
fn validate_catches_malformed_agent_wrapping_not_object() {
    let f = fragments(vec![("bad.json", r#"{"agent": "not-an-object"}"#)]);
    assert!(matches!(DefaultMapping.validate(&f).unwrap_err(), MappingError::AgentNotAnObject));
}

#[test]
fn validate_catches_malformed_agent_wrapping_multiple_entries() {
    let f = fragments(vec![("bad.json", r#"{"agent": {"build": {"model": "a"}, "review": {"model": "b"}}}"#)]);
    assert!(matches!(DefaultMapping.validate(&f).unwrap_err(), MappingError::AgentNotAnObject));
}

#[test]
fn validate_catches_malformed_agent_wrapping_empty() {
    let f = fragments(vec![("bad.json", r#"{"agent": {}}"#)]);
    assert!(matches!(DefaultMapping.validate(&f).unwrap_err(), MappingError::AgentNotAnObject));
}

#[test]
fn validate_catches_invalid_agent_name_in_fragment() {
    let f = fragments(vec![("bad.json", r#"{"agent": {"../evil": {"model": "gpt-4o"}}}"#)]);
    assert!(matches!(DefaultMapping.validate(&f).unwrap_err(), MappingError::InvalidAgentName { .. }));
}

#[test]
fn validate_catches_non_object_agent_entry_in_fragment() {
    let f = fragments(vec![("bad.json", r#"{"agent": {"build": "not-an-object"}}"#)]);
    assert!(matches!(DefaultMapping.validate(&f).unwrap_err(), MappingError::AgentEntryNotAnObject { ref name } if name == "build"));
}

#[test]
fn decompose_empty_object_produces_global_fragment() {
    let fragments = DefaultMapping.decompose("default", &j("{}")).expect("decompose");
    assert_eq!(fragments.entries.len(), 1);
    assert!(has(&fragments, "default.json"));
    assert_eq!(frag(&fragments, "default.json"), empty_obj());
}

#[test]
fn decompose_empty_agent_object_produces_global_fragment() {
    let fragments = DefaultMapping.decompose("default", &j(r#"{"agent": {}}"#)).expect("decompose");
    assert_eq!(fragments.entries.len(), 1);
    assert!(has(&fragments, "default.json"));
    assert_eq!(frag(&fragments, "default.json"), empty_obj());
}

#[test]
fn decompose_rejects_invalid_template_name_traversal() {
    let err = DefaultMapping.decompose("../x", &j(r#"{"key": "value"}"#)).unwrap_err();
    assert!(matches!(err, MappingError::InvalidTemplateName { ref name } if name == "../x"));
}

#[test]
fn decompose_rejects_invalid_template_name_slash() {
    let err = DefaultMapping.decompose("a/b", &j(r#"{"key": "value"}"#)).unwrap_err();
    assert!(matches!(err, MappingError::InvalidTemplateName { ref name } if name == "a/b"));
}

#[test]
fn decompose_rejects_invalid_template_name_empty() {
    let err = DefaultMapping.decompose("", &j(r#"{"key": "value"}"#)).unwrap_err();
    assert!(matches!(err, MappingError::InvalidTemplateName { ref name } if name.is_empty()));
}

#[test]
fn decompose_rejects_invalid_template_name_with_extension() {
    let err = DefaultMapping.decompose("default.json", &j(r#"{"key": "value"}"#)).unwrap_err();
    assert!(matches!(err, MappingError::InvalidTemplateName { ref name } if name == "default.json"));
}

#[test]
fn decomposed_fragments_validate() {
    let original = j(r#"{"theme": "dark", "agent": {"a": {"model": "x"}, "b": {"model": "y"}}}"#);
    let fragments = DefaultMapping.decompose("default", &original).expect("decompose");
    DefaultMapping.validate(&fragments).expect("fragments of a decomposition validate");
}
