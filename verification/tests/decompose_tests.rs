use opencode_config::decompose::{validate_agent_name, plan_decompose, DecomposeOptions, split_into_fragments, check_template_name, check_target, verify_roundtrip, preview_text, DecomposeError};
use opencode_config::json::{JsonMap, JsonValue};
use opencode_config::template::{deep_merge, sort_by_name, TemplateError, TemplateProbe};
use opencode_config::validate::{load_dir, FragmentFile};

fn from_serde(v: serde_json::Value) -> JsonValue {
    match v {
        serde_json::Value::Null => JsonValue::Null,
        serde_json::Value::Bool(b) => JsonValue::Bool(b),
        serde_json::Value::Number(n) => JsonValue::Number(n.to_string()),
        serde_json::Value::String(s) => JsonValue::String(s),
        serde_json::Value::Array(a) => JsonValue::Array(a.into_iter().map(from_serde).collect()),
        serde_json::Value::Object(m) => {
            let mut map = JsonMap::new();
            for (k, v) in m {
                map.insert(k, from_serde(v));
            }
            JsonValue::Object(map)
        }
    }
}

fn to_serde(v: &JsonValue) -> serde_json::Value {
    match v {
        JsonValue::Null => serde_json::Value::Null,
        JsonValue::Bool(b) => serde_json::Value::Bool(*b),
        JsonValue::Number(n) => serde_json::from_str(n).unwrap(),
        JsonValue::String(s) => serde_json::Value::String(s.clone()),
        JsonValue::Array(a) => serde_json::Value::Array(a.iter().map(to_serde).collect()),
        JsonValue::Object(m) => {
            let mut out = serde_json::Map::new();
            for (k, v) in &m.entries {
                out.insert(k.clone(), to_serde(v));
            }
            serde_json::Value::Object(out)
        }
    }
}

fn j(text: &str) -> JsonValue {
    from_serde(serde_json::from_str(text).unwrap())
}

fn map_of(pairs: Vec<(&str, JsonValue)>) -> JsonMap {
    let mut m = JsonMap::new();
    for (k, v) in pairs {
        m.insert(k.to_string(), v);
    }
    m
}

fn sample_template() -> JsonValue {
    j(r#"{"$schema": "https://example.com/schema.json", "default_agent": "coder", "agent": {"build": {"model": "gpt-4", "variant": "mini"}, "review": {"model": "gpt-5"}}}"#)
}

fn empty_obj() -> serde_json::Value {
    serde_json::Value::Object(serde_json::Map::new())
}

#[test]
fn split_extracts_agents() {
    let fragments = split_into_fragments("default", &sample_template()).unwrap();
    assert_eq!(fragments.len(), 3);
    assert_eq!(fragments[0].filename, "_default.json");
    assert_eq!(fragments[1].filename, "build.json");
    assert_eq!(fragments[2].filename, "review.json");
}

#[test]
fn split_preserves_global_keys() {
    let fragments = split_into_fragments("default", &sample_template()).unwrap();
    let global = to_serde(&fragments[0].value);
    assert!(global.get("$schema").is_some());
    assert!(global.get("default_agent").is_some());
    assert_eq!(global["agent"], empty_obj());
}

#[test]
fn split_agent_fragments_structure() {
    let fragments = split_into_fragments("default", &sample_template()).unwrap();
    let build = to_serde(&fragments[1].value);
    assert_eq!(build["agent"]["build"]["model"], "gpt-4");
    assert_eq!(build["agent"]["build"]["variant"], "mini");
    assert_eq!(build.as_object().unwrap().len(), 1);
}

#[test]
fn split_roundtrip_equality() {
    let template = sample_template();
    let fragments = split_into_fragments("default", &template).unwrap();
    let mut merged = fragments[0].value.deep_clone();
    for frag in &fragments[1..] {
        deep_merge(&mut merged, &frag.value);
    }
    assert_eq!(to_serde(&merged), to_serde(&template));
}

#[test]
fn global_fragment_sorts_first() {
    let template = j(r#"{"agent": {"aaa": {"model": "m1"}, "zzz": {"model": "m2"}}}"#);
    let fragments = split_into_fragments("mytemplate", &template).unwrap();
    let filenames: Vec<&str> = fragments.iter().map(|f| f.filename.as_str()).collect();
    let mut sorted = filenames.clone();
    sorted.sort();
    assert_eq!(filenames, sorted, "fragments should already be in sorted order");
    assert!(filenames[0].starts_with('_'), "global fragment should start with underscore");
}

#[test]
fn reject_no_agent_key() {
    match split_into_fragments("default", &j(r#"{"$schema": "x", "default_agent": "y"}"#)) {
        Err(DecomposeError::NoAgentKey) => {}
        other => panic!("expected NoAgentKey, got: {:?}", other.map(|v| v.len())),
    }
}

#[test]
fn reject_unsafe_agent_name_path_traversal() {
    match split_into_fragments("default", &j(r#"{"agent": {"../etc/passwd": {"model": "x"}}}"#)) {
        Err(DecomposeError::InvalidAgentName(name)) => assert_eq!(name, "../etc/passwd"),
        other => panic!("expected InvalidAgentName, got: {:?}", other.map(|v| v.len())),
    }
}

#[test]
fn reject_unsafe_agent_name_slash() {
    assert!(matches!(split_into_fragments("default", &j(r#"{"agent": {"foo/bar": {"model": "x"}}}"#)), Err(DecomposeError::InvalidAgentName(_))));
}

#[test]
fn reject_unsafe_agent_name_backslash() {
    assert!(matches!(split_into_fragments("default", &j(r#"{"agent": {"foo\\bar": {"model": "x"}}}"#)), Err(DecomposeError::InvalidAgentName(_))));
}

#[test]
fn reject_unsafe_agent_name_empty() {
    assert!(matches!(split_into_fragments("default", &j(r#"{"agent": {"": {"model": "x"}}}"#)), Err(DecomposeError::InvalidAgentName(_))));
}

#[test]
fn reject_unsafe_agent_name_dotdot() {
    assert!(matches!(split_into_fragments("default", &j(r#"{"agent": {"..": {"model": "x"}}}"#)), Err(DecomposeError::InvalidAgentName(_))));
}

#[test]
fn reject_unsafe_agent_name_leading_dot() {
    assert!(matches!(split_into_fragments("default", &j(r#"{"agent": {".hidden": {"model": "x"}}}"#)), Err(DecomposeError::InvalidAgentName(_))));
}

#[test]
fn reject_unsafe_agent_name_control_char() {
    assert!(matches!(split_into_fragments("default", &j("{\"agent\": {\"foo\\u0000bar\": {\"model\": \"x\"}}}")), Err(DecomposeError::InvalidAgentName(_))));
}

#[test]
fn accept_valid_agent_names() {
    let template = j(r#"{"agent": {"build": {"model": "x"}, "code-review": {"model": "y"}, "agent_v2": {"model": "z"}, "Agent3.0": {"model": "w"}}}"#);
    assert!(split_into_fragments("default", &template).is_ok(), "valid agent names should be accepted");
}

#[test]
fn run_rejects_traversal_template_name() {
    match check_template_name("../evil") {
        Err(DecomposeError::InvalidTemplateName(name)) => assert_eq!(name, "../evil"),
        other => panic!("expected InvalidTemplateName, got: {other:?}"),
    }
}

#[test]
fn run_rejects_slash_template_name() {
    assert!(matches!(check_template_name("a/b"), Err(DecomposeError::InvalidTemplateName(_))));
}

#[test]
fn run_rejects_empty_template_name() {
    assert!(matches!(check_template_name(""), Err(DecomposeError::InvalidTemplateName(_))));
}

#[test]
fn preview_rejects_traversal_template_name() {
    match check_template_name("../evil") {
        Err(DecomposeError::InvalidTemplateName(name)) => assert_eq!(name, "../evil"),
        other => panic!("expected InvalidTemplateName, got: {other:?}"),
    }
}

#[test]
fn preview_rejects_extension_template_name() {
    assert!(matches!(check_template_name("default.json"), Err(DecomposeError::InvalidTemplateName(_))));
}

#[test]
fn verify_mismatch_detected() {
    let original = sample_template();
    let mut reassembled = j(r#"{"$schema": "https://example.com/schema.json", "default_agent": "WRONG", "agent": {}}"#);
    deep_merge(&mut reassembled, &j(r#"{"agent": {"build": {"model": "gpt-4", "variant": "mini"}}}"#));
    deep_merge(&mut reassembled, &j(r#"{"agent": {"review": {"model": "gpt-5"}}}"#));
    match verify_roundtrip(&original, &reassembled) {
        Err(DecomposeError::RoundtripMismatch) => {}
        other => panic!("expected RoundtripMismatch, got: {other:?}"),
    }
}

#[test]
fn dry_run_lists_fragments_no_side_effects() {
    let fragments = split_into_fragments("default", &sample_template()).unwrap();
    let output = preview_text("default", "/cfg/template.d/default.json", "/cfg/template.d/default.d", &fragments);
    assert!(output.contains("[DRY-RUN]"));
    assert!(output.contains("default"));
    assert!(output.contains("_default.json"));
    assert!(output.contains("build.json"));
    assert!(output.contains("review.json"));
    assert!(output.contains("1 global + 2 agents"));
}

#[test]
fn target_exists_without_force_is_refused() {
    match check_target("/cfg/template.d/default.d", true, false) {
        Err(DecomposeError::TargetExists { path }) => assert!(path.ends_with("default.d")),
        other => panic!("expected TargetExists, got: {other:?}"),
    }
    assert!(check_target("/cfg/template.d/default.d", true, true).is_ok());
    assert!(check_target("/cfg/template.d/default.d", false, false).is_ok());
}

#[test]
fn verify_accepts_reassembled_split() {
    let original = sample_template();
    let fragments = split_into_fragments("default", &original).unwrap();
    let mut merged = fragments[0].value.deep_clone();
    for frag in &fragments[1..] {
        deep_merge(&mut merged, &frag.value);
    }
    assert!(verify_roundtrip(&original, &merged).is_ok());
}

#[test]
fn fragments_loaded_in_name_order_give_back_template() {
    // "Build.json" sorts before "_default.json", which sorts before "review.json".
    let original = j(r#"{"theme": "dark", "agent": {"Build": {"model": "m1"}, "review": {"model": "m2", "variant": "v"}}, "x": [1, 2]}"#);
    let fragments = split_into_fragments("default", &original).unwrap();
    let named: Vec<(String, Result<JsonValue, String>)> = fragments.into_iter().map(|f| (f.filename, Ok(f.value))).collect();
    let files: Vec<FragmentFile> = sort_by_name(named).into_iter().map(|(name, loaded)| FragmentFile { name, loaded }).collect();
    assert_eq!(files[0].name, "Build.json");
    assert_eq!(files[1].name, "_default.json");
    let loaded = load_dir("default.d", &Ok(files)).unwrap();
    assert_eq!(to_serde(&loaded), to_serde(&original));
}

fn decompose_options(dry_run: bool, force: bool) -> DecomposeOptions {
    DecomposeOptions { template: "default".to_string(), config_dir: "/cfg".to_string(), dry_run, verify: false, force }
}

fn probe(json_file: bool, dir_exists: bool, dir_template_files: usize) -> TemplateProbe {
    TemplateProbe { json_file, yaml_file: false, yml_file: false, dir_exists, dir_template_files }
}

#[test]
fn reject_directory_template() {
    let result = plan_decompose(&decompose_options(false, false), &probe(false, true, 1), Ok(JsonValue::Null), false);
    match result {
        Err(DecomposeError::NotASingleFile { name }) => assert_eq!(name, "default"),
        Err(other) => panic!("expected NotASingleFile, got: {other:?}"),
        Ok(_) => panic!("expected NotASingleFile"),
    }
}

#[test]
fn target_exists_error_without_force() {
    let result = plan_decompose(&decompose_options(false, false), &probe(true, false, 0), Ok(sample_template()), true);
    match result {
        Err(DecomposeError::TargetExists { path }) => assert!(path.ends_with("default.d")),
        Err(other) => panic!("expected TargetExists, got: {other:?}"),
        Ok(_) => panic!("expected TargetExists"),
    }
}

#[test]
fn preview_returns_target_exists_without_force() {
    let result = plan_decompose(&decompose_options(true, false), &probe(true, false, 0), Ok(sample_template()), true);
    assert!(matches!(result, Err(DecomposeError::TargetExists { .. })));
}

#[test]
fn plan_with_force_replaces_existing_target() {
    let plan = plan_decompose(&decompose_options(false, true), &probe(true, false, 0), Ok(sample_template()), true)
        .expect("force allows an existing target");
    assert_eq!(plan.file_path, "/cfg/template.d/default.json");
    assert_eq!(plan.target_dir, "/cfg/template.d/default.d");
    let names: Vec<&str> = plan.fragments.iter().map(|f| f.filename.as_str()).collect();
    assert!(names.contains(&"_default.json"));
    assert!(names.contains(&"build.json"));
    assert_eq!(to_serde(&plan.original), to_serde(&sample_template()));
}

#[test]
fn plan_reports_load_error_before_splitting() {
    let err = TemplateError::UnsupportedExtension { path: "/cfg/template.d/default.yml".to_string(), extension: "yml".to_string() };
    let result = plan_decompose(&decompose_options(false, false), &probe(false, false, 0), Err(err), false);
    assert!(matches!(result, Err(DecomposeError::Template(_))));
}

#[test]
fn agent_names_with_double_dots_are_refused() {
    for name in ["a..b", "x..", "a...b"] {
        match validate_agent_name(name) {
            Err(DecomposeError::InvalidAgentName(n)) => assert_eq!(n, name),
            other => panic!("expected InvalidAgentName for {name}, got: {other:?}"),
        }
    }
    for name in ["a.b", "build-1", "A_b.c"] {
        assert!(validate_agent_name(name).is_ok(), "{name} should be accepted");
    }
    assert!(matches!(split_into_fragments("default", &j(r#"{"agent": {"a..b": {"model": "x"}}}"#)), Err(DecomposeError::InvalidAgentName(_))));
}
