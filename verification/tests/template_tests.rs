use opencode_config::config::{AgentConfig, Palette, Reasoning, ReasoningCfg};
use opencode_config::json::{JsonMap, JsonValue};
use opencode_config::keyed::KeyedMap;
use opencode_config::template::{load_template_dir, apply_alias_models, build_mapping, deep_merge, is_template_dir, is_template_extension, list_templates, sort_by_name, resolve_template_source, TemplateDirEntry, TemplateError, TemplateProbe, TemplateSource};
use opencode_config::validate::{load_dir, FragmentFile};

fn from_serde(v: serde_json::Value) -> JsonValue {
    match v {
        serde_json::Value::Null => JsonValue::Null,
        serde_json::Value::Bool(b) => JsonValue::Bool(b),
        serde_json::Value::Number(n) => JsonValue::Number(n.to_string()),
        serde_json::Value::String(s) => JsonValue::String(s),
        serde_json::Value::Array(a) => JsonValue::Array(a.into_iter().map(from_serde).collect()),
        serde_json::Value::Object(m) => {
            let mut map = JsonMap::new();
            for (k, v) in m {
                map.insert(k, from_serde(v));
            }
            JsonValue::Object(map)
        }
    }
}

fn to_serde(v: &JsonValue) -> serde_json::Value {
    match v {
        JsonValue::Null => serde_json::Value::Null,
        JsonValue::Bool(b) => serde_json::Value::Bool(*b),
        JsonValue::Number(n) => serde_json::from_str(n).unwrap(),
        JsonValue::String(s) => serde_json::Value::String(s.clone()),
        JsonValue::Array(a) => serde_json::Value::Array(a.iter().map(to_serde).collect()),
        JsonValue::Object(m) => {
            let mut out = serde_json::Map::new();
            for (k, v) in &m.entries {
                out.insert(k.clone(), to_serde(v));
            }
            serde_json::Value::Object(out)
        }
    }
}

fn j(text: &str) -> JsonValue {
    from_serde(serde_json::from_str(text).unwrap())
}

fn map_of(pairs: Vec<(&str, JsonValue)>) -> JsonMap {
    let mut m = JsonMap::new();
    for (k, v) in pairs {
        m.insert(k.to_string(), v);
    }
    m
}

fn agent(model: &str, variant: Option<&str>, reasoning: Option<Reasoning>) -> AgentConfig {
    AgentConfig { model: model.to_string(), variant: variant.map(|v| v.to_string()), reasoning }
}

fn frag_files(pairs: Vec<(&str, Result<&str, &str>)>) -> Result<Vec<FragmentFile>, String> {
    let named: Vec<(String, Result<JsonValue, String>)> =
        pairs.into_iter().map(|(n, r)| (n.to_string(), r.map(j).map_err(|e| e.to_string()))).collect();
    Ok(sort_by_name(named).into_iter().map(|(name, loaded)| FragmentFile { name, loaded }).collect())
}

#[test]
fn build_mapping_includes_models_and_variants() {
    let mut agents = KeyedMap::new();
    agents.insert("build".to_string(), agent("openrouter/build", Some("mini"), None));
    agents.insert("review".to_string(), agent("openrouter/review", None, None));
    let mut mapping = JsonMap::new();
    mapping.insert("build-config".to_string(), j(r#"{"model": "openrouter/build", "variant": "mini"}"#));
    let palette = Palette { agents, mapping };
    let m = build_mapping(&palette);
    let get = |k: &str| m.get(k).map(to_serde);
    assert_eq!(get("build").unwrap(), to_serde(&j("\"openrouter/build\"")));
    assert_eq!(get("build-variant").unwrap(), to_serde(&j("\"mini\"")));
    assert_eq!(get("build-config").unwrap(), to_serde(&j(r#"{"model": "openrouter/build", "variant": "mini"}"#)));
    assert_eq!(get("agent-build-model").unwrap(), to_serde(&j("\"openrouter/build\"")));
    assert_eq!(get("agent-build-variant").unwrap(), to_serde(&j("\"mini\"")));
    assert_eq!(get("review").unwrap(), to_serde(&j("\"openrouter/review\"")));
    assert!(!m.contains_key("review-variant"));
    assert_eq!(get("agent-review-model").unwrap(), to_serde(&j("\"openrouter/review\"")));
    assert!(!m.contains_key("agent-review-variant"));
}

#[test]
fn apply_alias_models_overwrites_model_variant_and_reasoning() {
    let mut agents = KeyedMap::new();
    agents.insert("build".to_string(), agent("openrouter/build", Some("mini"), Some(Reasoning::Bool(true))));
    agents.insert(
        "review".to_string(),
        agent(
            "openrouter/review",
            None,
            Some(Reasoning::Object(ReasoningCfg { effort: Some("medium".to_string()), text_verbosity: Some("low".to_string()) })),
        ),
    );
    let palette = Palette { agents, mapping: JsonMap::new() };
    let mut value = j(r#"{
        "agent": {
            "build": {"model": "{{ build }}"},
            "review": {"model": "{{review}}", "variant": "existing", "reasoningEffort": "low", "textVerbosity": "high"},
            "other": {"model": "{{missing}}", "variant": "keep"},
            "noop": {"model": "openrouter/noop"}
        }
    }"#);
    apply_alias_models(&mut value, &palette);
    let v = to_serde(&value);
    assert_eq!(v["agent"]["build"]["model"], "openrouter/build");
    assert_eq!(v["agent"]["build"]["variant"], "mini");
    assert_eq!(v["agent"]["build"]["reasoningEffort"], "high");
    assert!(v["agent"]["build"].get("textVerbosity").is_none());
    assert_eq!(v["agent"]["review"]["model"], "openrouter/review");
    assert_eq!(v["agent"]["review"]["variant"], "existing");
    assert_eq!(v["agent"]["review"]["reasoningEffort"], "medium");
    assert_eq!(v["agent"]["review"]["textVerbosity"], "low");
    assert_eq!(v["agent"]["other"]["model"], "{{missing}}");
    assert_eq!(v["agent"]["other"]["variant"], "keep");
    assert_eq!(v["agent"]["noop"]["model"], "openrouter/noop");
}

fn merged(base: &str, overlay: &str) -> serde_json::Value {
    let mut b = j(base);
    deep_merge(&mut b, &j(overlay));
    to_serde(&b)
}

#[test]
fn deep_merge_disjoint_objects() {
    assert_eq!(merged(r#"{"a": 1}"#, r#"{"b": 2}"#), to_serde(&j(r#"{"a": 1, "b": 2}"#)));
}

#[test]
fn deep_merge_nested_recursion() {
    assert_eq!(
        merged(r#"{"agent": {"build": {"model": "gpt-4"}}}"#, r#"{"agent": {"build": {"variant": "mini"}}}"#),
        to_serde(&j(r#"{"agent": {"build": {"model": "gpt-4", "variant": "mini"}}}"#))
    );
}

#[test]
fn deep_merge_scalar_override() {
    assert_eq!(merged(r#"{"a": 1}"#, r#"{"a": 2}"#), to_serde(&j(r#"{"a": 2}"#)));
}

#[test]
fn deep_merge_array_replacement() {
    assert_eq!(merged(r#"{"a": [1, 2]}"#, r#"{"a": [3]}"#), to_serde(&j(r#"{"a": [3]}"#)));
}

#[test]
fn deep_merge_null_overlay() {
    assert_eq!(merged(r#"{"a": 1}"#, r#"{"a": null}"#), to_serde(&j(r#"{"a": null}"#)));
}

#[test]
fn deep_merge_type_mismatch_overlay_wins() {
    assert_eq!(merged(r#"{"a": {"b": 1}}"#, r#"{"a": "string"}"#), to_serde(&j(r#"{"a": "string"}"#)));
}

#[test]
fn deep_merge_empty_overlay_noop() {
    assert_eq!(merged(r#"{"a": 1}"#, "{}"), to_serde(&j(r#"{"a": 1}"#)));
}

#[test]
fn deep_merge_deeply_nested() {
    let v = merged(r#"{"l1": {"l2": {"l3": {"l4": {"l5": "original"}}}}}"#, r#"{"l1": {"l2": {"l3": {"l4": {"l5": "replaced"}}}}}"#);
    assert_eq!(v["l1"]["l2"]["l3"]["l4"]["l5"], "replaced");
}

#[test]
fn deep_merge_is_idempotent() {
    let text = r#"{"a": {"b": [1, 2], "c": null}, "d": "x"}"#;
    assert_eq!(merged(text, text), to_serde(&j(text)));
}

#[test]
fn load_template_dir_ordering() {
    let frags = frag_files(vec![("b.json", Ok(r#"{"key": "b"}"#)), ("a.json", Ok(r#"{"key": "a"}"#))]);
    let result = load_dir("/t/dir", &frags).expect("load dir");
    assert_eq!(to_serde(&result)["key"], "b");
}

#[test]
fn load_template_dir_empty_error() {
    let err = load_dir("/t/dir", &Ok(Vec::new())).unwrap_err();
    assert_eq!(err, "template directory is empty: /t/dir");
}

#[test]
fn load_template_dir_ignores_non_templates() {
    // Only files with a template extension are handed over, so README.md and
    // .gitkeep leave the directory without fragments.
    for name in ["README.md", ".gitkeep"] {
        assert!(!is_template_extension(name));
    }
    let err = load_dir("/t/dir", &Ok(Vec::new())).unwrap_err();
    assert!(err.starts_with("template directory is empty"));
}

#[test]
fn load_template_dir_three_fragments() {
    let frags = frag_files(vec![
        ("01-base.json", Ok(r#"{"agent": {"build": {"model": "gpt-4"}}, "extra": "keep"}"#)),
        ("02-override.json", Ok(r#"{"agent": {"build": {"variant": "mini"}}}"#)),
        ("03-final.json", Ok(r#"{"agent": {"build": {"model": "gpt-5"}}}"#)),
    ]);
    let v = to_serde(&load_dir("/t/dir", &frags).expect("load dir"));
    assert_eq!(v["agent"]["build"]["model"], "gpt-5");
    assert_eq!(v["agent"]["build"]["variant"], "mini");
    assert_eq!(v["extra"], "keep");
}

#[test]
fn load_template_dir_mixed_extensions() {
    let frags = frag_files(vec![
        ("01-base.json", Ok(r#"{"agent": {"build": {"model": "gpt-4"}}}"#)),
        ("02-override.yaml", Ok(r#"{"agent": {"build": {"variant": "mini"}}}"#)),
    ]);
    let v = to_serde(&load_dir("/t/dir", &frags).expect("load dir"));
    assert_eq!(v["agent"]["build"]["model"], "gpt-4");
    assert_eq!(v["agent"]["build"]["variant"], "mini");
}

#[test]
fn load_template_dir_global_plus_named_fragments() {
    let frags = frag_files(vec![
        ("_global.json", Ok(r#"{"agent": {"build": {"model": "gpt-4"}}, "theme": "dark"}"#)),
        ("review.json", Ok(r#"{"agent": {"review": {"model": "gpt-5"}}}"#)),
    ]);
    let v = to_serde(&load_dir("/t/dir", &frags).expect("load dir"));
    assert_eq!(v["agent"]["build"]["model"], "gpt-4");
    assert_eq!(v["agent"]["review"]["model"], "gpt-5");
    assert_eq!(v["theme"], "dark");
}

#[test]
fn load_template_dir_first_error_wins() {
    let frags = frag_files(vec![("a.json", Ok("{}")), ("b.json", Err("failed to parse template at b.json")), ("c.json", Err("other"))]);
    assert_eq!(load_dir("/t/dir", &frags).unwrap_err(), "failed to parse template at b.json");
    assert_eq!(load_dir("/t/dir", &Err("denied".to_string())).unwrap_err(), "failed to read template at /t/dir");
}

#[test]
fn is_template_dir_true_for_dir_with_fragment() {
    assert!(is_template_dir(true, 1));
}

#[test]
fn is_template_dir_false_for_file() {
    assert!(!is_template_dir(false, 0));
}

#[test]
fn is_template_dir_false_for_empty_dir() {
    assert!(!is_template_dir(true, 0));
}

fn entry(name: &str, is_dir: bool, template_files: usize) -> TemplateDirEntry {
    TemplateDirEntry { name: name.to_string(), is_dir, template_files }
}

#[test]
fn list_templates_filters_supported_extensions() {
    let entries = vec![
        entry("default.json", false, 0),
        entry("alt.yaml", false, 0),
        entry("other.yml", false, 0),
        entry("ignored.txt", false, 0),
        entry("another.toml", false, 0),
    ];
    assert_eq!(list_templates(&entries), vec!["alt", "default", "other"]);
}

#[test]
fn list_templates_includes_dirs() {
    let entries = vec![entry("alpha.json", false, 0), entry("beta.d", true, 1)];
    assert_eq!(list_templates(&entries), vec!["alpha", "beta"]);
}

#[test]
fn list_templates_skips_empty_dirs() {
    let entries = vec![entry("alpha.json", false, 0), entry("empty.d", true, 0)];
    assert_eq!(list_templates(&entries), vec!["alpha"]);
}

#[test]
fn sort_by_name_orders_files_by_code_point() {
    let items = vec![
        ("b.json".to_string(), 1),
        ("_global.json".to_string(), 2),
        ("Build.json".to_string(), 3),
        ("a.json".to_string(), 4),
        ("10-x.json".to_string(), 5),
    ];
    let sorted = sort_by_name(items);
    let names: Vec<&str> = sorted.iter().map(|(n, _)| n.as_str()).collect();
    assert_eq!(names, vec!["10-x.json", "Build.json", "_global.json", "a.json", "b.json"]);
    assert_eq!(sorted.iter().map(|(_, v)| *v).collect::<Vec<_>>(), vec![5, 3, 2, 4, 1]);
}

#[test]
fn sort_by_name_keeps_equal_names_in_order() {
    let items = vec![("x".to_string(), 1), ("a".to_string(), 2), ("x".to_string(), 3)];
    let sorted = sort_by_name(items);
    assert_eq!(sorted, vec![("a".to_string(), 2), ("x".to_string(), 1), ("x".to_string(), 3)]);
}

fn name_probe(json_file: bool, yaml_file: bool, dir_exists: bool, dir_template_files: usize) -> TemplateProbe {
    TemplateProbe { json_file, yaml_file, yml_file: false, dir_exists, dir_template_files }
}

#[test]
fn resolve_file_only() {
    let result = resolve_template_source("/cfg", "foo", &name_probe(true, false, false, 0)).expect("resolve");
    assert_eq!(result, TemplateSource::File("/cfg/template.d/foo.json".to_string()));
}

#[test]
fn resolve_dir_only() {
    let result = resolve_template_source("/cfg", "foo", &name_probe(false, false, true, 1)).expect("resolve");
    assert_eq!(result, TemplateSource::Directory("/cfg/template.d/foo.d".to_string()));
}

#[test]
fn resolve_ambiguous_error() {
    match resolve_template_source("/cfg", "foo", &name_probe(true, false, true, 1)) {
        Err(TemplateError::AmbiguousTemplate { name, file_path, dir_path }) => {
            assert_eq!(name, "foo");
            assert!(file_path.ends_with("foo.json"));
            assert!(dir_path.ends_with("foo.d"));
        }
        other => panic!("expected AmbiguousTemplate, got: {other:?}"),
    }
}

#[test]
fn resolve_empty_dir_error() {
    match resolve_template_source("/cfg", "foo", &name_probe(false, false, true, 0)) {
        Err(TemplateError::EmptyTemplateDir { path }) => assert!(path.ends_with("foo.d")),
        other => panic!("expected EmptyTemplateDir, got: {other:?}"),
    }
}

#[test]
fn resolve_neither_fallback() {
    let result = resolve_template_source("/cfg", "foo", &name_probe(false, false, false, 0)).expect("resolve");
    assert_eq!(result, TemplateSource::File("/cfg/template.d/foo.yml".to_string()));
}

#[test]
fn resolve_ambiguous_yaml() {
    match resolve_template_source("/cfg", "foo", &name_probe(false, true, true, 1)) {
        Err(TemplateError::AmbiguousTemplate { name, file_path, .. }) => {
            assert_eq!(name, "foo");
            assert!(file_path.ends_with("foo.yaml"));
        }
        other => panic!("expected AmbiguousTemplate, got: {other:?}"),
    }
}

#[test]
fn resolve_file_priority_json_over_yaml() {
    let result = resolve_template_source("/cfg", "foo", &name_probe(true, true, false, 0)).expect("resolve");
    assert_eq!(result, TemplateSource::File("/cfg/template.d/foo.json".to_string()));
}

#[test]
fn resolve_dir_no_templates() {
    // A directory holding only non-template files counts no template file.
    match resolve_template_source("/cfg", "foo", &name_probe(false, false, true, 0)) {
        Err(TemplateError::EmptyTemplateDir { path }) => assert!(path.ends_with("foo.d")),
        other => panic!("expected EmptyTemplateDir, got: {other:?}"),
    }
}

#[test]
fn template_dir_fragments_merge_in_order() {
    let loaded = vec![Ok(j(r#"{"a": 1, "o": {"x": 1}}"#)), Ok(j(r#"{"o": {"y": 2}, "b": [1]}"#)), Ok(j(r#"{"a": 3}"#))];
    let merged = load_template_dir("/cfg/template.d/t.d", loaded).unwrap();
    assert_eq!(to_serde(&merged), to_serde(&j(r#"{"a": 3, "o": {"x": 1, "y": 2}, "b": [1]}"#)));
}

#[test]
fn template_dir_errors() {
    match load_template_dir("/cfg/template.d/t.d", Vec::new()) {
        Err(TemplateError::EmptyTemplateDir { path }) => assert_eq!(path, "/cfg/template.d/t.d"),
        other => panic!("expected EmptyTemplateDir, got: {other:?}"),
    }
    let loaded = vec![
        Ok(j(r#"{"a": 1}"#)),
        Err(TemplateError::MissingDir { path: "second".to_string() }),
        Err(TemplateError::MissingDir { path: "third".to_string() }),
    ];
    match load_template_dir("/cfg/template.d/t.d", loaded) {
        Err(TemplateError::MissingDir { path }) => assert_eq!(path, "second"),
        other => panic!("expected the first error, got: {other:?}"),
    }
}

#[test]
fn merging_the_same_overlay_twice_changes_nothing() {
    let overlay = j(r#"{"a": {"b": 2, "c": [1]}, "d": null}"#);
    for base in [j(r#"{"a": {"b": 1, "x": true}, "e": 5}"#), j("[1, 2]"), j(r#"{"a": 3}"#)] {
        let mut once = base;
        deep_merge(&mut once, &overlay);
        let mut twice = once.deep_clone();
        deep_merge(&mut twice, &overlay);
        assert_eq!(to_serde(&twice), to_serde(&once));
    }
}
