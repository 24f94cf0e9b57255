use opencode_config::compose::{resolve_compose_input, run as compose_run, run_preview as compose_preview, ComposeOptions, Composer, Conflict, compose_fragments, build_provenance, detect_conflicts, maybe_wrap_agent, resolve_all_conflicts, set_at_path, check_input, split_path, Candidates, ConflictCandidate, ComposeError, Resolution};
use opencode_config::template::TemplateProbe;
use opencode_config::decompose::split_into_fragments;
use opencode_config::template::sort_by_name;
use opencode_config::json::{JsonMap, JsonValue};
use opencode_config::options::RunOptions;

fn from_serde(v: serde_json::Value) -> JsonValue {
    match v {
        serde_json::Value::Null => JsonValue::Null,
        serde_json::Value::Bool(b) => JsonValue::Bool(b),
        serde_json::Value::Number(n) => JsonValue::Number(n.to_string()),
        serde_json::Value::String(s) => JsonValue::String(s),
        serde_json::Value::Array(a) => JsonValue::Array(a.into_iter().map(from_serde).collect()),
        serde_json::Value::Object(m) => {
            let mut map = JsonMap::new();
            for (k, v) in m {
                map.insert(k, from_serde(v));
            }
            JsonValue::Object(map)
        }
    }
}

fn to_serde(v: &JsonValue) -> serde_json::Value {
    match v {
        JsonValue::Null => serde_json::Value::Null,
        JsonValue::Bool(b) => serde_json::Value::Bool(*b),
        JsonValue::Number(n) => serde_json::from_str(n).unwrap(),
        JsonValue::String(s) => serde_json::Value::String(s.clone()),
        JsonValue::Array(a) => serde_json::Value::Array(a.iter().map(to_serde).collect()),
        JsonValue::Object(m) => {
            let mut out = serde_json::Map::new();
            for (k, v) in &m.entries {
                out.insert(k.clone(), to_serde(v));
            }
            serde_json::Value::Object(out)
        }
    }
}

fn j(text: &str) -> JsonValue {
    from_serde(serde_json::from_str(text).unwrap())
}

fn map_of(pairs: Vec<(&str, JsonValue)>) -> JsonMap {
    let mut m = JsonMap::new();
    for (k, v) in pairs {
        m.insert(k.to_string(), v);
    }
    m
}

fn frags(pairs: Vec<(&str, &str)>) -> Vec<(String, JsonValue)> {
    pairs.into_iter().map(|(k, v)| (k.to_string(), j(v))).collect()
}

fn candidates(pairs: Vec<(&str, &str)>) -> Candidates {
    Candidates { items: pairs.into_iter().map(|(v, s)| ConflictCandidate { value: j(v), source: s.to_string() }).collect() }
}

#[test]
fn wrap_agent_numbered_fragment() {
    let wrapped = maybe_wrap_agent("01-build.json", j(r#"{"model": "gpt-4"}"#));
    assert_eq!(to_serde(&wrapped), to_serde(&j(r#"{"agent": {"build": {"model": "gpt-4"}}}"#)));
}

#[test]
fn wrap_agent_already_nested() {
    let text = r#"{"agent": {"build": {"model": "gpt-4"}}}"#;
    let result = maybe_wrap_agent("01-build.json", j(text));
    assert_eq!(to_serde(&result), to_serde(&j(text)), "should not double-wrap");
}

#[test]
fn wrap_agent_global_no_wrap() {
    let text = r#"{"$schema": "https://example.com"}"#;
    assert_eq!(to_serde(&maybe_wrap_agent("_global.json", j(text))), to_serde(&j(text)));
}

#[test]
fn wrap_agent_non_numbered_no_wrap() {
    let text = r#"{"model": "gpt-4"}"#;
    assert_eq!(to_serde(&maybe_wrap_agent("overrides.json", j(text))), to_serde(&j(text)));
}

#[test]
fn conflict_detected_different_values() {
    let fragments = frags(vec![
        ("01-build.json", r#"{"agent": {"build": {"model": "gpt-4"}}}"#),
        ("02-override.json", r#"{"agent": {"build": {"model": "gpt-5"}}}"#),
    ]);
    let conflicts = detect_conflicts(&build_provenance(&fragments));
    assert_eq!(conflicts.len(), 1);
    assert_eq!(conflicts[0].0, "agent.build.model");
    assert_eq!(conflicts[0].1.items.len(), 2);
}

#[test]
fn no_conflict_identical_values() {
    let fragments = frags(vec![
        ("01-a.json", r#"{"agent": {"build": {"model": "gpt-4"}}}"#),
        ("02-b.json", r#"{"agent": {"build": {"model": "gpt-4"}}}"#),
    ]);
    assert!(detect_conflicts(&build_provenance(&fragments)).is_empty(), "identical values should not conflict");
}

#[test]
fn no_conflict_disjoint_keys() {
    let fragments = frags(vec![
        ("01-build.json", r#"{"agent": {"build": {"model": "gpt-4"}}}"#),
        ("02-review.json", r#"{"agent": {"review": {"model": "gpt-5"}}}"#),
    ]);
    assert!(detect_conflicts(&build_provenance(&fragments)).is_empty(), "disjoint keys should merge cleanly");
}

#[test]
fn conflict_on_different_arrays() {
    let fragments = frags(vec![("01-a.json", r#"{"tags": ["fast"]}"#), ("02-b.json", r#"{"tags": ["safe"]}"#)]);
    let conflicts = detect_conflicts(&build_provenance(&fragments));
    assert_eq!(conflicts.len(), 1, "different arrays should conflict");
    assert_eq!(conflicts[0].0, "tags");
}

#[test]
fn last_wins_resolver_picks_last() {
    let conflicts = vec![("test.path".to_string(), candidates(vec![("\"gpt-4\"", "a.json"), ("\"gpt-5\"", "b.json"), ("\"gpt-6\"", "c.json")]))];
    let resolved = resolve_all_conflicts(&conflicts, &Resolution::LastWins).unwrap();
    assert_eq!(resolved.len(), 1);
    assert_eq!(resolved[0].0, "test.path");
    assert_eq!(to_serde(&resolved[0].1), serde_json::Value::String("gpt-6".to_string()));
}

#[test]
fn error_resolver_returns_error() {
    let conflicts = vec![("test.path".to_string(), candidates(vec![("\"gpt-4\"", "a.json"), ("\"gpt-5\"", "b.json")]))];
    match resolve_all_conflicts(&conflicts, &Resolution::Error) {
        Err(ComposeError::Conflict { path, sources }) => {
            assert_eq!(path, "test.path");
            assert_eq!(sources, vec!["a.json", "b.json"]);
        }
        other => panic!("expected Conflict error, got: {:?}", other.map(|v| v.len())),
    }
}

#[test]
fn chosen_candidate_wins() {
    let conflicts = vec![("test.path".to_string(), candidates(vec![("\"gpt-4\"", "a.json"), ("\"gpt-5\"", "b.json")]))];
    let resolved = resolve_all_conflicts(&conflicts, &Resolution::Choices(vec![0])).unwrap();
    assert_eq!(to_serde(&resolved[0].1), serde_json::Value::String("gpt-4".to_string()));
}

#[test]
fn input_dir_not_found_error() {
    match check_input("/tmp/work/nonexistent", false, 0) {
        Err(ComposeError::InputDirNotFound { path }) => assert_eq!(path, "/tmp/work/nonexistent"),
        other => panic!("expected InputDirNotFound, got: {other:?}"),
    }
}

#[test]
fn input_dir_checks() {
    assert!(matches!(check_input("/empty", true, 0), Err(ComposeError::EmptyInputDir { .. })));
    assert!(check_input("/full", true, 2).is_ok());
}

#[test]
fn set_at_path_overwrites_leaf() {
    let mut root = j(r#"{"agent": {"build": {"model": "gpt-4"}}}"#);
    set_at_path(&mut root, "agent.build.model", j("\"gpt-5\""));
    assert_eq!(to_serde(&root)["agent"]["build"]["model"], "gpt-5");
}

#[test]
fn set_at_path_top_level_key() {
    let mut root = j(r#"{"theme": "light"}"#);
    set_at_path(&mut root, "theme", j("\"dark\""));
    assert_eq!(to_serde(&root)["theme"], "dark");
}

#[test]
fn set_at_path_keeps_siblings() {
    let mut root = j(r#"{"agent": {"build": {"model": "gpt-4", "variant": "mini"}}}"#);
    set_at_path(&mut root, "agent.build.model", j("\"gpt-5\""));
    let v = to_serde(&root);
    assert_eq!(v["agent"]["build"]["model"], "gpt-5");
    assert_eq!(v["agent"]["build"]["variant"], "mini");
}

#[test]
fn split_path_on_dots() {
    assert_eq!(split_path("agent.build.model"), vec!["agent", "build", "model"]);
    assert_eq!(split_path("theme"), vec!["theme"]);
}

#[test]
fn conflict_free_fragments_compose_to_their_merge() {
    let fragments = frags(vec![
        ("00-base.json", r#"{"theme": "dark", "agent": {}}"#),
        ("10-build.json", r#"{"agent": {"build": {"model": "m1"}}}"#),
        ("20-extra.json", r#"{"plugins": ["a"]}"#),
    ]);
    let expected = r#"{"theme": "dark", "agent": {"build": {"model": "m1"}}, "plugins": ["a"]}"#;
    for resolution in [Resolution::Error, Resolution::LastWins, Resolution::Choices(vec![])] {
        let composed = compose_fragments(&fragments, &resolution).unwrap();
        assert_eq!(to_serde(&composed), to_serde(&j(expected)));
    }
}

fn compose_options(conflict: Conflict) -> ComposeOptions {
    ComposeOptions {
        input_dir: "/work/fragments".to_string(),
        out: "/work/opencode.json".to_string(),
        dry_run: false,
        backup: false,
        pretty: true,
        verify: false,
        force: false,
        conflict,
        run_options: RunOptions::default(),
        config_dir: "/cfg".to_string(),
    }
}

fn wrapped(pairs: Vec<(&str, &str)>) -> Vec<(String, JsonValue)> {
    Composer::wrap_fragments(frags(pairs))
}

#[test]
fn compose_merges_non_conflicting_fragments() {
    let fragments = wrapped(vec![
        ("_global.json", r#"{"$schema": "https://example.com", "agent": {}}"#),
        ("01-build.json", r#"{"agent": {"build": {"model": "gpt-4"}}}"#),
        ("02-review.json", r#"{"agent": {"review": {"model": "gpt-5"}}}"#),
    ]);
    let plan = compose_run(compose_options(Conflict::Error), &fragments, None, false).expect("compose should succeed");
    assert!(plan.write);
    let parsed = to_serde(&plan.value);
    assert_eq!(parsed["$schema"], "https://example.com");
    assert_eq!(parsed["agent"]["build"]["model"], "gpt-4");
    assert_eq!(parsed["agent"]["review"]["model"], "gpt-5");
}

#[test]
fn compose_with_auto_wrapping() {
    let fragments = wrapped(vec![("01-build.json", r#"{"model": "gpt-4", "variant": "mini"}"#)]);
    let plan = compose_run(compose_options(Conflict::Error), &fragments, None, false).expect("compose should succeed");
    let parsed = to_serde(&plan.value);
    assert_eq!(parsed["agent"]["build"]["model"], "gpt-4");
    assert_eq!(parsed["agent"]["build"]["variant"], "mini");
}

#[test]
fn last_wins_resolves_conflicts() {
    let fragments = wrapped(vec![
        ("01-build.json", r#"{"agent": {"build": {"model": "gpt-4"}}}"#),
        ("99-overrides.json", r#"{"agent": {"build": {"model": "gpt-5"}}}"#),
    ]);
    let preview = compose_preview(compose_options(Conflict::LastWins), &fragments, None).expect("preview");
    assert_eq!(to_serde(&preview)["agent"]["build"]["model"], "gpt-5");
}

#[test]
fn error_mode_rejects_conflicts() {
    let fragments = wrapped(vec![
        ("01-build.json", r#"{"agent": {"build": {"model": "gpt-4"}}}"#),
        ("99-overrides.json", r#"{"agent": {"build": {"model": "gpt-5"}}}"#),
    ]);
    match compose_preview(compose_options(Conflict::Error), &fragments, None) {
        Err(ComposeError::Conflict { path, sources }) => {
            assert_eq!(path, "agent.build.model");
            assert_eq!(sources.len(), 2);
        }
        Err(other) => panic!("expected Conflict error, got: {other:?}"),
        Ok(_) => panic!("expected Conflict error"),
    }
}

#[test]
fn run_dry_run_skips_write() {
    let fragments = wrapped(vec![("base.json", r#"{"key": "value"}"#)]);
    let mut options = compose_options(Conflict::Error);
    options.dry_run = true;
    let plan = compose_run(options, &fragments, None, true).expect("run with dry_run should succeed");
    assert!(!plan.write);
    assert!(!plan.backup);
}

#[test]
fn output_exists_without_force() {
    let fragments = wrapped(vec![("base.json", r#"{"key": "value"}"#)]);
    match compose_run(compose_options(Conflict::Error), &fragments, None, true) {
        Err(ComposeError::OutputExists { path }) => assert_eq!(path, "/work/opencode.json"),
        Err(other) => panic!("expected OutputExists, got: {other:?}"),
        Ok(_) => panic!("expected OutputExists"),
    }
}

#[test]
fn backup_created_on_overwrite() {
    let fragments = wrapped(vec![("base.json", r#"{"key": "new"}"#)]);
    let mut options = compose_options(Conflict::Error);
    options.backup = true;
    options.force = true;
    let plan = compose_run(options, &fragments, None, true).expect("compose should succeed");
    assert!(plan.write);
    assert!(plan.backup);
    assert_eq!(to_serde(&plan.value)["key"], "new");
}

#[test]
fn interactive_choices_pick_the_candidate() {
    let fragments = wrapped(vec![
        ("01-build.json", r#"{"agent": {"build": {"model": "gpt-4"}}}"#),
        ("99-overrides.json", r#"{"agent": {"build": {"model": "gpt-5"}}}"#),
    ]);
    assert_eq!(Composer::conflicts(&fragments).len(), 1);
    let preview = compose_preview(compose_options(Conflict::Interactive), &fragments, Some(vec![0])).expect("preview");
    assert_eq!(to_serde(&preview)["agent"]["build"]["model"], "gpt-4");
}

#[test]
fn composing_a_split_in_name_order_gives_back_the_template() {
    let original = j(r#"{"theme": "dark", "agent": {"Build": {"model": "m1"}, "review": {"model": "m2", "variant": "v"}}, "x": [1, 2]}"#);
    let fragments = split_into_fragments("default", &original).unwrap();
    let named: Vec<(String, JsonValue)> = fragments.into_iter().map(|f| (f.filename, f.value)).collect();
    let sorted = Composer::wrap_fragments(sort_by_name(named));
    assert_eq!(sorted[0].0, "Build.json");
    assert_eq!(sorted[1].0, "_default.json");
    assert!(detect_conflicts(&build_provenance(&sorted)).is_empty());
    for resolution in [Resolution::Error, Resolution::LastWins] {
        let composed = compose_fragments(&sorted, &resolution).unwrap();
        assert_eq!(to_serde(&composed), to_serde(&original));
    }
}

#[test]
fn compose_input_resolution() {
    let probe = |file: bool, dir: bool| TemplateProbe { json_file: file, yaml_file: false, yml_file: false, dir_exists: dir, dir_template_files: 1 };
    let (dir, name) = resolve_compose_input("/cfg", "default", &probe(true, true)).unwrap();
    assert_eq!(dir, "/cfg/template.d/default.d");
    assert_eq!(name, Some("default".to_string()));
    match resolve_compose_input("/cfg", "default", &probe(true, false)) {
        Err(ComposeError::NotAFragmentDir { name }) => assert_eq!(name, "default"),
        other => panic!("expected NotAFragmentDir, got: {other:?}"),
    }
    let (dir, name) = resolve_compose_input("/cfg", "default", &probe(false, false)).unwrap();
    assert_eq!(dir, "default");
    assert_eq!(name, None);
    let (dir, name) = resolve_compose_input("/cfg", "./frags", &probe(true, true)).unwrap();
    assert_eq!(dir, "./frags");
    assert_eq!(name, None);
}

#[test]
fn pretty_output_ends_with_a_line_break() {
    let mut options = compose_options(Conflict::Error);
    options.pretty = true;
    let composer = Composer::new(options);
    assert_eq!(composer.output_text("{\n  \"a\": 1\n}"), "{\n  \"a\": 1\n}\n");
    assert_eq!(composer.output_text("{}\n"), "{}\n");
    let mut options = compose_options(Conflict::Error);
    options.pretty = false;
    assert_eq!(Composer::new(options).output_text("{\"a\":1}"), "{\"a\":1}");
}
