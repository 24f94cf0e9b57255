use opencode_config::config::{AgentConfig, ModelConfigs, Palette};
use opencode_config::json::{JsonMap, JsonValue};
use opencode_config::keyed::KeyedMap;
use opencode_config::template::sort_by_name;
use opencode_config::validate::{palette_uses, validate_placeholders, PlaceholderUse, ReportBuilder, 
    format_report_json, format_report_text, validate_dir, display_path, resolve_pattern, EntryInfo, EntryKind, FragmentFile,
    Report, Severity, ValidateInput, ValidateOpts,
};

fn from_serde(v: serde_json::Value) -> JsonValue {
    match v {
        serde_json::Value::Null => JsonValue::Null,
        serde_json::Value::Bool(b) => JsonValue::Bool(b),
        serde_json::Value::Number(n) => JsonValue::Number(n.to_string()),
        serde_json::Value::String(s) => JsonValue::String(s),
        serde_json::Value::Array(a) => JsonValue::Array(a.into_iter().map(from_serde).collect()),
        serde_json::Value::Object(m) => {
            let mut map = JsonMap::new();
            for (k, v) in m {
                map.insert(k, from_serde(v));
            }
            JsonValue::Object(map)
        }
    }
}

fn to_serde(v: &JsonValue) -> serde_json::Value {
    match v {
        JsonValue::Null => serde_json::Value::Null,
        JsonValue::Bool(b) => serde_json::Value::Bool(*b),
        JsonValue::Number(n) => serde_json::from_str(n).unwrap(),
        JsonValue::String(s) => serde_json::Value::String(s.clone()),
        JsonValue::Array(a) => serde_json::Value::Array(a.iter().map(to_serde).collect()),
        JsonValue::Object(m) => {
            let mut out = serde_json::Map::new();
            for (k, v) in &m.entries {
                out.insert(k.clone(), to_serde(v));
            }
            serde_json::Value::Object(out)
        }
    }
}

fn j(text: &str) -> JsonValue {
    from_serde(serde_json::from_str(text).unwrap())
}

fn map_of(pairs: Vec<(&str, JsonValue)>) -> JsonMap {
    let mut m = JsonMap::new();
    for (k, v) in pairs {
        m.insert(k.to_string(), v);
    }
    m
}

const CFG: &str = "/cfg";

fn palettes(list: Vec<(&str, Vec<(&str, &str, Option<&str>)>)>) -> ModelConfigs {
    let mut ps = KeyedMap::new();
    for (name, agents) in list {
        let mut a = KeyedMap::new();
        for (agent, model, variant) in agents {
            a.insert(agent.to_string(), AgentConfig { model: model.to_string(), variant: variant.map(|v| v.to_string()), reasoning: None });
        }
        ps.insert(name.to_string(), Palette { agents: a, mapping: JsonMap::new() });
    }
    ModelConfigs { palettes: ps }
}

fn default_palettes() -> ModelConfigs {
    palettes(vec![("default", vec![("build", "openrouter/openai/gpt-4o", Some("mini"))])])
}

fn file(name: &str, text: &str) -> Result<EntryInfo, String> {
    Ok(EntryInfo { path: format!("{CFG}/template.d/{name}"), kind: EntryKind::File, fragments: Err(String::new()), loaded: Ok(j(text)) })
}

fn broken_file(name: &str, error: &str) -> Result<EntryInfo, String> {
    Ok(EntryInfo { path: format!("{CFG}/template.d/{name}"), kind: EntryKind::File, fragments: Err(String::new()), loaded: Err(error.to_string()) })
}

fn dir_at(path: String, frags: Vec<(&str, &str)>) -> EntryInfo {
    let named: Vec<(String, Result<JsonValue, String>)> = frags.into_iter().map(|(n, t)| (n.to_string(), Ok(j(t)))).collect();
    let files: Vec<FragmentFile> = sort_by_name(named).into_iter().map(|(name, loaded)| FragmentFile { name, loaded }).collect();
    EntryInfo { path, kind: EntryKind::Dir, fragments: Ok(files), loaded: Err(String::new()) }
}

fn dir(name: &str, frags: Vec<(&str, &str)>) -> Result<EntryInfo, String> {
    Ok(dir_at(format!("{CFG}/template.d/{name}"), frags))
}

fn opts(strict: bool, env_allow: Option<bool>, schema: bool) -> ValidateOpts {
    ValidateOpts { templates: Vec::new(), palettes_path: None, strict, env_allow, env_mask_logs: None, schema }
}

fn input(configs: ModelConfigs, entries: Vec<Result<EntryInfo, String>>, env: Vec<(&str, &str)>) -> ValidateInput {
    ValidateInput {
        palettes: Ok(configs),
        listing: Ok(entries),
        globs: Vec::new(),
        env: env.into_iter().map(|(k, v)| (k.to_string(), v.to_string())).collect(),
    }
}

fn run(o: ValidateOpts, i: &ValidateInput) -> Report {
    validate_dir(CFG, o, i).expect("validate")
}

fn kinds(r: &Report) -> Vec<String> {
    r.findings.iter().map(|f| f.kind.clone()).collect()
}

fn env_template(key: &str) -> String {
    format!(r#"{{ "agent": {{ "build": {{ "model": "{{{{env:{key}}}}}" }} }} }}"#)
}

#[test]
fn validate_detects_malformed_json() {
    let i = input(default_palettes(), vec![broken_file("bad.json", "failed to parse template at /cfg/template.d/bad.json")], vec![]);
    let report = run(opts(false, None, false), &i);
    assert!(report.counts.errors > 0);
    assert!(report.findings.iter().any(|f| f.kind == "invalid-template"));
}

#[test]
fn validate_detects_unknown_placeholder() {
    let i = input(default_palettes(), vec![file("default.json", r#"{ "agent": { "build": { "model": "{{missing}}" } } }"#)], vec![]);
    let report = run(opts(false, None, false), &i);
    assert!(report.counts.errors > 0);
    assert!(report.findings.iter().any(|f| f.kind == "unknown-placeholder"));
}

#[test]
fn validate_warns_on_missing_variant() {
    let configs = palettes(vec![("default", vec![("build", "openrouter/openai/gpt-4o", None)])]);
    let i = input(configs, vec![file("default.json", r#"{ "agent": { "build": { "variant": "{{build-variant}}" } } }"#)], vec![]);
    let report = run(opts(false, None, false), &i);
    assert_eq!(report.counts.errors, 0);
    assert!(report.counts.warnings > 0);
}

#[test]
fn validate_schema_clean_template_no_findings() {
    let i = input(default_palettes(), vec![file("ok.json", r#"{ "agent": { "build": { "model": "{{build}}" } } }"#)], vec![]);
    let report = run(opts(false, None, true), &i);
    assert_eq!(report.counts.errors, 0);
    assert_eq!(report.counts.warnings, 0);
    assert!(report.findings.iter().all(|f| f.kind != "schema-not-implemented"), "schema-not-implemented stub should be removed");
    assert!(report.findings.iter().all(|f| f.kind != "schema-violation"), "clean template should produce no schema violations");
}

#[test]
fn validate_no_env_flags_not_implemented_with_env_allow() {
    let i = input(default_palettes(), vec![file("ok.json", r#"{ "agent": { "build": { "model": "{{build}}" } } }"#)], vec![]);
    let report = run(opts(false, Some(true), false), &i);
    assert!(report.findings.iter().all(|f| f.kind != "env-flags-not-implemented"), "old env-flags-not-implemented stub should be removed");
}

#[test]
fn validate_does_not_warn_on_env_flags_false() {
    let i = input(default_palettes(), vec![file("ok.json", r#"{ "agent": { "build": { "model": "{{build}}" } } }"#)], vec![]);
    let report = run(opts(false, Some(false), false), &i);
    assert!(report.findings.iter().all(|f| f.kind != "env-flags-not-implemented"));
}

#[test]
fn validate_clean_config_produces_no_errors() {
    let i = input(default_palettes(), vec![file("clean.json", r#"{ "agent": { "build": { "model": "{{agent-build-model}}" } } }"#)], vec![]);
    let report = run(opts(false, None, false), &i);
    assert_eq!(report.counts.errors, 0, "expected zero errors but got: {:?}", kinds(&report));
}

#[test]
fn validate_json_report_structure() {
    let i = input(default_palettes(), vec![file("default.json", r#"{ "agent": { "build": { "model": "{{unknown-agent}}" } } }"#)], vec![]);
    let report = run(opts(false, None, false), &i);
    let json_report = format_report_json(&report);
    assert!(!json_report.errors.is_empty(), "expected at least one error finding");
    let first = &json_report.errors[0];
    assert!(!first.file.is_empty(), "finding missing 'file'");
    assert!(!first.path.is_empty(), "finding missing 'path'");
    assert_eq!(first.kind, "unknown-placeholder");
    assert!(!first.message.is_empty(), "finding missing 'message'");
}

#[test]
fn validate_missing_model_in_palette_produces_finding() {
    let configs = palettes(vec![
        ("default", vec![("build", "openrouter/openai/gpt-4o", None)]),
        ("alt", vec![("deploy", "openrouter/mistralai/mistral-large", None)]),
    ]);
    let i = input(configs, vec![file("default.json", r#"{ "agent": { "build": { "model": "{{agent-build-model}}" } } }"#)], vec![]);
    let report = run(opts(false, None, false), &i);
    let finding = report.findings.iter().find(|f| f.kind == "palette-mismatch").expect("palette-mismatch finding");
    assert_eq!(finding.severity, Severity::Warning);
    assert!(finding.message.contains("alt"), "finding should mention the palette missing the agent");
}

#[test]
fn validate_schema_strict_fails_on_violation() {
    let i = input(default_palettes(), vec![file("bad_type.json", r#"{ "agent": { "build": { "model": 42 } } }"#)], vec![]);
    let report = run(opts(true, None, true), &i);
    let violations: Vec<_> = report.findings.iter().filter(|f| f.kind == "schema-violation").collect();
    assert!(!violations.is_empty(), "expected schema-violation finding for wrong type");
    assert!(violations.iter().all(|f| f.severity == Severity::Error), "strict mode should elevate schema violations to errors");
    assert!(report.counts.errors > 0);
}

#[test]
fn validate_schema_false_skips_check() {
    let i = input(default_palettes(), vec![file("bad_type.json", r#"{ "agent": { "build": { "model": 42 } } }"#)], vec![]);
    let report = run(opts(false, None, false), &i);
    assert!(report.findings.iter().all(|f| !f.kind.starts_with("schema-")));
}

#[test]
fn validate_schema_multi_palette_checks() {
    let configs = palettes(vec![
        ("default", vec![("build", "openrouter/openai/gpt-4o", None)]),
        ("alt", vec![("deploy", "openrouter/mistralai/mistral-large", None)]),
    ]);
    let i = input(configs, vec![file("bad_type.json", r#"{ "agent": { "build": { "model": 42 } } }"#)], vec![]);
    let report = run(opts(false, None, true), &i);
    let violations: Vec<_> = report.findings.iter().filter(|f| f.kind == "schema-violation").collect();
    assert!(!violations.is_empty());
    assert!(violations.iter().any(|f| f.message.contains("default")));
    assert!(violations.iter().all(|f| !f.message.contains("[palette: alt]")));
}

#[test]
fn validate_env_placeholder_not_allowed() {
    let i = input(default_palettes(), vec![file("env.json", &env_template("SECRET"))], vec![]);
    let report = run(opts(false, None, false), &i);
    let finding = report.findings.iter().find(|f| f.kind == "env-not-allowed").expect("env-not-allowed finding");
    assert_eq!(finding.severity, Severity::Error);
    assert!(finding.message.contains("env:SECRET"));
}

#[test]
fn validate_env_placeholder_not_allowed_explicit_false() {
    let i = input(default_palettes(), vec![file("env.json", &env_template("SECRET"))], vec![]);
    let report = run(opts(false, Some(false), false), &i);
    let finding = report.findings.iter().find(|f| f.kind == "env-not-allowed").expect("env-not-allowed finding");
    assert_eq!(finding.severity, Severity::Error);
}

#[test]
fn validate_env_placeholder_allowed_but_missing() {
    let var_name = "OPENCODE_TEST_VALIDATE_MISSING_29a7c3";
    let i = input(default_palettes(), vec![file("env.json", &env_template(var_name))], vec![]);
    let report = run(opts(false, Some(true), false), &i);
    let finding = report.findings.iter().find(|f| f.kind == "env-missing").expect("env-missing finding");
    assert_eq!(finding.severity, Severity::Warning, "env-missing should be a warning in non-strict mode");
    assert!(finding.message.contains(var_name));
}

#[test]
fn validate_env_placeholder_missing_strict_is_error() {
    let var_name = "OPENCODE_TEST_VALIDATE_STRICT_MISSING_f4e1b8";
    let i = input(default_palettes(), vec![file("env.json", &env_template(var_name))], vec![]);
    let report = run(opts(true, Some(true), false), &i);
    let finding = report.findings.iter().find(|f| f.kind == "env-missing").expect("env-missing finding in strict mode");
    assert_eq!(finding.severity, Severity::Error, "env-missing should be promoted to error in strict mode");
}

#[test]
fn validate_env_placeholder_allowed_and_present() {
    let var_name = "OPENCODE_TEST_VALIDATE_PRESENT_8b3d42";
    let i = input(default_palettes(), vec![file("env.json", &env_template(var_name))], vec![(var_name, "test-value")]);
    let report = run(opts(false, Some(true), false), &i);
    assert!(report.findings.iter().all(|f| f.kind != "env-missing" && f.kind != "env-not-allowed"));
}

#[test]
fn validate_schema_non_strict_produces_warning() {
    let i = input(default_palettes(), vec![file("bad_type.json", r#"{ "agent": { "build": { "model": 42 } } }"#)], vec![]);
    let report = run(opts(false, None, true), &i);
    let violations: Vec<_> = report.findings.iter().filter(|f| f.kind == "schema-violation").collect();
    assert!(!violations.is_empty());
    assert!(violations.iter().all(|f| f.severity == Severity::Warning));
    assert_eq!(report.counts.errors, 0, "non-strict schema violations must not increment error count");
    assert!(report.counts.warnings > 0, "non-strict schema violations must increment warning count");
}

#[test]
fn validate_schema_multiple_violations() {
    let i = input(default_palettes(), vec![file("multi_bad.json", r#"{ "agent": { "build": { "model": 42, "variant": 99 } } }"#)], vec![]);
    let report = run(opts(false, None, true), &i);
    let violations: Vec<_> = report.findings.iter().filter(|f| f.kind == "schema-violation").collect();
    assert!(violations.len() >= 2);
    let paths: Vec<&str> = violations.iter().map(|f| f.path.as_str()).collect();
    assert!(paths.iter().any(|p| p.contains("model")), "paths: {paths:?}");
    assert!(paths.iter().any(|p| p.contains("variant")), "paths: {paths:?}");
}

#[test]
fn validate_schema_multi_template() {
    let i = input(
        default_palettes(),
        vec![
            file("clean.json", r#"{ "agent": { "build": { "model": "{{agent-build-model}}" } } }"#),
            file("bad_type.json", r#"{ "agent": { "build": { "model": 42 } } }"#),
        ],
        vec![],
    );
    let report = run(opts(false, None, true), &i);
    let violations: Vec<_> = report.findings.iter().filter(|f| f.kind == "schema-violation").collect();
    assert!(!violations.is_empty());
    assert!(violations.iter().all(|f| f.file.contains("bad_type")));
    assert!(violations.iter().all(|f| !f.file.contains("clean")));
}

#[test]
fn validate_schema_multi_template_multi_palette() {
    let configs = palettes(vec![
        ("alpha", vec![("build", "openrouter/openai/gpt-4o", None)]),
        ("beta", vec![("deploy", "openrouter/mistralai/mistral-large", None)]),
    ]);
    let i = input(
        configs,
        vec![
            file("build_bad.json", r#"{ "agent": { "build": { "model": 42 } } }"#),
            file("deploy_bad.json", r#"{ "agent": { "deploy": { "model": 99 } } }"#),
        ],
        vec![],
    );
    let report = run(opts(false, None, true), &i);
    let v: Vec<_> = report.findings.iter().filter(|f| f.kind == "schema-violation").collect();
    assert!(v.iter().any(|f| f.file.contains("build_bad") && f.message.contains("alpha")));
    assert!(!v.iter().any(|f| f.file.contains("build_bad") && f.message.contains("[palette: beta]")));
    assert!(v.iter().any(|f| f.file.contains("deploy_bad") && f.message.contains("beta")));
    assert!(!v.iter().any(|f| f.file.contains("deploy_bad") && f.message.contains("[palette: alpha]")));
}

#[test]
fn validate_env_placeholder_excluded_from_palette_lookup() {
    let var_name = "OPENCODE_TEST_VALIDATE_PALETTE_EXCL_c7a912";
    let i = input(default_palettes(), vec![file("env.json", &env_template(var_name))], vec![(var_name, "value")]);
    let report = run(opts(false, Some(true), false), &i);
    assert!(report.findings.iter().all(|f| f.kind != "unknown-placeholder"));
}

#[test]
fn validate_ambiguous_fragment_warning() {
    let i = input(
        default_palettes(),
        vec![dir("test.d", vec![("base.json", r#"{"agent": {"build": {"model": "{{agent-build-model}}"}}}"#), ("base.yaml", r#"{"extra": "value"}"#)])],
        vec![],
    );
    let report = run(opts(false, None, false), &i);
    let finding = report.findings.iter().find(|f| f.kind == "ambiguous-fragment").expect("ambiguous-fragment finding");
    assert_eq!(finding.severity, Severity::Warning);
    assert!(finding.message.contains("base"), "message: {}", finding.message);
}

#[test]
fn validate_ambiguous_fragment_strict_error() {
    let i = input(
        default_palettes(),
        vec![dir("test.d", vec![("base.json", r#"{"agent": {"build": {"model": "{{agent-build-model}}"}}}"#), ("base.yaml", r#"{"extra": "value"}"#)])],
        vec![],
    );
    let report = run(opts(true, None, false), &i);
    let finding = report.findings.iter().find(|f| f.kind == "ambiguous-fragment").expect("ambiguous-fragment finding in strict mode");
    assert_eq!(finding.severity, Severity::Error);
}

#[test]
fn validate_fragment_merge_conflict_warning() {
    let i = input(
        default_palettes(),
        vec![dir("test.d", vec![("01-base.json", r#"{"agent": {"build": {"model": "gpt-4"}}}"#), ("02-overlay.json", r#"{"agent": {"build": {"model": "gpt-5"}}}"#)])],
        vec![],
    );
    let report = run(opts(false, None, false), &i);
    let finding = report.findings.iter().find(|f| f.kind == "fragment-merge-conflict").expect("fragment-merge-conflict finding");
    assert_eq!(finding.severity, Severity::Warning);
    assert_eq!(finding.path, "$.agent.build.model", "finding path should be the conflicting JSON path");
    assert!(finding.message.contains("02-overlay.json"), "message: {}", finding.message);
}

#[test]
fn validate_fragment_merge_conflict_strict_error() {
    let i = input(
        default_palettes(),
        vec![dir("test.d", vec![("01-base.json", r#"{"agent": {"build": {"model": "gpt-4"}}}"#), ("02-overlay.json", r#"{"agent": {"build": {"model": "gpt-5"}}}"#)])],
        vec![],
    );
    let report = run(opts(true, None, false), &i);
    let finding = report.findings.iter().find(|f| f.kind == "fragment-merge-conflict").expect("fragment-merge-conflict in strict mode");
    assert_eq!(finding.severity, Severity::Error);
}

#[test]
fn validate_disjoint_fragments_no_conflict() {
    let i = input(
        default_palettes(),
        vec![dir("test.d", vec![("01-base.json", r#"{"agent": {"build": {"model": "{{agent-build-model}}"}}}"#), ("02-extra.json", r#"{"extra": "value"}"#)])],
        vec![],
    );
    let report = run(opts(false, None, false), &i);
    assert!(report.findings.iter().all(|f| f.kind != "fragment-merge-conflict"));
}

#[test]
fn validate_no_ambiguous_fragments_different_stems() {
    let i = input(
        default_palettes(),
        vec![dir("test.d", vec![("base.json", r#"{"agent": {"build": {"model": "{{agent-build-model}}"}}}"#), ("extra.json", r#"{"extra": "value"}"#)])],
        vec![],
    );
    let report = run(opts(false, None, false), &i);
    assert!(report.findings.iter().all(|f| f.kind != "ambiguous-fragment"));
}

#[test]
fn validate_pattern_matches_template_dir() {
    let frag_dir = format!("{CFG}/template.d/mydir.d");
    let entry = dir_at(frag_dir.clone(), vec![("base.json", r#"{"agent": {"build": {"model": "{{agent-build-model}}"}}}"#), ("base.yaml", r#"{"extra": "value"}"#)]);
    let i = ValidateInput { palettes: Ok(default_palettes()), listing: Ok(Vec::new()), globs: vec![Ok(vec![Ok(entry)])], env: Vec::new() };
    let mut o = opts(false, None, false);
    o.templates = vec![frag_dir];
    let report = validate_dir(CFG, o, &i).expect("validate");
    assert!(report.findings.iter().all(|f| f.kind != "unsupported-template"));
    let finding = report.findings.iter().find(|f| f.kind == "ambiguous-fragment").expect("ambiguous-fragment finding");
    assert_eq!(finding.severity, Severity::Warning);
}

#[test]
fn validate_identical_scalars_no_merge_conflict() {
    let i = input(
        default_palettes(),
        vec![dir("test.d", vec![
            ("01-base.json", r#"{"agent": {"build": {"model": "gpt-4"}}, "shared": [1, 2]}"#),
            ("02-overlay.json", r#"{"agent": {"build": {"model": "gpt-4"}}, "shared": [1, 2]}"#),
        ])],
        vec![],
    );
    let report = run(opts(false, None, false), &i);
    assert!(report.findings.iter().all(|f| f.kind != "fragment-merge-conflict"));
}

// --- behaviour of the engine beyond the ported scenarios ---

#[test]
fn no_templates_is_a_warning_or_error() {
    let i = input(default_palettes(), vec![], vec![]);
    let report = run(opts(false, None, false), &i);
    assert_eq!(kinds(&report), vec!["missing-templates"]);
    assert_eq!(report.findings[0].file, "template.d");
    assert_eq!(report.counts.warnings, 1);
    let strict = run(opts(true, None, false), &i);
    assert_eq!(strict.counts.errors, 1);
    assert_eq!(strict.counts.warnings, 0);
}

#[test]
fn unreadable_template_dir_and_palettes_are_errors() {
    let i = ValidateInput { palettes: Err("io error: not found".to_string()), listing: Err("No such file".to_string()), globs: Vec::new(), env: Vec::new() };
    let report = run(opts(false, None, false), &i);
    assert_eq!(kinds(&report), vec!["invalid-palettes", "missing-template-dir", "missing-templates"]);
    assert_eq!(report.findings[0].file, "model-configs.yaml");
    assert_eq!(report.findings[0].message, "io error: not found");
    assert_eq!(report.findings[1].file, "template.d");
    assert_eq!(report.counts.errors, 2);
    assert_eq!(report.counts.warnings, 1);
}

#[test]
fn unsupported_and_ambiguous_entries() {
    let i = input(
        default_palettes(),
        vec![
            file("notes.txt", "{}"),
            file("dup.json", "{}"),
            dir("dup.d", vec![("a.json", "{}")]),
            dir("empty.d", vec![]),
            dir("plain", vec![("a.json", "{}")]),
        ],
        vec![],
    );
    let report = run(opts(false, None, false), &i);
    let k = kinds(&report);
    assert!(k.contains(&"unsupported-template".to_string()));
    let amb = report.findings.iter().find(|f| f.kind == "ambiguous-template").expect("ambiguous");
    assert_eq!(amb.message, "ambiguous template \"dup\": both file and directory exist; remove one");
    assert_eq!(amb.file, "template.d/dup.d");
    let empty = report.findings.iter().find(|f| f.kind == "empty-template-dir").expect("empty");
    assert_eq!(empty.message, "template directory is empty: empty.d");
}

#[test]
fn malformed_and_empty_placeholders() {
    let i = input(default_palettes(), vec![file("t.json", r#"{"a": "{{ }}", "b": ["oops }}"]}"#)], vec![]);
    let report = run(opts(false, None, false), &i);
    let malformed: Vec<_> = report.findings.iter().filter(|f| f.kind == "malformed-placeholder").collect();
    assert_eq!(malformed.len(), 2);
    assert_eq!(malformed[0].path, "$.a");
    assert_eq!(malformed[0].message, "placeholder key is empty");
    assert_eq!(malformed[1].path, "$.b[0]");
    assert_eq!(malformed[1].message, "placeholder braces found but no valid placeholder");
}

#[test]
fn shadowed_mapping_key_is_reported() {
    let mut configs = default_palettes();
    configs.palettes.entries[0].1.mapping.insert("agent-build-model".to_string(), j("\"x\""));
    let i = input(configs, vec![file("ok.json", r#"{"agent": {"build": {"model": "{{build}}"}}}"#)], vec![]);
    let report = run(opts(false, None, false), &i);
    let f = report.findings.iter().find(|f| f.kind == "ambiguous-alias").expect("alias finding");
    assert_eq!(f.path, "$.palettes.default.mapping.agent-build-model");
    assert_eq!(f.message, "mapping key 'agent-build-model' conflicts with generated alias for agent 'build'");
    assert_eq!(f.severity, Severity::Warning);
}

#[test]
fn report_text_lists_findings() {
    let i = input(default_palettes(), vec![file("t.json", r#"{"m": "{{nope}}"}"#)], vec![]);
    let report = run(opts(false, None, false), &i);
    let text = format_report_text(&report);
    assert_eq!(text, "Validation failed: 1 errors, 0 warnings\nERROR template.d/t.json @ $.m: unknown placeholder 'nope'\n");
    let clean = run(opts(false, None, false), &input(default_palettes(), vec![file("ok.json", r#"{"m": "{{build}}"}"#)], vec![]));
    assert_eq!(format_report_text(&clean), "Validation succeeded: no issues found");
}

#[test]
fn paths_are_shown_relative_to_the_config_dir() {
    assert_eq!(display_path("/cfg/template.d/a.json", "/cfg"), "template.d/a.json");
    assert_eq!(display_path("/cfg", "/cfg"), "");
    assert_eq!(display_path("/other/a.json", "/cfg"), "/other/a.json");
    assert_eq!(display_path("/cfgx/a.json", "/cfg"), "/cfgx/a.json");
    assert_eq!(resolve_pattern("/cfg", "template.d/*.json"), "/cfg/template.d/*.json");
    assert_eq!(resolve_pattern("/cfg", "/abs/*.json"), "/abs/*.json");
}

#[test]
fn unmatched_pattern_warns() {
    let i = ValidateInput { palettes: Ok(default_palettes()), listing: Ok(Vec::new()), globs: vec![Ok(Vec::new())], env: Vec::new() };
    let mut o = opts(false, None, false);
    o.templates = vec!["none/*.json".to_string()];
    let report = validate_dir(CFG, o, &i).expect("validate");
    assert_eq!(kinds(&report), vec!["missing-template", "missing-templates"]);
    assert_eq!(report.findings[0].file, "/cfg/none/*.json");
}

#[test]
fn counts_match_findings() {
    let i = input(
        default_palettes(),
        vec![file("a.json", r#"{"x": "{{nope}}", "y": "{{ }}", "agent": {"build": {"variant": "{{other-variant}}"}}}"#)],
        vec![],
    );
    let report = run(opts(false, None, false), &i);
    let errors = report.findings.iter().filter(|f| f.severity == Severity::Error).count() as u32;
    let warnings = report.findings.iter().filter(|f| f.severity == Severity::Warning).count() as u32;
    assert_eq!(report.counts.errors, errors);
    assert_eq!(report.counts.warnings, warnings);
    assert!(errors > 0 && warnings > 0);
}

#[test]
fn strict_validation_reports_only_errors() {
    let configs = palettes(vec![("default", vec![("build", "openrouter/openai/gpt-4o", None)])]);
    let entries = vec![
        file("default.json", r#"{ "agent": { "build": { "variant": "{{build-variant}}", "model": "{{env:NOPE}}" } } }"#),
        file("notes.txt", "{}"),
        dir("split.d", vec![("a.json", r#"{"x": 1}"#), ("b.json", r#"{"x": 2}"#)]),
    ];
    let lenient = run(opts(false, Some(true), false), &input(configs, entries, vec![]));
    assert!(lenient.counts.warnings >= 3);

    let configs = palettes(vec![("default", vec![("build", "openrouter/openai/gpt-4o", None)])]);
    let entries = vec![
        file("default.json", r#"{ "agent": { "build": { "variant": "{{build-variant}}", "model": "{{env:NOPE}}" } } }"#),
        file("notes.txt", "{}"),
        dir("split.d", vec![("a.json", r#"{"x": 1}"#), ("b.json", r#"{"x": 2}"#)]),
    ];
    let strict = run(opts(true, Some(true), false), &input(configs, entries, vec![]));
    assert_eq!(strict.counts.warnings, 0);
    assert_eq!(strict.findings.len(), lenient.findings.len());
    assert_eq!(strict.counts.errors as usize, strict.findings.len());
}

fn placeholder_use(key: &str, path: &str, is_full: bool, json_key: Option<&str>) -> PlaceholderUse {
    PlaceholderUse { key: key.to_string(), path: path.to_string(), is_full, json_key: json_key.map(|k| k.to_string()) }
}

#[test]
fn placeholder_check_reports_env_keys_it_is_given() {
    let configs = ModelConfigs { palettes: KeyedMap::new() };
    let uses = vec![
        placeholder_use("env:x", "$.a", true, Some("a")),
        placeholder_use("env:x-variant", "$.agent.build.variant", true, Some("variant")),
    ];
    let mut report = ReportBuilder::new();
    validate_placeholders(&uses, &configs, "t.json", false, &mut report);
    let r = report.build();
    assert_eq!(r.findings.len(), 2);
    assert_eq!(r.findings[0].kind, "unknown-placeholder");
    assert_eq!(r.findings[0].message, "unknown placeholder 'env:x'");
    assert!(matches!(r.findings[0].severity, Severity::Error));
    assert_eq!(r.findings[1].kind, "missing-variant");
    assert_eq!(r.findings[1].message, "variant placeholder 'env:x-variant' is missing");
    assert!(matches!(r.findings[1].severity, Severity::Warning));
}

#[test]
fn palette_uses_leave_out_env_keys() {
    let uses = vec![
        placeholder_use("build", "$.a", true, None),
        placeholder_use("env:HOME", "$.b", true, None),
        placeholder_use("review", "$.c", false, None),
    ];
    let kept: Vec<String> = palette_uses(&uses).into_iter().map(|u| u.key).collect();
    assert_eq!(kept, vec!["build".to_string(), "review".to_string()]);
}
