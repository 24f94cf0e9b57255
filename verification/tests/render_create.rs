use opencode_config::config::{AgentConfig, ConfigError, ModelConfigs, Palette, Reasoning};
use opencode_config::create::{run as create_run, CreateBuilder, CreateError, CreateOptions};
use opencode_config::json::{JsonMap, JsonValue};
use opencode_config::keyed::KeyedMap;
use opencode_config::options::RunOptions;
use opencode_config::render::{render, OutputFormat, RenderError, RenderOptions, RenderOutput};
use opencode_config::template::TemplateError;

fn from_serde(v: serde_json::Value) -> JsonValue {
    match v {
        serde_json::Value::Null => JsonValue::Null,
        serde_json::Value::Bool(b) => JsonValue::Bool(b),
        serde_json::Value::Number(n) => JsonValue::Number(n.to_string()),
        serde_json::Value::String(s) => JsonValue::String(s),
        serde_json::Value::Array(a) => JsonValue::Array(a.into_iter().map(from_serde).collect()),
        serde_json::Value::Object(m) => {
            let mut map = JsonMap::new();
            for (k, v) in m {
                map.insert(k, from_serde(v));
            }
            JsonValue::Object(map)
        }
    }
}

fn to_serde(v: &JsonValue) -> serde_json::Value {
    match v {
        JsonValue::Null => serde_json::Value::Null,
        JsonValue::Bool(b) => serde_json::Value::Bool(*b),
        JsonValue::Number(n) => serde_json::from_str(n).unwrap(),
        JsonValue::String(s) => serde_json::Value::String(s.clone()),
        JsonValue::Array(a) => serde_json::Value::Array(a.iter().map(to_serde).collect()),
        JsonValue::Object(m) => {
            let mut out = serde_json::Map::new();
            for (k, v) in &m.entries {
                out.insert(k.clone(), to_serde(v));
            }
            serde_json::Value::Object(out)
        }
    }
}

fn j(text: &str) -> JsonValue {
    from_serde(serde_json::from_str(text).unwrap())
}

fn map_of(pairs: Vec<(&str, JsonValue)>) -> JsonMap {
    let mut m = JsonMap::new();
    for (k, v) in pairs {
        m.insert(k.to_string(), v);
    }
    m
}

const JSON_TEMPLATE: &str = r#"{
  "agent": {
    "build": {
      "model": "{{build}}",
      "variant": "{{build-variant}}"
    }
  },
  "description": "Build uses {{build}}"
}
"#;

fn sample_configs() -> ModelConfigs {
    let mut agents = KeyedMap::new();
    agents.insert(
        "build".to_string(),
        AgentConfig { model: "openrouter/openai/gpt-4o".to_string(), variant: Some("mini".to_string()), reasoning: Some(Reasoning::Bool(true)) },
    );
    let mut palettes = KeyedMap::new();
    palettes.insert("default".to_string(), Palette { agents, mapping: JsonMap::new() });
    ModelConfigs { palettes }
}

fn render_options(template: &str, palette: &str, format: OutputFormat) -> RenderOptions {
    RenderOptions {
        template: template.to_string(),
        palette: palette.to_string(),
        format,
        strict: false,
        env_allow: false,
        env_mask_logs: false,
        config_dir: "/cfg".to_string(),
    }
}

#[test]
fn render_resolves_template_name() {
    let value = render(&render_options("default", "default", OutputFormat::Json), Ok(sample_configs()), Ok(j(JSON_TEMPLATE)), &no_env()).expect("render");
    let data = serde_json::to_string_pretty(&to_serde(&value)).unwrap();
    let output = RenderOutput::new(data);
    let v: serde_json::Value = serde_json::from_str(&output.data).expect("parse json");
    assert_eq!(v["agent"]["build"]["model"], "openrouter/openai/gpt-4o");
    assert_eq!(v["agent"]["build"]["variant"], "mini");
    assert_eq!(v["agent"]["build"]["reasoningEffort"], "high");
    assert_eq!(v["description"], "Build uses openrouter/openai/gpt-4o");
    assert_eq!(output.lines, output.data.lines().count());
}

#[test]
fn render_outputs_yaml() {
    let value = render(&render_options("default", "default", OutputFormat::Yaml), Ok(sample_configs()), Ok(j(JSON_TEMPLATE)), &no_env()).expect("render");
    let data = serde_yaml::to_string(&to_serde(&value)).unwrap();
    let yaml_value: serde_yaml::Value = serde_yaml::from_str(&data).expect("parse yaml");
    let json_value = serde_json::to_value(yaml_value).expect("convert yaml");
    assert_eq!(json_value["agent"]["build"]["model"], "openrouter/openai/gpt-4o");
    assert_eq!(json_value["agent"]["build"]["variant"], "mini");
}

#[test]
fn render_missing_palette_and_bad_name() {
    match render(&render_options("default", "nope", OutputFormat::Json), Ok(sample_configs()), Ok(j(JSON_TEMPLATE)), &no_env()) {
        Err(RenderError::MissingPalette { name }) => assert_eq!(name, "nope"),
        other => panic!("unexpected: {:?}", other.map(|v| to_serde(&v))),
    }
}

#[test]
fn render_output_counts_lines() {
    assert_eq!(RenderOutput::new("a\nb\n".to_string()).lines, 2);
    assert_eq!(RenderOutput::new("a\nb".to_string()).lines, 2);
    assert_eq!(RenderOutput::new(String::new()).lines, 0);
}

fn no_env() -> Vec<(String, String)> {
    Vec::new()
}

fn create_options(template: &str, palette: &str, force: bool) -> CreateOptions {
    CreateOptions {
        template: template.to_string(),
        palette: palette.to_string(),
        out: "/work/opencode.json".to_string(),
        force,
        run_options: RunOptions::default(),
        config_dir: "/cfg".to_string(),
    }
}

#[test]
fn missing_palette_error() {
    let builder = CreateBuilder::new(create_options("default", "nonexistent", false));
    match builder.select_palette(Ok(sample_configs())) {
        Err(CreateError::MissingPalette { name }) => assert_eq!(name, "nonexistent"),
        Err(other) => panic!("expected MissingPalette, got: {other:?}"),
        Ok(_) => panic!("expected error for missing palette"),
    }
}

#[test]
fn invalid_template_name_error() {
    let builder = CreateBuilder::new(create_options("foo/bar", "default", false));
    let builder = builder.select_palette(Ok(sample_configs())).expect("select_palette");
    match builder.load_template(Ok(j(JSON_TEMPLATE))) {
        Err(CreateError::InvalidTemplateName { name }) => assert_eq!(name, "foo/bar"),
        Err(other) => panic!("expected InvalidTemplateName, got: {other:?}"),
        Ok(_) => panic!("expected error for invalid template name"),
    }
    let builder2 = CreateBuilder::new(create_options("default.json", "default", false));
    let builder2 = builder2.select_palette(Ok(sample_configs())).expect("select_palette");
    match builder2.load_template(Ok(j(JSON_TEMPLATE))) {
        Err(CreateError::InvalidTemplateName { name }) => assert_eq!(name, "default.json"),
        Err(other) => panic!("expected InvalidTemplateName, got: {other:?}"),
        Ok(_) => panic!("expected error for template name with extension"),
    }
}

#[test]
fn create_rejects_invalid_template_names_before_loading() {
    for name in ["foo/bar", "default.json", "..", ""] {
        match create_run(create_options(name, "default", false), false, Ok(sample_configs()), Ok(j(JSON_TEMPLATE)), &no_env()) {
            Err(CreateError::InvalidTemplateName { name: got }) => assert_eq!(got, name),
            Err(other) => panic!("expected InvalidTemplateName, got: {other:?}"),
            Ok(_) => panic!("expected error for invalid template name"),
        }
    }
}

#[test]
fn builder_steps_resolve_aliases_then_substitute() {
    let template = j(r#"{"agent": {"build": {"model": "{{agent-build-model}}"}}, "note": "{{agent-build-variant}}"}"#);
    let builder = CreateBuilder::new(create_options("default", "default", false));
    assert!(builder.warn_env_flags().is_empty());
    let builder = builder.ensure_output(false).unwrap().select_palette(Ok(sample_configs())).unwrap();
    let builder = builder.load_template(Ok(template)).unwrap().apply_aliases().unwrap();
    assert_eq!(to_serde(&builder.state.template_value)["agent"]["build"]["model"], "openrouter/openai/gpt-4o");
    assert_eq!(to_serde(&builder.state.template_value)["note"], "{{agent-build-variant}}");
    let builder = builder.build_mapping(&no_env()).unwrap().substitute_placeholders().unwrap();
    let (out, value) = builder.write_output();
    assert_eq!(out, "/work/opencode.json");
    assert_eq!(to_serde(&value)["note"], "mini");
}

#[test]
fn warn_env_flags_lists_unused_options() {
    let mut options = create_options("default", "default", false);
    assert!(CreateBuilder::new(create_options("default", "default", false)).warn_env_flags().is_empty());
    options.run_options.env_allow = true;
    let only_env_allow = CreateOptions { run_options: options.run_options, ..create_options("default", "default", false) };
    assert!(CreateBuilder::new(only_env_allow).warn_env_flags().is_empty());
    options.run_options.env_mask_logs = true;
    let warnings = CreateBuilder::new(options).warn_env_flags();
    assert_eq!(warnings, vec!["warning: --env-mask-logs is currently unsupported for create/switch".to_string()]);
}

#[test]
fn create_refuses_existing_output_without_force() {
    match create_run(create_options("default", "default", false), true, Ok(sample_configs()), Ok(j(JSON_TEMPLATE)), &no_env()) {
        Err(CreateError::OutputExists { path }) => assert_eq!(path, "/work/opencode.json"),
        other => panic!("unexpected: {:?}", other.map(|v| to_serde(&v))),
    }
    let v = create_run(create_options("default", "default", true), true, Ok(sample_configs()), Ok(j(JSON_TEMPLATE)), &no_env()).expect("force");
    assert_eq!(to_serde(&v)["agent"]["build"]["variant"], "mini");
}

#[test]
fn create_reports_template_and_config_errors() {
    let missing = TemplateError::MissingDir { path: "/cfg/template.d".to_string() };
    assert!(matches!(create_run(create_options("default", "default", false), false, Ok(sample_configs()), Err(missing), &no_env()), Err(CreateError::Template(_))));
    let io = std::io::Error::new(std::io::ErrorKind::NotFound, "gone");
    let err = ConfigError::Read { path: "/cfg/model-configs.yaml".to_string(), source: io };
    assert!(matches!(create_run(create_options("default", "default", false), false, Err(err), Ok(j(JSON_TEMPLATE)), &no_env()), Err(CreateError::Config(_))));
}

#[test]
fn create_writes_what_render_shows() {
    let rendered = render(&render_options("default", "default", OutputFormat::Json), Ok(sample_configs()), Ok(j(JSON_TEMPLATE)), &no_env())
        .expect("render");
    let created = create_run(create_options("default", "default", false), false, Ok(sample_configs()), Ok(j(JSON_TEMPLATE)), &no_env())
        .expect("create");
    assert_eq!(to_serde(&created), to_serde(&rendered));
    assert_eq!(to_serde(&created)["agent"]["build"]["model"], "openrouter/openai/gpt-4o");
}

#[test]
fn new_builder_stores_options() {
    let builder = CreateBuilder::new(create_options("default", "default", false));
    let builder = builder.ensure_output(false).expect("ensure_output should pass for non-existing path");
    assert_eq!(builder.options.out, "/work/opencode.json");
    let forced = CreateBuilder::new(create_options("default", "default", true));
    forced.ensure_output(true).expect("ensure_output should pass when force=true");
}

#[test]
fn output_exists_error_when_not_forced() {
    let builder = CreateBuilder::new(create_options("default", "default", false));
    match builder.ensure_output(true) {
        Err(CreateError::OutputExists { path }) => assert_eq!(path, "/work/opencode.json"),
        Err(other) => panic!("expected OutputExists, got: {other:?}"),
        Ok(_) => panic!("expected error when output exists and force=false"),
    }
}

#[test]
fn end_to_end_run_writes_substituted_output() {
    let template = j(r#"{"agent": {"build": {"model": "{{agent-build-model}}", "variant": "{{agent-build-variant}}"}}}"#);
    let value = CreateBuilder::new(create_options("default", "default", false))
        .run(false, Ok(sample_configs()), Ok(template), &no_env())
        .expect("run should succeed");
    let v = to_serde(&value);
    assert_eq!(v["agent"]["build"]["model"], "openrouter/openai/gpt-4o");
    assert_eq!(v["agent"]["build"]["variant"], "mini");
}
