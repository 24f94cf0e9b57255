use opencode_config::cli::SwitchArgs;
use opencode_config::config::{AgentConfig, ModelConfigs, Palette};
use opencode_config::create::{run as create_run, CreateError, CreateOptions};
use opencode_config::json::{JsonMap, JsonValue};
use opencode_config::keyed::KeyedMap;
use opencode_config::options::{resolve_run_options, strict_from_env_value, RunOptions, RunOptionsConfig};
use opencode_config::render::{render, render_warnings, OutputFormat, RenderError, RenderOptions};
use opencode_config::substitute::SubstituteError;

fn from_serde(v: serde_json::Value) -> JsonValue {
    match v {
        serde_json::Value::Null => JsonValue::Null,
        serde_json::Value::Bool(b) => JsonValue::Bool(b),
        serde_json::Value::Number(n) => JsonValue::Number(n.to_string()),
        serde_json::Value::String(s) => JsonValue::String(s),
        serde_json::Value::Array(a) => JsonValue::Array(a.into_iter().map(from_serde).collect()),
        serde_json::Value::Object(m) => {
            let mut map = JsonMap::new();
            for (k, v) in m {
                map.insert(k, from_serde(v));
            }
            JsonValue::Object(map)
        }
    }
}

fn to_serde(v: &JsonValue) -> serde_json::Value {
    match v {
        JsonValue::Null => serde_json::Value::Null,
        JsonValue::Bool(b) => serde_json::Value::Bool(*b),
        JsonValue::Number(n) => serde_json::from_str(n).unwrap(),
        JsonValue::String(s) => serde_json::Value::String(s.clone()),
        JsonValue::Array(a) => serde_json::Value::Array(a.iter().map(to_serde).collect()),
        JsonValue::Object(m) => {
            let mut out = serde_json::Map::new();
            for (k, v) in &m.entries {
                out.insert(k.clone(), to_serde(v));
            }
            serde_json::Value::Object(out)
        }
    }
}

fn j(text: &str) -> JsonValue {
    from_serde(serde_json::from_str(text).unwrap())
}

fn agent(model: &str, variant: Option<&str>) -> AgentConfig {
    AgentConfig { model: model.to_string(), variant: variant.map(|v| v.to_string()), reasoning: None }
}

fn configs(name: &str, agents: Vec<(&str, AgentConfig)>, mapping: &str) -> ModelConfigs {
    let mut a = KeyedMap::new();
    for (n, c) in agents {
        a.insert(n.to_string(), c);
    }
    let mapping = match j(mapping) {
        JsonValue::Object(m) => m,
        _ => JsonMap::new(),
    };
    let mut palettes = KeyedMap::new();
    palettes.insert(name.to_string(), Palette { agents: a, mapping });
    ModelConfigs { palettes }
}

fn env(pairs: &[(&str, &str)]) -> Vec<(String, String)> {
    pairs.iter().map(|(k, v)| (k.to_string(), v.to_string())).collect()
}

fn create_options(template: &str, palette: &str, run_options: RunOptions) -> CreateOptions {
    CreateOptions {
        template: template.to_string(),
        palette: palette.to_string(),
        out: "opencode.json".to_string(),
        force: false,
        run_options,
        config_dir: "/cfg".to_string(),
    }
}

// ----- render with environment placeholders -----

const RENDER_ENV_TEMPLATE: &str = r#"{
  "agent": {
    "build": {
      "model": "{{build}}",
      "variant": "{{build-variant}}",
      "apiKey": "{{env:OCFG_INTEG_RENDER_KEY}}"
    }
  },
  "description": "Build uses {{build}}"
}"#;

fn render_configs() -> ModelConfigs {
    configs("default", vec![("build", AgentConfig { reasoning: Some(opencode_config::config::Reasoning::Bool(true)), ..agent("openrouter/openai/gpt-4o", Some("mini")) })], "{}")
}

fn render_options(strict: bool, env_allow: bool, env_mask_logs: bool) -> RenderOptions {
    RenderOptions {
        template: "env-test".to_string(),
        palette: "default".to_string(),
        format: OutputFormat::Json,
        strict,
        env_allow,
        env_mask_logs,
        config_dir: "/cfg".to_string(),
    }
}

#[test]
fn render_env_allow_resolves_env_placeholder() {
    let e = env(&[("OCFG_INTEG_RENDER_KEY", "sk-integration-secret")]);
    let value = render(&render_options(false, true, false), Ok(render_configs()), Ok(j(RENDER_ENV_TEMPLATE)), &e).expect("render");
    let v = to_serde(&value);
    assert_eq!(v["agent"]["build"]["apiKey"], "sk-integration-secret");
    assert_eq!(v["agent"]["build"]["model"], "openrouter/openai/gpt-4o");
}

#[test]
fn render_without_env_allow_leaves_placeholder() {
    let e = env(&[("OCFG_INTEG_RENDER_KEY", "should-not-appear")]);
    let value = render(&render_options(false, false, false), Ok(render_configs()), Ok(j(RENDER_ENV_TEMPLATE)), &e).expect("render");
    assert_eq!(to_serde(&value)["agent"]["build"]["apiKey"], "{{env:OCFG_INTEG_RENDER_KEY}}");
}

#[test]
fn render_env_allow_strict_missing_var_fails() {
    let e = env(&[("OTHER", "x")]);
    match render(&render_options(true, true, false), Ok(render_configs()), Ok(j(RENDER_ENV_TEMPLATE)), &e) {
        Err(RenderError::Substitute(SubstituteError::MissingPlaceholder { key })) => {
            assert!(key.contains("OCFG_INTEG_RENDER_KEY") || key.contains("env:"), "got {key}")
        }
        other => panic!("expected a missing placeholder, got: {other:?}"),
    }
}

#[test]
fn render_env_mask_logs_does_not_alter_output() {
    let secret = "sk-mask-test-value";
    let e = env(&[("OCFG_INTEG_RENDER_KEY", secret)]);
    let options = render_options(false, true, true);
    let value = render(&options, Ok(render_configs()), Ok(j(RENDER_ENV_TEMPLATE)), &e).expect("render");
    assert_eq!(to_serde(&value)["agent"]["build"]["apiKey"], secret);
    assert!(render_warnings(&options).iter().all(|w| !w.contains(secret)));
}

// ----- create with environment placeholders -----

const CREATE_ENV_TEMPLATE: &str = r#"{
  "agent": {
    "build": {
      "model": "{{build}}",
      "apiKey": "{{env:OCFG_INTEG_CREATE_KEY}}"
    }
  }
}"#;

fn github_configs() -> ModelConfigs {
    configs(
        "github",
        vec![("build", agent("openrouter/openai/gpt-4o", Some("mini"))), ("review", agent("openrouter/openai/gpt-4o", None))],
        r#"{"build-variant": "mini", "review-variant": "mini"}"#,
    )
}

fn env_run_options(strict: bool, env_allow: bool, env_mask_logs: bool) -> RunOptions {
    RunOptions { strict, env_allow, env_mask_logs }
}

#[test]
fn create_resolves_env_placeholder_with_env_allow() {
    let e = env(&[("OCFG_INTEG_CREATE_KEY", "sk-secret-42")]);
    let value = create_run(create_options("env", "github", env_run_options(false, true, false)), false, Ok(github_configs()), Ok(j(CREATE_ENV_TEMPLATE)), &e)
        .expect("create");
    assert_eq!(to_serde(&value)["agent"]["build"]["apiKey"], "sk-secret-42");
}

#[test]
fn create_leaves_env_placeholder_without_env_allow() {
    let e = env(&[("OCFG_INTEG_CREATE_KEY", "sk-secret-42")]);
    let value = create_run(create_options("env", "github", env_run_options(false, false, false)), false, Ok(github_configs()), Ok(j(CREATE_ENV_TEMPLATE)), &e)
        .expect("create");
    assert_eq!(to_serde(&value)["agent"]["build"]["apiKey"], "{{env:OCFG_INTEG_CREATE_KEY}}");
}

#[test]
fn create_strict_errors_on_missing_env_var() {
    match create_run(create_options("env", "github", env_run_options(true, true, false)), false, Ok(github_configs()), Ok(j(CREATE_ENV_TEMPLATE)), &env(&[])) {
        Err(CreateError::Substitute(SubstituteError::MissingPlaceholder { key })) => {
            assert!(key.contains("env") && key.contains("OCFG_INTEG_CREATE_KEY"), "got {key}")
        }
        other => panic!("expected a missing placeholder, got: {other:?}"),
    }
}

#[test]
fn create_env_mask_logs_does_not_affect_output() {
    let e = env(&[("OCFG_INTEG_CREATE_KEY", "real-secret-value")]);
    let value = create_run(create_options("env", "github", env_run_options(false, true, true)), false, Ok(github_configs()), Ok(j(CREATE_ENV_TEMPLATE)), &e)
        .expect("create");
    assert_eq!(to_serde(&value)["agent"]["build"]["apiKey"], "real-secret-value");
}

#[test]
fn create_rejects_template_with_extension() {
    match create_run(create_options("default.json", "github", RunOptions::default()), false, Ok(github_configs()), Ok(j(CREATE_ENV_TEMPLATE)), &env(&[])) {
        Err(CreateError::InvalidTemplateName { name }) => assert_eq!(name, "default.json"),
        other => panic!("expected an invalid template name, got: {other:?}"),
    }
}

#[test]
fn switch_rejects_template_with_path() {
    let args = SwitchArgs { template: "../default".to_string(), palette: "github".to_string(), out: "opencode.json".to_string(), dry_run: false };
    let options = args.create_options(RunOptions::default(), "/cfg".to_string());
    match create_run(options, true, Ok(github_configs()), Ok(j(r#"{"agent": {"build": {"model": "{{build}}"}}}"#)), &env(&[])) {
        Err(CreateError::InvalidTemplateName { name }) => assert_eq!(name, "../default"),
        other => panic!("expected an invalid template name, got: {other:?}"),
    }
}

// ----- strict mode precedence -----

const STRICT_TEMPLATE: &str = r#"{
  "agent": {
    "build": {
      "model": "{{build}}",
      "variant": "{{build-variant}}"
    }
  }
}"#;

fn strict_create(cli: Option<bool>, config_strict: Option<bool>, env_var: Option<&str>) -> Result<serde_json::Value, CreateError> {
    let config = config_strict.map(|s| RunOptionsConfig { strict: Some(s), env_allow: None, env_mask_logs: None });
    let run_options = resolve_run_options(cli, None, None, config.as_ref(), strict_from_env_value(env_var).unwrap());
    let c = configs("default", vec![("build", agent("openrouter/openai/gpt-4o", None))], "{}");
    create_run(create_options("default", "default", run_options), false, Ok(c), Ok(j(STRICT_TEMPLATE)), &env(&[])).map(|v| to_serde(&v))
}

fn assert_missing_placeholder(r: Result<serde_json::Value, CreateError>) {
    match r {
        Err(CreateError::Substitute(SubstituteError::MissingPlaceholder { .. })) => {}
        other => panic!("expected a missing placeholder, got: {other:?}"),
    }
}

#[test]
fn strict_default_is_permissive() {
    let value = strict_create(None, None, None).expect("create");
    assert_eq!(value["agent"]["build"]["model"], "openrouter/openai/gpt-4o");
    assert!(value["agent"]["build"].get("variant").is_none());
}

#[test]
fn strict_env_enables_errors() {
    assert_missing_placeholder(strict_create(None, None, Some("1")));
}

#[test]
fn strict_config_enables_errors() {
    assert_missing_placeholder(strict_create(None, Some(true), None));
}

#[test]
fn strict_config_overrides_env() {
    let value = strict_create(None, Some(false), Some("1")).expect("create");
    assert!(value["agent"]["build"].get("variant").is_none());
}

#[test]
fn strict_cli_overrides_config() {
    assert_missing_placeholder(strict_create(Some(true), Some(false), None));
}

#[test]
fn strict_cli_overrides_env() {
    let value = strict_create(Some(false), None, Some("1")).expect("create");
    assert!(value["agent"]["build"].get("variant").is_none());
}

#[test]
fn strict_cli_overrides_config_true() {
    let value = strict_create(Some(false), Some(true), None).expect("create");
    assert!(value["agent"]["build"].get("variant").is_none());
}

// ----- non-string values -----

const NONSTRING_TEMPLATE: &str = r#"{
  "agent": {
    "build": {
      "model": "{{build}}"
    }
  },
  "payload": "{{payload}}",
  "description": "Build uses {{build}}",
  "message": "Count is {{count}}"
}"#;

fn nonstring_create(strict: bool) -> Result<serde_json::Value, CreateError> {
    let c = configs(
        "default",
        vec![("build", agent("openrouter/openai/gpt-4o", None))],
        r#"{"payload": {"nested": ["a", "b"], "enabled": false}, "count": 3}"#,
    );
    let run_options = RunOptions { strict, env_allow: false, env_mask_logs: false };
    create_run(create_options("default", "default", run_options), false, Ok(c), Ok(j(NONSTRING_TEMPLATE)), &env(&[])).map(|v| to_serde(&v))
}

#[test]
fn integration_nonstring_object_into_template() {
    let output = nonstring_create(false).expect("create");
    assert_eq!(output["agent"]["build"]["model"], "openrouter/openai/gpt-4o");
    assert_eq!(output["payload"], serde_json::from_str::<serde_json::Value>(r#"{"nested": ["a", "b"], "enabled": false}"#).unwrap());
    assert_eq!(output["message"], "Count is 3");
}

#[test]
fn integration_nonstring_in_string_strict_vs_permissive() {
    let output = nonstring_create(false).expect("create");
    assert_eq!(output["description"], "Build uses openrouter/openai/gpt-4o");
    match nonstring_create(true) {
        Err(CreateError::Substitute(SubstituteError::NonStringInStringPlaceholder { .. })) => {}
        other => panic!("expected a non-string-in-string error, got: {other:?}"),
    }
}
