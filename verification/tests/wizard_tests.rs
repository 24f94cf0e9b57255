use opencode_config::config::{AgentConfig, ModelConfigs, Palette};
use opencode_config::json::{JsonMap, JsonValue};
use opencode_config::keyed::KeyedMap;
use opencode_config::options::RunOptions;
use opencode_config::template::{apply_alias_models, build_mapping};
use opencode_config::wizard::{
    add_env_values, agent_names, apply_agent_override, check_output, collect_placeholders, finalize,
    placeholder_answer, placeholders_to_prompt, prompt_with_default, resolve_editor, resolve_env_placeholders,
    select_palette, select_template, selected_agent, split_command, substitute_placeholders, WizardError,
};

fn from_serde(v: serde_json::Value) -> JsonValue {
    match v {
        serde_json::Value::Null => JsonValue::Null,
        serde_json::Value::Bool(b) => JsonValue::Bool(b),
        serde_json::Value::Number(n) => JsonValue::Number(n.to_string()),
        serde_json::Value::String(s) => JsonValue::String(s),
        serde_json::Value::Array(a) => JsonValue::Array(a.into_iter().map(from_serde).collect()),
        serde_json::Value::Object(m) => {
            let mut map = JsonMap::new();
            for (k, v) in m {
                map.insert(k, from_serde(v));
            }
            JsonValue::Object(map)
        }
    }
}

fn to_serde(v: &JsonValue) -> serde_json::Value {
    match v {
        JsonValue::Null => serde_json::Value::Null,
        JsonValue::Bool(b) => serde_json::Value::Bool(*b),
        JsonValue::Number(n) => serde_json::from_str(n).unwrap(),
        JsonValue::String(s) => serde_json::Value::String(s.clone()),
        JsonValue::Array(a) => serde_json::Value::Array(a.iter().map(to_serde).collect()),
        JsonValue::Object(m) => {
            let mut out = serde_json::Map::new();
            for (k, v) in &m.entries {
                out.insert(k.clone(), to_serde(v));
            }
            serde_json::Value::Object(out)
        }
    }
}

fn j(text: &str) -> JsonValue {
    from_serde(serde_json::from_str(text).unwrap())
}

fn map_of(pairs: Vec<(&str, JsonValue)>) -> JsonMap {
    let mut m = JsonMap::new();
    for (k, v) in pairs {
        m.insert(k.to_string(), v);
    }
    m
}

fn configs(variant: Option<&str>) -> ModelConfigs {
    let mut agents = KeyedMap::new();
    agents.insert("build".to_string(), AgentConfig { model: "openrouter/build".to_string(), variant: variant.map(|v| v.to_string()), reasoning: None });
    let mut palettes = KeyedMap::new();
    palettes.insert("default".to_string(), Palette { agents, mapping: JsonMap::new() });
    ModelConfigs { palettes }
}

/// Answers in the order the wizard asks: template, palette, agents to
/// override (with model and variant answers), placeholder values, final
/// confirmation.
struct Script {
    template: &'static str,
    palette: &'static str,
    overrides: Vec<(usize, &'static str, &'static str)>,
    values: Vec<&'static str>,
    confirm: bool,
}

fn drive(template_text: &str, configs: &ModelConfigs, options: RunOptions, script: Script) -> Result<JsonValue, WizardError> {
    check_output("/out/opencode.json", false, false)?;
    let templates = vec!["default".to_string()];
    let default_name = "default".to_string();
    let _template = select_template(script.template, Some(&default_name), &templates)?;
    let mut palette = select_palette(script.palette, Some(&default_name), configs)?;
    let names = agent_names(&palette);
    for (index, model, variant) in &script.overrides {
        let name = selected_agent(&names, *index)?;
        apply_agent_override(&mut palette, &name, model, variant)?;
    }
    let mut value = j(template_text);
    apply_alias_models(&mut value, &palette);
    let mut mapping = build_mapping(&palette);
    let keys = collect_placeholders(&value)?;
    let ask = placeholders_to_prompt(&keys, &mapping);
    for (key, answer) in ask.iter().zip(script.values.iter()) {
        let parsed = serde_json::from_str::<serde_json::Value>(answer).ok().map(from_serde);
        if let Some(v) = placeholder_answer(key, answer, options.strict, parsed)? {
            mapping.insert(key.clone(), v);
        }
    }
    let env_values = resolve_env_placeholders(&keys, options, &Vec::new())?;
    add_env_values(&mut mapping, &env_values);
    substitute_placeholders(&mut value, &mapping, options.strict)?;
    finalize(script.confirm)?;
    Ok(value)
}

#[test]
fn wizard_writes_output_after_confirm() {
    let options = RunOptions { strict: true, env_allow: true, env_mask_logs: true };
    let script = Script { template: "default", palette: "default", overrides: vec![], values: vec!["demo"], confirm: true };
    let value = drive(
        r#"{"agent": {"build": {"model": "{{build}}", "variant": "{{build-variant}}"}}, "name": "{{project-name}}"}"#,
        &configs(Some("mini")),
        options,
        script,
    )
    .expect("wizard run");
    let v = to_serde(&value);
    assert_eq!(v["agent"]["build"]["model"], "openrouter/build");
    assert_eq!(v["agent"]["build"]["variant"], "mini");
    assert_eq!(v["name"], "demo");
}

#[test]
fn wizard_aborts_without_confirmation() {
    let script = Script { template: "default", palette: "default", overrides: vec![], values: vec![], confirm: false };
    let err = drive(r#"{"agent": {"build": {"model": "{{build}}"}}}"#, &configs(None), RunOptions::default(), script).expect_err("wizard aborted");
    match err {
        WizardError::Aborted => {}
        other => panic!("unexpected error: {other:?}"),
    }
}

#[test]
fn confirm_rejection_aborts() {
    let script = Script { template: "", palette: "", overrides: vec![], values: vec![], confirm: false };
    let err = drive(r#"{"agent": {"build": {"model": "{{build}}"}}}"#, &configs(None), RunOptions::default(), script).expect_err("aborted");
    assert!(matches!(err, WizardError::Aborted));
}

#[test]
fn wizard_applies_agent_override() {
    let script = Script { template: "default", palette: "default", overrides: vec![(0, "custom/model", "-")], values: vec![], confirm: true };
    let value = drive(
        r#"{"agent": {"build": {"model": "{{build}}", "variant": "{{build-variant}}"}}}"#,
        &configs(Some("mini")),
        RunOptions::default(),
        script,
    )
    .expect("wizard run");
    let v = to_serde(&value);
    assert_eq!(v["agent"]["build"]["model"], "custom/model");
    assert!(v["agent"]["build"].get("variant").is_none());
}

#[test]
fn blank_answers_take_defaults() {
    let d = "default".to_string();
    assert_eq!(prompt_with_default("  ", Some(&d)), "default");
    assert_eq!(prompt_with_default("x", Some(&d)), "x");
    assert_eq!(prompt_with_default("", None), "");
}

#[test]
fn template_choice_rules() {
    let listed = vec!["default".to_string()];
    assert_eq!(select_template(" default ", None, &listed).unwrap(), "default");
    assert!(matches!(select_template("   ", None, &listed), Err(WizardError::InvalidTemplateName { ref name }) if name == "   "));
    assert!(matches!(select_template("x.json", None, &listed), Err(WizardError::InvalidTemplateName { ref name }) if name == "x.json"));
    assert!(matches!(select_template("other", None, &listed), Err(WizardError::InvalidTemplateName { ref name }) if name == "other"));
    assert_eq!(select_template("other", None, &Vec::new()).unwrap(), "other");
}

#[test]
fn palette_choice_rules() {
    let c = configs(None);
    assert_eq!(select_palette("default", None, &c).unwrap().agents.entries.len(), 1);
    assert!(matches!(select_palette("nope", None, &c), Err(WizardError::MissingPalette { ref name }) if name == "nope"));
    assert!(matches!(select_palette("  ", None, &c), Err(WizardError::MissingPalette { ref name }) if name == "  "));
}

#[test]
fn override_keeps_blank_answers_and_rejects_bad_selection() {
    let c = configs(Some("mini"));
    let mut palette = select_palette("default", None, &c).unwrap();
    apply_agent_override(&mut palette, "build", " ", "").unwrap();
    let a = &palette.agents.entries[0].1;
    assert_eq!(a.model, "openrouter/build");
    assert_eq!(a.variant.as_deref(), Some("mini"));
    apply_agent_override(&mut palette, "build", " new/model ", " large ").unwrap();
    let a = &palette.agents.entries[0].1;
    assert_eq!(a.model, "new/model");
    assert_eq!(a.variant.as_deref(), Some("large"));
    let names = agent_names(&palette);
    assert!(matches!(selected_agent(&names, 3), Err(WizardError::Prompt(ref m)) if m == "invalid agent selection"));
    assert!(matches!(apply_agent_override(&mut palette, "ghost", "a", "b"), Err(WizardError::Prompt(ref m)) if m == "missing agent"));
}

#[test]
fn placeholders_are_sorted_and_filtered() {
    let value = j(r#"{"a": "{{ zeta }} and {{alpha}}", "b": ["{{env:HOME}}", "{{alpha}}"], "c": "{{known}}"}"#);
    let keys = collect_placeholders(&value).unwrap();
    assert_eq!(keys, vec!["alpha", "env:HOME", "known", "zeta"]);
    let mut mapping = JsonMap::new();
    mapping.insert("known".to_string(), j("1"));
    assert_eq!(placeholders_to_prompt(&keys, &mapping), vec!["alpha", "zeta"]);
}

#[test]
fn placeholder_answers() {
    assert!(placeholder_answer("k", "  ", false, None).unwrap().is_none());
    assert!(matches!(placeholder_answer("k", "", true, None), Err(WizardError::Prompt(ref m)) if m == "missing value for placeholder k in strict mode"));
    let v = placeholder_answer("k", "42", false, Some(j("42"))).unwrap().unwrap();
    assert_eq!(to_serde(&v), serde_json::Value::from(42));
    let s = placeholder_answer("k", "plain", false, None).unwrap().unwrap();
    assert_eq!(to_serde(&s), serde_json::Value::String("plain".to_string()));
}

#[test]
fn env_placeholders_resolve_only_when_allowed() {
    let keys = vec!["env:HOME".to_string(), "other".to_string()];
    let env = vec![("HOME".to_string(), "/home/me".to_string())];
    let off = RunOptions { strict: true, env_allow: false, env_mask_logs: false };
    assert!(resolve_env_placeholders(&keys, off, &env).unwrap().is_empty());
    let on = RunOptions { strict: true, env_allow: true, env_mask_logs: false };
    assert_eq!(resolve_env_placeholders(&keys, on, &env).unwrap(), vec![("env:HOME".to_string(), "/home/me".to_string())]);
    match resolve_env_placeholders(&keys, on, &Vec::new()) {
        Err(WizardError::Substitute(opencode_config::substitute::SubstituteError::MissingPlaceholder { key })) => assert_eq!(key, "env:HOME"),
        other => panic!("unexpected: {other:?}"),
    }
}

#[test]
fn existing_output_needs_force() {
    assert!(matches!(check_output("/o.json", true, false), Err(WizardError::OutputExists { ref path }) if path == "/o.json"));
    assert!(check_output("/o.json", true, true).is_ok());
    assert!(check_output("/o.json", false, false).is_ok());
}

#[test]
fn editor_command_lines() {
    assert_eq!(split_command("vim"), vec!["vim"]);
    assert_eq!(split_command("code --wait"), vec!["code", "--wait"]);
    assert_eq!(split_command("  emacs\t-nw  "), vec!["emacs", "-nw"]);
    assert_eq!(split_command(r#""/opt/my editor/bin" -x"#), vec!["/opt/my editor/bin", "-x"]);
    assert_eq!(split_command(r#"a 'b "c" d' e\ f"#), vec!["a", "b \"c\" d", "e f"]);
    assert_eq!(split_command(""), Vec::<String>::new());
    assert_eq!(resolve_editor(Some("  ".to_string())), None);
    assert_eq!(resolve_editor(Some("vi".to_string())), Some("vi".to_string()));
}

#[test]
fn split_command_without_quotes_splits_at_blanks() {
    for line in ["code  --wait\tfile.txt", "  vim ", "", "a b\t\tc"] {
        let expected: Vec<String> = line.split(|c| c == ' ' || c == '\t').filter(|s| !s.is_empty()).map(String::from).collect();
        assert_eq!(split_command(line), expected);
    }
    assert!(split_command("'' \"\" x").iter().all(|w| !w.is_empty()));
}
