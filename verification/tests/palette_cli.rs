use opencode_config::cli::{Cli, Commands, ConflictStrategy, PaletteMerge, RenderFormat};
use opencode_config::compose::Conflict;
use opencode_config::config::{AgentConfig, ModelConfigs, Palette};
use opencode_config::json::{JsonMap, JsonValue};
use opencode_config::keyed::KeyedMap;
use opencode_config::palette_io::{
    find_palette, import_palette, merge_palette, palette_conflicts, resolve_import_name, ImportOptions, ImportStatus,
    MergeStrategy, PaletteIoError,
};
use opencode_config::render::OutputFormat;

fn palette(agents: Vec<(&str, &str)>) -> Palette {
    let mut a = KeyedMap::new();
    for (name, model) in agents {
        a.insert(name.to_string(), AgentConfig { model: model.to_string(), variant: None, reasoning: None });
    }
    Palette { agents: a, mapping: JsonMap::new() }
}

fn alpha_configs() -> ModelConfigs {
    let mut ps = KeyedMap::new();
    ps.insert("alpha".to_string(), palette(vec![("build", "openrouter/openai/gpt-4o")]));
    ModelConfigs { palettes: ps }
}

fn import_options(from: &str, merge: MergeStrategy, dry_run: bool, force: bool) -> ImportOptions {
    ImportOptions { from: from.to_string(), name: None, merge, dry_run, force, config_dir: "/cfg".to_string() }
}

#[test]
fn palette_import_requires_force_to_persist() {
    let incoming = palette(vec![("build", "openrouter/openai/gpt-4.1")]);
    let (report, written) = import_palette(&import_options("/work/beta.yaml", MergeStrategy::Merge, false, false), incoming, alpha_configs()).expect("import");
    assert_eq!(report.palette_name, "beta");
    assert_eq!(report.status, ImportStatus::NeedsForce);
    assert!(written.is_none());
}

#[test]
fn palette_import_abort_exits_nonzero() {
    let incoming = palette(vec![("build", "openrouter/openai/gpt-4.1")]);
    let (report, written) = import_palette(&import_options("/work/alpha.yaml", MergeStrategy::Abort, false, true), incoming, alpha_configs()).expect("import");
    assert_eq!(report.status, ImportStatus::Aborted);
    assert!(written.is_none());
}

#[test]
fn palette_import_with_force_writes_new_palette() {
    let incoming = palette(vec![("build", "openrouter/openai/gpt-4.1")]);
    let (report, written) = import_palette(&import_options("/work/beta.yaml", MergeStrategy::Merge, false, true), incoming, alpha_configs()).expect("import");
    assert_eq!(report.status, ImportStatus::Applied);
    assert!(report.created);
    let configs = written.expect("configs to write");
    let names: Vec<&str> = configs.palettes.entries.iter().map(|(k, _)| k.as_str()).collect();
    assert_eq!(names, vec!["alpha", "beta"]);
}

#[test]
fn merge_keeps_existing_agents_and_reports_conflicts() {
    let existing = palette(vec![("build", "a"), ("review", "b")]);
    let incoming = palette(vec![("build", "c"), ("plan", "d")]);
    assert_eq!(palette_conflicts(&existing, &incoming), vec!["agent.build"]);
    let merged = merge_palette(&existing, &incoming);
    let models: Vec<(&str, &str)> = merged.agents.entries.iter().map(|(k, a)| (k.as_str(), a.model.as_str())).collect();
    assert_eq!(models, vec![("build", "a"), ("plan", "d"), ("review", "b")]);
}

#[test]
fn import_name_comes_from_file_stem() {
    assert_eq!(resolve_import_name(None, "/work/beta.yaml").unwrap(), "beta");
    let given = "gamma".to_string();
    assert_eq!(resolve_import_name(Some(&given), "/work/beta.yaml").unwrap(), "gamma");
    assert!(matches!(find_palette(&alpha_configs(), "zeta"), Err(PaletteIoError::MissingPalette { ref name }) if name == "zeta"));
    assert!(find_palette(&alpha_configs(), "alpha").is_ok());
}

fn cli(strict: Option<bool>, no_strict: bool) -> Cli {
    Cli {
        command: Commands::ListPalettes,
        strict,
        no_strict,
        config: None,
        env_allow: Some(true),
        no_env: true,
        env_mask_logs: Some(true),
        no_env_mask_logs: false,
        verbose: false,
    }
}

#[test]
fn negated_flags_win() {
    assert_eq!(cli(Some(true), true).strict_flag(), Some(false));
    assert_eq!(cli(Some(true), false).strict_flag(), Some(true));
    assert_eq!(cli(None, false).strict_flag(), None);
    assert_eq!(cli(None, false).env_allow_flag(), Some(false));
    assert_eq!(cli(None, false).env_mask_logs_flag(), Some(true));
}

#[test]
fn cli_formats_map_to_library_settings() {
    assert_eq!(RenderFormat::Yaml.output_format(), OutputFormat::Yaml);
    assert_eq!(PaletteMerge::Overwrite.strategy(), MergeStrategy::Overwrite);
    assert_eq!(ConflictStrategy::LastWins.conflict(), Conflict::LastWins);
}

fn named_options(name: &str, merge: MergeStrategy) -> ImportOptions {
    ImportOptions {
        from: "/cfg/import.yaml".to_string(),
        name: Some(name.to_string()),
        merge,
        dry_run: false,
        force: true,
        config_dir: "/cfg".to_string(),
    }
}

fn configs_with(name: &str, p: Palette) -> ModelConfigs {
    let mut ps = KeyedMap::new();
    ps.insert(name.to_string(), p);
    ModelConfigs { palettes: ps }
}

#[test]
fn import_palette_aborts_on_conflict() {
    let configs = configs_with("alpha", palette(vec![("build", "openrouter/old")]));
    let incoming = palette(vec![("build", "openrouter/new")]);
    let (report, written) = import_palette(&named_options("alpha", MergeStrategy::Abort), incoming, configs).expect("import palette");
    assert_eq!(report.status, ImportStatus::Aborted);
    assert_eq!(report.conflicts, vec!["agent.build".to_string()]);
    assert!(written.is_none());
}

#[test]
fn import_palette_merges_new_agents() {
    let configs = configs_with("alpha", palette(vec![("build", "openrouter/build")]));
    let mut incoming = palette(vec![("review", "openrouter/review")]);
    incoming.mapping.insert("review-count".to_string(), JsonValue::Number("2".to_string()));
    let (report, written) = import_palette(&named_options("alpha", MergeStrategy::Merge), incoming, configs).expect("import palette");
    assert_eq!(report.status, ImportStatus::Applied);
    assert!(report.conflicts.is_empty());
    let configs = written.expect("configs to write");
    let alpha = configs.palette("alpha").expect("alpha palette");
    assert!(alpha.agents.contains_key("build"));
    assert!(alpha.agents.contains_key("review"));
    assert_eq!(alpha.mapping.get("review-count"), Some(&JsonValue::Number("2".to_string())));
}

#[test]
fn import_palette_overwrite_replaces_existing_agents() {
    let mut existing = palette(vec![("build", "openrouter/old-build"), ("lint", "openrouter/old-lint")]);
    existing.mapping.insert("retries".to_string(), JsonValue::Number("1".to_string()));
    let configs = configs_with("gamma", existing);
    let mut agents = KeyedMap::new();
    agents.insert(
        "build".to_string(),
        AgentConfig { model: "openrouter/new-build".to_string(), variant: Some("turbo".to_string()), reasoning: None },
    );
    let mut mapping = JsonMap::new();
    mapping.insert("retries".to_string(), JsonValue::Number("5".to_string()));
    mapping.insert("extra-flag".to_string(), JsonValue::Bool(true));
    let incoming = Palette { agents, mapping };
    let (report, written) =
        import_palette(&named_options("gamma", MergeStrategy::Overwrite), incoming, configs).expect("import palette with overwrite");
    assert_eq!(report.status, ImportStatus::Applied);
    assert!(!report.created);
    let configs = written.expect("configs to write");
    let gamma = configs.palette("gamma").expect("gamma palette");
    assert_eq!(gamma.agents.len(), 1);
    assert_eq!(gamma.agents.get("build").unwrap().model, "openrouter/new-build");
    assert_eq!(gamma.agents.get("build").unwrap().variant.as_deref(), Some("turbo"));
    assert!(!gamma.agents.contains_key("lint"));
    assert_eq!(gamma.mapping.get("retries"), Some(&JsonValue::Number("5".to_string())));
    assert_eq!(gamma.mapping.get("extra-flag"), Some(&JsonValue::Bool(true)));
    assert_eq!(gamma.mapping.len(), 2);
}
