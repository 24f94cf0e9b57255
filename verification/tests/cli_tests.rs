use opencode_config::cli::{CreateArgs, SwitchArgs};
use opencode_config::options::RunOptions;

#[test]
fn switch_always_replaces_the_output() {
    let args = SwitchArgs {
        template: "default".to_string(),
        palette: "fast".to_string(),
        out: "opencode.json".to_string(),
        dry_run: false,
    };
    let options = args.create_options(RunOptions::default(), "/cfg".to_string());
    assert!(options.force);
    assert_eq!(options.template, "default");
    assert_eq!(options.palette, "fast");
    assert_eq!(options.out, "opencode.json");
    assert_eq!(options.config_dir, "/cfg");
}

#[test]
fn create_needs_template_and_palette_without_wizard() {
    let mut args = CreateArgs {
        template: None,
        palette: Some("fast".to_string()),
        out: "opencode.json".to_string(),
        force: false,
        dry_run: false,
        interactive: false,
    };
    match args.create_options(RunOptions::default(), "/cfg".to_string()) {
        Err(m) => assert_eq!(m, "template argument is required unless --interactive"),
        Ok(_) => panic!("expected an error without a template"),
    }
    args.template = Some("default".to_string());
    args.palette = None;
    match args.create_options(RunOptions::default(), "/cfg".to_string()) {
        Err(m) => assert_eq!(m, "palette argument is required unless --interactive"),
        Ok(_) => panic!("expected an error without a palette"),
    }
    args.palette = Some("fast".to_string());
    let options = args.create_options(RunOptions { strict: true, env_allow: false, env_mask_logs: false }, "/cfg".to_string()).unwrap();
    assert!(!options.force);
    assert!(options.run_options.strict);
    assert_eq!(options.template, "default");
}
