use opencode_config::compose::extract_agent_name;
use opencode_config::decompose::{format_timestamp, make_backup_path, days_to_ymd, backup_path_at};
use opencode_config::env_resolve::format_masked;
use opencode_config::template::is_valid_template_name;

#[test]
fn extract_agent_name_numbered() {
    assert_eq!(extract_agent_name("01-build.json").as_deref(), Some("build"));
    assert_eq!(extract_agent_name("02-review.yaml").as_deref(), Some("review"));
    assert_eq!(extract_agent_name("99-security.yml").as_deref(), Some("security"));
    assert_eq!(extract_agent_name("1-code-review.json").as_deref(), Some("code-review"));
}

#[test]
fn extract_agent_name_no_match() {
    assert_eq!(extract_agent_name("_global.json"), None);
    assert_eq!(extract_agent_name("overrides.json"), None);
    assert_eq!(extract_agent_name("build.json"), None);
    assert_eq!(extract_agent_name("01-.json"), None);
    assert_eq!(extract_agent_name("-build.json"), None);
}

#[test]
fn backup_filename_format() {
    let backup = make_backup_path("/tmp/template.d/default.json");
    let name = std::path::Path::new(&backup).file_name().unwrap().to_str().unwrap().to_string();
    assert!(name.starts_with("default.json.bak."), "backup name: {name}");
    let suffix = name.strip_prefix("default.json.bak.").unwrap();
    assert_eq!(suffix.len(), 15, "timestamp should be 15 chars: {suffix}");
    assert!(suffix.contains('T'), "should contain 'T' separator: {suffix}");
}

#[test]
fn format_timestamp_known_value() {
    let ts = format_timestamp(1704110400);
    assert_eq!(ts, "20240101T120000");
}

#[test]
fn format_timestamp_epoch() {
    let ts = format_timestamp(0);
    assert_eq!(ts, "19700101T000000");
}

#[test]
fn mask_empty() {
    assert_eq!(format_masked(""), "");
}

#[test]
fn mask_single_char() {
    assert_eq!(format_masked("x"), "*");
}

#[test]
fn mask_two_chars() {
    assert_eq!(format_masked("ab"), "**");
}

#[test]
fn mask_three_chars() {
    assert_eq!(format_masked("abc"), "a*c");
}

#[test]
fn mask_long_string() {
    assert_eq!(format_masked("secret_key"), "s********y");
}

#[test]
fn mask_unicode() {
    assert_eq!(format_masked("αβγ"), "α*γ");
    assert_eq!(format_masked("日本語"), "日*語");
}

#[test]
fn validate_template_name_accepts_base_names() {
    for name in ["default", "my-template", "my_template"] {
        assert!(is_valid_template_name(name));
    }
}

#[test]
fn validate_template_name_rejects_paths_and_extensions() {
    for name in ["default.json", "default.yaml", "default.yml", "foo/bar", "../default", "./default", "foo\\bar", ""] {
        assert!(!is_valid_template_name(name));
    }
}

#[test]
fn days_to_ymd_leap_day_and_year_end() {
    // 2024-02-29 is day 19782 since 1970-01-01; 1999-12-31 is day 10956.
    assert_eq!(days_to_ymd(19782), (2024, 2, 29));
    assert_eq!(days_to_ymd(10956), (1999, 12, 31));
    assert_eq!(days_to_ymd(0), (1970, 1, 1));
}

#[test]
fn backup_path_at_appends_timestamp() {
    assert_eq!(backup_path_at("/cfg/template.d/default.json", 0), "/cfg/template.d/default.json.bak.19700101T000000");
}

#[test]
fn format_timestamp_end_of_day() {
    assert_eq!(format_timestamp(86399), "19700101T235959");
}
