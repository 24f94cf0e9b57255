//! Run options and their precedence: command-line flags, then
//! `config.yaml`, then the `OPENCODE_STRICT` environment variable (for strict
//! mode only), then the default `false`.

use vstd::prelude::*;
use crate::strings::{seq_ascii_lower, seq_trim, str_eq, to_ascii_lowercase, trim, to_owned_string};

verus! {

/// The resolved run options.
#[derive(Debug, Clone, Copy, Default, PartialEq, Eq)]
pub struct RunOptions {
    pub strict: bool,
    pub env_allow: bool,
    pub env_mask_logs: bool,
}

/// The options of `config.yaml`, each possibly unset.
#[derive(Debug, Clone, Copy, Default, PartialEq, Eq)]
pub struct RunOptionsConfig {
    pub strict: Option<bool>,
    pub env_allow: Option<bool>,
    pub env_mask_logs: Option<bool>,
}

/// Why the run options could not be resolved.
#[derive(Debug)]
pub enum OptionsError {
    Read { path: String, source: std::io::Error },
    Parse { path: String, source: serde_yaml::Error },
    InvalidEnv { var: String, value: String },
}

/// The first set value.
pub open spec fn first_set(a: Option<bool>, b: Option<bool>) -> Option<bool> {
    match a {
        Some(x) => Some(x),
        None => b,
    }
}

/// Unset means `false`.
pub open spec fn or_false(a: Option<bool>) -> bool {
    match a {
        Some(x) => x,
        None => false,
    }
}

/// The value of a setting from `config.yaml`, when the file exists.
pub open spec fn config_value(c: Option<RunOptionsConfig>, f: spec_fn(RunOptionsConfig) -> Option<bool>) -> Option<bool> {
    match c {
        Some(cfg) => f(cfg),
        None => None,
    }
}

/// The options resolved by precedence.
pub open spec fn resolve_spec(
    cli_strict: Option<bool>,
    cli_env_allow: Option<bool>,
    cli_env_mask_logs: Option<bool>,
    config: Option<RunOptionsConfig>,
    env_strict: Option<bool>,
) -> RunOptions {
    RunOptions {
        strict: or_false(
            first_set(first_set(cli_strict, config_value(config, |c: RunOptionsConfig| c.strict)), env_strict),
        ),
        env_allow: or_false(first_set(cli_env_allow, config_value(config, |c: RunOptionsConfig| c.env_allow))),
        env_mask_logs: or_false(
            first_set(cli_env_mask_logs, config_value(config, |c: RunOptionsConfig| c.env_mask_logs)),
        ),
    }
}

/// Options being resolved, stage by stage.
pub struct RunOptionsBuilder {
    pub strict: Option<bool>,
    pub env_allow: Option<bool>,
    pub env_mask_logs: Option<bool>,
}

impl RunOptionsBuilder {
    /// Nothing set.
    pub fn new() -> (r: Self)
        ensures
            r.strict is None && r.env_allow is None && r.env_mask_logs is None,
    {
        RunOptionsBuilder { strict: None, env_allow: None, env_mask_logs: None }
    }

    /// The command-line flags.
    pub fn apply_cli(self, strict: Option<bool>, env_allow: Option<bool>, env_mask_logs: Option<bool>) -> (r: Self)
        ensures
            r.strict == strict && r.env_allow == env_allow && r.env_mask_logs == env_mask_logs,
    {
        RunOptionsBuilder { strict, env_allow, env_mask_logs }
    }

    /// `config.yaml`, for settings still unset.
    pub fn apply_config(self, config: Option<&RunOptionsConfig>) -> (r: Self)
        ensures
            r.strict == first_set(self.strict, match config { Some(c) => c.strict, None => None }),
            r.env_allow == first_set(self.env_allow, match config { Some(c) => c.env_allow, None => None }),
            r.env_mask_logs == first_set(
                self.env_mask_logs,
                match config {
                    Some(c) => c.env_mask_logs,
                    None => None,
                },
            ),
    {
        match config {
            Some(c) => RunOptionsBuilder {
                strict: if self.strict.is_none() { c.strict } else { self.strict },
                env_allow: if self.env_allow.is_none() { c.env_allow } else { self.env_allow },
                env_mask_logs: if self.env_mask_logs.is_none() { c.env_mask_logs } else { self.env_mask_logs },
            },
            None => self,
        }
    }

    /// The environment's strict setting, when strict mode is still unset.
    pub fn apply_env(self, strict: Option<bool>) -> (r: Self)
        ensures
            r.strict == first_set(self.strict, strict),
            r.env_allow == self.env_allow && r.env_mask_logs == self.env_mask_logs,
    {
        RunOptionsBuilder {
            strict: if self.strict.is_none() { strict } else { self.strict },
            env_allow: self.env_allow,
            env_mask_logs: self.env_mask_logs,
        }
    }

    /// Where `env_allow` and `env_mask_logs` stand, still possibly unset.
    pub fn env_flag_sources(self) -> (r: (Option<bool>, Option<bool>))
        ensures
            r == (self.env_allow, self.env_mask_logs),
    {
        (self.env_allow, self.env_mask_logs)
    }

    /// Unset settings default to `false`.
    pub fn build(self) -> (r: RunOptions)
        ensures
            r.strict == or_false(self.strict),
            r.env_allow == or_false(self.env_allow),
            r.env_mask_logs == or_false(self.env_mask_logs),
    {
        RunOptions {
            strict: match self.strict { Some(b) => b, None => false },
            env_allow: match self.env_allow { Some(b) => b, None => false },
            env_mask_logs: match self.env_mask_logs { Some(b) => b, None => false },
        }
    }
}

/// Resolves the run options from the flags, the configuration file's
/// options (`None` when there is no file) and the environment's strict
/// setting.
pub fn resolve_run_options(
    cli_strict: Option<bool>,
    cli_env_allow: Option<bool>,
    cli_env_mask_logs: Option<bool>,
    config: Option<&RunOptionsConfig>,
    env_strict: Option<bool>,
) -> (r: RunOptions)
    ensures
        r == resolve_spec(
            cli_strict,
            cli_env_allow,
            cli_env_mask_logs,
            match config {
                Some(c) => Some(*c),
                None => None,
            },
            env_strict,
        ),
{
    RunOptionsBuilder::new().apply_cli(cli_strict, cli_env_allow, cli_env_mask_logs).apply_config(config).apply_env(
        env_strict,
    ).build()
}

/// Where `env_allow` and `env_mask_logs` come from: the flag, else the
/// configuration file, else unset.
pub fn resolve_env_flag_sources(
    cli_env_allow: Option<bool>,
    cli_env_mask_logs: Option<bool>,
    config: Option<&RunOptionsConfig>,
) -> (r: (Option<bool>, Option<bool>))
    ensures
        r.0 == first_set(cli_env_allow, match config { Some(c) => c.env_allow, None => None }),
        r.1 == first_set(cli_env_mask_logs, match config { Some(c) => c.env_mask_logs, None => None }),
{
    RunOptionsBuilder::new().apply_cli(None, cli_env_allow, cli_env_mask_logs).apply_config(config).env_flag_sources()
}

/// The accepted spellings of true and false, after trimming and ignoring
/// ASCII case.
pub open spec fn parse_bool_spec(value: Seq<char>) -> Option<bool> {
    let v = seq_ascii_lower(seq_trim(value));
    if v == "1"@ || v == "true"@ || v == "yes"@ || v == "on"@ {
        Some(true)
    } else if v == "0"@ || v == "false"@ || v == "no"@ || v == "off"@ {
        Some(false)
    } else {
        None
    }
}

/// The name of the environment variable that sets strict mode.
pub const STRICT_ENV_VAR: &'static str = "OPENCODE_STRICT";

/// The strict setting given by the value of `OPENCODE_STRICT`: unset gives
/// `None`, a recognised spelling its value, and anything else an error that
/// names the variable and the value as given.
pub fn strict_from_env_value(value: Option<&str>) -> (r: Result<Option<bool>, OptionsError>)
    ensures
        value is None ==> r == Ok::<Option<bool>, OptionsError>(None),
        value matches Some(v) ==> match parse_bool_spec(v@) {
            Some(b) => r == Ok::<Option<bool>, OptionsError>(Some(b)),
            None => r matches Err(OptionsError::InvalidEnv { var, value: got }) && var@
                == STRICT_ENV_VAR@ && got@ == v@,
        },
{
    match value {
        None => Ok(None),
        Some(v) => {
            let t = trim(v);
            let n = to_ascii_lowercase(t.as_str());
            let s = n.as_str();
            if str_eq(s, "1") || str_eq(s, "true") || str_eq(s, "yes") || str_eq(s, "on") {
                Ok(Some(true))
            } else if str_eq(s, "0") || str_eq(s, "false") || str_eq(s, "no") || str_eq(s, "off") {
                Ok(Some(false))
            } else {
                Err(OptionsError::InvalidEnv { var: to_owned_string(STRICT_ENV_VAR), value: to_owned_string(v) })
            }
        },
    }
}

/// The command-line flag wins over the configuration file, which wins over
/// the environment, which wins over the default `false`.
pub proof fn law_strict_precedence(
    cli: Option<bool>,
    config: Option<RunOptionsConfig>,
    env: Option<bool>,
    a: Option<bool>,
    m: Option<bool>,
)
    ensures
        cli matches Some(b) ==> resolve_spec(cli, a, m, config, env).strict == b,
        (cli is None && config is Some && config->0.strict is Some) ==> resolve_spec(cli, a, m, config, env).strict == config->0.strict->0,
        (cli is None && (config is None || config->0.strict is None) && env is Some) ==> resolve_spec(cli, a, m, config, env).strict == env->0,
        cli is None && (config is None || config->0.strict is None) && env is None ==> !resolve_spec(cli, a, m, config, env).strict,
{
}

/// The environment never decides `env_allow` or `env_mask_logs`.
pub proof fn law_env_only_sets_strict(
    s: Option<bool>,
    a: Option<bool>,
    m: Option<bool>,
    config: Option<RunOptionsConfig>,
    env1: Option<bool>,
    env2: Option<bool>,
)
    ensures
        resolve_spec(s, a, m, config, env1).env_allow == resolve_spec(s, a, m, config, env2).env_allow,
        resolve_spec(s, a, m, config, env1).env_mask_logs == resolve_spec(s, a, m, config, env2).env_mask_logs,
{
}

} // verus!
