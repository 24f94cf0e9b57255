//! Rendering a template with a palette: the palette is selected, model
//! aliases are resolved, the mapping is built and placeholders are
//! substituted.

use vstd::prelude::*;
use crate::config::{ConfigError, ModelConfigs, Palette, PaletteModel, configs_wf, palette_wf};
use crate::json::{Entries, Json, JsonMap, JsonValue};
use crate::keyed::{entries_get, lemma_key_index_found, key_index};
use crate::pattern::{PLACEHOLDER_PATTERN, pattern_compiles};
use crate::strings::{chars_of, concat, to_owned_string};
use crate::substitute::{SubstFailure, SubstituteError, env_merged, merge_env, string_pairs, subst_value_spec, substitute};
use crate::keyed::keys_sorted;
use crate::template::{TemplateError, alias_spec, apply_alias_models, build_mapping, mapping_of};

verus! {

/// Output text format.
#[derive(Debug, Copy, Clone, Eq, PartialEq, Structural)]
pub enum OutputFormat {
    Json,
    Yaml,
}

/// Settings of a rendering.
pub struct RenderOptions {
    pub template: String,
    pub palette: String,
    pub format: OutputFormat,
    pub strict: bool,
    pub env_allow: bool,
    pub env_mask_logs: bool,
    pub config_dir: String,
}

/// Rendered text and its number of lines.
pub struct RenderOutput {
    pub data: String,
    pub lines: usize,
}

/// Why a rendering failed.
#[derive(Debug)]
pub enum RenderError {
    Config(ConfigError),
    Template(TemplateError),
    Substitute(SubstituteError),
    InvalidTemplateName { name: String },
    MissingPalette { name: String },
    SerializeJson { source: serde_json::Error },
    SerializeYaml { source: serde_yaml::Error },
}

/// The entries that `{{env:VAR}}` placeholders resolve to: each variable
/// `VAR` of the environment under the key `env:VAR`.
pub open spec fn env_placeholder_pairs(env: Seq<(Seq<char>, Seq<char>)>) -> Seq<(Seq<char>, Seq<char>)> {
    Seq::new(env.len(), |i: int| ("env:"@ + env[i].0, env[i].1))
}

/// The environment's variables as `env:` entries.
pub fn env_placeholder_entries(env: &Vec<(String, String)>) -> (r: Vec<(String, String)>)
    ensures
        string_pairs(r@) == env_placeholder_pairs(string_pairs(env@)),
{
    let mut r: Vec<(String, String)> = Vec::new();
    let mut i: usize = 0;
    while i < env.len()
        invariant
            i <= env.len(),
            r@.len() == i,
            forall|k: int| 0 <= k < i ==> (#[trigger] r@[k]).0@ == "env:"@ + env@[k].0@ && r@[k].1@ == env@[k].1@,
        decreases env.len() - i,
    {
        r.push((concat("env:", env[i].0.as_str()), env[i].1.clone()));
        i = i + 1;
    }
    proof {
        assert(string_pairs(r@) =~= env_placeholder_pairs(string_pairs(env@)));
    }
    r
}

/// The mapping placeholders are substituted with: the palette's, and when
/// environment values are given (`--env-allow`), also their `env:` entries;
/// the palette's own keys take precedence.
pub open spec fn render_mapping(p: PaletteModel, env: Option<Seq<(Seq<char>, Seq<char>)>>) -> Entries {
    match env {
        Some(e) => env_merged(mapping_of(p), env_placeholder_pairs(e)),
        None => mapping_of(p),
    }
}

/// The environment values a rendering uses: those given, when `--env-allow`
/// is on.
pub open spec fn env_used(env_allow: bool, env: Seq<(String, String)>) -> Option<Seq<(Seq<char>, Seq<char>)>> {
    if env_allow {
        Some(string_pairs(env))
    } else {
        None
    }
}

/// The palette's mapping, with the environment's `env:` entries when
/// `env_allow` is on.
pub fn build_render_mapping(palette: &Palette, env_allow: bool, env: &Vec<(String, String)>) -> (r: JsonMap)
    ensures
        r@ == render_mapping(palette@, env_used(env_allow, env@)),
        keys_sorted(r@),
{
    let mapping = build_mapping(palette);
    if env_allow {
        let entries = env_placeholder_entries(env);
        merge_env(&mapping, &entries)
    } else {
        mapping
    }
}

/// The rendering of a loaded template with a palette: aliases resolved,
/// then placeholders substituted with the mapping.
pub open spec fn render_value_spec(
    p: PaletteModel,
    template: Json,
    strict: bool,
    env: Option<Seq<(Seq<char>, Seq<char>)>>,
) -> Result<Json, SubstFailure> {
    if !pattern_compiles(PLACEHOLDER_PATTERN@) {
        Err(SubstFailure::Regex)
    } else {
        subst_value_spec(render_mapping(p, env), strict, alias_spec(template, p))
    }
}

/// Resolves aliases and substitutes placeholders in a loaded template, with
/// the environment's values for `{{env:VAR}}` when `env_allow` is on.
pub fn render_value(
    palette: &Palette,
    template: JsonValue,
    strict: bool,
    env_allow: bool,
    env: &Vec<(String, String)>,
) -> (r: Result<JsonValue, SubstituteError>)
    requires
        template@.wf(),
        palette_wf(palette@),
    ensures
        match render_value_spec(palette@, template@, strict, env_used(env_allow, env@)) {
            Ok(v) => r matches Ok(x) && x@ == v,
            Err(f) => r matches Err(e) && e@ == f,
        },
{
    let mut value = template;
    apply_alias_models(&mut value, palette);
    let mapping = build_render_mapping(palette, env_allow, env);
    match substitute(&mut value, &mapping, strict) {
        Ok(()) => Ok(value),
        Err(e) => Err(e),
    }
}

/// Number of lines of a text, as `str::lines` counts them: a final line
/// break does not start another line.
pub open spec fn line_count(s: Seq<char>) -> nat
    decreases s.len(),
{
    if s.len() == 0 {
        0
    } else {
        let prev = line_count(s.drop_last());
        if s.drop_last().len() == 0 || s.drop_last().last() == '\n' {
            prev + 1
        } else {
            prev
        }
    }
}

/// Counts the lines of `s`.
pub fn count_lines(s: &str) -> (r: usize)
    ensures
        r == line_count(s@),
{
    let cs = chars_of(s);
    let mut n: usize = 0;
    let mut i: usize = 0;
    while i < cs.len()
        invariant
            i <= cs.len(),
            cs@ == s@,
            n == line_count(cs@.subrange(0, i as int)),
            n <= i,
        decreases cs.len() - i,
    {
        proof {
            let next = cs@.subrange(0, i + 1);
            assert(next.drop_last() =~= cs@.subrange(0, i as int));
        }
        if i == 0 || cs[i - 1] == '\n' {
            n = n + 1;
        }
        i = i + 1;
    }
    proof {
        assert(cs@.subrange(0, cs@.len() as int) =~= cs@);
    }
    n
}

impl RenderOutput {
    /// The output for rendered text.
    pub fn new(data: String) -> (r: Self)
        ensures
            r.data@ == data@,
            r.lines == line_count(data@),
    {
        let lines = count_lines(data.as_str());
        RenderOutput { data, lines }
    }
}

/// The model of a rendering's failure.
pub enum RenderFailure {
    Config,
    Template,
    Substitute(SubstFailure),
    InvalidTemplateName(Seq<char>),
    MissingPalette(Seq<char>),
    Serialize,
}

/// The model of a rendering error.
pub open spec fn render_failure(e: RenderError) -> RenderFailure {
    match e {
        RenderError::Config(_) => RenderFailure::Config,
        RenderError::Template(_) => RenderFailure::Template,
        RenderError::Substitute(s) => RenderFailure::Substitute(s@),
        RenderError::InvalidTemplateName { name } => RenderFailure::InvalidTemplateName(name@),
        RenderError::MissingPalette { name } => RenderFailure::MissingPalette(name@),
        _ => RenderFailure::Serialize,
    }
}

/// The rendering, step by step: configurations, palette, template name,
/// template, then substitution.
pub open spec fn render_spec(
    template_name: Seq<char>,
    palette_name: Seq<char>,
    strict: bool,
    configs: Result<Seq<(Seq<char>, PaletteModel)>, ()>,
    loaded: Result<Json, ()>,
    env: Option<Seq<(Seq<char>, Seq<char>)>>,
) -> Result<Json, RenderFailure> {
    match configs {
        Err(_) => Err(RenderFailure::Config),
        Ok(c) => match entries_get(c, palette_name) {
            None => Err(RenderFailure::MissingPalette(palette_name)),
            Some(p) => if template_name.len() == 0 {
                Err(RenderFailure::InvalidTemplateName(template_name))
            } else {
                match loaded {
                    Err(_) => Err(RenderFailure::Template),
                    Ok(t) => match render_value_spec(p, t, strict, env) {
                        Ok(v) => Ok(v),
                        Err(f) => Err(RenderFailure::Substitute(f)),
                    },
                }
            },
        },
    }
}

/// The warnings for options that rendering does not use: it writes no
/// log, so there is nothing to mask.
pub open spec fn render_warnings_spec(env_mask_logs: bool) -> Seq<Seq<char>> {
    if env_mask_logs {
        seq!["warning: --env-mask-logs is currently a no-op"@]
    } else {
        Seq::empty()
    }
}

/// Warnings for options that rendering does not use.
pub fn render_warnings(options: &RenderOptions) -> (r: Vec<String>)
    ensures
        Seq::new(r@.len(), |i: int| r@[i]@) == render_warnings_spec(options.env_mask_logs),
{
    let mut w: Vec<String> = Vec::new();
    if options.env_mask_logs {
        w.push(to_owned_string("warning: --env-mask-logs is currently a no-op"));
    }
    proof {
        assert(Seq::new(w@.len(), |i: int| w@[i]@) =~= render_warnings_spec(options.env_mask_logs));
    }
    w
}

/// Renders a template with a palette, given the loaded configurations and
/// the loaded template (or why each failed to load), and the environment's
/// variables (used for `{{env:VAR}}` when `env_allow` is on); the result is
/// the value to serialize in the requested format.
pub fn render(
    options: &RenderOptions,
    configs: Result<ModelConfigs, ConfigError>,
    loaded: Result<JsonValue, TemplateError>,
    env: &Vec<(String, String)>,
) -> (r: Result<JsonValue, RenderError>)
    requires
        configs matches Ok(c) ==> configs_wf(c@),
        loaded matches Ok(t) ==> t@.wf(),
    ensures
        match render_spec(
            options.template@,
            options.palette@,
            options.strict,
            match configs {
                Ok(c) => Ok(c@),
                Err(_) => Err(()),
            },
            match loaded {
                Ok(t) => Ok(t@),
                Err(_) => Err(()),
            },
            env_used(options.env_allow, env@),
        ) {
            Ok(v) => r matches Ok(x) && x@ == v,
            Err(f) => r matches Err(e) && render_failure(e) == f,
        },
{
    let configs = match configs {
        Ok(c) => c,
        Err(e) => {
            return Err(RenderError::Config(e));
        },
    };
    let palette = match configs.palette(options.palette.as_str()) {
        Some(p) => p,
        None => {
            return Err(RenderError::MissingPalette { name: options.palette.clone() });
        },
    };
    proof {
        let j = key_index(configs@, options.palette@);
        lemma_key_index_found(configs@, options.palette@);
        assert(palette_wf(configs@[j].1));
    }
    if options.template.as_str().is_empty() {
        return Err(RenderError::InvalidTemplateName { name: options.template.clone() });
    }
    let template = match loaded {
        Ok(t) => t,
        Err(e) => {
            return Err(RenderError::Template(e));
        },
    };
    match render_value(palette, template, options.strict, options.env_allow, env) {
        Ok(v) => Ok(v),
        Err(e) => Err(RenderError::Substitute(e)),
    }
}

} // verus!
