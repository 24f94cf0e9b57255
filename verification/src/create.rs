//! Creating `opencode.json` from a template and a palette: the output is
//! only replaced with `force`, the palette must exist, the template must be
//! a plain name, and the rendered value is what gets written.

use vstd::prelude::*;
use crate::config::{ConfigError, ModelConfigs, PaletteModel, configs_wf, palette_wf};
use crate::json::{Json, JsonValue};
use crate::keyed::{entries_get, key_index, lemma_key_index_found};
use crate::options::RunOptions;
use crate::render::{render_value_spec, render_spec, render_mapping, env_used, build_render_mapping};
use crate::config::Palette;
use crate::json::JsonMap;
use crate::keyed::keys_sorted;
use crate::pattern::{PLACEHOLDER_PATTERN, pattern_compiles};
use crate::substitute::{subst_value_spec, substitute};
use crate::template::{alias_spec, apply_alias_models};
use crate::strings::to_owned_string;
use crate::substitute::{SubstFailure, SubstituteError};
use crate::template::{TemplateError, is_valid_template_name, valid_template_name};

verus! {

/// Why creating the output failed.
#[derive(Debug)]
pub enum CreateError {
    Config(ConfigError),
    Template(TemplateError),
    Substitute(SubstituteError),
    InvalidTemplateName { name: String },
    MissingPalette { name: String },
    OutputExists { path: String },
    Write { path: String, source: std::io::Error },
    Serialize { source: serde_json::Error },
}

/// Settings of a creation.
pub struct CreateOptions {
    pub template: String,
    pub palette: String,
    pub out: String,
    pub force: bool,
    pub run_options: RunOptions,
    pub config_dir: String,
}

/// The model of a creation's failure.
pub enum CreateFailure {
    Config,
    Template,
    Substitute(SubstFailure),
    InvalidTemplateName(Seq<char>),
    MissingPalette(Seq<char>),
    OutputExists(Seq<char>),
    Io,
}

/// The model of a creation error.
pub open spec fn create_failure(e: CreateError) -> CreateFailure {
    match e {
        CreateError::Config(_) => CreateFailure::Config,
        CreateError::Template(_) => CreateFailure::Template,
        CreateError::Substitute(s) => CreateFailure::Substitute(s@),
        CreateError::InvalidTemplateName { name } => CreateFailure::InvalidTemplateName(name@),
        CreateError::MissingPalette { name } => CreateFailure::MissingPalette(name@),
        CreateError::OutputExists { path } => CreateFailure::OutputExists(path@),
        _ => CreateFailure::Io,
    }
}

/// The creation, step by step: the output may not exist without `force`,
/// then the configurations, the palette, the template name, the template,
/// and substitution.
pub open spec fn create_spec(
    o: CreateOptions,
    out_exists: bool,
    configs: Result<Seq<(Seq<char>, PaletteModel)>, ()>,
    loaded: Result<Json, ()>,
    env: Option<Seq<(Seq<char>, Seq<char>)>>,
) -> Result<Json, CreateFailure> {
    if out_exists && !o.force {
        Err(CreateFailure::OutputExists(o.out@))
    } else {
        match configs {
            Err(_) => Err(CreateFailure::Config),
            Ok(c) => match entries_get(c, o.palette@) {
                None => Err(CreateFailure::MissingPalette(o.palette@)),
                Some(p) => if !valid_template_name(o.template@) {
                    Err(CreateFailure::InvalidTemplateName(o.template@))
                } else {
                    match loaded {
                        Err(_) => Err(CreateFailure::Template),
                        Ok(t) => match render_value_spec(p, t, o.run_options.strict, env) {
                            Ok(v) => Ok(v),
                            Err(f) => Err(CreateFailure::Substitute(f)),
                        },
                    }
                },
            },
        }
    }
}

/// What `create` writes is what `render` shows: for a template given by a
/// plain name and an output that may be written, both give the same value
/// from the same palettes and template, and one fails exactly when the
/// other does.
pub proof fn law_create_writes_what_render_shows(
    o: CreateOptions,
    out_exists: bool,
    configs: Result<Seq<(Seq<char>, PaletteModel)>, ()>,
    loaded: Result<Json, ()>,
    env: Option<Seq<(Seq<char>, Seq<char>)>>,
)
    requires
        valid_template_name(o.template@),
        !(out_exists && !o.force),
    ensures
        match render_spec(o.template@, o.palette@, o.run_options.strict, configs, loaded, env) {
            Ok(v) => create_spec(o, out_exists, configs, loaded, env) == Ok::<Json, CreateFailure>(v),
            Err(_) => create_spec(o, out_exists, configs, loaded, env) is Err,
        },
{
}

/// The warnings for options that creation does not use: it writes no log,
/// so there is nothing to mask.
pub open spec fn create_warnings_spec(env_mask_logs: bool) -> Seq<Seq<char>> {
    if env_mask_logs {
        seq!["warning: --env-mask-logs is currently unsupported for create/switch"@]
    } else {
        Seq::empty()
    }
}

/// The first state of a creation: nothing chosen yet.
pub struct Start;

/// The palette has been chosen.
pub struct PaletteSelected {
    pub palette: Palette,
}

/// The template has been loaded.
pub struct TemplateLoaded {
    pub palette: Palette,
    pub template_value: JsonValue,
}

/// The model aliases of the template's agents have been resolved.
pub struct AliasesApplied {
    pub palette: Palette,
    pub template_value: JsonValue,
}

/// The palette's placeholder mapping has been built.
pub struct MappingBuilt {
    pub template_value: JsonValue,
    pub mapping: JsonMap,
}

/// The placeholders have been substituted: the value to write.
pub struct FinalReady {
    pub template_value: JsonValue,
}

/// Creates the output step by step; the state holds what the steps so far
/// produced, so the steps can only be taken in order.
pub struct CreateBuilder<State> {
    pub options: CreateOptions,
    pub state: State,
}

impl CreateBuilder<Start> {
    pub fn new(options: CreateOptions) -> (r: Self)
        ensures
            r.options == options,
    {
        CreateBuilder { options, state: Start }
    }

    /// The created value, from whether the output exists, the loaded
    /// configurations and the loaded template (or why each failed): the
    /// steps below, in order.
    pub fn run(
        self,
        out_exists: bool,
        configs: Result<ModelConfigs, ConfigError>,
        loaded: Result<JsonValue, TemplateError>,
        env: &Vec<(String, String)>,
    ) -> (r: Result<JsonValue, CreateError>)
        requires
            configs matches Ok(c) ==> configs_wf(c@),
            loaded matches Ok(t) ==> t@.wf(),
        ensures
            match create_spec(
                self.options,
                out_exists,
                match configs {
                    Ok(c) => Ok(c@),
                    Err(_) => Err(()),
                },
                match loaded {
                    Ok(t) => Ok(t@),
                    Err(_) => Err(()),
                },
                env_used(self.options.run_options.env_allow, env@),
            ) {
                Ok(v) => r matches Ok(x) && x@ == v,
                Err(f) => r matches Err(e) && create_failure(e) == f,
            },
    {
        let builder = self.ensure_output(out_exists)?;
        let builder = builder.select_palette(configs)?;
        let builder = builder.load_template(loaded)?;
        let builder = builder.apply_aliases()?;
        let builder = builder.build_mapping(env)?;
        let builder = builder.substitute_placeholders()?;
        let (_out, value) = builder.write_output();
        Ok(value)
    }

    /// The warnings for options that creation does not use.
    pub fn warn_env_flags(&self) -> (r: Vec<String>)
        ensures
            Seq::new(r@.len(), |i: int| r@[i]@) == create_warnings_spec(self.options.run_options.env_mask_logs),
    {
        let mut w: Vec<String> = Vec::new();
        if self.options.run_options.env_mask_logs {
            w.push(to_owned_string("warning: --env-mask-logs is currently unsupported for create/switch"));
        }
        proof {
            assert(Seq::new(w@.len(), |i: int| w@[i]@) =~= create_warnings_spec(
                self.options.run_options.env_mask_logs,
            ));
        }
        w
    }

    /// An existing output is only replaced with `force`.
    pub fn ensure_output(self, out_exists: bool) -> (r: Result<Self, CreateError>)
        ensures
            out_exists && !self.options.force ==> (r matches Err(CreateError::OutputExists { path })
                && path@ == self.options.out@),
            !(out_exists && !self.options.force) ==> (r matches Ok(b) && b.options == self.options),
    {
        if out_exists && !self.options.force {
            return Err(CreateError::OutputExists { path: self.options.out.clone() });
        }
        Ok(self)
    }

    /// Chooses the palette named in the options from the loaded
    /// configurations.
    pub fn select_palette(self, configs: Result<ModelConfigs, ConfigError>) -> (r: Result<
        CreateBuilder<PaletteSelected>,
        CreateError,
    >)
        requires
            configs matches Ok(c) ==> configs_wf(c@),
        ensures
            match configs {
                Err(_) => r matches Err(CreateError::Config(_)),
                Ok(c) => match entries_get(c@, self.options.palette@) {
                    None => r matches Err(CreateError::MissingPalette { name }) && name@ == self.options.palette@,
                    Some(p) => r matches Ok(b) && b.options == self.options && b.state.palette@ == p
                        && palette_wf(p),
                },
            },
    {
        let configs = match configs {
            Ok(c) => c,
            Err(e) => {
                return Err(CreateError::Config(e));
            },
        };
        let palette = match configs.palette(self.options.palette.as_str()) {
            Some(p) => p.copy(),
            None => {
                return Err(CreateError::MissingPalette { name: self.options.palette.clone() });
            },
        };
        proof {
            let j = key_index(configs@, self.options.palette@);
            lemma_key_index_found(configs@, self.options.palette@);
            assert(palette_wf(configs@[j].1));
        }
        Ok(CreateBuilder { options: self.options, state: PaletteSelected { palette } })
    }
}

impl CreateBuilder<PaletteSelected> {
    /// Takes the loaded template (or why loading failed) once the template
    /// name is known to be a plain name.
    pub fn load_template(self, loaded: Result<JsonValue, TemplateError>) -> (r: Result<
        CreateBuilder<TemplateLoaded>,
        CreateError,
    >)
        requires
            loaded matches Ok(t) ==> t@.wf(),
        ensures
            !valid_template_name(self.options.template@) ==> (r matches Err(
                CreateError::InvalidTemplateName { name },
            ) && name@ == self.options.template@),
            valid_template_name(self.options.template@) ==> match loaded {
                Err(_) => r matches Err(CreateError::Template(_)),
                Ok(t) => r matches Ok(b) && b.options == self.options && b.state.palette == self.state.palette
                    && b.state.template_value@ == t@,
            },
    {
        if !is_valid_template_name(self.options.template.as_str()) {
            return Err(CreateError::InvalidTemplateName { name: self.options.template.clone() });
        }
        let template_value = match loaded {
            Ok(t) => t,
            Err(e) => {
                return Err(CreateError::Template(e));
            },
        };
        Ok(CreateBuilder {
            options: self.options,
            state: TemplateLoaded { palette: self.state.palette, template_value },
        })
    }
}

impl CreateBuilder<TemplateLoaded> {
    /// Resolves the model aliases of the template's agents with the palette.
    pub fn apply_aliases(self) -> (r: Result<CreateBuilder<AliasesApplied>, CreateError>)
        requires
            self.state.template_value@.wf(),
            palette_wf(self.state.palette@),
        ensures
            r matches Ok(b) && b.options == self.options && b.state.palette == self.state.palette
                && b.state.template_value@ == alias_spec(self.state.template_value@, self.state.palette@),
    {
        let CreateBuilder { options, state } = self;
        let TemplateLoaded { palette, template_value } = state;
        let mut template_value = template_value;
        apply_alias_models(&mut template_value, &palette);
        Ok(CreateBuilder { options, state: AliasesApplied { palette, template_value } })
    }
}

impl CreateBuilder<AliasesApplied> {
    /// Builds the palette's placeholder mapping, with the environment's
    /// variables as `env:` entries when `--env-allow` is on.
    pub fn build_mapping(self, env: &Vec<(String, String)>) -> (r: Result<CreateBuilder<MappingBuilt>, CreateError>)
        ensures
            r matches Ok(b) && b.options == self.options && b.state.template_value == self.state.template_value
                && b.state.mapping@ == render_mapping(
                self.state.palette@,
                env_used(self.options.run_options.env_allow, env@),
            ) && keys_sorted(b.state.mapping@),
    {
        let CreateBuilder { options, state } = self;
        let AliasesApplied { palette, template_value } = state;
        let mapping = build_render_mapping(&palette, options.run_options.env_allow, env);
        Ok(CreateBuilder { options, state: MappingBuilt { template_value, mapping } })
    }
}

impl CreateBuilder<MappingBuilt> {
    /// Substitutes the placeholders of the template with the mapping, in
    /// strict mode when the options ask for it.
    pub fn substitute_placeholders(self) -> (r: Result<CreateBuilder<FinalReady>, CreateError>)
        requires
            keys_sorted(self.state.mapping@),
        ensures
            !pattern_compiles(PLACEHOLDER_PATTERN@) ==> (r matches Err(CreateError::Substitute(e))
                && e@ == SubstFailure::Regex),
            pattern_compiles(PLACEHOLDER_PATTERN@) ==> match subst_value_spec(
                self.state.mapping@,
                self.options.run_options.strict,
                self.state.template_value@,
            ) {
                Ok(v) => r matches Ok(b) && b.options == self.options && b.state.template_value@ == v,
                Err(f) => r matches Err(CreateError::Substitute(e)) && e@ == f,
            },
    {
        let CreateBuilder { options, state } = self;
        let MappingBuilt { template_value, mapping } = state;
        let mut template_value = template_value;
        match substitute(&mut template_value, &mapping, options.run_options.strict) {
            Ok(()) => Ok(CreateBuilder { options, state: FinalReady { template_value } }),
            Err(e) => Err(CreateError::Substitute(e)),
        }
    }
}

impl CreateBuilder<FinalReady> {
    /// Where to write and what: the output path and the final value.
    pub fn write_output(self) -> (r: (String, JsonValue))
        ensures
            r.0@ == self.options.out@,
            r.1 == self.state.template_value,
    {
        (self.options.out, self.state.template_value)
    }
}

/// Creates the output value; see `CreateBuilder::run`.
pub fn run(
    options: CreateOptions,
    out_exists: bool,
    configs: Result<ModelConfigs, ConfigError>,
    loaded: Result<JsonValue, TemplateError>,
    env: &Vec<(String, String)>,
) -> (r: Result<JsonValue, CreateError>)
    requires
        configs matches Ok(c) ==> configs_wf(c@),
        loaded matches Ok(t) ==> t@.wf(),
    ensures
        match create_spec(
            options,
            out_exists,
            match configs {
                Ok(c) => Ok(c@),
                Err(_) => Err(()),
            },
            match loaded {
                Ok(t) => Ok(t@),
                Err(_) => Err(()),
            },
            env_used(options.run_options.env_allow, env@),
        ) {
            Ok(v) => r matches Ok(x) && x@ == v,
            Err(f) => r matches Err(e) && create_failure(e) == f,
        },
{
    CreateBuilder::new(options).run(out_exists, configs, loaded, env)
}

} // verus!
