//! The command line: subcommands, their arguments and the flags shared by
//! all of them. Parsing is done by the program; these are the values it
//! produces, and the rules that turn paired flags into settings.

use vstd::prelude::*;
use crate::compose::Conflict;
use crate::palette_io::{MergeStrategy, PaletteFormat as IoPaletteFormat};
use crate::render::OutputFormat;
use crate::create::CreateOptions;
use crate::options::RunOptions;
use crate::strings::to_owned_string;

verus! {

/// The parsed command line.
#[derive(Debug)]
pub struct Cli {
    pub command: Commands,
    /// `--strict[=BOOL]`.
    pub strict: Option<bool>,
    /// `--no-strict`.
    pub no_strict: bool,
    /// `--config DIR`.
    pub config: Option<String>,
    /// `--env-allow[=BOOL]`.
    pub env_allow: Option<bool>,
    /// `--no-env`.
    pub no_env: bool,
    /// `--env-mask-logs[=BOOL]`.
    pub env_mask_logs: Option<bool>,
    /// `--no-env-mask-logs`.
    pub no_env_mask_logs: bool,
    /// `--verbose`.
    pub verbose: bool,
}

/// A flag and its negation: the negation gives `false`, otherwise the flag's
/// value if given.
pub open spec fn paired_flag(value: Option<bool>, negated: bool) -> Option<bool> {
    if negated {
        Some(false)
    } else {
        value
    }
}

impl Cli {
    /// Strict mode as given on the command line.
    pub fn strict_flag(&self) -> (r: Option<bool>)
        ensures
            r == paired_flag(self.strict, self.no_strict),
    {
        if self.no_strict {
            Some(false)
        } else {
            self.strict
        }
    }

    /// Whether `env:` placeholders are allowed, as given on the command line.
    pub fn env_allow_flag(&self) -> (r: Option<bool>)
        ensures
            r == paired_flag(self.env_allow, self.no_env),
    {
        if self.no_env {
            Some(false)
        } else {
            self.env_allow
        }
    }

    /// Whether environment values are masked in logs, as given on the
    /// command line.
    pub fn env_mask_logs_flag(&self) -> (r: Option<bool>)
        ensures
            r == paired_flag(self.env_mask_logs, self.no_env_mask_logs),
    {
        if self.no_env_mask_logs {
            Some(false)
        } else {
            self.env_mask_logs
        }
    }
}

/// The subcommands.
#[derive(Debug)]
pub enum Commands {
    Create(CreateArgs),
    Switch(SwitchArgs),
    ListTemplates,
    ListPalettes,
    Completions(CompletionsArgs),
    Validate(ValidateArgs),
    Render(RenderArgs),
    Schema(SchemaArgs),
    Palette(PaletteArgs),
    Decompose(DecomposeArgs),
    Compose(ComposeArgs),
}

/// `create`: render a template with a palette into an output file.
#[derive(Debug)]
pub struct CreateArgs {
    pub template: Option<String>,
    pub palette: Option<String>,
    pub out: String,
    pub force: bool,
    pub dry_run: bool,
    pub interactive: bool,
}

/// `switch`: re-render an output with another template or palette.
#[derive(Debug)]
pub struct SwitchArgs {
    pub template: String,
    pub palette: String,
    pub out: String,
    pub dry_run: bool,
}

impl CreateArgs {
    /// The creation that `create` performs without the wizard: the template
    /// and the palette must both be given.
    pub fn create_options(&self, run_options: RunOptions, config_dir: String) -> (r: Result<CreateOptions, String>)
        ensures
            self.template is None ==> (r matches Err(m) && m@ == "template argument is required unless --interactive"@),
            self.template is Some && self.palette is None ==> (r matches Err(m)
                && m@ == "palette argument is required unless --interactive"@),
            self.template is Some && self.palette is Some ==> (r matches Ok(o) && o.template@ == self.template->0@
                && o.palette@ == self.palette->0@ && o.out@ == self.out@ && o.force == self.force
                && o.run_options == run_options && o.config_dir == config_dir),
    {
        let template = match &self.template {
            Some(t) => t.clone(),
            None => {
                return Err(to_owned_string("template argument is required unless --interactive"));
            },
        };
        let palette = match &self.palette {
            Some(p) => p.clone(),
            None => {
                return Err(to_owned_string("palette argument is required unless --interactive"));
            },
        };
        Ok(CreateOptions { template, palette, out: self.out.clone(), force: self.force, run_options, config_dir })
    }
}

impl SwitchArgs {
    /// The creation that `switch` performs: that of `create`, with the
    /// output always replaced.
    pub fn create_options(&self, run_options: RunOptions, config_dir: String) -> (r: CreateOptions)
        ensures
            r.template@ == self.template@,
            r.palette@ == self.palette@,
            r.out@ == self.out@,
            r.force,
            r.run_options == run_options,
            r.config_dir == config_dir,
    {
        CreateOptions {
            template: self.template.clone(),
            palette: self.palette.clone(),
            out: self.out.clone(),
            force: true,
            run_options,
            config_dir,
        }
    }
}

/// `completions`: write shell completion scripts.
#[derive(Debug)]
pub struct CompletionsArgs {
    pub shell: Shell,
    pub out_dir: String,
}

/// `validate`: check templates and palettes.
#[derive(Debug)]
pub struct ValidateArgs {
    pub templates: Vec<String>,
    pub palettes: Option<String>,
    pub format: ValidateFormat,
    pub schema: bool,
}

/// `render`: print or write a rendered template.
#[derive(Debug)]
pub struct RenderArgs {
    pub template: String,
    pub palette: String,
    pub out: String,
    pub format: RenderFormat,
    pub dry_run: bool,
}

/// `palette`: export or import palettes.
#[derive(Debug)]
pub struct PaletteArgs {
    pub command: PaletteCommands,
}

/// The `palette` subcommands.
#[derive(Debug)]
pub enum PaletteCommands {
    Export(PaletteExportArgs),
    Import(PaletteImportArgs),
}

/// `palette export`.
#[derive(Debug)]
pub struct PaletteExportArgs {
    pub name: String,
    pub out: String,
    pub format: PaletteFormat,
    pub force: bool,
}

/// `palette import`.
#[derive(Debug)]
pub struct PaletteImportArgs {
    pub from: String,
    pub name: Option<String>,
    pub merge: PaletteMerge,
    pub dry_run: bool,
    pub force: bool,
}

/// `schema`: JSON Schema operations.
#[derive(Debug)]
pub struct SchemaArgs {
    pub command: SchemaCommands,
}

/// The `schema` subcommands.
#[derive(Debug)]
pub enum SchemaCommands {
    Generate(SchemaGenerateArgs),
}

/// `schema generate`.
#[derive(Debug)]
pub struct SchemaGenerateArgs {
    pub palette: String,
    pub out: Option<String>,
}

/// `decompose`: split a template into per-agent fragments.
#[derive(Debug)]
pub struct DecomposeArgs {
    pub template: String,
    pub dry_run: bool,
    pub verify: bool,
    pub force: bool,
}

/// `compose`: merge fragments back into one template.
#[derive(Debug)]
pub struct ComposeArgs {
    pub input: String,
    pub out: Option<String>,
    pub dry_run: bool,
    pub backup: bool,
    pub pretty: bool,
    pub minify: bool,
    pub verify: bool,
    pub force: bool,
    pub conflict: ConflictStrategy,
}

/// Output format of `validate`.
#[derive(Debug, Clone, Copy, PartialEq, Eq, Structural)]
pub enum ValidateFormat {
    Text,
    Json,
}

/// Output format of `render`.
#[derive(Debug, Clone, Copy, PartialEq, Eq, Structural)]
pub enum RenderFormat {
    Json,
    Yaml,
}

/// File format of `palette export`.
#[derive(Debug, Clone, Copy, PartialEq, Eq, Structural)]
pub enum PaletteFormat {
    Json,
    Yaml,
}

/// How `palette import` treats an existing palette.
#[derive(Debug, Clone, Copy, PartialEq, Eq, Structural)]
pub enum PaletteMerge {
    Abort,
    Overwrite,
    Merge,
}

/// How `compose` resolves conflicting fragments.
#[derive(Debug, Clone, Copy, PartialEq, Eq, Structural)]
pub enum ConflictStrategy {
    Error,
    LastWins,
    Interactive,
}

/// Shells for completion scripts.
#[derive(Debug, Clone, Copy, PartialEq, Eq, Structural)]
pub enum Shell {
    Bash,
    Zsh,
    Fish,
    Elvish,
    PowerShell,
}

impl RenderFormat {
    /// The render output format.
    pub fn output_format(self) -> (r: OutputFormat)
        ensures
            self == RenderFormat::Json ==> r == OutputFormat::Json,
            self == RenderFormat::Yaml ==> r == OutputFormat::Yaml,
    {
        match self {
            RenderFormat::Json => OutputFormat::Json,
            RenderFormat::Yaml => OutputFormat::Yaml,
        }
    }
}

impl PaletteFormat {
    /// The export file format.
    pub fn export_format(self) -> (r: IoPaletteFormat)
        ensures
            self == PaletteFormat::Json ==> r == IoPaletteFormat::Json,
            self == PaletteFormat::Yaml ==> r == IoPaletteFormat::Yaml,
    {
        match self {
            PaletteFormat::Json => IoPaletteFormat::Json,
            PaletteFormat::Yaml => IoPaletteFormat::Yaml,
        }
    }
}

impl PaletteMerge {
    /// The import merge strategy.
    pub fn strategy(self) -> (r: MergeStrategy)
        ensures
            self == PaletteMerge::Abort ==> r == MergeStrategy::Abort,
            self == PaletteMerge::Overwrite ==> r == MergeStrategy::Overwrite,
            self == PaletteMerge::Merge ==> r == MergeStrategy::Merge,
    {
        match self {
            PaletteMerge::Abort => MergeStrategy::Abort,
            PaletteMerge::Overwrite => MergeStrategy::Overwrite,
            PaletteMerge::Merge => MergeStrategy::Merge,
        }
    }
}

impl ConflictStrategy {
    /// The compose conflict strategy.
    pub fn conflict(self) -> (r: Conflict)
        ensures
            self == ConflictStrategy::Error ==> r == Conflict::Error,
            self == ConflictStrategy::LastWins ==> r == Conflict::LastWins,
            self == ConflictStrategy::Interactive ==> r == Conflict::Interactive,
    {
        match self {
            ConflictStrategy::Error => Conflict::Error,
            ConflictStrategy::LastWins => Conflict::LastWins,
            ConflictStrategy::Interactive => Conflict::Interactive,
        }
    }
}

} // verus!
