//! Model palettes: named sets of agent configurations and extra mapping
//! entries, as read from `model-configs.yaml`.

use vstd::prelude::*;
use crate::json::{Json, Entries, JsonMap, keys_sorted, map_eq};
use crate::keyed::{KeyedMap, entries_get};
use crate::strings::str_eq;

verus! {

/// `std::io::Error`, carried as the source of file errors; opaque.
#[verifier::external_type_specification]
#[verifier::external_body]
pub struct ExIoError(std::io::Error);

/// `serde_json::Error`, carried as the source of JSON errors; opaque.
#[verifier::external_type_specification]
#[verifier::external_body]
pub struct ExJsonError(serde_json::Error);

/// `serde_yaml::Error`, carried as the source of YAML errors; opaque.
#[verifier::external_type_specification]
#[verifier::external_body]
pub struct ExYamlError(serde_yaml::Error);

/// Why the model configurations could not be loaded.
#[derive(Debug)]
pub enum ConfigError {
    MissingConfigDir,
    Read { path: String, source: std::io::Error },
    Parse { path: String, source: serde_yaml::Error },
}

/// Detailed reasoning settings of an agent.
#[derive(Debug, Clone, PartialEq, Eq)]
pub struct ReasoningCfg {
    pub effort: Option<String>,
    pub text_verbosity: Option<String>,
}

/// Reasoning settings: a switch, or detailed settings.
#[derive(Debug, Clone, PartialEq, Eq)]
pub enum Reasoning {
    Bool(bool),
    Object(ReasoningCfg),
}

/// The configuration of one agent.
#[derive(Debug, Clone, PartialEq, Eq)]
pub struct AgentConfig {
    pub model: String,
    pub variant: Option<String>,
    pub reasoning: Option<Reasoning>,
}

/// A palette: agents by name, and extra mapping entries.
#[derive(Debug, PartialEq)]
pub struct Palette {
    pub agents: KeyedMap<AgentConfig>,
    pub mapping: JsonMap,
}

/// All palettes by name.
#[derive(Debug, PartialEq)]
pub struct ModelConfigs {
    pub palettes: KeyedMap<Palette>,
}

/// Model of `ReasoningCfg`.
pub struct ReasoningCfgModel {
    pub effort: Option<Seq<char>>,
    pub text_verbosity: Option<Seq<char>>,
}

/// Model of `Reasoning`.
pub enum ReasoningModel {
    Bool(bool),
    Object(ReasoningCfgModel),
}

/// Model of `AgentConfig`.
pub struct AgentModel {
    pub model: Seq<char>,
    pub variant: Option<Seq<char>>,
    pub reasoning: Option<ReasoningModel>,
}

/// Model of `Palette`.
pub struct PaletteModel {
    pub agents: Seq<(Seq<char>, AgentModel)>,
    pub mapping: Entries,
}

/// The text of an optional string.
pub open spec fn opt_text(o: Option<String>) -> Option<Seq<char>> {
    match o {
        Some(s) => Some(s@),
        None => None,
    }
}

impl View for ReasoningCfg {
    type V = ReasoningCfgModel;

    open spec fn view(&self) -> ReasoningCfgModel {
        ReasoningCfgModel {
            effort: opt_text(self.effort),
            text_verbosity: opt_text(self.text_verbosity),
        }
    }
}

impl View for Reasoning {
    type V = ReasoningModel;

    open spec fn view(&self) -> ReasoningModel {
        match self {
            Reasoning::Bool(b) => ReasoningModel::Bool(*b),
            Reasoning::Object(c) => ReasoningModel::Object(c@),
        }
    }
}

impl View for AgentConfig {
    type V = AgentModel;

    open spec fn view(&self) -> AgentModel {
        AgentModel {
            model: self.model@,
            variant: opt_text(self.variant),
            reasoning: match self.reasoning {
                Some(r) => Some(r@),
                None => None,
            },
        }
    }
}

impl View for Palette {
    type V = PaletteModel;

    open spec fn view(&self) -> PaletteModel {
        PaletteModel { agents: self.agents@, mapping: self.mapping@ }
    }
}

impl View for ModelConfigs {
    type V = Seq<(Seq<char>, PaletteModel)>;

    open spec fn view(&self) -> Seq<(Seq<char>, PaletteModel)> {
        self.palettes@
    }
}

/// A palette whose agents and mapping keys are sorted and whose mapping
/// values are well formed.
pub open spec fn palette_wf(p: PaletteModel) -> bool {
    keys_sorted(p.agents) && Json::Object(p.mapping).wf()
}

/// Palettes sorted by name, each well formed.
pub open spec fn configs_wf(c: Seq<(Seq<char>, PaletteModel)>) -> bool {
    keys_sorted(c) && forall|i: int| 0 <= i < c.len() ==> #[trigger] palette_wf(c[i].1)
}

fn copy_opt(o: &Option<String>) -> (r: Option<String>)
    ensures
        opt_text(r) == opt_text(*o),
{
    match o {
        Some(s) => Some(s.clone()),
        None => None,
    }
}

fn opt_eq(a: &Option<String>, b: &Option<String>) -> (r: bool)
    ensures
        r == (opt_text(*a) == opt_text(*b)),
{
    match (a, b) {
        (Some(x), Some(y)) => str_eq(x.as_str(), y.as_str()),
        (None, None) => true,
        _ => false,
    }
}

impl ReasoningCfg {
    /// A copy.
    pub fn copy(&self) -> (r: ReasoningCfg)
        ensures
            r@ == self@,
    {
        ReasoningCfg { effort: copy_opt(&self.effort), text_verbosity: copy_opt(&self.text_verbosity) }
    }
}

impl Reasoning {
    /// A copy.
    pub fn copy(&self) -> (r: Reasoning)
        ensures
            r@ == self@,
    {
        match self {
            Reasoning::Bool(b) => Reasoning::Bool(*b),
            Reasoning::Object(c) => Reasoning::Object(c.copy()),
        }
    }

    /// Equal settings.
    pub fn same_as(&self, other: &Reasoning) -> (r: bool)
        ensures
            r == (self@ == other@),
    {
        match (self, other) {
            (Reasoning::Bool(a), Reasoning::Bool(b)) => *a == *b,
            (Reasoning::Object(a), Reasoning::Object(b)) => {
                opt_eq(&a.effort, &b.effort) && opt_eq(&a.text_verbosity, &b.text_verbosity)
            },
            _ => false,
        }
    }
}

impl AgentConfig {
    /// A copy.
    pub fn copy(&self) -> (r: AgentConfig)
        ensures
            r@ == self@,
    {
        AgentConfig {
            model: self.model.clone(),
            variant: copy_opt(&self.variant),
            reasoning: match &self.reasoning {
                Some(r) => Some(r.copy()),
                None => None,
            },
        }
    }

    /// Equal configurations.
    pub fn same_as(&self, other: &AgentConfig) -> (r: bool)
        ensures
            r == (self@ == other@),
    {
        let reasoning_eq = match (&self.reasoning, &other.reasoning) {
            (Some(a), Some(b)) => a.same_as(b),
            (None, None) => true,
            _ => false,
        };
        str_eq(self.model.as_str(), other.model.as_str()) && opt_eq(&self.variant, &other.variant)
            && reasoning_eq
    }
}

/// A copy of a map of agents.
pub fn copy_agents(m: &KeyedMap<AgentConfig>) -> (r: KeyedMap<AgentConfig>)
    ensures
        r@ == m@,
{
    let mut out: Vec<(String, AgentConfig)> = Vec::new();
    let mut i: usize = 0;
    while i < m.entries.len()
        invariant
            i <= m.entries.len(),
            out@.len() == i,
            forall|j: int|
                0 <= j < i ==> #[trigger] out@[j].0@ == m.entries@[j].0@ && out@[j].1@
                    == m.entries@[j].1@,
        decreases m.entries.len() - i,
    {
        out.push((m.entries[i].0.clone(), m.entries[i].1.copy()));
        i = i + 1;
    }
    let r = KeyedMap { entries: out };
    proof {
        assert(r@ =~= m@);
    }
    r
}

impl Palette {
    /// A copy.
    pub fn copy(&self) -> (r: Palette)
        ensures
            r@ == self@,
    {
        Palette { agents: copy_agents(&self.agents), mapping: self.mapping.deep_clone() }
    }
}

/// Equal maps of agents.
pub fn agents_eq(a: &KeyedMap<AgentConfig>, b: &KeyedMap<AgentConfig>) -> (r: bool)
    ensures
        r == (a@ == b@),
{
    if a.entries.len() != b.entries.len() {
        proof {
            assert(a@.len() != b@.len());
        }
        return false;
    }
    let mut i: usize = 0;
    while i < a.entries.len()
        invariant
            i <= a.entries.len(),
            a.entries.len() == b.entries.len(),
            forall|j: int| 0 <= j < i ==> #[trigger] a@[j] == b@[j],
        decreases a.entries.len() - i,
    {
        if !str_eq(a.entries[i].0.as_str(), b.entries[i].0.as_str()) || !a.entries[i].1.same_as(
            &b.entries[i].1,
        ) {
            proof {
                assert(a@[i as int] != b@[i as int]);
            }
            return false;
        }
        assert(a@[i as int] == b@[i as int]);
        i = i + 1;
    }
    proof {
        assert(a@ =~= b@);
    }
    true
}

impl Palette {
    /// Equal palettes.
    pub fn same_as(&self, other: &Palette) -> (r: bool)
        ensures
            r == (self@ == other@),
    {
        let agents = agents_eq(&self.agents, &other.agents);
        let mapping = map_eq(&self.mapping, &other.mapping);
        agents && mapping
    }
}

impl ModelConfigs {
    /// The palette named `name`.
    pub fn palette(&self, name: &str) -> (r: Option<&Palette>)
        requires
            keys_sorted(self@),
        ensures
            r matches Some(p) ==> entries_get(self@, name@) == Some(p@),
            r is None ==> entries_get(self@, name@) is None,
    {
        self.palettes.get(name)
    }
}

} // verus!
