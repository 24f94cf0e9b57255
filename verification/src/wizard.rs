//! The decisions of the interactive wizard.
//!
//! The wizard asks for a template and a palette, lets the user override
//! agents' models and variants, asks for placeholders that the palette does
//! not define, fills `env:` placeholders from the environment, substitutes,
//! offers the draft in an editor and writes it after confirmation. The
//! program around the library asks the questions, reads and writes files and
//! runs the editor; each answer is handed to one of the functions here,
//! which decides what follows.

use vstd::prelude::*;
use crate::config::{AgentConfig, AgentModel, ConfigError, ModelConfigs, Palette, PaletteModel, configs_wf};
use crate::env_resolve::{Allow, EnvResolver, ResolveError, resolve_spec};
use crate::json::{Json, Entries, JsonMap, JsonValue, lemma_object_view, lemma_array_view};
use crate::keyed::{KeyedMap, entries_get, entries_put, has_key, keys_sorted};
use crate::options::RunOptions;
use crate::pattern::{Hit, PLACEHOLDER_PATTERN, pattern_compiles, regex_scan};
use crate::strings::{
    seq_starts_with, seq_trim, str_eq, trim, concat, concat3, starts_with, to_owned_string,
    chars_of, string_from_chars,
};
use crate::substitute::{
    SubstituteError, scan_of, hit_key, string_pairs, subst_value_spec, substitute,
};
use crate::template::{TemplateError, valid_template_name, is_valid_template_name};

verus! {

/// Why the wizard stopped.
#[derive(Debug)]
pub enum WizardError {
    Config(ConfigError),
    Template(TemplateError),
    Substitute(SubstituteError),
    InvalidTemplateName { name: String },
    MissingPalette { name: String },
    OutputExists { path: String },
    Aborted,
    Write { path: String, source: std::io::Error },
    Serialize { source: serde_json::Error },
    EditorStart { editor: String },
    EditorFailed,
    Prompt(String),
}

/// Settings of a wizard run.
pub struct WizardOptions {
    pub template: Option<String>,
    pub palette: Option<String>,
    pub out: String,
    pub force: bool,
    pub run_options: RunOptions,
    pub config_dir: String,
}

/// An existing output is only replaced with `--force`.
pub fn check_output(out: &str, out_exists: bool, force: bool) -> (r: Result<(), WizardError>)
    ensures
        out_exists && !force ==> (r matches Err(WizardError::OutputExists { path }) && path@ == out@),
        !(out_exists && !force) ==> r is Ok,
{
    if out_exists && !force {
        Err(WizardError::OutputExists { path: to_owned_string(out) })
    } else {
        Ok(())
    }
}

/// The answer, or the default when there is one and the answer is blank.
pub open spec fn with_default(answer: Seq<char>, default: Option<Seq<char>>) -> Seq<char> {
    match default {
        Some(d) => if seq_trim(answer).len() == 0 {
            d
        } else {
            answer
        },
        None => answer,
    }
}

/// The answer to a prompt with an optional default.
pub fn prompt_with_default(answer: &str, default: Option<&String>) -> (r: String)
    ensures
        r@ == with_default(
            answer@,
            match default {
                Some(d) => Some(d@),
                None => None,
            },
        ),
{
    match default {
        Some(d) => {
            if chars_of(trim(answer).as_str()).len() == 0 {
                to_owned_string(d.as_str())
            } else {
                to_owned_string(answer)
            }
        },
        None => to_owned_string(answer),
    }
}

/// The chosen template name, or the name refused: blank, not a base name,
/// or (when templates were listed) not one of them.
pub open spec fn template_choice(answer: Seq<char>, default: Option<Seq<char>>, templates: Seq<Seq<char>>) -> Result<Seq<char>, Seq<char>> {
    let v = with_default(answer, default);
    let t = seq_trim(v);
    if t.len() == 0 {
        Err(v)
    } else if !valid_template_name(t) {
        Err(t)
    } else if templates.len() > 0 && !templates.contains(t) {
        Err(t)
    } else {
        Ok(t)
    }
}

fn listed(names: &Vec<String>, name: &str) -> (r: bool)
    ensures
        r == Seq::new(names@.len(), |i: int| names@[i]@).contains(name@),
{
    let ghost ns = Seq::new(names@.len(), |i: int| names@[i]@);
    let mut i: usize = 0;
    while i < names.len()
        invariant
            i <= names@.len(),
            ns == Seq::new(names@.len(), |i: int| names@[i]@),
            forall|j: int| 0 <= j < i ==> ns[j] != name@,
        decreases names.len() - i,
    {
        if str_eq(names[i].as_str(), name) {
            assert(ns[i as int] == name@);
            return true;
        }
        i = i + 1;
    }
    false
}

/// Decides the template from the answer to the template prompt.
pub fn select_template(answer: &str, default: Option<&String>, templates: &Vec<String>) -> (r: Result<String, WizardError>)
    ensures
        match template_choice(
            answer@,
            match default {
                Some(d) => Some(d@),
                None => None,
            },
            Seq::new(templates@.len(), |i: int| templates@[i]@),
        ) {
            Ok(t) => r matches Ok(n) && n@ == t,
            Err(name) => r matches Err(WizardError::InvalidTemplateName { name: got }) && got@ == name,
        },
{
    let v = prompt_with_default(answer, default);
    let t = trim(v.as_str());
    if chars_of(t.as_str()).len() == 0 {
        return Err(WizardError::InvalidTemplateName { name: v });
    }
    if !is_valid_template_name(t.as_str()) {
        return Err(WizardError::InvalidTemplateName { name: t });
    }
    if templates.len() > 0 && !listed(templates, t.as_str()) {
        return Err(WizardError::InvalidTemplateName { name: t });
    }
    Ok(t)
}

/// The chosen palette, or the name refused: blank or unknown.
pub open spec fn palette_choice(
    answer: Seq<char>,
    default: Option<Seq<char>>,
    configs: Seq<(Seq<char>, PaletteModel)>,
) -> Result<PaletteModel, Seq<char>> {
    let v = with_default(answer, default);
    let n = seq_trim(v);
    if n.len() == 0 {
        Err(v)
    } else {
        match entries_get(configs, n) {
            Some(p) => Ok(p),
            None => Err(n),
        }
    }
}

/// Decides the palette from the answer to the palette prompt.
pub fn select_palette(answer: &str, default: Option<&String>, configs: &ModelConfigs) -> (r: Result<Palette, WizardError>)
    requires
        configs_wf(configs@),
    ensures
        match palette_choice(
            answer@,
            match default {
                Some(d) => Some(d@),
                None => None,
            },
            configs@,
        ) {
            Ok(p) => r matches Ok(got) && got@ == p,
            Err(name) => r matches Err(WizardError::MissingPalette { name: got }) && got@ == name,
        },
{
    let v = prompt_with_default(answer, default);
    let n = trim(v.as_str());
    if chars_of(n.as_str()).len() == 0 {
        return Err(WizardError::MissingPalette { name: v });
    }
    match configs.palette(n.as_str()) {
        Some(p) => Ok(p.copy()),
        None => Err(WizardError::MissingPalette { name: n }),
    }
}

/// The names of the palette's agents, offered for overriding.
pub fn agent_names(palette: &Palette) -> (r: Vec<String>)
    ensures
        r@.len() == palette@.agents.len(),
        forall|i: int| 0 <= i < r@.len() ==> #[trigger] r@[i]@ == palette@.agents[i].0,
{
    palette.agents.keys()
}

/// The agent at a selected position; a position past the end is an error.
pub fn selected_agent(names: &Vec<String>, index: usize) -> (r: Result<String, WizardError>)
    ensures
        index < names@.len() ==> (r matches Ok(n) && n@ == names@[index as int]@),
        index >= names@.len() ==> (r matches Err(WizardError::Prompt(m)) && m@ == "invalid agent selection"@),
{
    if index < names.len() {
        Ok(to_owned_string(names[index].as_str()))
    } else {
        Err(WizardError::Prompt(to_owned_string("invalid agent selection")))
    }
}

/// An agent with the model and variant answers applied: a blank model keeps
/// the model; a variant of `-` clears it, a blank one keeps it; answers are
/// trimmed.
pub open spec fn overridden(a: AgentModel, model_answer: Seq<char>, variant_answer: Seq<char>) -> AgentModel {
    let v = seq_trim(variant_answer);
    AgentModel {
        model: seq_trim(with_default(model_answer, Some(a.model))),
        variant: if v == "-"@ {
            None
        } else if v.len() == 0 {
            a.variant
        } else {
            Some(v)
        },
        reasoning: a.reasoning,
    }
}

/// The prompt for an agent's model.
pub fn model_prompt(name: &str) -> (r: String)
    ensures
        r@ == "Model for agent "@ + name@,
{
    concat("Model for agent ", name)
}

/// The prompt for an agent's variant.
pub fn variant_prompt(name: &str) -> (r: String)
    ensures
        r@ == "Variant for agent "@ + name@ + " (use '-' to clear)"@,
{
    concat3("Variant for agent ", name, " (use '-' to clear)")
}

/// Applies the answers for agent `name` to the palette.
pub fn apply_agent_override(palette: &mut Palette, name: &str, model_answer: &str, variant_answer: &str) -> (r: Result<(), WizardError>)
    requires
        keys_sorted(old(palette)@.agents),
    ensures
        keys_sorted(final(palette)@.agents),
        match entries_get(old(palette)@.agents, name@) {
            Some(a) => r is Ok && final(palette)@ == PaletteModel {
                agents: entries_put(old(palette)@.agents, name@, overridden(a, model_answer@, variant_answer@)),
                mapping: old(palette)@.mapping,
            },
            None => r matches Err(WizardError::Prompt(m)) && m@ == "missing agent"@ && final(palette)@ == old(palette)@,
        },
{
    let agent = match palette.agents.get(name) {
        Some(a) => a.copy(),
        None => {
            return Err(WizardError::Prompt(to_owned_string("missing agent")));
        },
    };
    let model_default = to_owned_string(agent.model.as_str());
    let model = prompt_with_default(model_answer, Some(&model_default));
    let v = trim(variant_answer);
    let variant = if str_eq(v.as_str(), "-") {
        None
    } else if chars_of(v.as_str()).len() == 0 {
        match &agent.variant {
            Some(x) => Some(to_owned_string(x.as_str())),
            None => None,
        }
    } else {
        Some(v)
    };
    let reasoning = match &agent.reasoning {
        Some(x) => Some(x.copy()),
        None => None,
    };
    let updated = AgentConfig { model: trim(model.as_str()), variant, reasoning };
    let ghost before = palette@;
    palette.agents.insert(to_owned_string(name), updated);
    proof {
        assert(updated@ == overridden(agent@, model_answer@, variant_answer@));
    }
    Ok(())
}

// ---------------------------------------------------------------------------
// Placeholders to ask for
// ---------------------------------------------------------------------------

/// `acc` with the keys of the placeholders in `hits` added.
pub open spec fn add_hit_keys(acc: Seq<(Seq<char>, bool)>, hits: Seq<Hit>) -> Seq<(Seq<char>, bool)>
    decreases hits.len(),
{
    if hits.len() == 0 {
        acc
    } else {
        entries_put(add_hit_keys(acc, hits.drop_last()), hit_key(hits.last()), true)
    }
}

/// `acc` with the keys of every placeholder in `v` added.
pub open spec fn collect_keys(acc: Seq<(Seq<char>, bool)>, v: Json) -> Seq<(Seq<char>, bool)>
    decreases v, 1int,
{
    match v {
        Json::Object(e) => collect_member_keys(acc, e),
        Json::Array(a) => collect_element_keys(acc, a),
        Json::Str(t) => add_hit_keys(acc, scan_of(t).1),
        _ => acc,
    }
}

pub open spec fn collect_member_keys(acc: Seq<(Seq<char>, bool)>, e: Entries) -> Seq<(Seq<char>, bool)>
    decreases e, 0int,
{
    if e.len() == 0 {
        acc
    } else {
        proof {
            assert(decreases_to!(e => e[e.len() - 1]));
        }
        collect_keys(collect_member_keys(acc, e.drop_last()), e.last().1)
    }
}

pub open spec fn collect_element_keys(acc: Seq<(Seq<char>, bool)>, a: Seq<Json>) -> Seq<(Seq<char>, bool)>
    decreases a, 0int,
{
    if a.len() == 0 {
        acc
    } else {
        proof {
            assert(decreases_to!(a => a[a.len() - 1]));
        }
        collect_keys(collect_element_keys(acc, a.drop_last()), a.last())
    }
}

fn add_text_keys(text: &str, acc: &mut KeyedMap<bool>)
    requires
        keys_sorted(old(acc)@),
        pattern_compiles(PLACEHOLDER_PATTERN@),
    ensures
        keys_sorted(final(acc)@),
        final(acc)@ == add_hit_keys(old(acc)@, scan_of(text@).1),
{
    let ghost a0 = acc@;
    let scan = match regex_scan(PLACEHOLDER_PATTERN, text) {
        Ok(s) => s,
        Err(_) => {
            proof {
                assert(false);
            }
            return;
        },
    };
    let ghost hits = scan@.1;
    let mut i: usize = 0;
    proof {
        assert(hits.subrange(0, 0) =~= Seq::<Hit>::empty());
    }
    while i < scan.hits.len()
        invariant
            i <= scan.hits@.len(),
            hits == scan@.1,
            keys_sorted(acc@),
            acc@ == add_hit_keys(a0, hits.subrange(0, i as int)),
        decreases scan.hits.len() - i,
    {
        proof {
            let next = hits.subrange(0, i + 1);
            assert(next.drop_last() =~= hits.subrange(0, i as int));
            assert(next.last() == (scan.hits@[i as int].0@, scan.hits@[i as int].1@));
        }
        acc.insert(trim(scan.hits[i].1.as_str()), true);
        i = i + 1;
    }
    proof {
        assert(hits.subrange(0, hits.len() as int) =~= hits);
    }
}

#[verifier::loop_isolation(false)]
fn collect_into(value: &JsonValue, acc: &mut KeyedMap<bool>)
    requires
        keys_sorted(old(acc)@),
        pattern_compiles(PLACEHOLDER_PATTERN@),
    ensures
        keys_sorted(final(acc)@),
        final(acc)@ == collect_keys(old(acc)@, value@),
    decreases value,
{
    let ghost a0 = acc@;
    match value {
        JsonValue::Object(obj) => {
            proof {
                lemma_object_view(obj);
            }
            let ghost e = obj@;
            let mut i: usize = 0;
            proof {
                assert(e.subrange(0, 0) =~= Seq::<(Seq<char>, Json)>::empty());
            }
            while i < obj.entries.len()
                invariant
                    i <= e.len(),
                    e == obj@,
                    pattern_compiles(PLACEHOLDER_PATTERN@),
                    keys_sorted(acc@),
                    acc@ == collect_member_keys(a0, e.subrange(0, i as int)),
                decreases obj.entries.len() - i,
            {
                proof {
                    assert(decreases_to!(value => obj.entries@[i as int].1));
                    let next = e.subrange(0, i + 1);
                    assert(next.drop_last() =~= e.subrange(0, i as int));
                    assert(next.last().1 == obj.entries@[i as int].1@);
                }
                collect_into(&obj.entries[i].1, acc);
                i = i + 1;
            }
            proof {
                assert(e.subrange(0, e.len() as int) =~= e);
            }
        },
        JsonValue::Array(items) => {
            proof {
                lemma_array_view(items);
            }
            let ghost a = items@.map_values(|x: JsonValue| x@);
            let mut i: usize = 0;
            proof {
                assert(a.subrange(0, 0) =~= Seq::<Json>::empty());
            }
            while i < items.len()
                invariant
                    i <= items@.len(),
                    a == items@.map_values(|x: JsonValue| x@),
                    pattern_compiles(PLACEHOLDER_PATTERN@),
                    keys_sorted(acc@),
                    acc@ == collect_element_keys(a0, a.subrange(0, i as int)),
                decreases items.len() - i,
            {
                proof {
                    assert(decreases_to!(value => items@[i as int]));
                    let next = a.subrange(0, i + 1);
                    assert(next.drop_last() =~= a.subrange(0, i as int));
                    assert(next.last() == items@[i as int]@);
                }
                collect_into(&items[i], acc);
                i = i + 1;
            }
            proof {
                assert(a.subrange(0, a.len() as int) =~= a);
            }
        },
        JsonValue::String(t) => {
            add_text_keys(t.as_str(), acc);
        },
        _ => {},
    }
}

/// The keys of the placeholders in `value`, sorted.
pub open spec fn placeholder_keys(value: Json) -> Seq<Seq<char>> {
    let m = collect_keys(Seq::empty(), value);
    Seq::new(m.len(), |i: int| m[i].0)
}

/// The keys of the placeholders in `value`, sorted and without repeats; an
/// error when the placeholder pattern does not compile.
pub fn collect_placeholders(value: &JsonValue) -> (r: Result<Vec<String>, WizardError>)
    ensures
        !pattern_compiles(PLACEHOLDER_PATTERN@) ==> r is Err,
        pattern_compiles(PLACEHOLDER_PATTERN@) ==> (r matches Ok(v) && Seq::new(v@.len(), |i: int| v@[i]@)
            == placeholder_keys(value@)),
{
    match crate::pattern::regex_check(PLACEHOLDER_PATTERN) {
        Err(_) => {
            return Err(WizardError::Prompt(to_owned_string("invalid placeholder pattern")));
        },
        Ok(()) => {},
    }
    let mut acc: KeyedMap<bool> = KeyedMap::new();
    collect_into(value, &mut acc);
    let keys = acc.keys();
    proof {
        assert(Seq::new(keys@.len(), |i: int| keys@[i]@) =~= placeholder_keys(value@));
    }
    Ok(keys)
}

/// The placeholders to ask the user for: those the mapping does not define,
/// other than `env:` ones.
pub open spec fn to_prompt(keys: Seq<Seq<char>>, mapping: Entries) -> Seq<Seq<char>>
    decreases keys.len(),
{
    if keys.len() == 0 {
        Seq::empty()
    } else {
        let k = keys.last();
        if has_key(mapping, k) || seq_starts_with(seq_trim(k), "env:"@) {
            to_prompt(keys.drop_last(), mapping)
        } else {
            to_prompt(keys.drop_last(), mapping).push(k)
        }
    }
}

/// The placeholders to ask the user for, in key order.
pub fn placeholders_to_prompt(keys: &Vec<String>, mapping: &JsonMap) -> (r: Vec<String>)
    requires
        keys_sorted(mapping@),
    ensures
        Seq::new(r@.len(), |i: int| r@[i]@) == to_prompt(Seq::new(keys@.len(), |i: int| keys@[i]@), mapping@),
{
    let ghost ks = Seq::new(keys@.len(), |i: int| keys@[i]@);
    let mut out: Vec<String> = Vec::new();
    let mut i: usize = 0;
    proof {
        assert(ks.subrange(0, 0) =~= Seq::<Seq<char>>::empty());
        assert(Seq::new(out@.len(), |j: int| out@[j]@) =~= Seq::<Seq<char>>::empty());
    }
    while i < keys.len()
        invariant
            i <= keys@.len(),
            ks == Seq::new(keys@.len(), |i: int| keys@[i]@),
            keys_sorted(mapping@),
            Seq::new(out@.len(), |j: int| out@[j]@) == to_prompt(ks.subrange(0, i as int), mapping@),
        decreases keys.len() - i,
    {
        let k = &keys[i];
        let ghost before = Seq::new(out@.len(), |j: int| out@[j]@);
        proof {
            let next = ks.subrange(0, i + 1);
            assert(next.drop_last() =~= ks.subrange(0, i as int));
            assert(next.last() == k@);
        }
        if !mapping.contains_key(k.as_str()) && !starts_with(trim(k.as_str()).as_str(), "env:") {
            out.push(to_owned_string(k.as_str()));
            proof {
                assert(Seq::new(out@.len(), |j: int| out@[j]@) =~= before.push(k@));
            }
        }
        i = i + 1;
    }
    proof {
        assert(ks.subrange(0, ks.len() as int) =~= ks);
    }
    out
}

/// The prompt for a placeholder's value.
pub fn placeholder_prompt(key: &str) -> (r: String)
    ensures
        r@ == "Value for placeholder "@ + key@,
{
    concat("Value for placeholder ", key)
}

/// The value given for a placeholder: nothing for a blank answer (an error
/// in strict mode), otherwise the answer parsed as JSON (`parsed`, when it
/// parses) or the answer as a string.
pub fn placeholder_answer(key: &str, answer: &str, strict: bool, parsed: Option<JsonValue>) -> (r: Result<Option<JsonValue>, WizardError>)
    ensures
        seq_trim(answer@).len() == 0 && strict ==> (r matches Err(WizardError::Prompt(m))
            && m@ == "missing value for placeholder "@ + key@ + " in strict mode"@),
        seq_trim(answer@).len() == 0 && !strict ==> r matches Ok(None),
        seq_trim(answer@).len() > 0 ==> (r matches Ok(Some(v)) && v@ == match parsed {
            Some(p) => p@,
            None => Json::Str(answer@),
        }),
{
    if chars_of(trim(answer).as_str()).len() == 0 {
        if strict {
            return Err(WizardError::Prompt(concat3("missing value for placeholder ", key, " in strict mode")));
        }
        return Ok(None);
    }
    match parsed {
        Some(p) => Ok(Some(p)),
        None => Ok(Some(JsonValue::String(to_owned_string(answer)))),
    }
}

/// `env:` placeholder keys paired with themselves: the entries the
/// environment resolves.
pub open spec fn env_entries(keys: Seq<Seq<char>>) -> Seq<(Seq<char>, Seq<char>)>
    decreases keys.len(),
{
    if keys.len() == 0 {
        Seq::empty()
    } else if seq_starts_with(keys.last(), "env:"@) {
        env_entries(keys.drop_last()).push((keys.last(), keys.last()))
    } else {
        env_entries(keys.drop_last())
    }
}

/// The values of the `env:` placeholders among `keys`, read from the
/// environment when `--env-allow` is on (nothing otherwise); in strict mode
/// an unset variable is an error naming its placeholder.
pub fn resolve_env_placeholders(
    keys: &Vec<String>,
    run_options: RunOptions,
    env: &Vec<(String, String)>,
) -> (r: Result<Vec<(String, String)>, WizardError>)
    ensures
        !run_options.env_allow ==> (r matches Ok(v) && v@.len() == 0),
        run_options.env_allow ==> match resolve_spec(
            Allow::All,
            run_options.strict,
            env_entries(Seq::new(keys@.len(), |i: int| keys@[i]@)),
            string_pairs(env@),
        ) {
            Ok(x) => r matches Ok(v) && string_pairs(v@) == x,
            Err(var) => r matches Err(WizardError::Substitute(SubstituteError::MissingPlaceholder { key }))
                && key@ == "env:"@ + var,
        },
{
    if !run_options.env_allow {
        return Ok(Vec::new());
    }
    let ghost ks = Seq::new(keys@.len(), |i: int| keys@[i]@);
    let mut entries: Vec<(String, String)> = Vec::new();
    let mut i: usize = 0;
    proof {
        assert(ks.subrange(0, 0) =~= Seq::<Seq<char>>::empty());
        assert(string_pairs(entries@) =~= Seq::<(Seq<char>, Seq<char>)>::empty());
    }
    while i < keys.len()
        invariant
            i <= keys@.len(),
            ks == Seq::new(keys@.len(), |i: int| keys@[i]@),
            string_pairs(entries@) == env_entries(ks.subrange(0, i as int)),
        decreases keys.len() - i,
    {
        let k = &keys[i];
        let ghost before = string_pairs(entries@);
        proof {
            let next = ks.subrange(0, i + 1);
            assert(next.drop_last() =~= ks.subrange(0, i as int));
            assert(next.last() == k@);
        }
        if starts_with(k.as_str(), "env:") {
            entries.push((to_owned_string(k.as_str()), to_owned_string(k.as_str())));
            proof {
                assert(string_pairs(entries@) =~= before.push((k@, k@)));
            }
        }
        i = i + 1;
    }
    proof {
        assert(ks.subrange(0, ks.len() as int) =~= ks);
    }
    let resolver = EnvResolver::new(Allow::All, run_options.strict);
    match resolver.resolve(&entries, env) {
        Ok(v) => Ok(v),
        Err(ResolveError::MissingEnvVar { var }) => {
            Err(WizardError::Substitute(SubstituteError::MissingPlaceholder { key: concat("env:", var.as_str()) }))
        },
    }
}

/// Adds the resolved environment values to the mapping, as strings.
pub fn add_env_values(mapping: &mut JsonMap, values: &Vec<(String, String)>)
    requires
        keys_sorted(old(mapping)@),
    ensures
        keys_sorted(final(mapping)@),
        final(mapping)@ == crate::substitute::put_env(old(mapping)@, string_pairs(values@)),
{
    let ghost m0 = mapping@;
    let ghost vs = string_pairs(values@);
    let mut i: usize = 0;
    proof {
        assert(vs.subrange(0, 0) =~= Seq::<(Seq<char>, Seq<char>)>::empty());
    }
    while i < values.len()
        invariant
            i <= values@.len(),
            vs == string_pairs(values@),
            keys_sorted(mapping@),
            mapping@ == crate::substitute::put_env(m0, vs.subrange(0, i as int)),
        decreases values.len() - i,
    {
        proof {
            let next = vs.subrange(0, i + 1);
            assert(next.drop_last() =~= vs.subrange(0, i as int));
            assert(next.last() == (values@[i as int].0@, values@[i as int].1@));
        }
        mapping.insert(to_owned_string(values[i].0.as_str()), JsonValue::String(to_owned_string(values[i].1.as_str())));
        i = i + 1;
    }
    proof {
        assert(vs.subrange(0, vs.len() as int) =~= vs);
    }
}

/// Substitutes the placeholders of the wizard's template.
pub fn substitute_placeholders(value: &mut JsonValue, mapping: &JsonMap, strict: bool) -> (r: Result<(), WizardError>)
    requires
        keys_sorted(mapping@),
    ensures
        pattern_compiles(PLACEHOLDER_PATTERN@) ==> match subst_value_spec(mapping@, strict, old(value)@) {
            Ok(v) => r is Ok && final(value)@ == v,
            Err(f) => r matches Err(WizardError::Substitute(e)) && e@ == f,
        },
        !pattern_compiles(PLACEHOLDER_PATTERN@) ==> r is Err,
{
    match substitute(value, mapping, strict) {
        Ok(()) => Ok(()),
        Err(e) => Err(WizardError::Substitute(e)),
    }
}

/// The editor to offer: `$EDITOR` when set and not blank.
pub fn resolve_editor(editor: Option<String>) -> (r: Option<String>)
    ensures
        r == match editor {
            Some(e) => if seq_trim(e@).len() > 0 {
                Some(e)
            } else {
                None
            },
            None => None,
        },
{
    match editor {
        Some(e) => {
            if chars_of(trim(e.as_str()).as_str()).len() > 0 {
                Some(e)
            } else {
                None
            }
        },
        None => None,
    }
}

/// The final confirmation prompt.
pub fn write_prompt(out: &str) -> (r: String)
    ensures
        r@ == "Write output to "@ + out@ + "?"@,
{
    concat3("Write output to ", out, "?")
}

/// Writing goes ahead only when confirmed.
pub fn finalize(confirmed: bool) -> (r: Result<(), WizardError>)
    ensures
        confirmed ==> r is Ok,
        !confirmed ==> r matches Err(WizardError::Aborted),
{
    if confirmed {
        Ok(())
    } else {
        Err(WizardError::Aborted)
    }
}

// ---------------------------------------------------------------------------
// Editor command lines
// ---------------------------------------------------------------------------

/// Where the splitting of a command line stands.
pub struct SplitState {
    pub parts: Seq<Seq<char>>,
    pub current: Seq<char>,
    pub quote: Option<char>,
    pub escaped: bool,
}

/// One character of a command line: a backslash takes the next character
/// as it is, quotes open and close (the other quote inside is kept),
/// blanks outside quotes end a word, anything else belongs to the word.
pub open spec fn split_step(s: SplitState, c: char) -> SplitState {
    if s.escaped {
        SplitState { current: s.current.push(c), escaped: false, ..s }
    } else if c == '\\' {
        SplitState { escaped: true, ..s }
    } else if c == '\'' || c == '"' {
        if s.quote == Some(c) {
            SplitState { quote: None, ..s }
        } else if s.quote is None {
            SplitState { quote: Some(c), ..s }
        } else {
            SplitState { current: s.current.push(c), ..s }
        }
    } else if (c == ' ' || c == '\t') && s.quote is None {
        if s.current.len() > 0 {
            SplitState { parts: s.parts.push(s.current), current: Seq::empty(), ..s }
        } else {
            s
        }
    } else {
        SplitState { current: s.current.push(c), ..s }
    }
}

/// The state after the characters of `cs`.
pub open spec fn split_run(cs: Seq<char>) -> SplitState
    decreases cs.len(),
{
    if cs.len() == 0 {
        SplitState { parts: Seq::empty(), current: Seq::empty(), quote: None, escaped: false }
    } else {
        split_step(split_run(cs.drop_last()), cs.last())
    }
}

/// The words of a command line.
pub open spec fn split_spec(cs: Seq<char>) -> Seq<Seq<char>> {
    let s = split_run(cs);
    if s.current.len() > 0 {
        s.parts.push(s.current)
    } else {
        s.parts
    }
}

/// A text split at blanks (spaces and tabs), as the words finished so far
/// and the word being read.
pub open spec fn blank_split_run(cs: Seq<char>) -> (Seq<Seq<char>>, Seq<char>)
    decreases cs.len(),
{
    if cs.len() == 0 {
        (Seq::empty(), Seq::empty())
    } else {
        let (parts, current) = blank_split_run(cs.drop_last());
        let c = cs.last();
        if c == ' ' || c == '\t' {
            if current.len() > 0 {
                (parts.push(current), Seq::empty())
            } else {
                (parts, current)
            }
        } else {
            (parts, current.push(c))
        }
    }
}

/// The words of a text split at blanks, empty words dropped.
pub open spec fn blank_words(cs: Seq<char>) -> Seq<Seq<char>> {
    let (parts, current) = blank_split_run(cs);
    if current.len() > 0 {
        parts.push(current)
    } else {
        parts
    }
}

proof fn lemma_split_run_plain(cs: Seq<char>)
    requires
        forall|i: int| 0 <= i < cs.len() ==> #[trigger] cs[i] != '\'' && cs[i] != '"' && cs[i] != '\\',
    ensures
        split_run(cs) == (SplitState {
            parts: blank_split_run(cs).0,
            current: blank_split_run(cs).1,
            quote: None,
            escaped: false,
        }),
    decreases cs.len(),
{
    if cs.len() > 0 {
        let d = cs.drop_last();
        assert forall|i: int| 0 <= i < d.len() implies #[trigger] d[i] != '\'' && d[i] != '"' && d[i] != '\\' by {
            assert(d[i] == cs[i]);
        }
        lemma_split_run_plain(d);
        assert(cs.last() == cs[cs.len() - 1]);
    }
}

/// A command line without quotes or backslashes is split at blanks, as a
/// plain whitespace split would split it.
pub proof fn law_split_without_quotes(cs: Seq<char>)
    requires
        forall|i: int| 0 <= i < cs.len() ==> #[trigger] cs[i] != '\'' && cs[i] != '"' && cs[i] != '\\',
    ensures
        split_spec(cs) == blank_words(cs),
{
    lemma_split_run_plain(cs);
}

proof fn lemma_split_parts_not_empty(cs: Seq<char>)
    ensures
        forall|i: int| 0 <= i < split_run(cs).parts.len() ==> (#[trigger] split_run(cs).parts[i]).len() > 0,
    decreases cs.len(),
{
    if cs.len() > 0 {
        lemma_split_parts_not_empty(cs.drop_last());
        let s = split_run(cs.drop_last());
        let t = split_run(cs);
        assert forall|i: int| 0 <= i < t.parts.len() implies (#[trigger] t.parts[i]).len() > 0 by {
            if i < s.parts.len() {
                assert(t.parts[i] == s.parts[i]);
            }
        }
    }
}

/// No word of a split command line is empty.
pub proof fn law_split_words_not_empty(cs: Seq<char>)
    ensures
        forall|i: int| 0 <= i < split_spec(cs).len() ==> (#[trigger] split_spec(cs)[i]).len() > 0,
{
    lemma_split_parts_not_empty(cs);
    let s = split_run(cs);
    assert forall|i: int| 0 <= i < split_spec(cs).len() implies (#[trigger] split_spec(cs)[i]).len() > 0 by {
        if i < s.parts.len() {
            assert(split_spec(cs)[i] == s.parts[i]);
        }
    }
}

/// Splits an editor command line into the program and its arguments, with
/// shell-like quotes and backslash escapes.
pub fn split_command(command: &str) -> (r: Vec<String>)
    ensures
        Seq::new(r@.len(), |i: int| r@[i]@) == split_spec(command@),
{
    let cs = chars_of(command);
    let mut parts: Vec<String> = Vec::new();
    let mut current: Vec<char> = Vec::new();
    let mut quote: Option<char> = None;
    let mut escaped = false;
    let mut i: usize = 0;
    proof {
        assert(command@.subrange(0, 0) =~= Seq::<char>::empty());
        assert(Seq::new(parts@.len(), |j: int| parts@[j]@) =~= Seq::<Seq<char>>::empty());
        assert(current@ =~= Seq::<char>::empty());
    }
    while i < cs.len()
        invariant
            i <= cs@.len(),
            cs@ == command@,
            split_run(command@.subrange(0, i as int)) == (SplitState {
                parts: Seq::new(parts@.len(), |j: int| parts@[j]@),
                current: current@,
                quote,
                escaped,
            }),
        decreases cs.len() - i,
    {
        let c = cs[i];
        let ghost s0 = split_run(command@.subrange(0, i as int));
        let ghost p0 = Seq::new(parts@.len(), |j: int| parts@[j]@);
        proof {
            let next = command@.subrange(0, i + 1);
            assert(next.drop_last() =~= command@.subrange(0, i as int));
            assert(next.last() == c);
        }
        if escaped {
            current.push(c);
            escaped = false;
        } else if c == '\\' {
            escaped = true;
        } else if c == '\'' || c == '"' {
            if quote == Some(c) {
                quote = None;
            } else if quote.is_none() {
                quote = Some(c);
            } else {
                current.push(c);
            }
        } else if (c == ' ' || c == '\t') && quote.is_none() {
            if current.len() > 0 {
                parts.push(string_from_chars(current.as_slice()));
                current = Vec::new();
                proof {
                    assert(Seq::new(parts@.len(), |j: int| parts@[j]@) =~= p0.push(s0.current));
                    assert(current@ =~= Seq::<char>::empty());
                }
            }
        } else {
            current.push(c);
        }
        proof {
            assert(split_run(command@.subrange(0, i + 1)) == split_step(s0, c));
            assert(Seq::new(parts@.len(), |j: int| parts@[j]@) =~= split_step(s0, c).parts);
            assert(current@ =~= split_step(s0, c).current);
        }
        i = i + 1;
    }
    proof {
        assert(command@.subrange(0, cs@.len() as int) =~= command@);
    }
    if current.len() > 0 {
        let ghost p0 = Seq::new(parts@.len(), |j: int| parts@[j]@);
        parts.push(string_from_chars(current.as_slice()));
        proof {
            assert(Seq::new(parts@.len(), |j: int| parts@[j]@) =~= p0.push(current@));
        }
    }
    parts
}

} // verus!
